//! Fixed-point scalars.
//!
//! Every length, coordinate and instant in this crate is an integer count of
//! millionths: a coordinate of `1_000_000` is one world unit, a time of
//! `1_000_000` is one second. Products are formed in 128 bits, so nothing the
//! solver computes can overflow inside the stated limits.

use vstd::prelude::*;

verus! {

/// Raw steps in one world unit (and in one second).
pub const UNIT: i64 = 1_000_000;

/// Guard below which two keys count as the same key: a ten-thousandth of a unit.
pub const EPSILON: i64 = 100;

/// Largest magnitude of a coordinate: a million units either way.
pub const COORD_MAX: i64 = 1_000_000_000_000;

/// Largest magnitude of a key: an instant or an arc length.
pub const KEY_MAX: i64 = 1_000_000_000_000_000_000;

/// No two points of the world are farther apart in the plane than this.
pub const REACH_MAX: i64 = 3_000_000_000_000;

/// The value is a coordinate inside the world.
pub open spec fn in_coord(a: int) -> bool {
    -COORD_MAX <= a <= COORD_MAX
}

/// The value is an instant or an arc length that a chain can hold.
pub open spec fn in_key(a: int) -> bool {
    -KEY_MAX <= a <= KEY_MAX
}

/// The lesser of two numbers.
pub open spec fn spec_min(a: int, b: int) -> int {
    if a <= b { a } else { b }
}

/// The greater of two numbers.
pub open spec fn spec_max(a: int, b: int) -> int {
    if a >= b { a } else { b }
}

/// The number of `lo..=hi` nearest to `a`.
pub open spec fn spec_clamp(a: int, lo: int, hi: int) -> int {
    if a < lo { lo } else if a > hi { hi } else { a }
}

/// `a` scaled by the ratio `num / den`, rounded toward minus infinity.
pub open spec fn scale(a: int, num: int, den: int) -> int {
    (a * num) / den
}

/// `r` is the integer square root of `n`.
pub open spec fn is_sqrt(n: int, r: int) -> bool {
    0 <= r && r * r <= n < (r + 1) * (r + 1)
}

/// The integer square root: the largest `r` with `r * r <= n`.
pub open spec fn sqrt_floor(n: int) -> int {
    choose|r: int| is_sqrt(n, r)
}

/// A number has at most one integer square root.
pub proof fn lemma_sqrt_unique(n: int, r1: int, r2: int)
    requires
        is_sqrt(n, r1),
        is_sqrt(n, r2),
    ensures
        r1 == r2,
{
    if r1 < r2 {
        assert((r1 + 1) * (r1 + 1) <= r2 * r2) by (nonlinear_arith)
            requires 0 <= r1, r1 + 1 <= r2;
    } else if r2 < r1 {
        assert((r2 + 1) * (r2 + 1) <= r1 * r1) by (nonlinear_arith)
            requires 0 <= r2, r2 + 1 <= r1;
    }
}

/// Every natural number has an integer square root.
pub proof fn lemma_sqrt_exists(n: int)
    requires
        0 <= n,
    ensures
        is_sqrt(n, sqrt_floor(n)),
    decreases n,
{
    if n == 0 {
        assert(is_sqrt(0, 0));
    } else {
        lemma_sqrt_exists(n - 1);
        let r = sqrt_floor(n - 1);
        if (r + 1) * (r + 1) <= n {
            assert((r + 1) * (r + 1) == n);
            assert(n < (r + 2) * (r + 2)) by (nonlinear_arith)
                requires 0 <= r, (r + 1) * (r + 1) == n;
            assert(is_sqrt(n, r + 1));
        } else {
            assert(is_sqrt(n, r));
        }
    }
}

/// A number that meets the definition is the integer square root.
pub proof fn lemma_sqrt_is(n: int, r: int)
    requires
        is_sqrt(n, r),
    ensures
        sqrt_floor(n) == r,
{
    lemma_sqrt_unique(n, r, sqrt_floor(n));
}

/// The square root does not decrease when its argument grows.
pub proof fn lemma_sqrt_monotonic(a: int, b: int)
    requires
        0 <= a <= b,
    ensures
        sqrt_floor(a) <= sqrt_floor(b),
{
    lemma_sqrt_exists(a);
    lemma_sqrt_exists(b);
    let ra = sqrt_floor(a);
    let rb = sqrt_floor(b);
    if rb < ra {
        assert((rb + 1) * (rb + 1) <= ra * ra) by (nonlinear_arith)
            requires 0 <= rb, rb + 1 <= ra;
    }
}

/// A ratio between zero and one keeps a value between zero and itself.
pub proof fn lemma_scale_within(a: int, num: int, den: int)
    requires
        0 <= num <= den,
        0 < den,
    ensures
        a >= 0 ==> 0 <= scale(a, num, den) <= a,
        a <= 0 ==> a <= scale(a, num, den) <= 0,
        scale(a, den, den) == a,
        scale(a, 0, den) == 0,
{
    if a >= 0 {
        assert(0 <= (a * num) / den <= a) by (nonlinear_arith)
            requires 0 <= num <= den, 0 < den, 0 <= a;
    }
    if a <= 0 {
        assert(a <= (a * num) / den <= 0) by (nonlinear_arith)
            requires 0 <= num <= den, 0 < den, a <= 0;
    }
    assert((a * den) / den == a) by (nonlinear_arith)
        requires 0 < den;
    assert((a * 0) / den == 0) by (nonlinear_arith)
        requires 0 < den;
}

/// Scaling by a fixed ratio between zero and one preserves order.
pub proof fn lemma_scale_monotonic(a: int, num1: int, num2: int, den: int)
    requires
        0 <= a,
        num1 <= num2,
        0 < den,
    ensures
        scale(a, num1, den) <= scale(a, num2, den),
{
    assert((a * num1) / den <= (a * num2) / den) by (nonlinear_arith)
        requires 0 <= a, num1 <= num2, 0 < den;
}

/// Quotient of `p` by a positive `d`, rounded toward minus infinity.
pub fn div_floor(p: i128, d: i128) -> (q: i128)
    requires
        0 < d,
        i128::MIN + d < p,
    ensures
        q == p as int / d as int,
{
    if p >= 0 {
        p / d
    } else {
        let m: i128 = -p;
        let t: i128 = (m - 1) / d;
        assert(-(t + 1) == p as int / d as int) by (nonlinear_arith)
            requires
                0 < d,
                p < 0,
                m == -p,
                t == (m - 1) / (d as int),
        ;
        -(t + 1)
    }
}

/// `a * num / den`, rounded toward minus infinity, for a quotient that fits.
pub fn mul_div(a: i64, num: i64, den: i64) -> (r: i64)
    requires
        0 < den,
        i64::MIN <= scale(a as int, num as int, den as int) <= i64::MAX,
    ensures
        r == scale(a as int, num as int, den as int),
{
    assert(-0x8000_0000_0000_0000 * 0x8000_0000_0000_0000 <= a * num
        <= 0x8000_0000_0000_0000 * 0x8000_0000_0000_0000) by (nonlinear_arith)
        requires
            -0x8000_0000_0000_0000 <= a < 0x8000_0000_0000_0000,
            -0x8000_0000_0000_0000 <= num < 0x8000_0000_0000_0000,
    ;
    let p: i128 = (a as i128) * (num as i128);
    let q: i128 = div_floor(p, den as i128);
    q as i64
}

/// The integer square root of `n`.
pub fn isqrt(n: u128) -> (r: u64)
    ensures
        r == sqrt_floor(n as int),
        is_sqrt(n as int, r as int),
{
    let mut lo: u128 = 0;
    let mut hi: u128 = 0x1_0000_0000_0000_0000;
    assert(hi * hi > n) by (nonlinear_arith)
        requires hi == 0x1_0000_0000_0000_0000, n <= u128::MAX;
    while hi - lo > 1
        invariant
            lo < hi <= 0x1_0000_0000_0000_0000,
            lo * lo <= n < hi * hi,
        decreases hi - lo,
    {
        let mid: u128 = lo + (hi - lo) / 2;
        assert(mid * mid < 0x1_0000_0000_0000_0000 * 0x1_0000_0000_0000_0000) by (nonlinear_arith)
            requires 0 <= mid < 0x1_0000_0000_0000_0000;
        if mid * mid <= n {
            lo = mid;
        } else {
            hi = mid;
        }
    }
    proof {
        assert(hi == lo + 1);
        lemma_sqrt_is(n as int, lo as int);
    }
    lo as u64
}

} // verus!

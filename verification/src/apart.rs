//! How far apart a push leaves two bodies, and what a turn does to a pair
//! and leaves alone.

use vstd::prelude::*;
use crate::fixed::{is_sqrt, lemma_sqrt_exists, scale, COORD_MAX, EPSILON, UNIT};
use crate::relax::{
    detoured, free, lemma_component_le_norm, lemma_dist2_symmetric, lemma_push_bound,
    lemma_root_below, lemma_tie_scaled, moves_ok, overlapping, push_apart, separated, tie_x, tie_y,
    turn, BodyMove, TURN_COS_LESS_ONE, TURN_SCALE, TURN_SIN,
};
use crate::vector::{lemma_square_nonneg, Vector2};

verus! {

/// What the rounded quotient `q = (v * s) / (2 * len)` leaves of the exact
/// one: `len * (v + 2 * q)` falls short of `2 * r * v` by less than `2 * len`.
proof fn lemma_push_shortfall(v: int, len: int, r: int, q: int)
    requires
        0 < len < 2 * r,
        q == scale(v, 2 * r - len, 2 * len),
    ensures
        0 <= 2 * r * v - len * (v + 2 * q) < 2 * len,
{
    let s = 2 * r - len;
    let den = 2 * len;
    let p = v * s;
    assert(den * q <= p < den * q + den) by (nonlinear_arith)
        requires
            q == p / den,
            den > 0,
    ;
    assert(2 * r * v - len * (v + 2 * q) == p - den * q) by (nonlinear_arith)
        requires
            p == v * s,
            s == 2 * r - len,
            den == 2 * len,
    ;
}

/// The square of a component after the push, scaled by `len`.
proof fn lemma_push_square(v: int, len: int, r: int, x: int, short: int)
    requires
        -len <= v <= len,
        0 < len,
        0 < r,
        0 <= short < 2 * len,
        x == 2 * r * v - short,
    ensures
        x * x >= 4 * (r * r) * (v * v) - 8 * r * (len * len),
{
    assert(v * short <= 2 * (len * len)) by (nonlinear_arith)
        requires
            -len <= v <= len,
            0 < len,
            0 <= short < 2 * len,
    ;
    assert(r * (v * short) <= r * (2 * (len * len))) by (nonlinear_arith)
        requires
            0 < r,
            v * short <= 2 * (len * len),
    ;
    assert(x * x == 4 * (r * r) * (v * v) - 4 * (r * (v * short)) + short * short) by (nonlinear_arith)
        requires
            x == 2 * r * v - short,
    ;
    lemma_square_nonneg(short);
    assert(4 * (r * (2 * (len * len))) == 8 * r * (len * len)) by (nonlinear_arith);
}

/// From a bound on squares scaled by `len * len` to the bound itself.
proof fn lemma_unscale(n: int, k: int, len: int, x: int, y: int, wx: int, wy: int)
    requires
        0 < len,
        x == len * wx,
        y == len * wy,
        n == wx * wx + wy * wy,
        x * x + y * y >= (len * len) * k,
    ensures
        n >= k,
{
    assert(x * x + y * y == (len * len) * n) by (nonlinear_arith)
        requires
            x == len * wx,
            y == len * wy,
            n == wx * wx + wy * wy,
    ;
    assert(n >= k) by (nonlinear_arith)
        requires
            (len * len) * n >= (len * len) * k,
            0 < len,
    ;
}

/// Two overlapping spots that do not coincide are, once each has given way
/// by the push between them, two radii apart but for rounding: the square
/// of their distance is at least `4 * radius * radius - 16 * radius`. The
/// same holds where one spot alone gives way by twice the push.
pub proof fn lemma_pushed_apart(a: Vector2, b: Vector2, radius: int, tie: int)
    requires
        a.bounded(),
        b.bounded(),
        0 < radius <= COORD_MAX,
        a.dist2(b) < 4 * (radius * radius),
        b.diff(a).norm() > EPSILON,
    ensures
        push_apart(a, b, radius, tie).within(2 * radius),
        a.diff(push_apart(a, b, radius, tie)).dist2(b.sum(push_apart(a, b, radius, tie))) >= 4 * (
        radius * radius) - 16 * radius,
        a.dist2(b.sum(push_apart(a, b, radius, tie)).sum(push_apart(a, b, radius, tie))) >= 4 * (
        radius * radius) - 16 * radius,
{
    let v = b.diff(a);
    let vx = v.x as int;
    let vy = v.y as int;
    lemma_square_nonneg(vx);
    lemma_square_nonneg(vy);
    lemma_sqrt_exists(v.norm2());
    let len = v.norm();
    assert(is_sqrt(v.norm2(), len));
    lemma_dist2_symmetric(a, b);
    lemma_component_le_norm(v, len);
    lemma_root_below(v.norm2(), len, radius);
    let d = push_apart(a, b, radius, tie);
    let qx = scale(vx, 2 * radius - len, 2 * len);
    let qy = scale(vy, 2 * radius - len, 2 * len);
    lemma_push_bound(vx, 2 * radius - len, len);
    lemma_push_bound(vy, 2 * radius - len, len);
    assert(d.x == qx && d.y == qy);
    lemma_push_shortfall(vx, len, radius, qx);
    lemma_push_shortfall(vy, len, radius, qy);
    let wx = vx + 2 * qx;
    let wy = vy + 2 * qy;
    let x = len * wx;
    let y = len * wy;
    lemma_push_square(vx, len, radius, x, 2 * radius * vx - x);
    lemma_push_square(vy, len, radius, y, 2 * radius * vy - y);
    let k = 4 * (radius * radius) - 16 * radius;
    assert(x * x + y * y >= (len * len) * k) by (nonlinear_arith)
        requires
            x * x >= 4 * (radius * radius) * (vx * vx) - 8 * radius * (len * len),
            y * y >= 4 * (radius * radius) * (vy * vy) - 8 * radius * (len * len),
            vx * vx + vy * vy >= len * len,
            0 < radius,
            k == 4 * (radius * radius) - 16 * radius,
    ;
    lemma_unscale(wx * wx + wy * wy, k, len, x, y, wx, wy);
    let a1 = a.diff(d);
    let b1 = b.sum(d);
    assert(b1.x - a1.x == wx && b1.y - a1.y == wy);
    lemma_dist2_symmetric(a1, b1);
    let b2 = b.sum(d).sum(d);
    assert(b2.x - a.x == wx && b2.y - a.y == wy);
    lemma_dist2_symmetric(a, b2);
}

/// Each of the fixed directions is a million long but for rounding.
proof fn lemma_tie_length(k: int)
    requires
        0 <= k < 16,
    ensures
        -UNIT <= tie_x(k) <= UNIT,
        -UNIT <= tie_y(k) <= UNIT,
        tie_x(k) * tie_x(k) + tie_y(k) * tie_y(k) >= UNIT * UNIT - UNIT,
{
    let x = tie_x(k);
    let y = tie_y(k);
    if k < 4 {
        assert(x * x + y * y >= 999_999_000_000) by (nonlinear_arith)
            requires
                (x == 0 && y == 1_000_000) || (x == 841_471 && y == 540_302) || (x == 909_297 && y
                    == -416_147) || (x == 141_120 && y == -989_992),
        ;
    } else if k < 8 {
        assert(x * x + y * y >= 999_999_000_000) by (nonlinear_arith)
            requires
                (x == -756_802 && y == -653_644) || (x == -958_924 && y == 283_662) || (x
                    == -279_415 && y == 960_170) || (x == 656_987 && y == 753_902),
        ;
    } else if k < 12 {
        assert(x * x + y * y >= 999_999_000_000) by (nonlinear_arith)
            requires
                (x == 989_358 && y == -145_500) || (x == 412_118 && y == -911_130) || (x
                    == -544_021 && y == -839_072) || (x == -999_990 && y == 4_426),
        ;
    } else {
        assert(x * x + y * y >= 999_999_000_000) by (nonlinear_arith)
            requires
                (x == -536_573 && y == 843_854) || (x == 420_167 && y == 907_447) || (x == 990_607
                    && y == 136_737) || (x == 650_288 && y == -759_688),
        ;
    }
}

/// One component of the line between two spots that stood within a
/// hundred steps of each other, after each has given way by `q`, the
/// rounded share `(t * r) / UNIT` of a fixed direction: scaled by `UNIT`,
/// its square is at least that of `2 * r * t` less what rounding and the
/// hundred steps can take.
proof fn lemma_tie_square(v: int, t: int, r: int, q: int, w: int)
    requires
        -100 <= v <= 100,
        -UNIT <= t <= UNIT,
        0 < r,
        q == scale(t, r, UNIT as int),
        w == v + 2 * q,
    ensures
        (UNIT * w) * (UNIT * w) >= 4 * ((r * r) * (t * t)) - 408_000_000_000_000 * r,
{
    let u: int = 1_000_000;
    let p = t * r;
    lemma_floor_rest(p, u, q);
    let g = u * v - 2 * (p - u * q);
    let e = u * w;
    assert(e == 2 * p + g);
    assert(-(u * r) <= p <= u * r) by (nonlinear_arith)
        requires
            p == t * r,
            -u <= t <= u,
            0 < r,
            u == 1_000_000,
    ;
    assert(-102_000_000 <= g <= 102_000_000);
    let pg = p * g;
    assert(pg >= -102_000_000_000_000 * r) by (nonlinear_arith)
        requires
            pg == p * g,
            -(1_000_000 * r) <= p <= 1_000_000 * r,
            -102_000_000 <= g <= 102_000_000,
            0 < r,
    ;
    let gg = g * g;
    lemma_square_nonneg(g);
    let pp = p * p;
    assert(e * e == 4 * pp + 4 * pg + gg) by (nonlinear_arith)
        requires
            e == 2 * p + g,
            pp == p * p,
            pg == p * g,
            gg == g * g,
    ;
    assert(pp == (r * r) * (t * t)) by (nonlinear_arith)
        requires
            pp == p * p,
            p == t * r,
    ;
}

/// Two overlapping spots that stand within a hundred steps of each other
/// are, once each has given way by the push between them, two radii apart
/// but for rounding, the hundred steps and the length of the direction
/// along which they part: a million times the square of their distance is
/// at least `4 * radius * radius * 999_999 - 816_000_000 * radius`. The
/// same holds where one spot alone gives way by twice the push.
pub proof fn lemma_pushed_from_one_spot(a: Vector2, b: Vector2, radius: int, tie: int)
    requires
        a.bounded(),
        b.bounded(),
        0 < radius <= COORD_MAX,
        b.diff(a).norm() <= EPSILON,
    ensures
        push_apart(a, b, radius, tie).within(radius),
        UNIT * a.diff(push_apart(a, b, radius, tie)).dist2(b.sum(push_apart(a, b, radius, tie)))
            >= 4 * (radius * radius) * (UNIT - 1) - 816 * UNIT * radius,
        UNIT * a.dist2(b.sum(push_apart(a, b, radius, tie)).sum(push_apart(a, b, radius, tie)))
            >= 4 * (radius * radius) * (UNIT - 1) - 816 * UNIT * radius,
{
    let v = b.diff(a);
    let vx = v.x as int;
    let vy = v.y as int;
    lemma_square_nonneg(vx);
    lemma_square_nonneg(vy);
    lemma_sqrt_exists(v.norm2());
    let len = v.norm();
    assert(is_sqrt(v.norm2(), len));
    lemma_component_le_norm(v, len);
    let k = tie % 16;
    let tx = tie_x(k);
    let ty = tie_y(k);
    lemma_tie_length(k);
    let d = push_apart(a, b, radius, tie);
    let qx = scale(tx, radius, UNIT as int);
    let qy = scale(ty, radius, UNIT as int);
    lemma_tie_scaled(tx, radius);
    lemma_tie_scaled(ty, radius);
    assert(d.x == qx && d.y == qy);
    let wx = vx + 2 * qx;
    let wy = vy + 2 * qy;
    lemma_tie_square(vx, tx, radius, qx, wx);
    lemma_tie_square(vy, ty, radius, qy, wy);
    let u: int = 1_000_000;
    let n = wx * wx + wy * wy;
    let rr = radius * radius;
    let bound = 4 * rr * (u - 1) - 816 * u * radius;
    lemma_square_nonneg(radius);
    assert(u * n >= bound) by (nonlinear_arith)
        requires
            (u * wx) * (u * wx) >= 4 * (rr * (tx * tx)) - 408_000_000_000_000 * radius,
            (u * wy) * (u * wy) >= 4 * (rr * (ty * ty)) - 408_000_000_000_000 * radius,
            tx * tx + ty * ty >= 999_999_000_000,
            n == wx * wx + wy * wy,
            bound == 4 * rr * (u - 1) - 816 * u * radius,
            0 <= rr,
            u == 1_000_000,
    ;
    let a1 = a.diff(d);
    let b1 = b.sum(d);
    assert(b1.x - a1.x == wx && b1.y - a1.y == wy);
    lemma_dist2_symmetric(a1, b1);
    let b2 = b.sum(d).sum(d);
    assert(b2.x - a.x == wx && b2.y - a.y == wy);
    lemma_dist2_symmetric(a, b2);
}

/// A pair that has just been pushed apart: where two overlapping entries
/// did not coincide and the push has not driven either against the edge of
/// the world, they stand two radii apart but for rounding.
pub proof fn lemma_separated_apart(m: Seq<BodyMove>, i: int, j: int, radius: int)
    requires
        moves_ok(m),
        0 <= i < j < m.len(),
        0 < radius <= COORD_MAX,
        overlapping(m, i, j, radius),
        m[j].spot().diff(m[i].spot()).norm() > EPSILON,
        m[i].spot().within(COORD_MAX - 4 * radius),
        m[j].spot().within(COORD_MAX - 4 * radius),
    ensures
        separated(m, i, j, radius)[i].spot().dist2(separated(m, i, j, radius)[j].spot()) >= 4 * (
        radius * radius) - 16 * radius,
{
    let a = m[i].spot();
    let b = m[j].spot();
    assert(m[i].wf() && m[j].wf());
    let d = push_apart(a, b, radius, i * m.len() + j);
    lemma_pushed_apart(a, b, radius, i * m.len() + j);
    assert(a.diff(d).confined() == a.diff(d));
    assert(b.sum(d).confined() == b.sum(d));
    assert(b.sum(d).sum(d).confined() == b.sum(d).sum(d));
}

/// A pair that stood on one spot and has just been pushed apart: where two
/// entries stood within a hundred steps of each other and the push has not
/// driven either against the edge of the world, they stand two radii apart
/// but for rounding, the hundred steps and the length of the direction
/// along which they part.
pub proof fn lemma_separated_from_one_spot(m: Seq<BodyMove>, i: int, j: int, radius: int)
    requires
        moves_ok(m),
        0 <= i < j < m.len(),
        0 < radius <= COORD_MAX,
        overlapping(m, i, j, radius),
        m[j].spot().diff(m[i].spot()).norm() <= EPSILON,
        m[i].spot().within(COORD_MAX - 2 * radius),
        m[j].spot().within(COORD_MAX - 2 * radius),
    ensures
        UNIT * separated(m, i, j, radius)[i].spot().dist2(separated(m, i, j, radius)[j].spot())
            >= 4 * (radius * radius) * (UNIT - 1) - 816 * UNIT * radius,
{
    let a = m[i].spot();
    let b = m[j].spot();
    assert(m[i].wf() && m[j].wf());
    let d = push_apart(a, b, radius, i * m.len() + j);
    lemma_pushed_from_one_spot(a, b, radius, i * m.len() + j);
    assert(a.diff(d).confined() == a.diff(d));
    assert(b.sum(d).confined() == b.sum(d));
    assert(b.sum(d).sum(d).confined() == b.sum(d).sum(d));
}

/// A turn makes no new overlap: where a pair has been turned, neither of
/// the two overlaps an entry that it did not overlap before, and no other
/// entry has moved.
pub proof fn lemma_detour_spares_others(m: Seq<BodyMove>, i: int, j: int, k: int, radius: int)
    requires
        0 <= i < j < m.len(),
        0 <= k < m.len(),
        k != i,
        k != j,
    ensures
        detoured(m, i, j, radius).len() == m.len(),
        detoured(m, i, j, radius)[k] == m[k],
        overlapping(detoured(m, i, j, radius), i, k, radius) ==> overlapping(m, i, k, radius),
        overlapping(detoured(m, i, j, radius), j, k, radius) ==> overlapping(m, j, k, radius),
{
    let w = detoured(m, i, j, radius);
    if w != m {
        let a = m[i].spot();
        let b = m[j].spot();
        let dp = b.diff(a);
        let offset = turn(dp, m[i].delta.dot(dp.perp()) < m[j].delta.dot(dp.perp()));
        if i > 0 {
            let pa = a.diff(offset).confined();
            let pb = b.sum(offset).confined();
            assert(free(m, i, j, pa, radius) && free(m, i, j, pb, radius));
            assert(w[i].spot() == pa);
            assert(w[j].spot() == pb);
            assert(pa.dist2(m[k].spot()) >= 4 * (radius * radius));
            assert(pb.dist2(m[k].spot()) >= 4 * (radius * radius));
        } else {
            let pb = b.sum(offset).sum(offset).confined();
            assert(free(m, i, j, pb, radius));
            assert(w[j].spot() == pb);
            assert(pb.dist2(m[k].spot()) >= 4 * (radius * radius));
        }
    }
}

/// The side of `a` to which `b` points: positive to the left, negative to
/// the right, nought along it.
pub open spec fn cross(a: Vector2, b: Vector2) -> int {
    a.x * b.y - a.y * b.x
}

/// What is left of a product when whole multiples of `t` are taken out.
proof fn lemma_floor_rest(n: int, t: int, q: int)
    requires
        0 < t,
        q == n / t,
    ensures
        0 <= n - t * q < t,
{
    assert(0 <= n - t * q < t) by (nonlinear_arith)
        requires
            0 < t,
            q == n / t,
    ;
}

/// The sum of the squares of two numbers is at least half the square of
/// the sum of their magnitudes.
proof fn lemma_squares_above(x: int, y: int, ax: int, ay: int)
    requires
        ax == if x < 0 { -x } else { x },
        ay == if y < 0 { -y } else { y },
    ensures
        2 * (x * x + y * y) >= (ax + ay) * (ax + ay),
{
    assert(ax * ax == x * x) by (nonlinear_arith)
        requires
            ax == x || ax == -x,
    ;
    assert(ay * ay == y * y) by (nonlinear_arith)
        requires
            ay == y || ay == -y,
    ;
    lemma_square_nonneg(ax - ay);
    assert(2 * (x * x + y * y) >= (ax + ay) * (ax + ay)) by (nonlinear_arith)
        requires
            ax * ax == x * x,
            ay * ay == y * y,
            (ax - ay) * (ax - ay) >= 0,
    ;
}

/// The product of a rounded turn with its line, scaled, without what
/// rounding took.
proof fn lemma_crossed(x: int, y: int, s: int, c: int, t: int, ox: int, oy: int)
    ensures
        t * (x * oy - y * ox) == s * (x * x + y * y) - x * ((s * x + c * y) - t * oy) + y * ((c * x
            - s * y) - t * ox),
{
    let sx = s * x;
    let cy = c * y;
    let cx = c * x;
    let sy = s * y;
    let toy = t * oy;
    let tox = t * ox;
    assert(x * (sx + cy - toy) == x * sx + x * cy - x * toy) by (nonlinear_arith);
    assert(y * (cx - sy - tox) == y * cx - y * sy - y * tox) by (nonlinear_arith);
    assert(x * sx == s * (x * x)) by (nonlinear_arith)
        requires
            sx == s * x,
    ;
    assert(y * sy == s * (y * y)) by (nonlinear_arith)
        requires
            sy == s * y,
    ;
    assert(x * cy == y * cx) by (nonlinear_arith)
        requires
            cy == c * y,
            cx == c * x,
    ;
    assert(x * toy == t * (x * oy)) by (nonlinear_arith)
        requires
            toy == t * oy,
    ;
    assert(y * tox == t * (y * ox)) by (nonlinear_arith)
        requires
            tox == t * ox,
    ;
    assert(s * (x * x + y * y) == s * (x * x) + s * (y * y)) by (nonlinear_arith);
    assert(t * (x * oy - y * ox) == t * (x * oy) - t * (y * ox)) by (nonlinear_arith);
}

/// A turn turns. What a turn adds to the line between two spots points to
/// one side of the line: to the left where the pair is turned the one way,
/// to the right where it is turned the other, provided the spots are not
/// within a few hundred steps of each other.
pub proof fn lemma_turn_turns(dp: Vector2, clockwise: bool)
    requires
        dp.within(2 * COORD_MAX),
        (if dp.x < 0 { -dp.x } else { dp.x as int }) + (if dp.y < 0 { -dp.y } else { dp.y as int })
            >= 230,
    ensures
        !clockwise ==> cross(dp, turn(dp, clockwise)) > 0,
        clockwise ==> cross(dp, turn(dp, clockwise)) < 0,
{
    let x = dp.x as int;
    let y = dp.y as int;
    let ax = if x < 0 { -x } else { x };
    let ay = if y < 0 { -y } else { y };
    let t = TURN_SCALE as int;
    let c = TURN_COS_LESS_ONE as int;
    let s = if clockwise { -TURN_SIN } else { TURN_SIN as int };
    let nx = c * x - s * y;
    let ny = s * x + c * y;
    let ox = nx / t;
    let oy = ny / t;
    lemma_floor_rest(nx, t, ox);
    lemma_floor_rest(ny, t, oy);
    let rx = nx - t * ox;
    let ry = ny - t * oy;
    assert(-18_000_000_000_000_000_000_000 <= s * y <= 18_000_000_000_000_000_000_000
        && -18_000_000_000_000_000_000_000 <= s * x <= 18_000_000_000_000_000_000_000
        && -80_000_000_000_000_000_000 <= c * x <= 80_000_000_000_000_000_000
        && -80_000_000_000_000_000_000 <= c * y <= 80_000_000_000_000_000_000) by (nonlinear_arith)
        requires
            -8_726_535_498 <= s <= 8_726_535_498,
            c == -38_076_936,
            -2_000_000_000_000 <= x <= 2_000_000_000_000,
            -2_000_000_000_000 <= y <= 2_000_000_000_000,
    ;
    let off = turn(dp, clockwise);
    assert(off.x == ox && off.y == oy);
    let n2 = x * x + y * y;
    let a = ax + ay;
    lemma_squares_above(x, y, ax, ay);
    // The scaled product, without what rounding took.
    lemma_crossed(x, y, s, c, t, ox, oy);
    assert(-(ax * t) <= x * ry <= ax * t) by (nonlinear_arith)
        requires
            0 <= ry < t,
            ax == x || ax == -x,
            0 <= ax,
    ;
    assert(-(ay * t) <= y * rx <= ay * t) by (nonlinear_arith)
        requires
            0 <= rx < t,
            ay == y || ay == -y,
            0 <= ay,
    ;
    assert(8_726_535_498 * n2 > a * t) by (nonlinear_arith)
        requires
            2 * n2 >= a * a,
            a >= 230,
            t == 1_000_000_000_000,
    ;
    assert(ax * t + ay * t == a * t) by (nonlinear_arith)
        requires
            a == ax + ay,
    ;
    let k = x * oy - y * ox;
    if clockwise {
        assert(s * n2 == -(8_726_535_498 * n2)) by (nonlinear_arith)
            requires
                s == -8_726_535_498,
        ;
        assert(t * k < 0);
        assert(k < 0) by (nonlinear_arith)
            requires
                t * k < 0,
                t > 0,
        ;
    } else {
        assert(s * n2 == 8_726_535_498 * n2) by (nonlinear_arith)
            requires
                s == 8_726_535_498,
        ;
        assert(t * k > 0);
        assert(k > 0) by (nonlinear_arith)
            requires
                t * k > 0,
                t > 0,
        ;
    }
}

/// A crossing pair is walked around: where a pair of bodies is turned, and
/// the turn drives neither against the edge of the world, the line between
/// the two after the turn points to one side of the line between them
/// before it. It is not the same line, nor its reverse.
pub proof fn lemma_detour_turns(m: Seq<BodyMove>, i: int, j: int, radius: int)
    requires
        moves_ok(m),
        0 <= i < j < m.len(),
        detoured(m, i, j, radius) != m,
        m[i].spot().within(COORD_MAX - 100_000_000_000),
        m[j].spot().within(COORD_MAX - 100_000_000_000),
        ({
            let dp = m[j].spot().diff(m[i].spot());
            (if dp.x < 0 { -dp.x } else { dp.x as int }) + (if dp.y < 0 { -dp.y } else { dp.y as int })
                >= 230
        }),
    ensures
        cross(
            m[j].spot().diff(m[i].spot()),
            detoured(m, i, j, radius)[j].spot().diff(detoured(m, i, j, radius)[i].spot()),
        ) != 0,
{
    let a = m[i].spot();
    let b = m[j].spot();
    assert(m[i].wf() && m[j].wf());
    let dp = b.diff(a);
    let clockwise = m[i].delta.dot(dp.perp()) < m[j].delta.dot(dp.perp());
    let off = turn(dp, clockwise);
    lemma_turn_turns(dp, clockwise);
    lemma_turn_within(dp, clockwise);
    let w = detoured(m, i, j, radius);
    let after = w[j].spot().diff(w[i].spot());
    if i > 0 {
        assert(a.diff(off).confined() == a.diff(off));
        assert(b.sum(off).confined() == b.sum(off));
    } else {
        assert(b.sum(off).sum(off).confined() == b.sum(off).sum(off));
    }
    assert(after.x == dp.x + 2 * off.x && after.y == dp.y + 2 * off.y);
    assert(cross(dp, after) == 2 * cross(dp, off)) by (nonlinear_arith)
        requires
            after.x == dp.x + 2 * off.x,
            after.y == dp.y + 2 * off.y,
            cross(dp, after) == dp.x * after.y - dp.y * after.x,
            cross(dp, off) == dp.x * off.y - dp.y * off.x,
    ;
}

/// A line that is turned and stretched keeps its length but for the
/// stretch: the sum of the squares of `p * x - q * y` and `q * x + p * y`
/// is that of `x` and `y`, times that of `p` and `q`.
proof fn lemma_rotated_square(x: int, y: int, p: int, q: int)
    ensures
        (p * x - q * y) * (p * x - q * y) + (q * x + p * y) * (q * x + p * y) == (p * p + q * q) * (x
            * x + y * y),
{
    let px = p * x;
    let qy = q * y;
    let qx = q * x;
    let py = p * y;
    let pp = p * p;
    let qq = q * q;
    let xx = x * x;
    let yy = y * y;
    assert((px - qy) * (px - qy) == px * px - 2 * (px * qy) + qy * qy) by (nonlinear_arith);
    assert((qx + py) * (qx + py) == qx * qx + 2 * (qx * py) + py * py) by (nonlinear_arith);
    assert(px * qy == qx * py) by (nonlinear_arith)
        requires
            px == p * x,
            qy == q * y,
            qx == q * x,
            py == p * y,
    ;
    assert(px * px == pp * xx) by (nonlinear_arith)
        requires
            px == p * x,
            pp == p * p,
            xx == x * x,
    ;
    assert(qy * qy == qq * yy) by (nonlinear_arith)
        requires
            qy == q * y,
            qq == q * q,
            yy == y * y,
    ;
    assert(qx * qx == qq * xx) by (nonlinear_arith)
        requires
            qx == q * x,
            qq == q * q,
            xx == x * x,
    ;
    assert(py * py == pp * yy) by (nonlinear_arith)
        requires
            py == p * y,
            pp == p * p,
            yy == y * y,
    ;
    assert((pp + qq) * (xx + yy) == pp * xx + pp * yy + qq * xx + qq * yy) by (nonlinear_arith);
}

/// A coordinate times the sine of the turn is no larger than its
/// magnitude times the sine.
proof fn lemma_turned_part(s: int, x: int, ax: int)
    requires
        s == TURN_SIN || s == -TURN_SIN,
        ax == if x < 0 { -x } else { x },
    ensures
        -8_726_535_498 * ax <= s * x <= 8_726_535_498 * ax,
{
    if s == TURN_SIN {
        assert(s * x == 8_726_535_498 * x) by (nonlinear_arith)
            requires
                s == 8_726_535_498,
        ;
    } else {
        assert(s * x == -8_726_535_498 * x) by (nonlinear_arith)
            requires
                s == -8_726_535_498,
        ;
    }
}

/// The square of what is left of `e` when twice a rounding error `r` below
/// `t` is taken from it, where `e` lies within `m` of nought.
proof fn lemma_rounded_square(e: int, r: int, t: int, m: int)
    requires
        -m <= e <= m,
        0 <= r < t,
    ensures
        (e - 2 * r) * (e - 2 * r) >= e * e - 4 * (m * t),
{
    assert(e * r <= m * t) by (nonlinear_arith)
        requires
            -m <= e <= m,
            0 <= r < t,
    ;
    lemma_square_nonneg(r);
    assert((e - 2 * r) * (e - 2 * r) == e * e - 4 * (e * r) + 4 * (r * r)) by (nonlinear_arith);
}

/// A turn brings a pair no closer: the line between two spots that are
/// not within a ninth of a unit of each other is, once it has been turned,
/// no shorter than before.
pub proof fn lemma_turn_keeps_apart(dp: Vector2, clockwise: bool)
    requires
        dp.within(2 * COORD_MAX),
        (if dp.x < 0 { -dp.x } else { dp.x as int }) + (if dp.y < 0 { -dp.y } else { dp.y as int })
            >= 110_000,
    ensures
        ({
            let off = turn(dp, clockwise);
            let wx = dp.x + 2 * off.x;
            let wy = dp.y + 2 * off.y;
            wx * wx + wy * wy >= dp.x * dp.x + dp.y * dp.y
        }),
{
    let x = dp.x as int;
    let y = dp.y as int;
    let ax = if x < 0 { -x } else { x };
    let ay = if y < 0 { -y } else { y };
    let a = ax + ay;
    let s = if clockwise { -TURN_SIN } else { TURN_SIN as int };
    let sx = s * x;
    let sy = s * y;
    lemma_turned_part(s, x, ax);
    lemma_turned_part(s, y, ay);
    let nx = -38_076_936 * x - sy;
    let ny = sx - 38_076_936 * y;
    let ox = nx / 1_000_000_000_000;
    let oy = ny / 1_000_000_000_000;
    lemma_floor_rest(nx, 1_000_000_000_000, ox);
    lemma_floor_rest(ny, 1_000_000_000_000, oy);
    let rx = nx - 1_000_000_000_000 * ox;
    let ry = ny - 1_000_000_000_000 * oy;
    let c = TURN_COS_LESS_ONE as int;
    assert(c * x == -38_076_936 * x && c * y == -38_076_936 * y) by (nonlinear_arith)
        requires
            c == -38_076_936,
    ;
    let off = turn(dp, clockwise);
    lemma_turn_within(dp, clockwise);
    assert(off.x == ox && off.y == oy);
    let wx = x + 2 * ox;
    let wy = y + 2 * oy;
    // The turned line, scaled, before rounding.
    let ex = 999_923_846_128 * x - 2 * sy;
    let ey = 2 * sx + 999_923_846_128 * y;
    assert(1_000_000_000_000 * wx == ex - 2 * rx);
    assert(1_000_000_000_000 * wy == ey - 2 * ry);
    let m = 1_000_000_000_000 * a;
    assert(-m <= ex <= m && -m <= ey <= m) by {
        assert(-999_923_846_128 * ax <= 999_923_846_128 * x <= 999_923_846_128 * ax);
        assert(-999_923_846_128 * ay <= 999_923_846_128 * y <= 999_923_846_128 * ay);
        assert(-17_453_070_996 * ay <= 2 * sy <= 17_453_070_996 * ay);
        assert(-17_453_070_996 * ax <= 2 * sx <= 17_453_070_996 * ax);
    }
    lemma_rounded_square(ex, rx, 1_000_000_000_000, m);
    lemma_rounded_square(ey, ry, 1_000_000_000_000, m);
    let q = 2 * s;
    lemma_rotated_square(x, y, 999_923_846_128, q);
    assert(q * y == 2 * sy && q * x == 2 * sx) by (nonlinear_arith)
        requires
            q == 2 * s,
            sx == s * x,
            sy == s * y,
    ;
    let n2 = x * x + y * y;
    let k: int = 152_307_742_603_637_024_400;
    let tt: int = 1_000_000_000_000_000_000_000_000;
    assert(999_923_846_128 * 999_923_846_128 + q * q == tt + k) by (nonlinear_arith)
        requires
            q == 17_453_070_996 || q == -17_453_070_996,
            tt == 1_000_000_000_000_000_000_000_000,
            k == 152_307_742_603_637_024_400,
    ;
    assert(ex * ex + ey * ey == (tt + k) * n2);
    lemma_squares_above(x, y, ax, ay);
    assert(k * n2 >= 8 * (m * 1_000_000_000_000)) by (nonlinear_arith)
        requires
            2 * n2 >= a * a,
            a >= 110_000,
            m == 1_000_000_000_000 * a,
            k == 152_307_742_603_637_024_400,
    ;
    assert((tt + k) * n2 == tt * n2 + k * n2) by (nonlinear_arith);
    let fx = 1_000_000_000_000 * wx;
    let fy = 1_000_000_000_000 * wy;
    assert(fx * fx + fy * fy >= tt * n2);
    assert(fx * fx + fy * fy == tt * (wx * wx + wy * wy)) by (nonlinear_arith)
        requires
            fx == 1_000_000_000_000 * wx,
            fy == 1_000_000_000_000 * wy,
            tt == 1_000_000_000_000_000_000_000_000,
    ;
    assert(wx * wx + wy * wy >= n2) by (nonlinear_arith)
        requires
            tt * (wx * wx + wy * wy) >= tt * n2,
            tt > 0,
    ;
}

/// A pair that is turned is brought no closer, where the turn drives
/// neither against the edge of the world and the two are not within a
/// ninth of a unit of each other.
pub proof fn lemma_detour_keeps_apart(m: Seq<BodyMove>, i: int, j: int, radius: int)
    requires
        moves_ok(m),
        0 <= i < j < m.len(),
        m[i].spot().within(COORD_MAX - 100_000_000_000),
        m[j].spot().within(COORD_MAX - 100_000_000_000),
        ({
            let dp = m[j].spot().diff(m[i].spot());
            (if dp.x < 0 { -dp.x } else { dp.x as int }) + (if dp.y < 0 { -dp.y } else { dp.y as int })
                >= 110_000
        }),
    ensures
        detoured(m, i, j, radius)[i].spot().dist2(detoured(m, i, j, radius)[j].spot()) >= m[i].spot().dist2(
            m[j].spot(),
        ),
{
    let a = m[i].spot();
    let b = m[j].spot();
    assert(m[i].wf() && m[j].wf());
    let w = detoured(m, i, j, radius);
    if w != m {
        let dp = b.diff(a);
        let clockwise = m[i].delta.dot(dp.perp()) < m[j].delta.dot(dp.perp());
        let off = turn(dp, clockwise);
        lemma_turn_keeps_apart(dp, clockwise);
        lemma_turn_within(dp, clockwise);
        if i > 0 {
            assert(a.diff(off).confined() == a.diff(off));
            assert(b.sum(off).confined() == b.sum(off));
        } else {
            assert(b.sum(off).sum(off).confined() == b.sum(off).sum(off));
        }
        let after = w[j].spot().diff(w[i].spot());
        assert(after.x == dp.x + 2 * off.x && after.y == dp.y + 2 * off.y);
        lemma_dist2_symmetric(w[i].spot(), w[j].spot());
        lemma_dist2_symmetric(a, b);
    }
}

/// What a turn adds to a line between two points of the world is short.
pub proof fn lemma_turn_within(dp: Vector2, clockwise: bool)
    requires
        dp.within(2 * COORD_MAX),
    ensures
        turn(dp, clockwise).within(40_000_000_000),
{
    let x = dp.x as int;
    let y = dp.y as int;
    let c = TURN_COS_LESS_ONE as int;
    let s = if clockwise { -TURN_SIN } else { TURN_SIN as int };
    assert(-18_000_000_000_000_000_000_000 <= s * y <= 18_000_000_000_000_000_000_000
        && -18_000_000_000_000_000_000_000 <= s * x <= 18_000_000_000_000_000_000_000
        && -80_000_000_000_000_000_000 <= c * x <= 80_000_000_000_000_000_000
        && -80_000_000_000_000_000_000 <= c * y <= 80_000_000_000_000_000_000) by (nonlinear_arith)
        requires
            -8_726_535_498 <= s <= 8_726_535_498,
            c == -38_076_936,
            -2_000_000_000_000 <= x <= 2_000_000_000_000,
            -2_000_000_000_000 <= y <= 2_000_000_000_000,
    ;
}

} // verus!

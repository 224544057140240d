//! Fixed-point vectors: points of the world and displacements in its plane.

use vstd::prelude::*;
use crate::fixed::{in_coord, in_key, is_sqrt, isqrt, lemma_scale_within, mul_div, scale, spec_clamp, sqrt_floor, COORD_MAX, REACH_MAX};

verus! {

/// Largest magnitude of a component of an intermediate vector.
pub const WIDE_MAX: i64 = 1_000_000_000_000_000;

/// A displacement, or the footprint of a point, in the horizontal plane.
#[derive(Clone, Copy, PartialEq, Eq, Debug, Structural)]
pub struct Vector2 {
    pub x: i64,
    pub y: i64,
}

/// A point of the world. Distances between points are measured in the
/// plane of `x` and `y`; `z` is carried along.
#[derive(Clone, Copy, PartialEq, Eq, Debug, Structural)]
pub struct Vector3 {
    pub x: i64,
    pub y: i64,
    pub z: i64,
}

impl Vector2 {
    /// Neither component is larger than `m` in magnitude.
    pub open spec fn within(self, m: int) -> bool {
        -m <= self.x <= m && -m <= self.y <= m
    }

    /// Both components lie inside the world.
    pub open spec fn bounded(self) -> bool {
        self.within(COORD_MAX as int)
    }

    /// Both components are small enough for every operation of this module.
    pub open spec fn wide(self) -> bool {
        self.within(WIDE_MAX as int)
    }

    /// The sum of two vectors.
    pub open spec fn sum(self, o: Vector2) -> Vector2 {
        Vector2 { x: (self.x + o.x) as i64, y: (self.y + o.y) as i64 }
    }

    /// The difference of two vectors.
    pub open spec fn diff(self, o: Vector2) -> Vector2 {
        Vector2 { x: (self.x - o.x) as i64, y: (self.y - o.y) as i64 }
    }

    /// The scalar product of two vectors.
    pub open spec fn dot(self, o: Vector2) -> int {
        self.x * o.x + self.y * o.y
    }

    /// The squared length.
    pub open spec fn norm2(self) -> int {
        self.x * self.x + self.y * self.y
    }

    /// The length, rounded down to a whole step.
    pub open spec fn norm(self) -> int {
        sqrt_floor(self.norm2())
    }

    /// The squared distance between two points.
    pub open spec fn dist2(self, o: Vector2) -> int {
        (self.x - o.x) * (self.x - o.x) + (self.y - o.y) * (self.y - o.y)
    }

    /// The distance between two points, rounded down to a whole step.
    pub open spec fn dist(self, o: Vector2) -> int {
        sqrt_floor(self.dist2(o))
    }

    /// Each component scaled by `num / den`, rounded toward minus infinity.
    pub open spec fn scaled(self, num: int, den: int) -> Vector2 {
        Vector2 { x: scale(self.x as int, num, den) as i64, y: scale(self.y as int, num, den) as i64 }
    }

    /// The vector turned a quarter turn clockwise.
    pub open spec fn perp(self) -> Vector2 {
        Vector2 { x: self.y, y: (-self.x) as i64 }
    }

    /// Each component brought back into the world.
    pub open spec fn confined(self) -> Vector2 {
        Vector2 {
            x: spec_clamp(self.x as int, -COORD_MAX as int, COORD_MAX as int) as i64,
            y: spec_clamp(self.y as int, -COORD_MAX as int, COORD_MAX as int) as i64,
        }
    }

    /// The vector with the given components.
    pub fn new(x: i64, y: i64) -> (r: Vector2)
        ensures
            r == (Vector2 { x, y }),
    {
        Vector2 { x, y }
    }

    /// The sum of two vectors.
    pub fn plus(self, o: Vector2) -> (r: Vector2)
        requires
            self.wide(),
            o.wide(),
        ensures
            r == self.sum(o),
            r.x == self.x + o.x,
            r.y == self.y + o.y,
    {
        Vector2 { x: self.x + o.x, y: self.y + o.y }
    }

    /// The difference of two vectors.
    pub fn minus(self, o: Vector2) -> (r: Vector2)
        requires
            self.wide(),
            o.wide(),
        ensures
            r == self.diff(o),
            r.x == self.x - o.x,
            r.y == self.y - o.y,
    {
        Vector2 { x: self.x - o.x, y: self.y - o.y }
    }

    /// The scalar product of two vectors.
    pub fn dot_product(self, o: Vector2) -> (r: i128)
        requires
            self.wide(),
            o.wide(),
        ensures
            r == self.dot(o),
    {
        proof {
            lemma_product_bound(self.x as int, o.x as int, WIDE_MAX as int);
            lemma_product_bound(self.y as int, o.y as int, WIDE_MAX as int);
        }
        (self.x as i128) * (o.x as i128) + (self.y as i128) * (o.y as i128)
    }

    /// The squared length.
    pub fn length_squared(self) -> (r: i128)
        requires
            self.wide(),
        ensures
            r == self.norm2(),
            0 <= r <= 2 * (WIDE_MAX * WIDE_MAX),
    {
        proof {
            lemma_product_bound(self.x as int, self.x as int, WIDE_MAX as int);
            lemma_product_bound(self.y as int, self.y as int, WIDE_MAX as int);
            lemma_square_nonneg(self.x as int);
            lemma_square_nonneg(self.y as int);
        }
        (self.x as i128) * (self.x as i128) + (self.y as i128) * (self.y as i128)
    }

    /// The length, rounded down to a whole step.
    pub fn length(self) -> (r: i64)
        requires
            self.wide(),
        ensures
            r == self.norm(),
            is_sqrt(self.norm2(), r as int),
            0 <= r <= 2 * WIDE_MAX,
    {
        let n: i128 = self.length_squared();
        let r: u64 = isqrt(n as u128);
        assert(r <= 2 * WIDE_MAX) by (nonlinear_arith)
            requires
                r * r <= n,
                n <= 2 * (WIDE_MAX * WIDE_MAX),
                0 <= r,
        ;
        r as i64
    }

    /// The squared distance between two points of the world.
    pub fn distance_squared(self, o: Vector2) -> (r: i128)
        requires
            self.bounded(),
            o.bounded(),
        ensures
            r == self.dist2(o),
            0 <= r,
    {
        let d = self.minus(o);
        d.length_squared()
    }

    /// The distance between two points of the world, rounded down to a whole step.
    pub fn distance(self, o: Vector2) -> (r: i64)
        requires
            self.bounded(),
            o.bounded(),
        ensures
            r == self.dist(o),
            is_sqrt(self.dist2(o), r as int),
            0 <= r <= REACH_MAX,
    {
        let d = self.minus(o);
        let r = d.length();
        assert(r <= REACH_MAX) by (nonlinear_arith)
            requires
                0 <= r,
                r * r <= d.x * d.x + d.y * d.y,
                -2 * COORD_MAX <= d.x <= 2 * COORD_MAX,
                -2 * COORD_MAX <= d.y <= 2 * COORD_MAX,
                COORD_MAX == 1_000_000_000_000,
                REACH_MAX == 3_000_000_000_000,
        ;
        r
    }

    /// Scales both components by `num / den`, a ratio between zero and one.
    pub fn shrink(self, num: i64, den: i64) -> (r: Vector2)
        requires
            0 <= num <= den,
            0 < den,
        ensures
            r == self.scaled(num as int, den as int),
            forall|m: int| self.within(m) ==> r.within(m),
    {
        proof {
            lemma_scale_within(self.x as int, num as int, den as int);
            lemma_scale_within(self.y as int, num as int, den as int);
        }
        Vector2 { x: mul_div(self.x, num, den), y: mul_div(self.y, num, den) }
    }

    /// Each component brought back into the world.
    pub fn confine(self) -> (r: Vector2)
        ensures
            r == self.confined(),
            r.bounded(),
    {
        Vector2 { x: clamp_coord(self.x), y: clamp_coord(self.y) }
    }
}

impl Vector3 {
    /// All three components lie inside the world.
    pub open spec fn bounded(self) -> bool {
        in_coord(self.x as int) && in_coord(self.y as int) && in_coord(self.z as int)
    }

    /// The footprint in the plane.
    pub open spec fn planar(self) -> Vector2 {
        Vector2 { x: self.x, y: self.y }
    }

    /// The point with its footprint replaced.
    pub open spec fn with_planar(self, p: Vector2) -> Vector3 {
        Vector3 { x: p.x, y: p.y, z: self.z }
    }

    /// The point a fraction `num / den` of the way from `self` to `o`.
    pub open spec fn mix(self, o: Vector3, num: int, den: int) -> Vector3 {
        Vector3 {
            x: (self.x + scale(o.x - self.x, num, den)) as i64,
            y: (self.y + scale(o.y - self.y, num, den)) as i64,
            z: (self.z + scale(o.z - self.z, num, den)) as i64,
        }
    }

    /// Each component brought back into the world.
    pub open spec fn confined(self) -> Vector3 {
        Vector3 {
            x: spec_clamp(self.x as int, -COORD_MAX as int, COORD_MAX as int) as i64,
            y: spec_clamp(self.y as int, -COORD_MAX as int, COORD_MAX as int) as i64,
            z: spec_clamp(self.z as int, -COORD_MAX as int, COORD_MAX as int) as i64,
        }
    }

    /// The point with the given components.
    pub fn new(x: i64, y: i64, z: i64) -> (r: Vector3)
        ensures
            r == (Vector3 { x, y, z }),
    {
        Vector3 { x, y, z }
    }

    /// The footprint in the plane.
    pub fn xy(self) -> (r: Vector2)
        ensures
            r == self.planar(),
            self.bounded() ==> r.bounded(),
    {
        Vector2 { x: self.x, y: self.y }
    }

    /// The point with its footprint replaced.
    pub fn set_xy(self, p: Vector2) -> (r: Vector3)
        ensures
            r == self.with_planar(p),
    {
        Vector3 { x: p.x, y: p.y, z: self.z }
    }

    /// Each component brought back into the world.
    pub fn confine(self) -> (r: Vector3)
        ensures
            r == self.confined(),
            r.bounded(),
    {
        Vector3 { x: clamp_coord(self.x), y: clamp_coord(self.y), z: clamp_coord(self.z) }
    }
}

/// A coordinate brought back into the world.
pub fn clamp_coord(a: i64) -> (r: i64)
    ensures
        r == spec_clamp(a as int, -COORD_MAX as int, COORD_MAX as int),
        in_coord(r as int),
{
    if a < -COORD_MAX {
        -COORD_MAX
    } else if a > COORD_MAX {
        COORD_MAX
    } else {
        a
    }
}

/// A value moved a fraction `num / den` of the way toward `b`.
pub fn lerp_scalar(a: i64, b: i64, num: i64, den: i64) -> (r: i64)
    requires
        in_key(a as int),
        in_key(b as int),
        0 <= num <= den,
        0 < den,
    ensures
        r == a + scale(b - a, num as int, den as int),
        a <= b ==> a <= r <= b,
        b <= a ==> b <= r <= a,
{
    proof {
        lemma_scale_within(b - a, num as int, den as int);
    }
    a + mul_div(b - a, num, den)
}

/// A product of two numbers of magnitude up to `m` has magnitude up to `m * m`.
pub proof fn lemma_product_bound(a: int, b: int, m: int)
    requires
        -m <= a <= m,
        -m <= b <= m,
    ensures
        -(m * m) <= a * b <= m * m,
{
    assert(-(m * m) <= a * b <= m * m) by (nonlinear_arith)
        requires
            -m <= a <= m,
            -m <= b <= m,
    ;
}

/// A square is not negative.
pub proof fn lemma_square_nonneg(a: int)
    ensures
        0 <= a * a,
{
    assert(0 <= a * a) by (nonlinear_arith);
}

} // verus!

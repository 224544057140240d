//! The relaxation that moves bodies toward their targets without letting
//! them overlap.
//!
//! A tick is solved in [`SOLVE_STEP`] rounds over the head and the bodies.
//! In a round every body steps toward its target, overlapping pairs are
//! pushed apart, pairs whose targets cross are walked around each other, and
//! every body is held to its speed limit.

use vstd::prelude::*;
use crate::fixed::{
    div_floor, is_sqrt, lemma_scale_within, mul_div, scale, COORD_MAX, EPSILON, UNIT,
};
use crate::vector::{lemma_product_bound, lemma_square_nonneg, Vector2, Vector3};

verus! {

/// The number of rounds in which a tick is solved.
pub const SOLVE_STEP: i64 = 8;

/// The sine of the angle by which a crossing pair is turned in one round
/// (half a degree), in units of `1 / TURN_SCALE`.
pub const TURN_SIN: i64 = 8_726_535_498;

/// The cosine of that angle less one, in units of `1 / TURN_SCALE`.
pub const TURN_COS_LESS_ONE: i64 = -38_076_936;

/// The denominator of [`TURN_SIN`] and [`TURN_COS_LESS_ONE`].
pub const TURN_SCALE: i64 = 1_000_000_000_000;

/// A surface that positions are brought back onto.
///
/// What `fix` returns must depend on its arguments alone: `fix_spec` is the
/// name of that function. An implementation that is not itself verified
/// gives `fix_spec` the body of `fix`.
pub trait GroundProjector {
    /// Where the surface puts a body that would stand at `current` and
    /// stood at `previous` when the round began.
    spec fn fix_spec(&self, current: Vector3, previous: Vector3) -> Vector3;

    fn fix(&self, current: Vector3, previous: Vector3) -> (r: Vector3)
        requires
            current.bounded(),
            previous.bounded(),
        ensures
            r == self.fix_spec(current, previous),
    ;
}

/// The absence of a surface: every position stays where it is.
pub struct NoGround;

impl GroundProjector for NoGround {
    open spec fn fix_spec(&self, current: Vector3, previous: Vector3) -> Vector3 {
        current
    }

    fn fix(&self, current: Vector3, previous: Vector3) -> (r: Vector3) {
        current
    }
}

/// The head or a body while a tick is solved.
#[derive(Clone, Copy, Debug)]
pub struct BodyMove {
    /// Where it stands now.
    pub position: Vector3,
    /// The step it takes toward its target over the whole tick.
    pub delta: Vector2,
    /// Where it stood when the round began.
    pub origin: Vector3,
    /// Where it is asked to be.
    pub target: Vector3,
    /// The farthest it may end a round from where it began the round.
    pub max_move: i64,
}

impl BodyMove {
    /// The points lie inside the world, and the step and the limit are not
    /// larger than the world is wide.
    pub open spec fn wf(self) -> bool {
        &&& self.position.bounded()
        &&& self.origin.bounded()
        &&& self.target.bounded()
        &&& self.delta.within(2 * COORD_MAX)
        &&& 0 <= self.max_move <= 2 * COORD_MAX
    }

    /// The same entry, standing at `p` in the plane.
    pub open spec fn at(self, p: Vector2) -> BodyMove {
        BodyMove { position: self.position.with_planar(p), ..self }
    }

    /// The footprint of the entry.
    pub open spec fn spot(self) -> Vector2 {
        self.position.planar()
    }
}

/// The head comes first and every entry is well formed.
pub open spec fn moves_ok(m: Seq<BodyMove>) -> bool {
    &&& m.len() > 0
    &&& forall|k: int| 0 <= k < m.len() ==> (#[trigger] m[k]).wf()
}

/// Every entry begins the round where it stands.
pub open spec fn started(m: Seq<BodyMove>) -> Seq<BodyMove> {
    Seq::new(m.len(), |k: int| BodyMove { origin: m[k].position, ..m[k] })
}

/// An entry after one round's step toward its target.
pub open spec fn stepped(bm: BodyMove) -> BodyMove {
    bm.at(bm.spot().sum(bm.delta.scaled(1, SOLVE_STEP as int)).confined())
}

/// Every body has stepped toward its target; the head has not moved.
pub open spec fn stepped_all(m: Seq<BodyMove>) -> Seq<BodyMove> {
    Seq::new(
        m.len(),
        |k: int|
            if k == 0 {
                m[0]
            } else {
                stepped(m[k])
            },
    )
}

/// One of sixteen fixed directions, a million long, chosen by `n`: the
/// direction that separates two entries standing on the same spot.
pub open spec fn tie_direction(n: int) -> Vector2 {
    Vector2 { x: tie_x(n % 16) as i64, y: tie_y(n % 16) as i64 }
}

/// The first component of direction `k`.
pub open spec fn tie_x(k: int) -> int {
    if k == 0 {
        0
    } else if k == 1 {
        841_471
    } else if k == 2 {
        909_297
    } else if k == 3 {
        141_120
    } else if k == 4 {
        -756_802
    } else if k == 5 {
        -958_924
    } else if k == 6 {
        -279_415
    } else if k == 7 {
        656_987
    } else if k == 8 {
        989_358
    } else if k == 9 {
        412_118
    } else if k == 10 {
        -544_021
    } else if k == 11 {
        -999_990
    } else if k == 12 {
        -536_573
    } else if k == 13 {
        420_167
    } else if k == 14 {
        990_607
    } else {
        650_288
    }
}

/// The second component of direction `k`.
pub open spec fn tie_y(k: int) -> int {
    if k == 0 {
        1_000_000
    } else if k == 1 {
        540_302
    } else if k == 2 {
        -416_147
    } else if k == 3 {
        -989_992
    } else if k == 4 {
        -653_644
    } else if k == 5 {
        283_662
    } else if k == 6 {
        960_170
    } else if k == 7 {
        753_902
    } else if k == 8 {
        -145_500
    } else if k == 9 {
        -911_130
    } else if k == 10 {
        -839_072
    } else if k == 11 {
        4_426
    } else if k == 12 {
        843_854
    } else if k == 13 {
        907_447
    } else if k == 14 {
        136_737
    } else {
        -759_688
    }
}

/// Half the displacement that brings `a` and `b` two radii apart: along
/// the line between them, or along a fixed direction chosen by `tie` where
/// they stand on the same spot.
pub open spec fn push_apart(a: Vector2, b: Vector2, radius: int, tie: int) -> Vector2 {
    let v = b.diff(a);
    let len = v.norm();
    if len > EPSILON {
        v.scaled(2 * radius - len, 2 * len)
    } else {
        tie_direction(tie).scaled(radius, UNIT as int)
    }
}

/// Entries `i` and `j` overlap: they are closer than two radii.
pub open spec fn overlapping(m: Seq<BodyMove>, i: int, j: int, radius: int) -> bool {
    m[i].spot().dist2(m[j].spot()) < 4 * (radius * radius)
}

/// The entries after the pair `i`, `j` has been pushed apart if it overlapped.
/// Both bodies give way by half; next to the head the body alone gives way.
pub open spec fn separated(m: Seq<BodyMove>, i: int, j: int, radius: int) -> Seq<BodyMove> {
    let a = m[i].spot();
    let b = m[j].spot();
    if overlapping(m, i, j, radius) {
        let d = push_apart(a, b, radius, i * m.len() + j);
        if i > 0 {
            m.update(i, m[i].at(a.diff(d).confined())).update(j, m[j].at(b.sum(d).confined()))
        } else {
            m.update(j, m[j].at(b.sum(d).sum(d).confined()))
        }
    } else {
        m
    }
}

/// The entries after the pairs `(i, j)`, `(i, j + 1)`, ... have been pushed apart.
pub open spec fn separated_row(m: Seq<BodyMove>, n: int, i: int, j: int, radius: int) -> Seq<BodyMove>
    decreases n - j,
{
    if j >= n {
        m
    } else {
        separated_row(separated(m, i, j, radius), n, i, j + 1, radius)
    }
}

/// The entries after every pair from row `i` on has been pushed apart.
pub open spec fn separated_from(m: Seq<BodyMove>, n: int, i: int, radius: int) -> Seq<BodyMove>
    decreases n - i,
{
    if i + 1 >= n {
        m
    } else {
        separated_from(separated_row(m, n, i, i + 1, radius), n, i + 1, radius)
    }
}

/// The entries after one pass that pushes every overlapping pair apart,
/// pair by pair in the order of their indices.
pub open spec fn separated_all(m: Seq<BodyMove>, radius: int) -> Seq<BodyMove> {
    separated_from(m, m.len() as int, 0, radius)
}

/// No component of a vector is longer than the vector.
pub proof fn lemma_component_le_norm(v: Vector2, len: int)
    requires
        is_sqrt(v.norm2(), len),
    ensures
        -len <= v.x <= len,
        -len <= v.y <= len,
{
    let x = v.x as int;
    let y = v.y as int;
    lemma_square_nonneg(x);
    lemma_square_nonneg(y);
    assert(-len <= x <= len) by (nonlinear_arith)
        requires
            0 <= len,
            x * x < (len + 1) * (len + 1),
    ;
    assert(-len <= y <= len) by (nonlinear_arith)
        requires
            0 <= len,
            y * y < (len + 1) * (len + 1),
    ;
}

/// Half a push is no longer than the overlap it undoes.
pub proof fn lemma_push_bound(a: int, num: int, len: int)
    requires
        -len <= a <= len,
        0 < len,
        0 < num,
    ensures
        -num <= scale(a, num, 2 * len) <= num,
{
    assert(-num <= (a * num) / (2 * len) <= num) by (nonlinear_arith)
        requires
            -len <= a <= len,
            0 < len,
            0 < num,
    ;
}

/// The root of a number below a square lies below the root of the square.
pub proof fn lemma_root_below(n: int, len: int, r: int)
    requires
        is_sqrt(n, len),
        n < 4 * (r * r),
        0 < r,
    ensures
        len < 2 * r,
{
    assert(len < 2 * r) by (nonlinear_arith)
        requires
            0 <= len,
            len * len <= n,
            n < 4 * (r * r),
            0 < r,
    ;
}

/// The direction chosen by `k`.
fn tie_vector(k: u8) -> (r: Vector2)
    requires
        k < 16,
    ensures
        r == tie_direction(k as int),
        r.within(UNIT as int),
{
    if k == 0 {
        Vector2 { x: 0, y: 1_000_000 }
    } else if k == 1 {
        Vector2 { x: 841_471, y: 540_302 }
    } else if k == 2 {
        Vector2 { x: 909_297, y: -416_147 }
    } else if k == 3 {
        Vector2 { x: 141_120, y: -989_992 }
    } else if k == 4 {
        Vector2 { x: -756_802, y: -653_644 }
    } else if k == 5 {
        Vector2 { x: -958_924, y: 283_662 }
    } else if k == 6 {
        Vector2 { x: -279_415, y: 960_170 }
    } else if k == 7 {
        Vector2 { x: 656_987, y: 753_902 }
    } else if k == 8 {
        Vector2 { x: 989_358, y: -145_500 }
    } else if k == 9 {
        Vector2 { x: 412_118, y: -911_130 }
    } else if k == 10 {
        Vector2 { x: -544_021, y: -839_072 }
    } else if k == 11 {
        Vector2 { x: -999_990, y: 4_426 }
    } else if k == 12 {
        Vector2 { x: -536_573, y: 843_854 }
    } else if k == 13 {
        Vector2 { x: 420_167, y: 907_447 }
    } else if k == 14 {
        Vector2 { x: 990_607, y: 136_737 }
    } else {
        Vector2 { x: 650_288, y: -759_688 }
    }
}

/// Four times the square of the radius.
fn reach_squared(radius: i64) -> (r: i128)
    requires
        0 < radius <= COORD_MAX,
    ensures
        r == 4 * (radius * radius),
        0 < r <= 4 * (COORD_MAX * COORD_MAX),
{
    proof {
        lemma_product_bound(radius as int, radius as int, COORD_MAX as int);
        assert(0 < radius * radius) by (nonlinear_arith)
            requires
                0 < radius,
        ;
    }
    4 * ((radius as i128) * (radius as i128))
}

/// Half the displacement that brings two overlapping spots two radii apart.
fn push_vector(a: Vector2, b: Vector2, radius: i64, i: usize, count: usize, j: usize) -> (d: Vector2)
    requires
        a.bounded(),
        b.bounded(),
        0 < radius <= COORD_MAX,
        a.dist2(b) < 4 * (radius * radius),
        i < count,
        j < count,
    ensures
        d == push_apart(a, b, radius as int, i * count + j),
        d.within(2 * radius),
{
    let v = b.minus(a);
    let len = v.length();
    proof {
        lemma_dist2_symmetric(a, b);
        lemma_component_le_norm(v, len as int);
        lemma_root_below(v.norm2(), len as int, radius as int);
    }
    if len > EPSILON {
        proof {
            lemma_push_bound(v.x as int, 2 * radius - len, len as int);
            lemma_push_bound(v.y as int, 2 * radius - len, len as int);
        }
        Vector2 {
            x: mul_div(v.x, 2 * radius - len, 2 * len),
            y: mul_div(v.y, 2 * radius - len, 2 * len),
        }
    } else {
        assert(i * count + j < 0x1_0000_0000_0000_0000 * 0x1_0000_0000_0000_0000) by (nonlinear_arith)
            requires
                0 <= i < count,
                0 <= j < count,
                count <= 0xffff_ffff_ffff_ffff,
        ;
        let n: u128 = (i as u128) * (count as u128) + (j as u128);
        let t = tie_vector((n % 16) as u8);
        proof {
            lemma_tie_scaled(t.x as int, radius as int);
            lemma_tie_scaled(t.y as int, radius as int);
        }
        Vector2 { x: mul_div(t.x, radius, UNIT), y: mul_div(t.y, radius, UNIT) }
    }
}

/// The distance from `a` to `b` is the distance from `b` to `a`.
pub proof fn lemma_dist2_symmetric(a: Vector2, b: Vector2)
    ensures
        a.dist2(b) == b.dist2(a),
{
    let x = a.x - b.x;
    let y = a.y - b.y;
    assert(x * x == (-x) * (-x)) by (nonlinear_arith);
    assert(y * y == (-y) * (-y)) by (nonlinear_arith);
}

/// A fixed direction scaled to a radius is no longer than the radius.
pub proof fn lemma_tie_scaled(a: int, radius: int)
    requires
        -UNIT <= a <= UNIT,
        0 < radius,
    ensures
        -radius <= scale(a, radius, UNIT as int) <= radius,
{
    assert(-radius <= (a * radius) / 1_000_000 <= radius) by (nonlinear_arith)
        requires
            -1_000_000 <= a <= 1_000_000,
            0 < radius,
    ;
}

/// Puts entry `k` at `p` in the plane.
fn place(m: &mut Vec<BodyMove>, k: usize, p: Vector2)
    requires
        moves_ok(old(m)@),
        k < old(m)@.len(),
        p.bounded(),
    ensures
        final(m)@ == old(m)@.update(k as int, old(m)@[k as int].at(p)),
        moves_ok(final(m)@),
{
    let bm = m[k];
    let moved = BodyMove { position: bm.position.set_xy(p), ..bm };
    m[k] = moved;
    proof {
        assert(old(m)@[k as int].wf());
        assert forall|q: int| 0 <= q < m@.len() implies (#[trigger] m@[q]).wf() by {
            if q != k {
                assert(old(m)@[q].wf());
            }
        }
    }
}

/// Pushes the pair `i`, `j` apart if it overlaps.
fn separate_pair(m: &mut Vec<BodyMove>, i: usize, j: usize, radius: i64)
    requires
        moves_ok(old(m)@),
        i < j < old(m)@.len(),
        0 < radius <= COORD_MAX,
    ensures
        final(m)@ == separated(old(m)@, i as int, j as int, radius as int),
        moves_ok(final(m)@),
        final(m)@.len() == old(m)@.len(),
{
    assert(m@[i as int].wf() && m@[j as int].wf());
    let a = m[i].position.xy();
    let b = m[j].position.xy();
    let rr4 = reach_squared(radius);
    if a.distance_squared(b) < rr4 {
        let d = push_vector(a, b, radius, i, m.len(), j);
        if i > 0 {
            place(m, i, a.minus(d).confine());
            place(m, j, b.plus(d).confine());
        } else {
            place(m, j, b.plus(d).plus(d).confine());
        }
    }
}

/// One pass that pushes every overlapping pair apart.
pub fn separate_all(m: &mut Vec<BodyMove>, radius: i64)
    requires
        moves_ok(old(m)@),
        0 < radius <= COORD_MAX,
    ensures
        final(m)@ == separated_all(old(m)@, radius as int),
        moves_ok(final(m)@),
        final(m)@.len() == old(m)@.len(),
{
    let n = m.len();
    let mut i: usize = 0;
    while i < n - 1
        invariant
            n == m@.len(),
            n == old(m)@.len(),
            i <= n,
            moves_ok(m@),
            0 < radius <= COORD_MAX,
            separated_from(m@, n as int, i as int, radius as int) == separated_all(
                old(m)@,
                radius as int,
            ),
        decreases n - i,
    {
        let mut j: usize = i + 1;
        while j < n
            invariant
                n == m@.len(),
                i < j <= n,
                moves_ok(m@),
                0 < radius <= COORD_MAX,
                separated_from(
                    separated_row(m@, n as int, i as int, j as int, radius as int),
                    n as int,
                    i + 1,
                    radius as int,
                ) == separated_all(old(m)@, radius as int),
            decreases n - j,
        {
            separate_pair(m, i, j, radius);
            j = j + 1;
        }
        i = i + 1;
    }
}

/// What turning `dp` by half a degree adds to it: clockwise or the other way.
pub open spec fn turn(dp: Vector2, clockwise: bool) -> Vector2 {
    let s = if clockwise {
        -TURN_SIN
    } else {
        TURN_SIN as int
    };
    Vector2 {
        x: ((TURN_COS_LESS_ONE * dp.x - s * dp.y) / (TURN_SCALE as int)) as i64,
        y: ((s * dp.x + TURN_COS_LESS_ONE * dp.y) / (TURN_SCALE as int)) as i64,
    }
}

/// The spot `p` overlaps no entry other than `i` and `j`.
pub open spec fn free(m: Seq<BodyMove>, i: int, j: int, p: Vector2, radius: int) -> bool {
    forall|k: int|
        0 <= k < m.len() && k != i && k != j ==> p.dist2((#[trigger] m[k]).spot()) >= 4 * (radius
            * radius)
}

/// Entries `i` and `j` touch or nearly touch while their targets lie the
/// other way round than they do: pushing them apart would undo itself.
pub open spec fn crossing(m: Seq<BodyMove>, i: int, j: int, radius: int) -> bool {
    let a = m[i].spot();
    let b = m[j].spot();
    &&& a.dist2(b) * 10_000 < 4 * (radius * radius) * 10_001
    &&& b.diff(a).dot(m[j].target.planar().diff(m[i].target.planar())) < 0
}

/// The entries after a crossing pair has been turned about its middle, a
/// body next to the head about the head. The side to which it turns is the
/// one its steps lean to. A turn that would make either body overlap a
/// third entry is not made.
pub open spec fn detoured(m: Seq<BodyMove>, i: int, j: int, radius: int) -> Seq<BodyMove> {
    let a = m[i].spot();
    let b = m[j].spot();
    if crossing(m, i, j, radius) {
        let dp = b.diff(a);
        let offset = turn(dp, m[i].delta.dot(dp.perp()) < m[j].delta.dot(dp.perp()));
        if i > 0 {
            let pa = a.diff(offset).confined();
            let pb = b.sum(offset).confined();
            if free(m, i, j, pa, radius) && free(m, i, j, pb, radius) {
                m.update(i, m[i].at(pa)).update(j, m[j].at(pb))
            } else {
                m
            }
        } else {
            let p = b.sum(offset).sum(offset).confined();
            if free(m, i, j, p, radius) {
                m.update(j, m[j].at(p))
            } else {
                m
            }
        }
    } else {
        m
    }
}

/// The entries after the pairs `(i, j)`, `(i, j + 1)`, ... have been turned.
pub open spec fn detoured_row(m: Seq<BodyMove>, n: int, i: int, j: int, radius: int) -> Seq<BodyMove>
    decreases n - j,
{
    if j >= n {
        m
    } else {
        detoured_row(detoured(m, i, j, radius), n, i, j + 1, radius)
    }
}

/// The entries after every pair from row `i` on has been turned.
pub open spec fn detoured_from(m: Seq<BodyMove>, n: int, i: int, radius: int) -> Seq<BodyMove>
    decreases n - i,
{
    if i + 1 >= n {
        m
    } else {
        detoured_from(detoured_row(m, n, i, i + 1, radius), n, i + 1, radius)
    }
}

/// The entries after one pass that turns every crossing pair, pair by pair
/// in the order of their indices.
pub open spec fn detoured_all(m: Seq<BodyMove>, radius: int) -> Seq<BodyMove> {
    detoured_from(m, m.len() as int, 0, radius)
}

/// Where the speed limit leaves an entry in the plane. An entry farther
/// from where it began the round than it may go is brought back onto its
/// limit; one that has moved less than an eighth of `min_move` goes back
/// to where it began the round.
pub open spec fn limited(bm: BodyMove, min_move: int) -> Vector2 {
    let o = bm.origin.planar();
    let p = bm.spot();
    let distance = o.dist(p);
    if distance * SOLVE_STEP >= min_move {
        if distance > bm.max_move {
            o.sum(p.diff(o).scaled(bm.max_move as int, distance))
        } else {
            p
        }
    } else {
        o
    }
}

/// An entry at the end of a round: held to its speed limit and brought
/// onto the ground, which must hand back a point of the world or is held
/// to it.
pub open spec fn settled<G: GroundProjector>(bm: BodyMove, min_move: int, ground: Option<&G>) -> BodyMove {
    let held = bm.position.with_planar(limited(bm, min_move));
    BodyMove {
        position: match ground {
            Some(g) => g.fix_spec(held, bm.origin).confined(),
            None => held,
        },
        ..bm
    }
}

/// Every body has been settled; the head has not moved.
pub open spec fn settled_all<G: GroundProjector>(
    m: Seq<BodyMove>,
    min_move: int,
    ground: Option<&G>,
) -> Seq<BodyMove> {
    Seq::new(
        m.len(),
        |k: int|
            if k == 0 {
                m[0]
            } else {
                settled(m[k], min_move, ground)
            },
    )
}

/// The entries after one round.
pub open spec fn round<G: GroundProjector>(
    m: Seq<BodyMove>,
    min_move: int,
    radius: int,
    ground: Option<&G>,
) -> Seq<BodyMove> {
    settled_all(
        detoured_all(separated_all(stepped_all(started(m)), radius), radius),
        min_move,
        ground,
    )
}

/// The entries after `rounds` rounds.
pub open spec fn relaxed<G: GroundProjector>(
    m: Seq<BodyMove>,
    min_move: int,
    radius: int,
    ground: Option<&G>,
    rounds: int,
) -> Seq<BodyMove>
    decreases rounds,
{
    if rounds <= 0 {
        m
    } else {
        relaxed(round(m, min_move, radius, ground), min_move, radius, ground, rounds - 1)
    }
}

/// What turning `dp` by half a degree adds to it.
fn turn_offset(dp: Vector2, clockwise: bool) -> (r: Vector2)
    requires
        dp.within(2 * COORD_MAX),
    ensures
        r == turn(dp, clockwise),
        r.within(40_000_000_000),
{
    let s: i128 = if clockwise {
        -(TURN_SIN as i128)
    } else {
        TURN_SIN as i128
    };
    let c: i128 = TURN_COS_LESS_ONE as i128;
    let x: i128 = dp.x as i128;
    let y: i128 = dp.y as i128;
    assert(-18_000_000_000_000_000_000_000 <= s * y <= 18_000_000_000_000_000_000_000
        && -18_000_000_000_000_000_000_000 <= s * x <= 18_000_000_000_000_000_000_000
        && -80_000_000_000_000_000_000 <= c * x <= 80_000_000_000_000_000_000
        && -80_000_000_000_000_000_000 <= c * y <= 80_000_000_000_000_000_000) by (nonlinear_arith)
        requires
            -8_726_535_498 <= s <= 8_726_535_498,
            c == -38_076_936,
            -2_000_000_000_000 <= x <= 2_000_000_000_000,
            -2_000_000_000_000 <= y <= 2_000_000_000_000,
    ;
    let tx: i128 = div_floor(c * x - s * y, TURN_SCALE as i128);
    let ty: i128 = div_floor(s * x + c * y, TURN_SCALE as i128);
    Vector2 { x: tx as i64, y: ty as i64 }
}

/// Whether the spot `p` overlaps no entry other than `i` and `j`.
fn is_free(m: &Vec<BodyMove>, i: usize, j: usize, p: Vector2, radius: i64) -> (ok: bool)
    requires
        moves_ok(m@),
        p.bounded(),
        0 < radius <= COORD_MAX,
    ensures
        ok == free(m@, i as int, j as int, p, radius as int),
{
    let rr4 = reach_squared(radius);
    let mut k: usize = 0;
    while k < m.len()
        invariant
            k <= m@.len(),
            moves_ok(m@),
            p.bounded(),
            rr4 == 4 * (radius * radius),
            forall|q: int|
                0 <= q < k && q != i && q != j ==> p.dist2((#[trigger] m@[q]).spot()) >= rr4,
        decreases m@.len() - k,
    {
        assert(m@[k as int].wf());
        if k != i && k != j && p.distance_squared(m[k].position.xy()) < rr4 {
            return false;
        }
        k = k + 1;
    }
    true
}

/// Turns the pair `i`, `j` if it is crossing.
fn detour_pair(m: &mut Vec<BodyMove>, i: usize, j: usize, radius: i64)
    requires
        moves_ok(old(m)@),
        i < j < old(m)@.len(),
        0 < radius <= COORD_MAX,
    ensures
        final(m)@ == detoured(old(m)@, i as int, j as int, radius as int),
        moves_ok(final(m)@),
        final(m)@.len() == old(m)@.len(),
{
    assert(m@[i as int].wf() && m@[j as int].wf());
    let a = m[i].position.xy();
    let b = m[j].position.xy();
    let rr4 = reach_squared(radius);
    let d2 = a.distance_squared(b);
    proof {
        lemma_dist2_bound(a, b);
    }
    if d2 * 10_000 >= rr4 * 10_001 {
        return;
    }
    let dp = b.minus(a);
    let tv = m[j].target.xy().minus(m[i].target.xy());
    if dp.dot_product(tv) >= 0 {
        return;
    }
    let side = Vector2 { x: dp.y, y: -dp.x };
    let clockwise = m[i].delta.dot_product(side) < m[j].delta.dot_product(side);
    let offset = turn_offset(dp, clockwise);
    if i > 0 {
        let pa = a.minus(offset).confine();
        let pb = b.plus(offset).confine();
        if is_free(m, i, j, pa, radius) && is_free(m, i, j, pb, radius) {
            place(m, i, pa);
            place(m, j, pb);
        }
    } else {
        let p = b.plus(offset).plus(offset).confine();
        if is_free(m, i, j, p, radius) {
            place(m, j, p);
        }
    }
}

/// Two spots of the world are not too far apart for their squared distance
/// to be scaled.
pub proof fn lemma_dist2_bound(a: Vector2, b: Vector2)
    requires
        a.bounded(),
        b.bounded(),
    ensures
        0 <= a.dist2(b) <= 8 * (COORD_MAX * COORD_MAX),
{
    let x = a.x - b.x;
    let y = a.y - b.y;
    lemma_product_bound(x, x, 2 * COORD_MAX);
    lemma_product_bound(y, y, 2 * COORD_MAX);
    assert((2 * COORD_MAX) * (2 * COORD_MAX) == 4 * (COORD_MAX * COORD_MAX)) by (nonlinear_arith);
    lemma_square_nonneg(x);
    lemma_square_nonneg(y);
}

/// One pass that turns every crossing pair.
pub fn detour_all(m: &mut Vec<BodyMove>, radius: i64)
    requires
        moves_ok(old(m)@),
        0 < radius <= COORD_MAX,
    ensures
        final(m)@ == detoured_all(old(m)@, radius as int),
        moves_ok(final(m)@),
        final(m)@.len() == old(m)@.len(),
{
    let n = m.len();
    let mut i: usize = 0;
    while i < n - 1
        invariant
            n == m@.len(),
            n == old(m)@.len(),
            i <= n,
            moves_ok(m@),
            0 < radius <= COORD_MAX,
            detoured_from(m@, n as int, i as int, radius as int) == detoured_all(
                old(m)@,
                radius as int,
            ),
        decreases n - i,
    {
        let mut j: usize = i + 1;
        while j < n
            invariant
                n == m@.len(),
                i < j <= n,
                moves_ok(m@),
                0 < radius <= COORD_MAX,
                detoured_from(
                    detoured_row(m@, n as int, i as int, j as int, radius as int),
                    n as int,
                    i + 1,
                    radius as int,
                ) == detoured_all(old(m)@, radius as int),
            decreases n - j,
        {
            detour_pair(m, i, j, radius);
            j = j + 1;
        }
        i = i + 1;
    }
}

/// Every entry begins the round where it stands.
pub fn start_round(m: &mut Vec<BodyMove>)
    requires
        moves_ok(old(m)@),
    ensures
        final(m)@ == started(old(m)@),
        moves_ok(final(m)@),
        final(m)@.len() == old(m)@.len(),
{
    let n = m.len();
    let mut k: usize = 0;
    while k < n
        invariant
            k <= n,
            n == m@.len(),
            n == old(m)@.len(),
            moves_ok(m@),
            forall|q: int|
                0 <= q < k ==> #[trigger] m@[q] == (BodyMove {
                    origin: old(m)@[q].position,
                    ..old(m)@[q]
                }),
            forall|q: int| k <= q < n ==> #[trigger] m@[q] == old(m)@[q],
        decreases n - k,
    {
        let bm = m[k];
        assert(bm.wf());
        let ghost before = m@;
        m[k] = BodyMove { origin: bm.position, ..bm };
        proof {
            assert forall|q: int| 0 <= q < m@.len() implies (#[trigger] m@[q]).wf() by {
                if q != k {
                    assert(before[q].wf());
                }
            }
        }
        k = k + 1;
    }
    assert(m@ =~= started(old(m)@));
}

/// Every body takes one round's step toward its target.
pub fn step_all(m: &mut Vec<BodyMove>)
    requires
        moves_ok(old(m)@),
    ensures
        final(m)@ == stepped_all(old(m)@),
        moves_ok(final(m)@),
        final(m)@.len() == old(m)@.len(),
{
    let n = m.len();
    let mut k: usize = 1;
    while k < n
        invariant
            1 <= k <= n,
            n == m@.len(),
            n == old(m)@.len(),
            moves_ok(m@),
            moves_ok(old(m)@),
            m@[0] == old(m)@[0],
            forall|q: int| 1 <= q < k ==> #[trigger] m@[q] == stepped(old(m)@[q]),
            forall|q: int| k <= q < n ==> #[trigger] m@[q] == old(m)@[q],
        decreases n - k,
    {
        let bm = m[k];
        assert(bm.wf());
        let step = bm.delta.shrink(1, SOLVE_STEP);
        place(m, k, bm.position.xy().plus(step).confine());
        k = k + 1;
    }
    assert(m@ =~= stepped_all(old(m)@));
}

/// Where the speed limit leaves an entry.
fn limit_move(bm: &BodyMove, min_move: i64) -> (r: Vector2)
    requires
        bm.wf(),
    ensures
        r == limited(*bm, min_move as int),
        r.bounded(),
{
    let o = bm.origin.xy();
    let p = bm.position.xy();
    let distance = o.distance(p);
    if (distance as i128) * (SOLVE_STEP as i128) >= min_move as i128 {
        if distance > bm.max_move {
            let gap = p.minus(o);
            proof {
                lemma_scale_within(gap.x as int, bm.max_move as int, distance as int);
                lemma_scale_within(gap.y as int, bm.max_move as int, distance as int);
            }
            let step = gap.shrink(bm.max_move, distance);
            o.plus(step)
        } else {
            p
        }
    } else {
        o
    }
}

/// Every body is held to its speed limit and brought onto the ground.
pub fn settle_all<G: GroundProjector>(m: &mut Vec<BodyMove>, min_move: i64, ground: Option<&G>)
    requires
        moves_ok(old(m)@),
    ensures
        final(m)@ == settled_all(old(m)@, min_move as int, ground),
        moves_ok(final(m)@),
        final(m)@.len() == old(m)@.len(),
{
    let n = m.len();
    let mut k: usize = 1;
    while k < n
        invariant
            1 <= k <= n,
            n == m@.len(),
            n == old(m)@.len(),
            moves_ok(m@),
            moves_ok(old(m)@),
            m@[0] == old(m)@[0],
            forall|q: int| 1 <= q < k ==> #[trigger] m@[q] == settled(old(m)@[q], min_move as int, ground),
            forall|q: int| k <= q < n ==> #[trigger] m@[q] == old(m)@[q],
        decreases n - k,
    {
        let bm = m[k];
        assert(bm.wf());
        let spot = limit_move(&bm, min_move);
        let held = bm.position.set_xy(spot);
        let position = match ground {
            Some(g) => g.fix(held, bm.origin).confine(),
            None => held,
        };
        let ghost before = m@;
        m[k] = BodyMove { position, ..bm };
        proof {
            assert forall|q: int| 0 <= q < m@.len() implies (#[trigger] m@[q]).wf() by {
                if q != k {
                    assert(before[q].wf());
                }
            }
        }
        k = k + 1;
    }
    assert(m@ =~= settled_all(old(m)@, min_move as int, ground));
}

/// Solves a tick: [`SOLVE_STEP`] rounds over the head and the bodies.
pub fn relax<G: GroundProjector>(m: &mut Vec<BodyMove>, min_move: i64, radius: i64, ground: Option<&G>)
    requires
        moves_ok(old(m)@),
        0 < radius <= COORD_MAX,
    ensures
        final(m)@ == relaxed(old(m)@, min_move as int, radius as int, ground, SOLVE_STEP as int),
        moves_ok(final(m)@),
        final(m)@.len() == old(m)@.len(),
{
    let mut left: i64 = SOLVE_STEP;
    while left > 0
        invariant
            0 <= left <= SOLVE_STEP,
            moves_ok(m@),
            m@.len() == old(m)@.len(),
            0 < radius <= COORD_MAX,
            relaxed(m@, min_move as int, radius as int, ground, left as int) == relaxed(
                old(m)@,
                min_move as int,
                radius as int,
                ground,
                SOLVE_STEP as int,
            ),
        decreases left,
    {
        start_round(m);
        step_all(m);
        separate_all(m, radius);
        detour_all(m, radius);
        settle_all(m, min_move, ground);
        left = left - 1;
    }
}

} // verus!

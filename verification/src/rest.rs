//! A chain at rest: bodies that stand on their targets, clear of each
//! other, stay where they are.

use vstd::prelude::*;
use crate::chain::ChainView;
use crate::fixed::{is_sqrt, lemma_sqrt_is, spec_max, COORD_MAX};
use crate::follow::{lemma_updated_wf, lowest_segment};
use crate::relax::{
    crossing, detoured, detoured_all, detoured_from, detoured_row, limited, overlapping, relaxed,
    round, separated, separated_all, separated_from, separated_row, settled, settled_all, started,
    stepped, stepped_all, BodyMove, GroundProjector, SOLVE_STEP,
};
use crate::solve::{committed, lemma_boosted};
use crate::vector::{lemma_square_nonneg, Vector2};

verus! {

/// Every entry stands in the world where it began the round, on its target
/// in the plane, and has no step to take.
pub open spec fn at_rest(m: Seq<BodyMove>) -> bool {
    forall|k: int|
        0 <= k < m.len() ==> {
            &&& (#[trigger] m[k]).position == m[k].origin
            &&& m[k].position.bounded()
            &&& m[k].spot() == m[k].target.planar()
            &&& m[k].delta == (Vector2 { x: 0, y: 0 })
            &&& 0 <= m[k].max_move
        }
}

/// The ground, if there is one, leaves every body where it stands.
pub open spec fn ground_holds<G: GroundProjector>(m: Seq<BodyMove>, ground: Option<&G>) -> bool {
    match ground {
        Some(g) => forall|k: int|
            0 < k < m.len() ==> g.fix_spec((#[trigger] m[k]).position, m[k].position).confined()
                == m[k].position,
        None => true,
    }
}

/// No two entries overlap.
pub open spec fn spaced(m: Seq<BodyMove>, radius: int) -> bool {
    forall|i: int, j: int| 0 <= i < j < m.len() ==> !#[trigger] overlapping(m, i, j, radius)
}

/// The head and the bodies of a chain stand at least two radii apart from
/// each other in the plane.
pub open spec fn apart(v: ChainView, radius: int) -> bool {
    &&& forall|k: int|
        0 <= k < v.bodies.len() ==> v.position.planar().dist2(
            (#[trigger] v.bodies[k]).position.planar(),
        ) >= 4 * (radius * radius)
    &&& forall|i: int, j: int|
        0 <= i < j < v.bodies.len() ==> (#[trigger] v.bodies[i]).position.planar().dist2(
            (#[trigger] v.bodies[j]).position.planar(),
        ) >= 4 * (radius * radius)
}

/// Every body of the chain stands, in the plane, on the target that the
/// tick gives it.
pub open spec fn on_targets(v: ChainView, max_move: int, radius: int) -> bool {
    forall|k: int|
        0 <= k < v.bodies.len() ==> v.sampled(#[trigger] v.bodies[k], max_move, radius).target.planar()
            == v.bodies[k].position.planar()
}

/// A point is no way from itself.
pub proof fn lemma_dist_self(p: Vector2)
    ensures
        p.dist2(p) == 0,
        p.dist(p) == 0,
{
    let x = p.x - p.x;
    let y = p.y - p.y;
    assert(x * x + y * y == 0) by (nonlinear_arith)
        requires
            x == 0,
            y == 0,
    ;
    assert(is_sqrt(0, 0));
    lemma_sqrt_is(0, 0);
}

proof fn lemma_stepped_rest(m: Seq<BodyMove>)
    requires
        at_rest(m),
        m.len() > 0,
    ensures
        stepped_all(m) == m,
{
    assert forall|k: int| 0 < k < m.len() implies stepped(#[trigger] m[k]) == m[k] by {
        let bm = m[k];
        assert(bm.delta.scaled(1, SOLVE_STEP as int) == (Vector2 { x: 0, y: 0 }));
        assert(bm.spot().sum(Vector2 { x: 0, y: 0 }) == bm.spot());
        assert(bm.spot().confined() == bm.spot());
        assert(bm.position.with_planar(bm.spot()) == bm.position);
    }
    assert(stepped_all(m) =~= m);
}

proof fn lemma_separated_row_rest(m: Seq<BodyMove>, n: int, i: int, j: int, radius: int)
    requires
        spaced(m, radius),
        n == m.len(),
        0 <= i < j,
    ensures
        separated_row(m, n, i, j, radius) == m,
    decreases n - j,
{
    if j < n {
        assert(!overlapping(m, i, j, radius));
        assert(separated(m, i, j, radius) == m);
        lemma_separated_row_rest(m, n, i, j + 1, radius);
    }
}

proof fn lemma_separated_from_rest(m: Seq<BodyMove>, n: int, i: int, radius: int)
    requires
        spaced(m, radius),
        n == m.len(),
        0 <= i,
    ensures
        separated_from(m, n, i, radius) == m,
    decreases n - i,
{
    if i + 1 < n {
        lemma_separated_row_rest(m, n, i, i + 1, radius);
        lemma_separated_from_rest(m, n, i + 1, radius);
    }
}

proof fn lemma_not_crossing(m: Seq<BodyMove>, i: int, j: int, radius: int)
    requires
        at_rest(m),
        0 <= i < m.len(),
        0 <= j < m.len(),
    ensures
        !crossing(m, i, j, radius),
{
    let dp = m[j].spot().diff(m[i].spot());
    assert(m[j].target.planar().diff(m[i].target.planar()) == dp);
    lemma_square_nonneg(dp.x as int);
    lemma_square_nonneg(dp.y as int);
    assert(dp.dot(dp) >= 0);
}

proof fn lemma_detoured_row_rest(m: Seq<BodyMove>, n: int, i: int, j: int, radius: int)
    requires
        at_rest(m),
        n == m.len(),
        0 <= i < j,
    ensures
        detoured_row(m, n, i, j, radius) == m,
    decreases n - j,
{
    if j < n {
        lemma_not_crossing(m, i, j, radius);
        assert(detoured(m, i, j, radius) == m);
        lemma_detoured_row_rest(m, n, i, j + 1, radius);
    }
}

proof fn lemma_detoured_from_rest(m: Seq<BodyMove>, n: int, i: int, radius: int)
    requires
        at_rest(m),
        n == m.len(),
        0 <= i,
    ensures
        detoured_from(m, n, i, radius) == m,
    decreases n - i,
{
    if i + 1 < n {
        lemma_detoured_row_rest(m, n, i, i + 1, radius);
        lemma_detoured_from_rest(m, n, i + 1, radius);
    }
}

proof fn lemma_settled_rest<G: GroundProjector>(m: Seq<BodyMove>, min_move: int, ground: Option<&G>)
    requires
        at_rest(m),
        m.len() > 0,
        ground_holds(m, ground),
    ensures
        settled_all(m, min_move, ground) == m,
{
    assert forall|k: int| 0 < k < m.len() implies settled(#[trigger] m[k], min_move, ground)
        == m[k] by {
        let bm = m[k];
        let p = bm.spot();
        assert(bm.origin.planar() == p);
        lemma_dist_self(p);
        assert(limited(bm, min_move) == p);
        assert(bm.position.with_planar(p) == bm.position);
    }
    assert(settled_all(m, min_move, ground) =~= m);
}

/// A round leaves entries at rest, clear of each other, where they are,
/// provided that the ground, if there is one, does.
pub proof fn lemma_round_rest<G: GroundProjector>(
    m: Seq<BodyMove>,
    min_move: int,
    radius: int,
    ground: Option<&G>,
)
    requires
        at_rest(m),
        spaced(m, radius),
        m.len() > 0,
        ground_holds(m, ground),
    ensures
        round(m, min_move, radius, ground) == m,
{
    assert(started(m) =~= m);
    lemma_stepped_rest(m);
    lemma_separated_from_rest(m, m.len() as int, 0, radius);
    assert(separated_all(m, radius) == m);
    lemma_detoured_from_rest(m, m.len() as int, 0, radius);
    assert(detoured_all(m, radius) == m);
    lemma_settled_rest(m, min_move, ground);
}

/// Any number of rounds leaves entries at rest, clear of each other, where
/// they are.
pub proof fn lemma_relaxed_rest<G: GroundProjector>(
    m: Seq<BodyMove>,
    min_move: int,
    radius: int,
    ground: Option<&G>,
    rounds: int,
)
    requires
        at_rest(m),
        spaced(m, radius),
        m.len() > 0,
        ground_holds(m, ground),
    ensures
        relaxed(m, min_move, radius, ground, rounds) == m,
    decreases rounds,
{
    if rounds > 0 {
        lemma_round_rest(m, min_move, radius, ground);
        lemma_relaxed_rest(m, min_move, radius, ground, rounds - 1);
    }
}

/// Idempotence: let the bodies have their turns to move on along the
/// segments. If after that every body stands on the target that the tick
/// gives it, the head and the bodies stand two radii apart, and the
/// ground, if there is one, leaves every body where it stands, then the
/// tick moves nobody: every body keeps its position, and the head and the
/// bodies still stand two radii apart.
pub proof fn lemma_solve_idempotent<G: GroundProjector>(
    v: ChainView,
    max_move: int,
    min_move: int,
    radius: int,
    ground: Option<&G>,
)
    requires
        v.wf(),
        v.distances.len() > 0,
        0 <= max_move <= COORD_MAX,
        0 < radius,
        ground_holds(v.updated(radius).entries(max_move, radius), ground),
        on_targets(v.updated(radius), max_move, radius),
        apart(v.updated(radius), radius),
    ensures
        v.solved(max_move, min_move, radius, ground).bodies.len() == v.bodies.len(),
        forall|k: int|
            0 <= k < v.bodies.len() ==> (#[trigger] v.solved(
                max_move,
                min_move,
                radius,
                ground,
            ).bodies[k]).position == v.updated(radius).bodies[k].position,
        forall|k: int|
            0 <= k < v.bodies.len() ==> (#[trigger] v.solved(
                max_move,
                min_move,
                radius,
                ground,
            ).bodies[k]).target == v.updated(radius).sampled(
                v.updated(radius).bodies[k],
                max_move,
                radius,
            ).target,
        apart(v.solved(max_move, min_move, radius, ground), radius),
{
    let u = v.updated(radius);
    lemma_updated_wf(v, radius);
    let m = u.entries(max_move, radius);
    assert forall|k: int| 0 <= k < m.len() implies {
        &&& (#[trigger] m[k]).position == m[k].origin
        &&& m[k].position.bounded()
        &&& m[k].spot() == m[k].target.planar()
        &&& m[k].delta == (Vector2 { x: 0, y: 0 })
        &&& 0 <= m[k].max_move
    } by {
        if k > 0 {
            let b = u.bodies[k - 1];
            assert(u.body_ok(b));
            let s = u.sampled(b, max_move, radius);
            assert(m[k] == s);
            let p = b.position.planar();
            assert(s.target.planar() == p);
            lemma_dist_self(p);
            let at = u.position_at(b.segment - u.segment_first, u.query(b));
            let expect = spec_max(0 - spec_max(at.1, 0), 0);
            lemma_boosted(max_move, expect, radius);
        }
    }
    assert(at_rest(m));
    assert forall|i: int, j: int| 0 <= i < j < m.len() implies !#[trigger] overlapping(
        m,
        i,
        j,
        radius,
    ) by {
        if i == 0 {
            assert(m[0].spot() == u.position.planar());
            assert(m[j].spot() == u.bodies[j - 1].position.planar());
        } else {
            assert(m[i].spot() == u.bodies[i - 1].position.planar());
            assert(m[j].spot() == u.bodies[j - 1].position.planar());
        }
    }
    lemma_relaxed_rest(m, min_move, radius, ground, SOLVE_STEP as int);
    let w = v.solved(max_move, min_move, radius, ground);
    assert(w.bodies == committed(u.bodies, m));
    assert forall|k: int| 0 <= k < w.bodies.len() implies (#[trigger] w.bodies[k]).position
        == u.bodies[k].position && w.bodies[k].target == u.sampled(
        u.bodies[k],
        max_move,
        radius,
    ).target by {
        assert(m[k + 1] == u.sampled(u.bodies[k], max_move, radius));
    }
}

/// The chain rests: the head has moved; no body has a segment to move on
/// to, and none has left a segment behind that could be dropped; every
/// body holds the target that a tick gives it and stands on it in the
/// plane; and the head and the bodies stand two radii apart.
pub open spec fn resting(v: ChainView, max_move: int, radius: int) -> bool {
    &&& v.distances.len() > 0
    &&& forall|k: int|
        0 <= k < v.bodies.len() ==> !v.can_leave(#[trigger] v.bodies[k]) && v.bodies[k].target
            == v.sampled(v.bodies[k], max_move, radius).target
            && v.bodies[k].position.planar() == v.bodies[k].target.planar()
    &&& v.bodies.len() > 0 ==> lowest_segment(v.bodies) <= v.segment_first
    &&& apart(v, radius)
}

/// The state after `n` ticks with the same arguments and no movement of
/// the head between them.
pub open spec fn ticks<G: GroundProjector>(
    v: ChainView,
    max_move: int,
    min_move: int,
    radius: int,
    ground: Option<&G>,
    n: nat,
) -> ChainView
    decreases n,
{
    if n == 0 {
        v
    } else {
        ticks(
            v.solved(max_move, min_move, radius, ground),
            max_move,
            min_move,
            radius,
            ground,
            (n - 1) as nat,
        )
    }
}

proof fn lemma_no_turns(v: ChainView, n: int, radius: int)
    requires
        forall|k: int| 0 <= k < v.bodies.len() ==> !v.can_leave(#[trigger] v.bodies[k]),
        0 <= n <= v.bodies.len(),
    ensures
        v.advance_upto(n, radius) == v.bodies.take(n),
    decreases n,
{
    if n > 0 {
        lemma_no_turns(v, n - 1, radius);
        assert(!v.can_leave(v.bodies[n - 1]));
        assert(v.advance_upto(n, radius) =~= v.bodies.take(n));
    } else {
        assert(v.advance_upto(n, radius) =~= v.bodies.take(n));
    }
}

/// Idempotence, from the state before the call: a tick leaves a chain
/// that rests exactly as it is, provided that the ground, if there is one,
/// leaves every body where it stands.
pub proof fn lemma_rest_is_fixed_point<G: GroundProjector>(
    v: ChainView,
    max_move: int,
    min_move: int,
    radius: int,
    ground: Option<&G>,
)
    requires
        v.wf(),
        0 <= max_move <= COORD_MAX,
        0 < radius,
        resting(v, max_move, radius),
        ground_holds(v.entries(max_move, radius), ground),
    ensures
        v.solved(max_move, min_move, radius, ground) == v,
{
    lemma_no_turns(v, v.bodies.len() as int, radius);
    assert(v.bodies.take(v.bodies.len() as int) =~= v.bodies);
    let turned = ChainView { bodies: v.advance_upto(v.bodies.len() as int, radius), ..v };
    assert(turned == v);
    assert(v.updated(radius) == v);
    lemma_solve_idempotent(v, max_move, min_move, radius, ground);
    let w = v.solved(max_move, min_move, radius, ground);
    assert forall|k: int| 0 <= k < v.bodies.len() implies #[trigger] w.bodies[k] == v.bodies[k] by {
        assert(!v.can_leave(v.bodies[k]));
    }
    assert(w.bodies =~= v.bodies);
}

/// Idempotence, call after call: any number of ticks leaves a chain that
/// rests exactly as it is.
pub proof fn lemma_rest_stays<G: GroundProjector>(
    v: ChainView,
    max_move: int,
    min_move: int,
    radius: int,
    ground: Option<&G>,
    n: nat,
)
    requires
        v.wf(),
        0 <= max_move <= COORD_MAX,
        0 < radius,
        resting(v, max_move, radius),
        ground_holds(v.entries(max_move, radius), ground),
    ensures
        ticks(v, max_move, min_move, radius, ground, n) == v,
    decreases n,
{
    if n > 0 {
        lemma_rest_is_fixed_point(v, max_move, min_move, radius, ground);
        lemma_rest_stays(v, max_move, min_move, radius, ground, (n - 1) as nat);
    }
}

} // verus!

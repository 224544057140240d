//! What solving a tick leaves untouched: the head, and what every body
//! brought into the tick but its position.

use vstd::prelude::*;
use crate::chain::ChainView;
use crate::follow::lemma_updated_wf;
use crate::relax::{
    detoured, detoured_all, detoured_from, detoured_row, relaxed, round, separated, separated_all,
    separated_from, separated_row, settled_all, started, stepped_all, BodyMove, GroundProjector,
    SOLVE_STEP,
};

verus! {

/// The entries `b` are the entries `a` moved: the head stands where it
/// stood, and every entry has kept its target, its step and its limit.
pub open spec fn moved(a: Seq<BodyMove>, b: Seq<BodyMove>) -> bool {
    &&& b.len() == a.len()
    &&& a.len() > 0 ==> b[0].position == a[0].position
    &&& forall|k: int|
        0 <= k < a.len() ==> (#[trigger] b[k]).target == a[k].target && b[k].delta == a[k].delta
            && b[k].max_move == a[k].max_move
}

proof fn lemma_separated_moved(m: Seq<BodyMove>, i: int, j: int, radius: int)
    requires
        0 <= i < j < m.len(),
    ensures
        moved(m, separated(m, i, j, radius)),
{
}

proof fn lemma_separated_row_moved(m: Seq<BodyMove>, n: int, i: int, j: int, radius: int)
    requires
        n == m.len(),
        0 <= i < j,
    ensures
        moved(m, separated_row(m, n, i, j, radius)),
    decreases n - j,
{
    if j < n {
        lemma_separated_moved(m, i, j, radius);
        lemma_separated_row_moved(separated(m, i, j, radius), n, i, j + 1, radius);
    }
}

proof fn lemma_separated_from_moved(m: Seq<BodyMove>, n: int, i: int, radius: int)
    requires
        n == m.len(),
        0 <= i,
    ensures
        moved(m, separated_from(m, n, i, radius)),
    decreases n - i,
{
    if i + 1 < n {
        lemma_separated_row_moved(m, n, i, i + 1, radius);
        lemma_separated_from_moved(separated_row(m, n, i, i + 1, radius), n, i + 1, radius);
    }
}

proof fn lemma_detoured_moved(m: Seq<BodyMove>, i: int, j: int, radius: int)
    requires
        0 <= i < j < m.len(),
    ensures
        moved(m, detoured(m, i, j, radius)),
{
}

proof fn lemma_detoured_row_moved(m: Seq<BodyMove>, n: int, i: int, j: int, radius: int)
    requires
        n == m.len(),
        0 <= i < j,
    ensures
        moved(m, detoured_row(m, n, i, j, radius)),
    decreases n - j,
{
    if j < n {
        lemma_detoured_moved(m, i, j, radius);
        lemma_detoured_row_moved(detoured(m, i, j, radius), n, i, j + 1, radius);
    }
}

proof fn lemma_detoured_from_moved(m: Seq<BodyMove>, n: int, i: int, radius: int)
    requires
        n == m.len(),
        0 <= i,
    ensures
        moved(m, detoured_from(m, n, i, radius)),
    decreases n - i,
{
    if i + 1 < n {
        lemma_detoured_row_moved(m, n, i, i + 1, radius);
        lemma_detoured_from_moved(detoured_row(m, n, i, i + 1, radius), n, i + 1, radius);
    }
}

/// A round does not move the head, and leaves every entry its target,
/// its step and its limit.
pub proof fn lemma_round_moved<G: GroundProjector>(
    m: Seq<BodyMove>,
    min_move: int,
    radius: int,
    ground: Option<&G>,
)
    ensures
        moved(m, round(m, min_move, radius, ground)),
{
    let a = started(m);
    let b = stepped_all(a);
    let c = separated_all(b, radius);
    let d = detoured_all(c, radius);
    let e = settled_all(d, min_move, ground);
    assert(moved(m, a));
    assert(moved(a, b));
    lemma_separated_from_moved(b, b.len() as int, 0, radius);
    lemma_detoured_from_moved(c, c.len() as int, 0, radius);
    assert(moved(d, e));
}

/// Rounds do not move the head, and leave every entry its target, its
/// step and its limit.
pub proof fn lemma_relaxed_moved<G: GroundProjector>(
    m: Seq<BodyMove>,
    min_move: int,
    radius: int,
    ground: Option<&G>,
    rounds: int,
)
    ensures
        moved(m, relaxed(m, min_move, radius, ground, rounds)),
    decreases rounds,
{
    if rounds > 0 {
        lemma_round_moved(m, min_move, radius, ground);
        lemma_relaxed_moved(round(m, min_move, radius, ground), min_move, radius, ground, rounds - 1);
    }
}

/// A tick leaves every body the target that it was given when the tick
/// began: the point of its segment at the arc length it asked for.
pub proof fn lemma_tick_commits_targets<G: GroundProjector>(
    v: ChainView,
    max_move: int,
    min_move: int,
    radius: int,
    ground: Option<&G>,
    k: int,
)
    requires
        v.wf(),
        v.distances.len() > 0,
        0 <= k < v.bodies.len(),
    ensures
        v.solved(max_move, min_move, radius, ground).bodies[k].target == v.updated(radius).sampled(
            v.updated(radius).bodies[k],
            max_move,
            radius,
        ).target,
{
    lemma_updated_wf(v, radius);
    let u = v.updated(radius);
    let m = u.entries(max_move, radius);
    lemma_relaxed_moved(m, min_move, radius, ground, SOLVE_STEP as int);
    assert(m[k + 1] == u.sampled(u.bodies[k], max_move, radius));
}

} // verus!

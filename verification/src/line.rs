//! Straight paths: what bodies are aimed at while the head walks a line.

use vstd::prelude::*;
use crate::chain::ChainView;
use crate::fixed::{scale, EPSILON};
use crate::records::{lemma_rank_splits, linear, rank, splits, valid, LerpValue, MoveRecord};
use crate::segment::MoveMode;
use crate::vector::Vector3;

verus! {

/// Every record of the series lies on the first axis, as far along it as
/// its arc length and `shift`.
pub open spec fn straight(s: Seq<MoveRecord<Vector3>>, shift: int) -> bool {
    forall|i: int|
        0 <= i < s.len() ==> (#[trigger] s[i]).value.x == s[i].key + shift && s[i].value.y == 0
}

/// A whole part of a whole is that part.
proof fn lemma_scale_whole(num: int, den: int)
    requires
        0 < den,
    ensures
        scale(den, num, den) == num,
        scale(0, num, den) == 0,
{
    assert((den * num) / den == num) by (nonlinear_arith)
        requires
            0 < den,
    ;
    assert(0 * num == 0) by (nonlinear_arith);
    assert(0int / den == 0) by (nonlinear_arith)
        requires
            0 < den,
    ;
}

/// A straight path is read straight. The point of a straight series at an
/// arc length between its first and its last record lies on the axis, as
/// far along it as the arc length and `shift`: exactly so between two
/// records that are a hundred steps or more apart, and less than a hundred
/// steps farther along between two that are closer.
pub proof fn lemma_straight_path(s: Seq<MoveRecord<Vector3>>, shift: int, key: int)
    requires
        valid(s),
        straight(s, shift),
        s.len() > 0,
        s[0].key <= key <= s.last().key,
    ensures
        linear(s, key).is_some(),
        linear(s, key).unwrap().1 == 0,
        linear(s, key).unwrap().0.y == 0,
        key + shift <= linear(s, key).unwrap().0.x < key + shift + EPSILON,
        0 < rank(s, key) && s[rank(s, key)].key - s[rank(s, key) - 1].key >= EPSILON ==> linear(
            s,
            key,
        ).unwrap().0.x == key + shift,
{
    lemma_rank_splits(s, key);
    let r = rank(s, key);
    assert(splits(s, key, r));
    assert(r < s.len()) by {
        if r == s.len() {
            assert(s[s.len() - 1].key < key);
        }
    }
    if r == 0 {
        assert(s[0].key >= key);
    } else {
        let a = s[r - 1];
        let b = s[r];
        assert(a.key < key <= b.key);
        assert(a.value.in_range() && b.value.in_range());
        if b.key - a.key >= EPSILON {
            lemma_scale_whole(key - a.key, b.key - a.key);
        }
    }
}

/// Bodies that trail the head along a straight path are aimed at points of
/// the path, in line, and as far from each other as the arc lengths that
/// they ask for, to within a hundred steps.
pub proof fn lemma_targets_trail_in_line(
    v: ChainView,
    i: int,
    j: int,
    max_move: int,
    radius: int,
    shift: int,
)
    requires
        v.wf(),
        0 <= i < v.bodies.len(),
        0 <= j < v.bodies.len(),
        v.bodies[i].segment == v.bodies[j].segment,
        v.segments.len() > 0,
        ({
            let seg = v.segments[v.bodies[i].segment - v.segment_first];
            &&& seg.mode == MoveMode::Normal
            &&& straight(seg.records, shift)
            &&& seg.records[0].key <= v.query(v.bodies[i]) <= seg.end()
            &&& seg.records[0].key <= v.query(v.bodies[j]) <= seg.end()
        }),
    ensures
        ({
            let a = v.sampled(v.bodies[i], max_move, radius).target;
            let b = v.sampled(v.bodies[j], max_move, radius).target;
            let apart = v.query(v.bodies[i]) - v.query(v.bodies[j]);
            &&& a.y == 0
            &&& b.y == 0
            &&& apart - EPSILON < a.x - b.x < apart + EPSILON
        }),
{
    assert(v.body_ok(v.bodies[i]));
    assert(v.body_ok(v.bodies[j]));
    let k = v.bodies[i].segment - v.segment_first;
    assert(v.segments[k].wf());
    lemma_straight_path(v.segments[k].records, shift, v.query(v.bodies[i]));
    lemma_straight_path(v.segments[k].records, shift, v.query(v.bodies[j]));
}

} // verus!

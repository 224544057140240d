//! What holds of every chain: laws that relate the operations to each other.

use vstd::prelude::*;
use crate::body::SnakeBody;
use crate::chain::{
    back_candidate, backtracked, gap2, is_nearest, lemma_merged, lemma_nearest_is,
    lemma_nearest_none, lemma_record_wf, lemma_trimmed, merged, nearest_back, rising,
    step_distance, ChainView, BACK_LIMIT,
};
use crate::fixed::{
    is_sqrt, lemma_scale_monotonic, lemma_scale_within, lemma_sqrt_is, spec_max, spec_min, EPSILON,
};
use crate::follow::lemma_updated_wf;
use crate::records::{
    lemma_rank_splits, lemma_splits_is_rank, lemma_suffix_valid, linear, rank, sorted, trimmed,
    valid, LerpValue, MoveRecord,
};
use crate::relax::GroundProjector;
use crate::segment::MoveMode;
use crate::vector::{lemma_square_nonneg, Vector2, Vector3};

verus! {

/// Reading a series at the key of one of its records gives back that
/// record's value, with nothing missing, provided no earlier record has the
/// same key.
pub proof fn lemma_linear_at_sample<T: LerpValue>(s: Seq<MoveRecord<T>>, i: int)
    requires
        valid(s),
        0 <= i < s.len(),
        i == 0 || s[i - 1].key < s[i].key,
    ensures
        linear(s, s[i].key as int) == Some((s[i].value, 0int)),
{
    let key = s[i].key as int;
    assert forall|k: int| 0 <= k < i implies (#[trigger] s[k]).key < key by {
        assert(s[k].key <= s[i - 1].key);
    }
    assert forall|k: int| i <= k < s.len() implies (#[trigger] s[k]).key >= key by {
        assert(s[i].key <= s[k].key);
    }
    lemma_splits_is_rank(s, key, i);
    if i > 0 {
        let a = s[i - 1];
        let b = s[i];
        assert(a.value.in_range() && b.value.in_range());
        a.value.lemma_lerp_ends(b.value, b.key - a.key);
    }
}

/// The rank of a key does not decrease when the key grows.
pub proof fn lemma_rank_monotonic<T>(s: Seq<MoveRecord<T>>, k1: int, k2: int)
    requires
        sorted(s),
        k1 <= k2,
    ensures
        0 <= rank(s, k1) <= rank(s, k2) <= s.len(),
{
    lemma_rank_splits(s, k1);
    lemma_rank_splits(s, k2);
    let r1 = rank(s, k1);
    let r2 = rank(s, k2);
    if r2 < r1 {
        assert(s[r2].key < k1);
        assert(s[r2].key >= k2);
    }
}

/// A reading of a rising series lies between the values of the records on
/// either side of the key.
pub proof fn lemma_linear_bracket(d: Seq<MoveRecord<i64>>, key: int)
    requires
        valid(d),
        rising(d),
        d.len() > 0,
    ensures
        linear(d, key).is_some(),
        rank(d, key) > 0 ==> d[rank(d, key) - 1].value <= linear(d, key).unwrap().0,
        rank(d, key) < d.len() ==> linear(d, key).unwrap().0 <= d[rank(d, key)].value,
        rank(d, key) == 0 ==> linear(d, key).unwrap().0 == d[0].value,
        rank(d, key) == d.len() ==> linear(d, key).unwrap().0 == d.last().value,
{
    lemma_rank_splits(d, key);
    let p = rank(d, key);
    if 0 < p < d.len() {
        let a = d[p - 1];
        let b = d[p];
        assert(a.value <= b.value);
        assert(a.value.in_range() && b.value.in_range());
        if b.key - a.key >= EPSILON {
            lemma_scale_within(b.value - a.value, key - a.key, b.key - a.key);
        }
    }
}

/// Monotonicity of the record: in a chain the recorded instants increase
/// from one record to the next, and the lengths travelled at them never
/// decrease.
pub proof fn lemma_distance_monotonic(v: ChainView, i: int, j: int)
    requires
        v.wf(),
        0 <= i < j < v.distances.len(),
    ensures
        v.distances[i].key < v.distances[j].key,
        v.distances[i].value <= v.distances[j].value,
{
}

/// Within every segment of a chain the arc lengths never decrease from one
/// record to the next.
pub proof fn lemma_segment_monotonic(v: ChainView, k: int, i: int, j: int)
    requires
        v.wf(),
        0 <= k < v.segments.len(),
        0 <= i <= j < v.segments[k].records.len(),
    ensures
        v.segments[k].records[i].key <= v.segments[k].records[j].key,
{
    assert(v.segments[k].wf());
}

/// Recording a movement never shortens the length travelled.
pub proof fn lemma_record_monotonic(v: ChainView, dt: int, position: Vector3, mode: MoveMode)
    requires
        v.wf(),
        v.can_record(dt, position),
    ensures
        v.record(dt, position, mode).travelled() >= v.travelled(),
        v.record(dt, position, mode).time >= v.time,
        v.record(dt, position, mode).wf(),
{
    lemma_record_wf(v, dt, position, mode);
}

/// The length travelled, read at any two instants, never decreases from the
/// earlier to the later.
pub proof fn lemma_distance_at_monotonic(v: ChainView, t1: int, t2: int)
    requires
        v.wf(),
        v.distances.len() > 0,
        t1 <= t2,
    ensures
        v.distance_at(t1) <= v.distance_at(t2),
{
    let d = v.distances;
    lemma_rank_monotonic(d, t1, t2);
    lemma_linear_bracket(d, t1);
    lemma_linear_bracket(d, t2);
    lemma_rank_splits(d, t1);
    lemma_rank_splits(d, t2);
    let r1 = rank(d, t1);
    let r2 = rank(d, t2);
    if r1 == r2 {
        if 0 < r1 < d.len() {
            let a = d[r1 - 1];
            let b = d[r1];
            assert(a.value <= b.value);
            if b.key - a.key >= EPSILON {
                lemma_scale_monotonic(b.value - a.value, t1 - a.key, t2 - a.key, b.key - a.key);
                lemma_scale_within(b.value - a.value, t1 - a.key, b.key - a.key);
                lemma_scale_within(b.value - a.value, t2 - a.key, b.key - a.key);
                assert(a.value.in_range() && b.value.in_range());
            }
        }
    } else {
        assert(d[r1].value <= d[r2 - 1].value);
    }
}

/// Round trip: take a record of the time series and a record of a segment
/// of ordinary motion that was made at the same length travelled. Reading
/// the length at the record's instant, and then the segment at that
/// length, gives back the recorded position exactly. (Of records of a
/// segment that share an arc length, the first is the one that is read.)
pub proof fn lemma_round_trip(v: ChainView, i: int, k: int, j: int)
    requires
        v.wf(),
        0 <= i < v.distances.len(),
        0 <= k < v.segments.len(),
        v.segments[k].mode == MoveMode::Normal,
        0 <= j < v.segments[k].records.len(),
        j == 0 || v.segments[k].records[j - 1].key < v.segments[k].records[j].key,
        v.distances[i].value == v.segments[k].records[j].key,
    ensures
        v.position_at(k, v.distance_at(v.distances[i].key as int)) == (
            v.segments[k].records[j].value,
            0int,
        ),
{
    lemma_linear_at_sample(v.distances, i);
    assert(v.segments[k].wf());
    lemma_linear_at_sample(v.segments[k].records, j);
}

/// Retention is safe: a series that has shed its older half reads as
/// before at every key that lies no more than `threshold` behind its last.
pub proof fn lemma_trimmed_reads_alike<T: LerpValue>(
    s: Seq<MoveRecord<T>>,
    threshold: int,
    key: int,
)
    requires
        valid(s),
        s.len() > 0,
        key >= s.last().key - threshold,
    ensures
        linear(trimmed(s, threshold), key) == linear(s, key),
{
    let t = trimmed(s, threshold);
    if t != s {
        let h = s.len() as int / 2;
        assert(t == s.skip(h));
        assert(s[h].key < key);
        lemma_rank_splits(s, key);
        let p = rank(s, key);
        if p <= h {
            assert(s[h].key >= key);
        }
        lemma_suffix_valid(s, h);
        assert forall|i: int| 0 <= i < p - h implies (#[trigger] t[i]).key < key by {
            assert(s[i + h].key < key);
        }
        assert forall|i: int| p - h <= i < t.len() implies (#[trigger] t[i]).key >= key by {
            assert(s[i + h].key >= key);
        }
        lemma_splits_is_rank(t, key, p - h);
        if p < s.len() {
            assert(t[p - h - 1] == s[p - 1]);
            assert(t[p - h] == s[p]);
        } else {
            assert(t[t.len() - 1] == s[s.len() - 1]);
        }
    }
}

/// Retention in a chain is safe for the time series: recording a movement
/// sheds only what no body asks for. A body whose delay is not above the
/// chain's longest reads the same length travelled whether or not the
/// series has just shed its older half.
pub proof fn lemma_retention_keeps_delays(d: Seq<MoveRecord<i64>>, max_delay: int, time: int, delay: int)
    requires
        valid(d),
        d.len() > 0,
        d.last().key <= time,
        0 <= delay <= max_delay,
    ensures
        linear(trimmed(d, max_delay), time - delay) == linear(d, time - delay),
{
    lemma_trimmed_reads_alike(d, max_delay, time - delay);
}

/// What a tick leaves of a body: the chain keeps its bodies, each with
/// its delay and the arc length it trails by; no body falls back to an
/// earlier segment, none moves on by more than one, and none follows a
/// segment that has been dropped.
pub proof fn lemma_tick_keeps_bodies<G: GroundProjector>(
    v: ChainView,
    max_move: int,
    min_move: int,
    radius: int,
    ground: Option<&G>,
    k: int,
)
    requires
        v.wf(),
        0 <= k < v.bodies.len(),
    ensures
        v.solved(max_move, min_move, radius, ground).bodies.len() == v.bodies.len(),
        v.solved(max_move, min_move, radius, ground).bodies[k].delay == v.bodies[k].delay,
        v.solved(max_move, min_move, radius, ground).bodies[k].distance == v.bodies[k].distance,
        v.bodies[k].segment <= v.solved(max_move, min_move, radius, ground).bodies[k].segment
            <= v.bodies[k].segment + 1,
        v.solved(max_move, min_move, radius, ground).segment_first <= v.solved(
            max_move,
            min_move,
            radius,
            ground,
        ).bodies[k].segment,
        v.solved(max_move, min_move, radius, ground).distances == v.distances,
        v.solved(max_move, min_move, radius, ground).position == v.position,
{
    lemma_updated_wf(v, radius);
    let u = v.updated(radius);
    assert(u.body_ok(u.bodies[k]));
}

/// Between two of its records a segment is read between them: every
/// coordinate of the point that is read lies between the coordinates of
/// the records on either side of the arc length.
pub proof fn lemma_position_between(s: Seq<MoveRecord<Vector3>>, key: int)
    requires
        valid(s),
        0 < rank(s, key) < s.len(),
    ensures
        linear(s, key).is_some(),
        linear(s, key).unwrap().1 == 0,
        ({
            let a = s[rank(s, key) - 1].value;
            let b = s[rank(s, key)].value;
            let p = linear(s, key).unwrap().0;
            &&& spec_min(a.x as int, b.x as int) <= p.x <= spec_max(a.x as int, b.x as int)
            &&& spec_min(a.y as int, b.y as int) <= p.y <= spec_max(a.y as int, b.y as int)
            &&& spec_min(a.z as int, b.z as int) <= p.z <= spec_max(a.z as int, b.z as int)
        }),
{
    lemma_rank_splits(s, key);
    let r = rank(s, key);
    let a = s[r - 1];
    let b = s[r];
    assert(a.value.in_range() && b.value.in_range());
    if b.key - a.key >= EPSILON {
        lemma_scale_within(b.value.x - a.value.x, key - a.key, b.key - a.key);
        lemma_scale_within(b.value.y - a.value.y, key - a.key, b.key - a.key);
        lemma_scale_within(b.value.z - a.value.z, key - a.key, b.key - a.key);
    }
}

/// A body follows a jump only onto a clear landing point: a body that is
/// done with its segment, and whose next segment is a jump, moves on if
/// the landing point is clear of the head and of the bodies before it, and
/// then stands on the landing point; if the point is not clear, the body
/// stays as it is.
pub proof fn lemma_jump_waits_for_clearance(
    v: ChainView,
    b: SnakeBody,
    before: Seq<SnakeBody>,
    radius: int,
)
    requires
        v.wf(),
        v.body_ok(b),
        v.can_leave(b),
        v.segments[b.segment - v.segment_first + 1].mode == MoveMode::Teleport,
    ensures
        ({
            let landing = v.segments[b.segment - v.segment_first + 1].records.last().value;
            let after = v.advanced(b, before, radius);
            &&& v.clear(landing, before, radius) ==> after.segment == b.segment + 1
                && after.position == landing
            &&& !v.clear(landing, before, radius) ==> after == b
        }),
{
}

/// Walking back adds no length: where the head, in ordinary motion, comes
/// back to the point of a record that it may fall back to, and the path
/// has grown since the record before its last, the length travelled
/// stays what it was.
pub proof fn lemma_retrace_adds_no_length(v: ChainView, dt: int, position: Vector3, i: int)
    requires
        v.wf(),
        v.can_record(dt, position),
        v.distances.len() > 0,
        v.segments.last().mode == MoveMode::Normal,
        back_candidate(v.segments.last().records, v.travelled() - BACK_LIMIT, i),
        v.segments.last().records[i].value.planar() == position.planar(),
        v.segments.last().records[v.segments.last().records.len() - 2].key < v.travelled(),
    ensures
        v.record(dt, position, MoveMode::Normal).travelled() == v.travelled(),
{
    let r = v.segments.last().records;
    let at = position.planar();
    let limit = v.travelled() - BACK_LIMIT;
    assert(v.segments[v.segments.len() - 1].wf());
    assert(v.opened(MoveMode::Normal) == v.segments);
    assert(gap2(r, at, i) == 0) by {
        assert((at.x - at.x) * (at.x - at.x) == 0);
        assert((at.y - at.y) * (at.y - at.y) == 0);
    }
    lemma_nearest_exists(r, at, limit, r.len() - 2);
    let j = nearest_back(r, at, limit).unwrap();
    assert(is_nearest(r, at, limit, j));
    assert(back_candidate(r, limit, i));
    lemma_square_nonneg(r[j].value.x - at.x);
    lemma_square_nonneg(r[j].value.y - at.y);
    assert(gap2(r, at, j) == 0);
    assert(is_sqrt(0, 0));
    lemma_sqrt_is(0, 0);
    assert(r[j].key <= r[r.len() - 2].key);
    let kept = backtracked(r, position, v.travelled());
    assert(kept == r.take(j + 1));
    assert(kept.last() == r[j]);
    lemma_record_wf(v, dt, position, MoveMode::Normal);
    let m = merged(v.distances, v.time + dt, v.travelled());
    lemma_merged(v.distances, v.time + dt, v.travelled());
    lemma_trimmed(m, v.max_delay);
}

/// Among the records that the head may fall back to, up to record `top`,
/// one is the nearest, if there is any.
pub proof fn lemma_nearest_exists(
    r: Seq<MoveRecord<Vector3>>,
    at: Vector2,
    limit: int,
    top: int,
)
    requires
        exists|c: int| back_candidate(r, limit, c),
        top == r.len() - 2,
    ensures
        nearest_back(r, at, limit).is_some(),
{
    let c = choose|c: int| back_candidate(r, limit, c);
    let best = nearest_upto(r, at, limit, top);
    lemma_nearest_upto(r, at, limit, top);
    assert(back_candidate(r, limit, c));
    assert(best >= 0);
    assert(is_nearest(r, at, limit, best));
}

/// The nearest candidate among the records up to `top`, the latest of
/// several equally near; `-1` if there is none.
pub open spec fn nearest_upto(
    r: Seq<MoveRecord<Vector3>>,
    at: Vector2,
    limit: int,
    top: int,
) -> int
    decreases top + 1,
{
    if top < 0 {
        -1
    } else {
        let rest = nearest_upto(r, at, limit, top - 1);
        if !back_candidate(r, limit, top) {
            rest
        } else if rest < 0 || gap2(r, at, top) <= gap2(r, at, rest) {
            top
        } else {
            rest
        }
    }
}

/// What [`nearest_upto`] finds is a candidate that no candidate up to `top`
/// is nearer than, nor a later one as near.
pub proof fn lemma_nearest_upto(
    r: Seq<MoveRecord<Vector3>>,
    at: Vector2,
    limit: int,
    top: int,
)
    requires
        -1 <= top <= r.len() - 2,
    ensures
        -1 <= nearest_upto(r, at, limit, top) <= top,
        nearest_upto(r, at, limit, top) >= 0 ==> back_candidate(
            r,
            limit,
            nearest_upto(r, at, limit, top),
        ),
        forall|c: int|
            0 <= c <= top && #[trigger] back_candidate(r, limit, c) ==> {
                let best = nearest_upto(r, at, limit, top);
                best >= 0 && (gap2(r, at, c) > gap2(r, at, best) || (
                gap2(r, at, c) == gap2(r, at, best) && c <= best))
            },
    decreases top + 1,
{
    if top >= 0 {
        lemma_nearest_upto(r, at, limit, top - 1);
    }
}

/// The rule of falling back. Let `s` be the nearest record that the head
/// may fall back to. If the way to the new position through `s` is shorter
/// than the length travelled, every record after `s` is forgotten, and in
/// ordinary motion the head then stands at the arc length of `s` and the
/// distance from `s`; otherwise no record is forgotten.
pub proof fn lemma_fall_back_rule(
    r: Seq<MoveRecord<Vector3>>,
    position: Vector3,
    travelled: int,
    s: int,
)
    requires
        is_nearest(r, position.planar(), travelled - BACK_LIMIT, s),
    ensures
        ({
            let gap = r[s].value.planar().dist(position.planar());
            let kept = backtracked(r, position, travelled);
            &&& gap + r[s].key < travelled ==> kept == r.take(s + 1) && step_distance(
                kept,
                position,
                MoveMode::Normal,
            ) == r[s].key + gap
            &&& gap + r[s].key >= travelled ==> kept == r
        }),
{
    lemma_nearest_is(r, position.planar(), travelled - BACK_LIMIT, s);
    assert(back_candidate(r, travelled - BACK_LIMIT, s));
    assert(r.take(s + 1).last() == r[s]);
}

/// Where the head may fall back to no record, none is forgotten.
pub proof fn lemma_fall_back_none(r: Seq<MoveRecord<Vector3>>, position: Vector3, travelled: int)
    requires
        forall|j: int| !#[trigger] back_candidate(r, travelled - BACK_LIMIT, j),
    ensures
        backtracked(r, position, travelled) == r,
{
    lemma_nearest_none(r, position.planar(), travelled - BACK_LIMIT);
}

/// Falling back never forgets the last record, nor a record whose arc
/// length lies more than the back limit behind the length travelled.
pub proof fn lemma_fall_back_keeps_old(
    r: Seq<MoveRecord<Vector3>>,
    position: Vector3,
    travelled: int,
    i: int,
)
    requires
        sorted(r),
        0 <= i < r.len(),
        r[i].key < travelled - BACK_LIMIT,
    ensures
        i < backtracked(r, position, travelled).len(),
        backtracked(r, position, travelled)[i] == r[i],
{
    let limit = travelled - BACK_LIMIT;
    match nearest_back(r, position.planar(), limit) {
        Some(s) => {
            assert(is_nearest(r, position.planar(), limit, s));
            assert(back_candidate(r, limit, s));
            if i >= s {
                assert(r[s].key <= r[i].key);
            }
        },
        None => {},
    }
}

} // verus!

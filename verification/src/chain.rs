//! The state of a chain as a mathematical value, and how recording a
//! movement of the head changes it.

use vstd::prelude::*;
use crate::body::SnakeBody;
use crate::fixed::{
    in_key, lemma_scale_within, lemma_sqrt_exists, spec_max, spec_min, sqrt_floor, EPSILON,
    KEY_MAX, REACH_MAX,
};
use crate::records::{
    lemma_prefix_valid, lemma_rank_splits, lemma_suffix_valid, linear, rank, trimmed, valid,
    LerpValue, MoveRecord, PREFIX_LEN,
};
use crate::segment::{MoveMode, SegmentView};
use crate::vector::{Vector2, Vector3};

verus! {

/// How far back along the path a new position may undo what was recorded.
pub const BACK_LIMIT: i64 = 40_000_000;

/// A position record nearer than this to the one before it is replaced by
/// the next position rather than kept.
pub const MIN_STEP: i64 = 5_000_000;

/// The square of [`EPSILON`]: two points closer than this are the same point.
pub const EPSILON_SQUARED: i128 = 10_000;

/// From one record of a series to the next the keys increase and the
/// values do not decrease.
pub open spec fn rising(s: Seq<MoveRecord<i64>>) -> bool {
    forall|i: int, j: int|
        0 <= i <= j < s.len() ==> s[i].value <= s[j].value && (i < j ==> s[i].key < s[j].key)
}

/// Record `i` is one that a new position may fall back to: it is not the
/// last record, and its arc length is not below `limit`.
pub open spec fn back_candidate(r: Seq<MoveRecord<Vector3>>, limit: int, i: int) -> bool {
    0 <= i < r.len() - 1 && r[i].key >= limit
}

/// The squared distance in the plane from record `i` to `at`.
pub open spec fn gap2(r: Seq<MoveRecord<Vector3>>, at: Vector2, i: int) -> int {
    r[i].value.planar().dist2(at)
}

/// Record `i` is the candidate nearest to `at`; of several equally near it
/// is the latest.
pub open spec fn is_nearest(r: Seq<MoveRecord<Vector3>>, at: Vector2, limit: int, i: int) -> bool {
    &&& back_candidate(r, limit, i)
    &&& forall|j: int| #[trigger]
        back_candidate(r, limit, j) ==> gap2(r, at, j) > gap2(r, at, i) || (gap2(r, at, j)
            == gap2(r, at, i) && j <= i)
}

/// The nearest candidate, if there is any candidate.
pub open spec fn nearest_back(r: Seq<MoveRecord<Vector3>>, at: Vector2, limit: int) -> Option<int> {
    if exists|i: int| is_nearest(r, at, limit, i) {
        Some(choose|i: int| is_nearest(r, at, limit, i))
    } else {
        None
    }
}

/// The active series after the head has arrived at `position`: where going
/// through the nearest candidate is shorter than the length travelled so
/// far, everything after that candidate is forgotten.
pub open spec fn backtracked(r: Seq<MoveRecord<Vector3>>, position: Vector3, travelled: int) -> Seq<
    MoveRecord<Vector3>,
> {
    match nearest_back(r, position.planar(), travelled - BACK_LIMIT) {
        Some(i) => if r[i].value.planar().dist(position.planar()) + r[i].key < travelled {
            r.take(i + 1)
        } else {
            r
        },
        None => r,
    }
}

/// The arc length at which the head stands after moving to `position`.
pub open spec fn step_distance(r: Seq<MoveRecord<Vector3>>, position: Vector3, mode: MoveMode) -> int {
    match mode {
        MoveMode::Normal => r.last().key + r.last().value.planar().dist(position.planar()),
        MoveMode::Teleport => r.last().key as int,
    }
}

/// The time series with the new instant: where the length travelled has not
/// grown by [`EPSILON`] since the record before the last, the last record
/// is replaced, otherwise one is added.
pub open spec fn merged(d: Seq<MoveRecord<i64>>, time: int, travelled: int) -> Seq<MoveRecord<i64>> {
    let kept = if d.len() > 1 && travelled - d[d.len() - 2].value < EPSILON {
        d.drop_last()
    } else {
        d
    };
    kept.push(MoveRecord { key: time as i64, value: travelled as i64 })
}

/// The active series with the new position: a last record nearer than
/// [`MIN_STEP`] to the one before it makes way, and the position is added
/// unless the head has not left the last record's point.
pub open spec fn appended(r: Seq<MoveRecord<Vector3>>, at: int, position: Vector3) -> Seq<
    MoveRecord<Vector3>,
> {
    let kept = if r.len() > 1 && r[r.len() - 1].key - r[r.len() - 2].key < MIN_STEP {
        r.drop_last()
    } else {
        r
    };
    if position.planar().dist2(kept.last().value.planar()) >= EPSILON_SQUARED {
        kept.push(MoveRecord { key: at as i64, value: position })
    } else {
        kept
    }
}

/// The whole state of a chain.
pub struct ChainView {
    /// Where the head stands.
    pub position: Vector3,
    /// The chain's clock.
    pub time: int,
    /// The longest delay of any body.
    pub max_delay: int,
    /// The longest trailing arc length of any body.
    pub max_distance: int,
    /// The length the head had travelled, by time.
    pub distances: Seq<MoveRecord<i64>>,
    /// The number of segments that were dropped in front of `segments`.
    pub segment_first: int,
    /// The retained segments of the head's path, oldest first.
    pub segments: Seq<SegmentView>,
    /// The bodies, nearest to the head first.
    pub bodies: Seq<SnakeBody>,
}

impl ChainView {
    /// The length the head has travelled.
    pub open spec fn travelled(self) -> int {
        if self.distances.len() > 0 {
            self.distances.last().value as int
        } else {
            0
        }
    }

    /// The body follows a segment that is still retained.
    pub open spec fn body_ok(self, b: SnakeBody) -> bool {
        &&& b.wf()
        &&& self.segment_first <= b.segment
        &&& (b.segment < self.segment_first + self.segments.len() || b.segment
            == self.segment_first)
    }

    /// The invariant of a chain.
    pub open spec fn wf(self) -> bool {
        &&& 0 <= self.time <= KEY_MAX
        &&& 0 <= self.max_delay <= KEY_MAX
        &&& 0 <= self.max_distance <= KEY_MAX
        &&& self.position.bounded()
        &&& valid(self.distances)
        &&& rising(self.distances)
        &&& (self.distances.len() == 0) == (self.segments.len() == 0)
        &&& self.distances.len() > 0 ==> self.distances[0].value >= 0 && self.distances.last().key
            <= self.time
        &&& forall|k: int|
            0 <= k < self.segments.len() ==> (#[trigger] self.segments[k]).wf()
                && self.segments[k].end() <= self.travelled()
        &&& 0 <= self.segment_first
        &&& self.segment_first + self.segments.len() <= usize::MAX
        &&& forall|i: int| 0 <= i < self.bodies.len() ==> self.body_ok(#[trigger] self.bodies[i])
    }

    /// The head can be moved to `position` after `dt` without leaving the
    /// range of the clock, of arc lengths, of the world or of segment numbers.
    pub open spec fn can_record(self, dt: int, position: Vector3) -> bool {
        &&& 0 < dt
        &&& self.time + dt <= KEY_MAX
        &&& position.bounded()
        &&& self.travelled() + REACH_MAX <= KEY_MAX
        &&& self.segment_first + self.segments.len() < usize::MAX
    }

    /// The segments once the head moves on in `mode`: a change of mode opens
    /// a segment where the last one ends.
    pub open spec fn opened(self, mode: MoveMode) -> Seq<SegmentView> {
        if mode != self.segments.last().mode {
            self.segments.push(self.segments.last().successor(mode))
        } else {
            self.segments
        }
    }

    /// The state after the head has moved to `position` in `mode`, `dt` after
    /// the last movement.
    pub open spec fn record(self, dt: int, position: Vector3, mode: MoveMode) -> ChainView {
        let time = self.time + dt;
        if self.distances.len() == 0 {
            ChainView {
                position,
                time,
                distances: seq![MoveRecord { key: time as i64, value: 0i64 }],
                segments: seq![
                    SegmentView { records: seq![MoveRecord { key: 0i64, value: position }], mode },
                ],
                ..self
            }
        } else {
            let opened = self.opened(mode);
            let last = opened.len() - 1;
            let kept = backtracked(opened[last].records, position, self.travelled());
            let at = step_distance(kept, position, mode);
            let travelled = spec_max(self.travelled(), at);
            let active = SegmentView { records: appended(kept, at, position), mode };
            let placed = opened.update(last, active);
            let first = SegmentView {
                records: trimmed(placed[0].records, self.max_distance),
                mode: placed[0].mode,
            };
            ChainView {
                position,
                time,
                distances: trimmed(merged(self.distances, time, travelled), self.max_delay),
                segments: placed.update(0, first),
                ..self
            }
        }
    }

    /// The length the head had travelled at `time`.
    pub open spec fn distance_at(self, time: int) -> int {
        linear(self.distances, time).unwrap().0 as int
    }

    /// The point of retained segment `segment` at arc length `distance`, and
    /// by how much `distance` falls short of the segment's first record.
    ///
    /// The point of a jump is where the head landed, whatever the arc length.
    pub open spec fn position_at(self, segment: int, distance: int) -> (Vector3, int) {
        let seg = self.segments[segment];
        match seg.mode {
            MoveMode::Teleport => (seg.records.last().value, 0int),
            MoveMode::Normal => linear(seg.records, distance).unwrap(),
        }
    }

    /// The retained positions of the head, oldest first: every record of the
    /// oldest segment, and of each later one all but the record it took over
    /// from the segment before it.
    pub open spec fn path(self) -> Seq<Vector3> {
        path_of(self.segments)
    }
}

/// The positions that a sequence of segments retains: see [`ChainView::path`].
pub open spec fn path_of(segments: Seq<SegmentView>) -> Seq<Vector3>
    decreases segments.len(),
{
    if segments.len() == 0 {
        Seq::empty()
    } else if segments.len() == 1 {
        segments[0].records.map_values(|r: MoveRecord<Vector3>| r.value)
    } else {
        path_of(segments.drop_last()) + segments.last().records.skip(1).map_values(
            |r: MoveRecord<Vector3>| r.value,
        )
    }
}

/// At most one record is the nearest candidate.
pub proof fn lemma_nearest_unique(r: Seq<MoveRecord<Vector3>>, at: Vector2, limit: int, i: int, j: int)
    requires
        is_nearest(r, at, limit, i),
        is_nearest(r, at, limit, j),
    ensures
        i == j,
{
    assert(back_candidate(r, limit, i));
    assert(back_candidate(r, limit, j));
}

/// A record that is the nearest candidate is the one that is chosen.
pub proof fn lemma_nearest_is(r: Seq<MoveRecord<Vector3>>, at: Vector2, limit: int, i: int)
    requires
        is_nearest(r, at, limit, i),
    ensures
        nearest_back(r, at, limit) == Some(i),
{
    lemma_nearest_unique(r, at, limit, i, choose|k: int| is_nearest(r, at, limit, k));
}

/// Where there is no candidate, none is chosen.
pub proof fn lemma_nearest_none(r: Seq<MoveRecord<Vector3>>, at: Vector2, limit: int)
    requires
        forall|j: int| !#[trigger] back_candidate(r, limit, j),
    ensures
        nearest_back(r, at, limit).is_none(),
{
}

/// Falling back keeps a non-empty prefix of the series.
pub proof fn lemma_backtracked(r: Seq<MoveRecord<Vector3>>, position: Vector3, travelled: int)
    requires
        valid(r),
        r.len() > 0,
    ensures
        valid(backtracked(r, position, travelled)),
        backtracked(r, position, travelled).len() > 0,
        backtracked(r, position, travelled)[0] == r[0],
        backtracked(r, position, travelled).last().key <= r.last().key,
{
    let at = position.planar();
    let limit = travelled - BACK_LIMIT;
    match nearest_back(r, at, limit) {
        Some(i) => {
            assert(is_nearest(r, at, limit, i));
            lemma_prefix_valid(r, i + 1);
            assert(r.take(i + 1).last() == r[i]);
            assert(r[i].key <= r[r.len() - 1].key);
        },
        None => {},
    }
}

/// Adding the new position keeps the series in order, below `at`.
pub proof fn lemma_appended(r: Seq<MoveRecord<Vector3>>, at: int, position: Vector3)
    requires
        valid(r),
        r.len() > 0,
        r.last().key <= at,
        in_key(at),
        position.bounded(),
    ensures
        valid(appended(r, at, position)),
        appended(r, at, position).len() > 0,
        appended(r, at, position)[0] == r[0],
        appended(r, at, position).last().key <= at,
{
    let kept = if r.len() > 1 && r[r.len() - 1].key - r[r.len() - 2].key < MIN_STEP {
        r.drop_last()
    } else {
        r
    };
    lemma_prefix_valid(r, kept.len() as int);
    assert(kept =~= r.take(kept.len() as int));
    assert(kept.last().key <= r[r.len() - 1].key);
    let rec = MoveRecord { key: at as i64, value: position };
    lemma_pushed_valid(kept, rec);
}

/// A record at or after the last key extends a series in order.
pub proof fn lemma_pushed_valid<T: LerpValue>(s: Seq<MoveRecord<T>>, rec: MoveRecord<T>)
    requires
        valid(s),
        in_key(rec.key as int),
        rec.value.in_range(),
        s.len() > 0 ==> s.last().key <= rec.key,
    ensures
        valid(s.push(rec)),
{
    let t = s.push(rec);
    assert forall|i: int, j: int| 0 <= i <= j < t.len() implies t[i].key <= t[j].key by {
        if j < s.len() {
            assert(s[i].key <= s[j].key);
        } else if i < s.len() {
            assert(s[i].key <= s[s.len() - 1].key);
        }
    }
}

/// The new instant keeps the time series in order and its lengths rising.
pub proof fn lemma_merged(d: Seq<MoveRecord<i64>>, time: int, travelled: int)
    requires
        valid(d),
        rising(d),
        d.len() > 0,
        d[0].value >= 0,
        d.last().key < time,
        d.last().value <= travelled,
        0 <= time <= KEY_MAX,
        travelled <= KEY_MAX,
    ensures
        valid(merged(d, time, travelled)),
        rising(merged(d, time, travelled)),
        merged(d, time, travelled).len() > 0,
        merged(d, time, travelled)[0].value >= 0,
        merged(d, time, travelled).last().key == time,
        merged(d, time, travelled).last().value == travelled,
{
    let kept = if d.len() > 1 && travelled - d[d.len() - 2].value < EPSILON {
        d.drop_last()
    } else {
        d
    };
    lemma_prefix_valid(d, kept.len() as int);
    assert(kept =~= d.take(kept.len() as int));
    assert(d[0].value <= d[d.len() - 1].value);
    let rec = MoveRecord { key: time as i64, value: travelled as i64 };
    assert(kept.len() > 0 ==> kept.last().key <= d[d.len() - 1].key);
    lemma_pushed_valid(kept, rec);
    let m = kept.push(rec);
    assert forall|i: int, j: int| 0 <= i <= j < m.len() implies m[i].value <= m[j].value && (i
        < j ==> m[i].key < m[j].key) by {
        if j < kept.len() {
            assert(d[i].value <= d[j].value && (i < j ==> d[i].key < d[j].key));
        } else if i < kept.len() {
            assert(d[i].value <= d[d.len() - 1].value);
            assert(d[i].key <= d[d.len() - 1].key);
        }
    }
}

/// Retention keeps a non-empty suffix of a non-empty series.
pub proof fn lemma_trimmed<T: LerpValue>(s: Seq<MoveRecord<T>>, threshold: int)
    requires
        valid(s),
        s.len() > 0,
    ensures
        valid(trimmed(s, threshold)),
        trimmed(s, threshold).len() > 0,
        trimmed(s, threshold).last() == s.last(),
        trimmed(s, threshold)[0].key >= s[0].key,
        exists|n: int| 0 <= n < s.len() && trimmed(s, threshold) == s.skip(n),
{
    if s.len() > PREFIX_LEN && s[s.len() as int / 2].key + threshold < s.last().key {
        let n = s.len() as int / 2;
        lemma_suffix_valid(s, n);
        assert(s[0].key <= s[n].key);
        assert(trimmed(s, threshold) == s.skip(n));
    } else {
        assert(s.skip(0) =~= s);
    }
}

/// A suffix of a rising series is rising.
pub proof fn lemma_rising_suffix(s: Seq<MoveRecord<i64>>, n: int)
    requires
        rising(s),
        0 <= n <= s.len(),
    ensures
        rising(s.skip(n)),
{
    let t = s.skip(n);
    assert forall|i: int, j: int| 0 <= i <= j < t.len() implies t[i].value <= t[j].value && (i
        < j ==> t[i].key < t[j].key) by {
        assert(s[i + n].value <= s[j + n].value && (i + n < j + n ==> s[i + n].key < s[j + n].key));
    }
}

/// Recording a movement that [`ChainView::can_record`] admits keeps the
/// invariant: in particular the length travelled never decreases over time.
pub proof fn lemma_record_wf(v: ChainView, dt: int, position: Vector3, mode: MoveMode)
    requires
        v.wf(),
        v.can_record(dt, position),
    ensures
        v.record(dt, position, mode).wf(),
        v.record(dt, position, mode).travelled() >= v.travelled(),
        v.record(dt, position, mode).bodies == v.bodies,
        v.record(dt, position, mode).segment_first == v.segment_first,
        v.record(dt, position, mode).segments.len() >= v.segments.len(),
        v.record(dt, position, mode).segments.len() > 0,
{
    let w = v.record(dt, position, mode);
    let time = v.time + dt;
    if v.distances.len() == 0 {
        let d = seq![MoveRecord { key: time as i64, value: 0i64 }];
        assert(valid(d));
        assert(rising(d));
        let r = seq![MoveRecord { key: 0i64, value: position }];
        assert(valid(r));
        assert(w.segments[0].wf());
        assert forall|i: int| 0 <= i < w.bodies.len() implies w.body_ok(#[trigger] w.bodies[i]) by {
            assert(v.body_ok(v.bodies[i]));
        }
    } else {
        let opened = v.opened(mode);
        let last = opened.len() - 1;
        assert(v.segments.last().wf());
        assert(v.segments[v.segments.len() - 1].end() <= v.travelled());
        assert forall|k: int| 0 <= k < opened.len() implies (#[trigger] opened[k]).wf()
            && opened[k].end() <= v.travelled() by {
            if k < v.segments.len() {
                assert(v.segments[k].wf());
            } else {
                let s = v.segments.last().successor(mode);
                assert(opened[k] == s);
                assert(in_key(v.segments.last().records.last().key as int));
                assert(v.segments.last().records.last().value.in_range());
                assert(v.segments.last().records[0].key <= v.segments.last().records.last().key);
                assert(valid(s.records));
            }
        }
        let kept = backtracked(opened[last].records, position, v.travelled());
        lemma_backtracked(opened[last].records, position, v.travelled());
        let at = step_distance(kept, position, mode);
        let gap = kept.last().value.planar().dist(position.planar());
        assert(kept.last().value.in_range());
        lemma_dist_bounded(kept.last().value, position);
        assert(kept[0].key <= kept.last().key);
        assert(kept.last().key <= at <= v.travelled() + REACH_MAX);
        let travelled = spec_max(v.travelled(), at);
        lemma_appended(kept, at, position);
        let active = SegmentView { records: appended(kept, at, position), mode };
        let placed = opened.update(last, active);
        lemma_trimmed(placed[0].records, v.max_distance);
        let first = SegmentView {
            records: trimmed(placed[0].records, v.max_distance),
            mode: placed[0].mode,
        };
        assert(v.distances[0].value <= v.distances[v.distances.len() - 1].value);
        lemma_merged(v.distances, time, travelled);
        let m = merged(v.distances, time, travelled);
        lemma_trimmed(m, v.max_delay);
        let n = choose|n: int| 0 <= n < m.len() && trimmed(m, v.max_delay) == m.skip(n);
        lemma_rising_suffix(m, n);
        assert(m[0].value <= m[n].value);
        assert(w.distances == trimmed(m, v.max_delay));
        assert(w.travelled() == travelled);
        assert(w.segments == placed.update(0, first));
        assert forall|k: int| 0 <= k < w.segments.len() implies (#[trigger] w.segments[k]).wf()
            && w.segments[k].end() <= w.travelled() by {
            if k == 0 {
                assert(placed[0].wf());
                assert(placed[0].end() <= travelled);
            } else if k == last {
            } else {
                assert(opened[k].wf());
            }
        }
        assert forall|i: int| 0 <= i < w.bodies.len() implies w.body_ok(#[trigger] w.bodies[i]) by {
            assert(v.body_ok(v.bodies[i]));
        }
    }
}

/// Two points of the world are at most [`REACH_MAX`] apart in the plane.
pub proof fn lemma_dist_bounded(a: Vector3, b: Vector3)
    requires
        a.bounded(),
        b.bounded(),
    ensures
        0 <= a.planar().dist(b.planar()) <= REACH_MAX,
{
    let n = a.planar().dist2(b.planar());
    let dx = a.x - b.x;
    let dy = a.y - b.y;
    assert(0 <= dx * dx + dy * dy) by (nonlinear_arith);
    lemma_sqrt_exists(n);
    let r = sqrt_floor(n);
    assert(r <= 3_000_000_000_000) by (nonlinear_arith)
        requires
            0 <= r,
            r * r <= dx * dx + dy * dy,
            -2_000_000_000_000 <= dx <= 2_000_000_000_000,
            -2_000_000_000_000 <= dy <= 2_000_000_000_000,
    ;
}

/// A reading of a rising series lies between its first and its last value.
pub proof fn lemma_linear_between(d: Seq<MoveRecord<i64>>, key: int)
    requires
        valid(d),
        rising(d),
        d.len() > 0,
    ensures
        linear(d, key).is_some(),
        d[0].value <= linear(d, key).unwrap().0 <= d.last().value,
{
    lemma_rank_splits(d, key);
    let p = rank(d, key);
    if 0 < p < d.len() {
        let a = d[p - 1];
        let b = d[p];
        assert(a.value <= b.value);
        assert(d[0].value <= a.value);
        assert(b.value <= d[d.len() - 1].value);
        assert(a.value.in_range() && b.value.in_range());
        if b.key - a.key >= EPSILON {
            lemma_scale_within(b.value - a.value, key - a.key, b.key - a.key);
        }
    } else {
        let i = spec_min(p, d.len() - 1);
        assert(d[0].value <= d[i].value);
        assert(d[i].value <= d[d.len() - 1].value);
    }
}

} // verus!

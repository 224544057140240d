//! The head of a chain: the history of its path and the bodies behind it.

use vstd::prelude::*;
use crate::body::SnakeBody;
use crate::chain::{
    appended, back_candidate, backtracked, gap2, is_nearest, lemma_appended, lemma_backtracked,
    lemma_linear_between, lemma_merged, lemma_nearest_is, lemma_nearest_none, lemma_record_wf,
    merged, path_of, step_distance, ChainView, BACK_LIMIT, EPSILON_SQUARED, MIN_STEP,
};
use crate::fixed::{in_key, spec_max, EPSILON, KEY_MAX, REACH_MAX};
use crate::records::{LerpValue, MoveRecord, MoveRecords};
use crate::segment::{MoveMode, MoveSegment, SegmentView};
use crate::vector::Vector3;

verus! {

/// The longest delay among `bodies`, or zero.
pub open spec fn longest_delay(bodies: Seq<SnakeBody>) -> int
    decreases bodies.len(),
{
    if bodies.len() == 0 {
        0
    } else {
        spec_max(longest_delay(bodies.drop_last()), bodies.last().delay as int)
    }
}

/// The longest trailing arc length among `bodies`, or zero.
pub open spec fn longest_distance(bodies: Seq<SnakeBody>) -> int
    decreases bodies.len(),
{
    if bodies.len() == 0 {
        0
    } else {
        spec_max(longest_distance(bodies.drop_last()), bodies.last().distance as int)
    }
}

/// The state of a chain whose head has not moved yet.
pub open spec fn initial(bodies: Seq<SnakeBody>) -> ChainView {
    ChainView {
        position: Vector3 { x: 0, y: 0, z: 0 },
        time: 0,
        max_delay: longest_delay(bodies),
        max_distance: longest_distance(bodies),
        distances: Seq::empty(),
        segment_first: 0,
        segments: Seq::empty(),
        bodies,
    }
}

/// A chain: the head, the history of its path, and its bodies.
pub struct SnakeHead {
    pub(crate) position: Vector3,
    pub(crate) time: i64,
    pub(crate) max_delay: i64,
    pub(crate) max_distance: i64,
    pub(crate) dis_rec: MoveRecords<i64>,
    pub(crate) segment_first: usize,
    pub(crate) segments: Vec<MoveSegment>,
    pub(crate) bodies: Vec<SnakeBody>,
}

impl View for SnakeHead {
    type V = ChainView;

    open(crate) spec fn view(&self) -> ChainView {
        ChainView {
            position: self.position,
            time: self.time as int,
            max_delay: self.max_delay as int,
            max_distance: self.max_distance as int,
            distances: self.dis_rec@,
            segment_first: self.segment_first as int,
            segments: Seq::new(self.segments@.len(), |k: int| self.segments@[k]@),
            bodies: self.bodies@,
        }
    }
}

/// Forgets the records after the nearest one that the head has fallen back to.
fn backtrack(rec: &mut MoveRecords<Vector3>, position: Vector3, travelled: i64)
    requires
        old(rec).wf(),
        old(rec)@.len() > 0,
        position.bounded(),
        0 <= travelled <= KEY_MAX,
    ensures
        final(rec)@ == backtracked(old(rec)@, position, travelled as int),
        final(rec).wf(),
{
    let n = rec.len();
    let limit: i64 = travelled - BACK_LIMIT;
    let at = position.xy();
    let mut best: usize = n;
    let mut best_d: i128 = 0;
    let mut i: usize = n - 1;
    while i > 0 && rec.get(i - 1).key >= limit
        invariant
            rec.wf(),
            rec@ == old(rec)@,
            n == rec@.len(),
            n > 0,
            i < n,
            at == position.planar(),
            at.bounded(),
            limit == travelled - BACK_LIMIT,
            forall|j: int| i <= j < n - 1 ==> #[trigger] back_candidate(rec@, limit as int, j),
            best <= n,
            (best == n) == (i == n - 1),
            best < n ==> i <= best < n - 1,
            best < n ==> best_d == gap2(rec@, at, best as int),
            best < n ==> forall|j: int|
                #![trigger gap2(rec@, at, j)]
                i <= j < n - 1 ==> gap2(rec@, at, j) > best_d || (gap2(rec@, at, j) == best_d && j
                    <= best),
        decreases i,
    {
        i = i - 1;
        let p = rec.get(i);
        assert(rec@[i as int].value.in_range());
        let d = p.value.xy().distance_squared(at);
        assert(d == gap2(rec@, at, i as int));
        assert(back_candidate(rec@, limit as int, i as int));
        if best == n || d < best_d {
            best = i;
            best_d = d;
        }
    }
    proof {
        let r = rec@;
        assert forall|j: int| 0 <= j < i implies !#[trigger] back_candidate(r, limit as int, j) by {
            assert(r[j].key <= r[i - 1].key);
        }
        if best < n {
            assert forall|j: int| #[trigger]
                back_candidate(r, limit as int, j) implies gap2(r, at, j) > gap2(
                r,
                at,
                best as int,
            ) || (gap2(r, at, j) == gap2(r, at, best as int) && j <= best) by {
                assert(i <= j < n - 1);
                assert(gap2(r, at, j) > best_d || (gap2(r, at, j) == best_d && j <= best));
            }
            assert(back_candidate(r, limit as int, best as int));
            assert(is_nearest(r, at, limit as int, best as int));
            lemma_nearest_is(r, at, limit as int, best as int);
        } else {
            assert forall|j: int| !#[trigger] back_candidate(r, limit as int, j) by {
                if 0 <= j < i {
                    assert(!back_candidate(r, limit as int, j));
                }
            }
            lemma_nearest_none(r, at, limit as int);
        }
    }
    if best < n {
        let p = rec.get(best);
        assert(rec@[best as int].value.in_range());
        assert(in_key(rec@[best as int].key as int));
        if p.value.xy().distance(at) + p.key < travelled {
            rec.truncate(best + 1);
        }
    }
}

/// Brings the time series up to the new instant.
fn merge_distance(d: &mut MoveRecords<i64>, time: i64, travelled: i64)
    requires
        old(d).wf(),
        old(d)@.len() > 0,
        old(d)@.last().key <= time,
        0 <= time <= KEY_MAX,
        in_key(travelled as int),
    ensures
        final(d)@ == merged(old(d)@, time as int, travelled as int),
        final(d).wf(),
{
    let n = d.len();
    if n > 1 {
        assert(in_key(d@[n - 2].key as int));
        assert(d@[n - 2].value.in_range());
        assert(d@[n - 2].key <= d@[n - 1].key);
        if travelled - d.get(n - 2).value < EPSILON {
            d.pop();
        }
    }
    d.push(MoveRecord { key: time, value: travelled });
}

/// Adds the new position to the active series.
fn append_position(rec: &mut MoveRecords<Vector3>, at: i64, position: Vector3)
    requires
        old(rec).wf(),
        old(rec)@.len() > 0,
        old(rec)@.last().key <= at,
        in_key(at as int),
        position.bounded(),
    ensures
        final(rec)@ == appended(old(rec)@, at as int, position),
        final(rec).wf(),
{
    let n = rec.len();
    if n > 1 {
        assert(in_key(rec@[n - 2].key as int));
        assert(in_key(rec@[n - 1].key as int));
        if rec.get(n - 1).key - rec.get(n - 2).key < MIN_STEP {
            rec.pop();
        }
    }
    let m = rec.len();
    let tail = rec.get(m - 1);
    assert(rec@[m - 1].value.in_range());
    assert(rec@[m - 1].key <= old(rec)@[n - 1].key);
    if position.xy().distance_squared(tail.value.xy()) >= EPSILON_SQUARED {
        rec.push(MoveRecord { key: at, value: position });
    }
}

impl SnakeHead {
    /// The invariant of the chain holds.
    pub open spec fn wf(&self) -> bool {
        self@.wf()
    }

    /// A chain of `bodies` whose head has not moved yet.
    pub fn new(bodies: Vec<SnakeBody>) -> (r: Self)
        requires
            forall|i: int| 0 <= i < bodies@.len() ==> (#[trigger] bodies@[i]).wf() && bodies@[i].segment == 0,
        ensures
            r@ == initial(bodies@),
            r.wf(),
    {
        let mut max_delay: i64 = 0;
        let mut max_distance: i64 = 0;
        let mut i: usize = 0;
        while i < bodies.len()
            invariant
                i <= bodies@.len(),
                forall|i: int| 0 <= i < bodies@.len() ==> (#[trigger] bodies@[i]).wf(),
                max_delay == longest_delay(bodies@.take(i as int)),
                max_distance == longest_distance(bodies@.take(i as int)),
                0 <= max_delay <= KEY_MAX,
                0 <= max_distance <= KEY_MAX,
            decreases bodies@.len() - i,
        {
            assert(bodies@.take(i + 1).drop_last() =~= bodies@.take(i as int));
            assert(bodies@[i as int].wf());
            if bodies[i].delay > max_delay {
                max_delay = bodies[i].delay;
            }
            if bodies[i].distance > max_distance {
                max_distance = bodies[i].distance;
            }
            i = i + 1;
        }
        assert(bodies@.take(i as int) =~= bodies@);
        let r = SnakeHead {
            position: Vector3 { x: 0, y: 0, z: 0 },
            time: 0,
            max_delay,
            max_distance,
            dis_rec: MoveRecords::new(),
            segment_first: 0,
            segments: Vec::new(),
            bodies,
        };
        assert(r@.segments =~= Seq::empty());
        assert(r@ == initial(bodies@));
        r
    }

    /// Where the head stands.
    pub fn head_position(&self) -> (p: Vector3)
        ensures
            p == self@.position,
    {
        self.position
    }

    /// The chain's clock.
    pub fn time(&self) -> (t: i64)
        ensures
            t == self@.time,
    {
        self.time
    }

    /// The length the head has travelled.
    pub fn travelled(&self) -> (d: i64)
        requires
            self.wf(),
        ensures
            d == self@.travelled(),
    {
        match self.dis_rec.last() {
            Some(rec) => rec.value,
            None => 0,
        }
    }

    /// The number of segments dropped so far: the number of the oldest
    /// segment that is retained.
    pub fn segment_first(&self) -> (n: usize)
        ensures
            n == self@.segment_first,
    {
        self.segment_first
    }

    /// The number of retained segments.
    pub fn segment_count(&self) -> (n: usize)
        ensures
            n == self@.segments.len(),
    {
        self.segments.len()
    }

    /// The number of bodies.
    pub fn body_count(&self) -> (n: usize)
        ensures
            n == self@.bodies.len(),
    {
        self.bodies.len()
    }

    /// Body `index`, counted from the head.
    pub fn body(&self, index: usize) -> (b: SnakeBody)
        requires
            index < self@.bodies.len(),
        ensures
            b == self@.bodies[index as int],
    {
        self.bodies[index]
    }

    /// Whether [`SnakeHead::move_head`] accepts this movement.
    pub fn can_move_head(&self, dt: i64, position: Vector3) -> (ok: bool)
        requires
            self.wf(),
        ensures
            ok == self@.can_record(dt as int, position),
    {
        let travelled = self.travelled();
        dt > 0 && dt <= KEY_MAX - self.time && position.is_in_range() && travelled <= KEY_MAX
            - REACH_MAX && self.segments.len() < usize::MAX - self.segment_first
    }

    /// Records that the head has moved to `position` in `move_mode`, `dt`
    /// after its last movement.
    pub fn move_head(&mut self, dt: i64, position: Vector3, move_mode: MoveMode)
        requires
            old(self).wf(),
            old(self)@.can_record(dt as int, position),
        ensures
            final(self)@ == old(self)@.record(dt as int, position, move_mode),
            final(self).wf(),
    {
        proof {
            lemma_record_wf(old(self)@, dt as int, position, move_mode);
        }
        self.position = position;
        self.time = self.time + dt;
        if self.dis_rec.is_empty() {
            self.dis_rec.push(MoveRecord { key: self.time, value: 0 });
            self.segments.push(MoveSegment::new(position, 0, move_mode));
            proof {
                assert(self@.distances =~= seq![MoveRecord { key: self.time, value: 0i64 }]);
                assert(self@.segments =~= seq![
                    SegmentView { records: seq![MoveRecord { key: 0i64, value: position }], mode: move_mode },
                ]);
            }
        } else {
            let ghost v = old(self)@;
            let n0 = self.segments.len();
            assert(v.segments[n0 - 1].wf());
            assert(v.segments[n0 - 1].end() <= v.travelled());
            if move_mode != self.segments[n0 - 1].move_mode {
                let rec = self.segments[n0 - 1].pos_rec.last().unwrap();
                assert(rec.value.in_range());
                assert(in_key(rec.key as int));
                assert(v.segments[n0 - 1].records[0].key <= rec.key);
                self.segments.push(MoveSegment::new(rec.value, rec.key, move_mode));
            }
            let ghost opened = v.opened(move_mode);
            assert(self@.segments =~= opened);
            let last = self.segments.len() - 1;
            let travelled = self.dis_rec.last().unwrap().value;
            assert(v.distances[0].value <= v.distances[v.distances.len() - 1].value);
            assert(v.distances.last().value.in_range());
            assert(opened[last as int].wf());
            assert(opened[last as int].end() <= v.travelled());
            backtrack(&mut self.segments[last].pos_rec, position, travelled);
            let ghost kept = backtracked(opened[last as int].records, position, v.travelled());
            proof {
                lemma_backtracked(opened[last as int].records, position, v.travelled());
            }
            let tail = self.segments[last].pos_rec.last().unwrap();
            assert(tail == kept.last());
            assert(tail.value.in_range());
            assert(kept[0].key <= tail.key);
            let at: i64 = match move_mode {
                MoveMode::Normal => tail.key + tail.value.xy().distance(position.xy()),
                MoveMode::Teleport => tail.key,
            };
            assert(at == step_distance(kept, position, move_mode));
            let reached: i64 = if at > travelled {
                at
            } else {
                travelled
            };
            merge_distance(&mut self.dis_rec, self.time, reached);
            append_position(&mut self.segments[last].pos_rec, at, position);
            let ghost placed = opened.update(
                last as int,
                SegmentView { records: appended(kept, at as int, position), mode: move_mode },
            );
            assert(self@.segments =~= placed);
            proof {
                lemma_appended(kept, at as int, position);
                lemma_merged(v.distances, self.time as int, reached as int);
                assert(placed[0].wf()) by {
                    if last == 0 {
                    } else {
                        assert(opened[0].wf());
                    }
                }
            }
            self.dis_rec.trim(self.max_delay);
            self.segments[0].pos_rec.trim(self.max_distance);
            assert(self@.segments =~= old(self)@.record(dt as int, position, move_mode).segments);
        }
    }

    /// The length the head had travelled at `time`: interpolated between
    /// the recorded instants, and held at the first and the last outside them.
    pub fn get_distance(&self, time: i64) -> (d: i64)
        requires
            self.wf(),
            self@.distances.len() > 0,
            in_key(time as int),
        ensures
            d == self@.distance_at(time as int),
            0 <= d <= self@.travelled(),
    {
        let r = self.dis_rec.get_linear(time);
        proof {
            lemma_linear_between(self@.distances, time as int);
        }
        r.unwrap().0
    }

    /// The point of segment number `segment` at arc length `distance`, and
    /// by how much `distance` falls short of the segment's first record
    /// (negative or zero where it does not).
    pub fn get_position(&self, segment: usize, distance: i64) -> (r: (Vector3, i64))
        requires
            self.wf(),
            self@.segment_first <= segment < self@.segment_first + self@.segments.len(),
            in_key(distance as int),
        ensures
            r.0 == self@.position_at(segment - self@.segment_first, distance as int).0,
            r.1 == self@.position_at(segment - self@.segment_first, distance as int).1,
            r.0.bounded(),
    {
        let k = segment - self.segment_first;
        let seg = &self.segments[k];
        assert(self@.segments[k as int].wf());
        match seg.move_mode {
            MoveMode::Teleport => {
                let rec = seg.pos_rec.last().unwrap();
                assert(rec.value.in_range());
                (rec.value, 0)
            },
            MoveMode::Normal => {
                let got = seg.pos_rec.get_linear(distance).unwrap();
                got
            },
        }
    }

    /// The retained positions of the head, oldest first.
    pub fn get_path(&self) -> (path: Vec<Vector3>)
        requires
            self.wf(),
        ensures
            path@ == self@.path(),
    {
        let mut path: Vec<Vector3> = Vec::new();
        let mut k: usize = 0;
        while k < self.segments.len()
            invariant
                self.wf(),
                k <= self.segments@.len(),
                path@ == path_of(self@.segments.take(k as int)),
            decreases self.segments@.len() - k,
        {
            let seg = &self.segments[k];
            assert(self@.segments[k as int].wf());
            let start: usize = if k == 0 {
                0
            } else {
                1
            };
            let ghost before = path@;
            let ghost recs = seg.pos_rec@;
            let mut j: usize = start;
            while j < seg.pos_rec.len()
                invariant
                    start <= j <= recs.len(),
                    recs == seg.pos_rec@,
                    path@ == before + recs.subrange(start as int, j as int).map_values(
                        |r: MoveRecord<Vector3>| r.value,
                    ),
                decreases recs.len() - j,
            {
                path.push(seg.pos_rec.get(j).value);
                assert(recs.subrange(start as int, j + 1).map_values(
                    |r: MoveRecord<Vector3>| r.value,
                ) =~= recs.subrange(start as int, j as int).map_values(
                    |r: MoveRecord<Vector3>| r.value,
                ).push(recs[j as int].value));
                j = j + 1;
            }
            proof {
                let segs = self@.segments.take(k + 1);
                assert(segs.drop_last() =~= self@.segments.take(k as int));
                assert(segs.last().records == recs);
                if k == 0 {
                    assert(recs.subrange(0, recs.len() as int) =~= recs);
                    assert(before =~= Seq::<Vector3>::empty());
                    assert(path@ =~= recs.map_values(|r: MoveRecord<Vector3>| r.value));
                } else {
                    assert(self@.segments[k as int].wf());
                    assert(recs.subrange(start as int, recs.len() as int) =~= recs.skip(1));
                }
            }
            k = k + 1;
        }
        assert(self@.segments.take(k as int) =~= self@.segments);
        path
    }
}

} // verus!

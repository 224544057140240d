//! The whole state of a chain as plain data, to be stored and brought back.
//!
//! A chain that is brought back from what it saved goes on exactly as the
//! chain that was saved would have.

use vstd::prelude::*;
use crate::body::SnakeBody;
use crate::chain::{rising, ChainView};
use crate::fixed::KEY_MAX;
use crate::head::SnakeHead;
use crate::records::{LerpValue, MoveRecord, MoveRecords};
use crate::segment::{MoveMode, MoveSegment, SegmentView};
use crate::vector::Vector3;

verus! {

/// A segment as plain data.
pub struct SegmentData {
    pub move_mode: MoveMode,
    pub records: Vec<MoveRecord<Vector3>>,
}

impl View for SegmentData {
    type V = SegmentView;

    open spec fn view(&self) -> SegmentView {
        SegmentView { records: self.records@, mode: self.move_mode }
    }
}

/// A chain as plain data: every piece of state that a chain retains.
pub struct ChainData {
    pub position: Vector3,
    pub time: i64,
    pub max_delay: i64,
    pub max_distance: i64,
    pub distances: Vec<MoveRecord<i64>>,
    pub segment_first: usize,
    pub segments: Vec<SegmentData>,
    pub bodies: Vec<SnakeBody>,
}

impl View for ChainData {
    type V = ChainView;

    open spec fn view(&self) -> ChainView {
        ChainView {
            position: self.position,
            time: self.time as int,
            max_delay: self.max_delay as int,
            max_distance: self.max_distance as int,
            distances: self.distances@,
            segment_first: self.segment_first as int,
            segments: Seq::new(self.segments@.len(), |k: int| self.segments@[k]@),
            bodies: self.bodies@,
        }
    }
}

/// Whether the keys of a series increase and its values do not decrease.
fn is_rising(records: &Vec<MoveRecord<i64>>) -> (ok: bool)
    ensures
        ok == rising(records@),
{
    let mut i: usize = 1;
    while i < records.len()
        invariant
            1 <= i,
            i <= records@.len() || records@.len() == 0,
            forall|a: int, b: int|
                0 <= a <= b < i && b < records@.len() ==> records@[a].value <= records@[b].value
                    && (a < b ==> records@[a].key < records@[b].key),
        decreases records@.len() - i,
    {
        if records[i - 1].value > records[i].value || records[i - 1].key >= records[i].key {
            assert(!(records@[i - 1].value <= records@[i as int].value && records@[i - 1].key
                < records@[i as int].key));
            return false;
        }
        assert forall|a: int, b: int| 0 <= a <= b < i + 1 implies records@[a].value
            <= records@[b].value && (a < b ==> records@[a].key < records@[b].key) by {
            if b == i && a < i {
                assert(records@[a].value <= records@[i - 1].value);
                assert(a < i - 1 ==> records@[a].key < records@[i - 1].key);
            }
        }
        i = i + 1;
    }
    true
}

impl SnakeHead {
    /// The state of the chain as plain data.
    pub fn save(&self) -> (data: ChainData)
        ensures
            data@ == self@,
    {
        let mut segments: Vec<SegmentData> = Vec::new();
        let mut k: usize = 0;
        while k < self.segments.len()
            invariant
                k <= self.segments@.len(),
                segments@.len() == k,
                forall|q: int| 0 <= q < k ==> (#[trigger] segments@[q])@ == self.segments@[q]@,
            decreases self.segments@.len() - k,
        {
            let seg = &self.segments[k];
            segments.push(SegmentData { move_mode: seg.move_mode, records: seg.pos_rec.to_vec() });
            k = k + 1;
        }
        let mut bodies: Vec<SnakeBody> = Vec::new();
        let mut i: usize = 0;
        while i < self.bodies.len()
            invariant
                i <= self.bodies@.len(),
                bodies@ == self.bodies@.take(i as int),
            decreases self.bodies@.len() - i,
        {
            bodies.push(self.bodies[i]);
            assert(bodies@ =~= self.bodies@.take(i + 1));
            i = i + 1;
        }
        assert(self.bodies@.take(i as int) =~= self.bodies@);
        let data = ChainData {
            position: self.position,
            time: self.time,
            max_delay: self.max_delay,
            max_distance: self.max_distance,
            distances: self.dis_rec.to_vec(),
            segment_first: self.segment_first,
            segments,
            bodies,
        };
        assert(data@.segments =~= self@.segments);
        data
    }

    /// The chain whose state `data` is, if `data` is the state of a chain:
    /// if it meets the invariant of a chain.
    pub fn load(data: &ChainData) -> (r: Option<SnakeHead>)
        ensures
            r.is_some() == data@.wf(),
            r.is_some() ==> r.unwrap()@ == data@,
    {
        let ghost v = data@;
        if data.time < 0 || data.time > KEY_MAX || data.max_delay < 0 || data.max_delay > KEY_MAX
            || data.max_distance < 0 || data.max_distance > KEY_MAX {
            return None;
        }
        if !data.position.is_in_range() {
            return None;
        }
        let dis_rec = match MoveRecords::from_records(&data.distances) {
            Some(s) => s,
            None => {
                return None;
            },
        };
        if !is_rising(&data.distances) {
            return None;
        }
        let count = data.distances.len();
        if (count == 0) != (data.segments.len() == 0) {
            return None;
        }
        if count > 0 && (data.distances[0].value < 0 || data.distances[count - 1].key > data.time) {
            return None;
        }
        let travelled: i64 = if count > 0 {
            data.distances[count - 1].value
        } else {
            0
        };
        assert(travelled == v.travelled());
        if data.segments.len() > usize::MAX - data.segment_first {
            return None;
        }
        let mut segments: Vec<MoveSegment> = Vec::new();
        let mut k: usize = 0;
        while k < data.segments.len()
            invariant
                k <= data.segments@.len(),
                v == data@,
                travelled == v.travelled(),
                segments@.len() == k,
                forall|q: int| 0 <= q < k ==> (#[trigger] segments@[q])@ == v.segments[q],
                forall|q: int|
                    0 <= q < k ==> (#[trigger] v.segments[q]).wf() && v.segments[q].end()
                        <= travelled,
            decreases data.segments@.len() - k,
        {
            let seg = &data.segments[k];
            assert(seg@ == v.segments[k as int]);
            let pos_rec = match MoveRecords::from_records(&seg.records) {
                Some(s) => s,
                None => {
                    assert(!v.segments[k as int].wf());
                    return None;
                },
            };
            let n = seg.records.len();
            if n == 0 || seg.records[0].key < 0 || seg.records[n - 1].key > travelled {
                assert(!(v.segments[k as int].wf() && v.segments[k as int].end() <= travelled));
                return None;
            }
            segments.push(MoveSegment { pos_rec, move_mode: seg.move_mode });
            k = k + 1;
        }
        let mut bodies: Vec<SnakeBody> = Vec::new();
        let mut i: usize = 0;
        while i < data.bodies.len()
            invariant
                i <= data.bodies@.len(),
                v == data@,
                data.segment_first + data.segments@.len() <= usize::MAX,
                bodies@ == data.bodies@.take(i as int),
                forall|q: int| 0 <= q < i ==> v.body_ok(#[trigger] v.bodies[q]),
            decreases data.bodies@.len() - i,
        {
            let b = data.bodies[i];
            let fits = 0 <= b.delay && b.delay <= KEY_MAX && 0 <= b.distance && b.distance <= KEY_MAX
                && b.position.is_in_range() && b.target.is_in_range();
            let follows = data.segment_first <= b.segment && (b.segment - data.segment_first
                < data.segments.len() || b.segment == data.segment_first);
            if !fits || !follows {
                assert(!v.body_ok(v.bodies[i as int]));
                return None;
            }
            bodies.push(b);
            assert(bodies@ =~= data.bodies@.take(i + 1));
            i = i + 1;
        }
        assert(data.bodies@.take(i as int) =~= data.bodies@);
        let head = SnakeHead {
            position: data.position,
            time: data.time,
            max_delay: data.max_delay,
            max_distance: data.max_distance,
            dis_rec,
            segment_first: data.segment_first,
            segments,
            bodies,
        };
        assert(head@.segments =~= v.segments);
        assert(head@ == v);
        Some(head)
    }
}

} // verus!

//! Segments: maximal runs of head motion that share one motion mode.

use vstd::prelude::*;
use crate::fixed::in_key;
use crate::records::{valid, MoveRecord, MoveRecords};
use crate::vector::Vector3;

verus! {

/// How the head reached a position: by moving there, or by a jump.
#[derive(Clone, Copy, PartialEq, Eq, Debug, Structural)]
pub enum MoveMode {
    Normal,
    Teleport,
}

/// What a segment holds: positions keyed by arc length, and its mode.
pub struct SegmentView {
    pub records: Seq<MoveRecord<Vector3>>,
    pub mode: MoveMode,
}

impl SegmentView {
    /// The segment holds at least one record, in key order, at arc lengths
    /// that are not negative.
    pub open spec fn wf(self) -> bool {
        &&& valid(self.records)
        &&& self.records.len() > 0
        &&& self.records[0].key >= 0
    }

    /// The arc length at which the segment ends.
    pub open spec fn end(self) -> int {
        self.records.last().key as int
    }

    /// The segment that opens where `self` ends.
    pub open spec fn successor(self, mode: MoveMode) -> SegmentView {
        SegmentView { records: seq![self.records.last()], mode }
    }
}

/// One run of head positions recorded under a single motion mode.
pub struct MoveSegment {
    pub(crate) pos_rec: MoveRecords<Vector3>,
    pub(crate) move_mode: MoveMode,
}

impl View for MoveSegment {
    type V = SegmentView;

    open(crate) spec fn view(&self) -> SegmentView {
        SegmentView { records: self.pos_rec@, mode: self.move_mode }
    }
}

impl MoveSegment {
    /// A segment that starts with one record.
    pub fn new(start_pos: Vector3, distance: i64, move_mode: MoveMode) -> (r: Self)
        requires
            start_pos.bounded(),
            0 <= distance,
            in_key(distance as int),
        ensures
            r@ == (SegmentView {
                records: seq![MoveRecord { key: distance, value: start_pos }],
                mode: move_mode,
            }),
            r@.wf(),
    {
        let mut pos_rec = MoveRecords::new();
        pos_rec.push(MoveRecord { key: distance, value: start_pos });
        assert(pos_rec@ =~= seq![MoveRecord { key: distance, value: start_pos }]);
        MoveSegment { pos_rec, move_mode }
    }

    /// The mode under which the segment was recorded.
    pub fn move_mode(&self) -> (m: MoveMode)
        ensures
            m == self@.mode,
    {
        self.move_mode
    }
}

} // verus!

//! How bodies move from one segment of the path to the next, and how
//! segments that no body follows any more are dropped.

use vstd::prelude::*;
use crate::body::SnakeBody;
use crate::chain::ChainView;
use crate::fixed::{in_key, COORD_MAX};
use crate::head::SnakeHead;
use crate::records::LerpValue;
use crate::segment::MoveMode;
use crate::vector::{lemma_product_bound, Vector3};

verus! {

/// The lowest segment number that any of `bodies` follows.
pub open spec fn lowest_segment(bodies: Seq<SnakeBody>) -> int
    decreases bodies.len(),
{
    if bodies.len() == 0 {
        0
    } else if bodies.len() == 1 {
        bodies[0].segment as int
    } else {
        let rest = lowest_segment(bodies.drop_last());
        if bodies.last().segment < rest {
            bodies.last().segment as int
        } else {
            rest
        }
    }
}

impl ChainView {
    /// The arc length at which body `b` wants to be: where the head was
    /// `b.delay` ago, less `b.distance`.
    pub open spec fn query(self, b: SnakeBody) -> int {
        self.distance_at(self.time - b.delay) - b.distance
    }

    /// The point `at` is clear: the head and every body of `before` are at
    /// least two radii away from it in the plane.
    pub open spec fn clear(self, at: Vector3, before: Seq<SnakeBody>, radius: int) -> bool {
        &&& at.planar().dist2(self.position.planar()) >= 4 * (radius * radius)
        &&& forall|i: int|
            0 <= i < before.len() ==> at.planar().dist2((#[trigger] before[i]).position.planar())
                >= 4 * (radius * radius)
    }

    /// Body `b` has a next segment and is done with its own: it has reached
    /// the end of a stretch of ordinary motion, or it stands where a jump landed.
    pub open spec fn can_leave(self, b: SnakeBody) -> bool {
        let k = b.segment - self.segment_first;
        &&& k + 1 < self.segments.len()
        &&& match self.segments[k].mode {
            MoveMode::Normal => self.query(b) >= self.segments[k].end(),
            MoveMode::Teleport => true,
        }
    }

    /// Body `b` after its turn, `before` being the bodies nearer to the head
    /// after theirs. A body that can leave its segment walks on into ordinary
    /// motion; it follows a jump, and then stands at the landing point, only
    /// if that point is clear.
    pub open spec fn advanced(self, b: SnakeBody, before: Seq<SnakeBody>, radius: int) -> SnakeBody {
        if self.can_leave(b) {
            let next = self.segments[b.segment - self.segment_first + 1];
            match next.mode {
                MoveMode::Normal => SnakeBody { segment: (b.segment + 1) as usize, ..b },
                MoveMode::Teleport => if self.clear(next.records.last().value, before, radius) {
                    SnakeBody {
                        position: next.records.last().value,
                        segment: (b.segment + 1) as usize,
                        ..b
                    }
                } else {
                    b
                },
            }
        } else {
            b
        }
    }

    /// The first `n` bodies after their turns, taken in order from the head.
    pub open spec fn advance_upto(self, n: int, radius: int) -> Seq<SnakeBody>
        decreases n,
    {
        if n <= 0 {
            Seq::empty()
        } else {
            let before = self.advance_upto(n - 1, radius);
            before.push(self.advanced(self.bodies[n - 1], before, radius))
        }
    }

    /// The state without the segments that every body has left behind.
    pub open spec fn pruned(self) -> ChainView {
        let lowest = lowest_segment(self.bodies);
        if self.bodies.len() > 0 && lowest > self.segment_first {
            ChainView {
                segments: self.segments.skip(lowest - self.segment_first),
                segment_first: lowest,
                ..self
            }
        } else {
            self
        }
    }

    /// The state after every body has had its turn to move on to its next
    /// segment and the segments left behind have been dropped. Nothing
    /// happens before the head has first moved.
    pub open spec fn updated(self, radius: int) -> ChainView {
        if self.distances.len() == 0 {
            self
        } else {
            (ChainView { bodies: self.advance_upto(self.bodies.len() as int, radius), ..self }).pruned()
        }
    }
}

/// The lowest segment number is that of some body and not above any.
pub proof fn lemma_lowest_segment(bodies: Seq<SnakeBody>)
    requires
        bodies.len() > 0,
    ensures
        forall|i: int| 0 <= i < bodies.len() ==> lowest_segment(bodies) <= (#[trigger] bodies[i]).segment,
        exists|i: int| 0 <= i < bodies.len() && lowest_segment(bodies) == (#[trigger] bodies[i]).segment,
    decreases bodies.len(),
{
    if bodies.len() == 1 {
        assert(lowest_segment(bodies) == bodies[0].segment);
    } else {
        let rest = bodies.drop_last();
        lemma_lowest_segment(rest);
        let w = choose|i: int| 0 <= i < rest.len() && lowest_segment(rest) == (#[trigger] rest[i]).segment;
        assert(rest[w] == bodies[w]);
        assert forall|i: int| 0 <= i < bodies.len() implies lowest_segment(bodies) <= (#[trigger] bodies[i]).segment by {
            if i < rest.len() {
                assert(rest[i] == bodies[i]);
            }
        }
        if bodies.last().segment < lowest_segment(rest) {
            assert(lowest_segment(bodies) == bodies[bodies.len() - 1].segment);
        } else {
            assert(lowest_segment(bodies) == bodies[w].segment);
        }
    }
}

/// A body's turn leaves it a body of the chain, in its segment or the next.
pub proof fn lemma_advanced(v: ChainView, b: SnakeBody, before: Seq<SnakeBody>, radius: int)
    requires
        v.wf(),
        v.body_ok(b),
    ensures
        v.body_ok(v.advanced(b, before, radius)),
        b.segment <= v.advanced(b, before, radius).segment <= b.segment + 1,
        v.advanced(b, before, radius).delay == b.delay,
        v.advanced(b, before, radius).distance == b.distance,
        v.advanced(b, before, radius).target == b.target,
{
    if v.can_leave(b) {
        let next = v.segments[b.segment - v.segment_first + 1];
        assert(next.wf());
        assert(next.records.last().value.in_range());
    }
}

/// Dropping the segments that every body has left keeps the invariant.
pub proof fn lemma_pruned_wf(v: ChainView)
    requires
        v.wf(),
    ensures
        v.pruned().wf(),
        v.pruned().segment_first >= v.segment_first,
        v.pruned().bodies == v.bodies,
{
    let lowest = lowest_segment(v.bodies);
    if v.bodies.len() > 0 && lowest > v.segment_first {
        lemma_lowest_segment(v.bodies);
        let w = choose|i: int| 0 <= i < v.bodies.len() && lowest == (#[trigger] v.bodies[i]).segment;
        assert(v.body_ok(v.bodies[w]));
        let n = lowest - v.segment_first;
        let p = v.pruned();
        assert(p.segments.len() == v.segments.len() - n);
        assert forall|k: int| 0 <= k < p.segments.len() implies (#[trigger] p.segments[k]).wf()
            && p.segments[k].end() <= p.travelled() by {
            assert(v.segments[k + n].wf());
        }
        assert forall|i: int| 0 <= i < p.bodies.len() implies p.body_ok(#[trigger] p.bodies[i]) by {
            assert(v.body_ok(v.bodies[i]));
        }
    }
}

/// After the first `n` bodies have had their turns they are bodies of the
/// chain still, each in its segment or the next.
pub proof fn lemma_advance_upto(v: ChainView, n: int, radius: int)
    requires
        v.wf(),
        0 <= n <= v.bodies.len(),
    ensures
        v.advance_upto(n, radius).len() == n,
        forall|i: int|
            0 <= i < n ==> v.body_ok(#[trigger] v.advance_upto(n, radius)[i])
                && v.bodies[i].segment <= v.advance_upto(n, radius)[i].segment
                    <= v.bodies[i].segment + 1 && v.advance_upto(n, radius)[i].delay
                    == v.bodies[i].delay && v.advance_upto(n, radius)[i].distance
                    == v.bodies[i].distance && v.advance_upto(n, radius)[i].target
                    == v.bodies[i].target,
    decreases n,
{
    if n > 0 {
        lemma_advance_upto(v, n - 1, radius);
        let before = v.advance_upto(n - 1, radius);
        assert(v.body_ok(v.bodies[n - 1]));
        lemma_advanced(v, v.bodies[n - 1], before, radius);
        let after = v.advance_upto(n, radius);
        assert forall|i: int| 0 <= i < n implies v.body_ok(#[trigger] after[i])
            && v.bodies[i].segment <= after[i].segment <= v.bodies[i].segment + 1
            && after[i].delay == v.bodies[i].delay && after[i].distance == v.bodies[i].distance
            && after[i].target == v.bodies[i].target by {
            if i < n - 1 {
                assert(after[i] == before[i]);
            }
        }
    }
}

/// Giving the bodies their turns keeps the invariant of the chain: no
/// body falls back to an earlier segment, and none follows a segment that
/// has been dropped.
pub proof fn lemma_updated_wf(v: ChainView, radius: int)
    requires
        v.wf(),
    ensures
        v.updated(radius).wf(),
        v.updated(radius).bodies.len() == v.bodies.len(),
        v.updated(radius).segment_first >= v.segment_first,
        v.updated(radius).distances == v.distances,
        v.updated(radius).position == v.position,
        forall|i: int|
            0 <= i < v.bodies.len() ==> {
                let b = #[trigger] v.updated(radius).bodies[i];
                &&& v.bodies[i].segment <= b.segment <= v.bodies[i].segment + 1
                &&& b.delay == v.bodies[i].delay
                &&& b.distance == v.bodies[i].distance
                &&& b.target == v.bodies[i].target
            },
{
    if v.distances.len() > 0 {
        let n = v.bodies.len() as int;
        lemma_advance_upto(v, n, radius);
        let w = ChainView { bodies: v.advance_upto(n, radius), ..v };
        assert forall|i: int| 0 <= i < w.bodies.len() implies w.body_ok(#[trigger] w.bodies[i]) by {
            assert(v.body_ok(v.advance_upto(n, radius)[i]));
        }
        assert(w.wf());
        lemma_pruned_wf(w);
    }
}

impl SnakeHead {
    /// Whether `at` is clear of the head and of the first `count` bodies.
    fn landing_clear(&self, at: Vector3, count: usize, radius: i64) -> (ok: bool)
        requires
            self.wf(),
            at.bounded(),
            count <= self@.bodies.len(),
            0 < radius <= COORD_MAX,
        ensures
            ok == self@.clear(at, self@.bodies.take(count as int), radius as int),
    {
        proof {
            lemma_product_bound(radius as int, radius as int, COORD_MAX as int);
        }
        let rr4: i128 = 4 * ((radius as i128) * (radius as i128));
        let spot = at.xy();
        if spot.distance_squared(self.position.xy()) < rr4 {
            return false;
        }
        let mut i: usize = 0;
        while i < count
            invariant
                self.wf(),
                i <= count <= self@.bodies.len(),
                spot == at.planar(),
                spot.bounded(),
                rr4 == 4 * (radius * radius),
                forall|k: int|
                    0 <= k < i ==> spot.dist2((#[trigger] self@.bodies[k]).position.planar()) >= rr4,
            decreases count - i,
        {
            assert(self@.body_ok(self@.bodies[i as int]));
            if spot.distance_squared(self.bodies[i].position.xy()) < rr4 {
                assert(self@.bodies.take(count as int)[i as int] == self@.bodies[i as int]);
                return false;
            }
            i = i + 1;
        }
        proof {
            let before = self@.bodies.take(count as int);
            assert forall|k: int| 0 <= k < before.len() implies spot.dist2(
                (#[trigger] before[k]).position.planar(),
            ) >= 4 * (radius * radius) by {
                assert(before[k] == self@.bodies[k]);
            }
        }
        true
    }

    /// The arc length at which `b` wants to be.
    pub(crate) fn query(&self, b: &SnakeBody) -> (q: i64)
        requires
            self.wf(),
            self@.distances.len() > 0,
            b.wf(),
        ensures
            q == self@.query(*b),
            in_key(q as int),
    {
        self.get_distance(self.time - b.delay) - b.distance
    }

    /// Body `index` after its turn, the bodies before it having had theirs.
    fn advance(&self, index: usize, radius: i64) -> (r: SnakeBody)
        requires
            self.wf(),
            self@.distances.len() > 0,
            index < self@.bodies.len(),
            0 < radius <= COORD_MAX,
        ensures
            r == self@.advanced(
                self@.bodies[index as int],
                self@.bodies.take(index as int),
                radius as int,
            ),
    {
        let b = self.bodies[index];
        assert(self@.body_ok(b));
        let k = b.segment - self.segment_first;
        if k + 1 >= self.segments.len() {
            return b;
        }
        assert(self@.segments[k as int].wf());
        assert(self@.segments[k + 1].wf());
        let leaves = match self.segments[k].move_mode {
            MoveMode::Normal => {
                let end = self.segments[k].pos_rec.last().unwrap().key;
                self.query(&b) >= end
            },
            MoveMode::Teleport => true,
        };
        if !leaves {
            return b;
        }
        match self.segments[k + 1].move_mode {
            MoveMode::Normal => SnakeBody { segment: b.segment + 1, ..b },
            MoveMode::Teleport => {
                let landing = self.segments[k + 1].pos_rec.last().unwrap().value;
                assert(landing.in_range());
                if self.landing_clear(landing, index, radius) {
                    SnakeBody { position: landing, segment: b.segment + 1, ..b }
                } else {
                    b
                }
            },
        }
    }

    /// Drops the segments that every body has left behind.
    fn prune(&mut self)
        requires
            old(self).wf(),
        ensures
            final(self)@ == old(self)@.pruned(),
            final(self).wf(),
    {
        proof {
            lemma_pruned_wf(self@);
        }
        let n = self.bodies.len();
        if n == 0 {
            return;
        }
        let mut lowest: usize = self.bodies[0].segment;
        let mut i: usize = 1;
        assert(self@.bodies.take(1) =~= seq![self@.bodies[0]]);
        while i < n
            invariant
                1 <= i <= n,
                n == self@.bodies.len(),
                lowest == lowest_segment(self@.bodies.take(i as int)),
            decreases n - i,
        {
            assert(self@.bodies.take(i + 1).drop_last() =~= self@.bodies.take(i as int));
            if self.bodies[i].segment < lowest {
                lowest = self.bodies[i].segment;
            }
            i = i + 1;
        }
        assert(self@.bodies.take(n as int) =~= self@.bodies);
        if lowest > self.segment_first {
            proof {
                lemma_lowest_segment(self@.bodies);
                let w = choose|i: int|
                    0 <= i < self@.bodies.len() && lowest == (#[trigger] self@.bodies[i]).segment;
                assert(self@.body_ok(self@.bodies[w]));
            }
            let tail = self.segments.split_off(lowest - self.segment_first);
            self.segments = tail;
            self.segment_first = lowest;
            assert(self@.segments =~= old(self)@.segments.skip(lowest - old(self)@.segment_first));
        }
    }

    /// Gives every body, in order from the head, its turn to move on to
    /// the next segment of the path, then drops the segments that no body
    /// follows any more. Solving a tick begins with this; it stands on its
    /// own for a host that moves bodies on without solving.
    pub fn update_body(&mut self, radius: i64)
        requires
            old(self).wf(),
            0 < radius <= COORD_MAX,
        ensures
            final(self)@ == old(self)@.updated(radius as int),
            final(self).wf(),
    {
        if self.dis_rec.is_empty() {
            return;
        }
        let ghost v = self@;
        let n = self.bodies.len();
        let mut i: usize = 0;
        while i < n
            invariant
                i <= n,
                n == v.bodies.len(),
                v.wf(),
                v.distances.len() > 0,
                0 < radius <= COORD_MAX,
                self.wf(),
                self@ == (ChainView { bodies: self@.bodies, ..v }),
                self@.bodies.len() == n,
                self@.bodies.take(i as int) == v.advance_upto(i as int, radius as int),
                forall|k: int| i <= k < n ==> self@.bodies[k] == v.bodies[k],
            decreases n - i,
        {
            let ghost before = self@.bodies.take(i as int);
            let ghost w = self@;
            let moved = self.advance(i, radius);
            proof {
                assert(w.body_ok(w.bodies[i as int]));
                lemma_advanced(w, w.bodies[i as int], before, radius as int);
                assert(moved == v.advanced(v.bodies[i as int], before, radius as int));
            }
            self.bodies[i] = moved;
            proof {
                assert(self@.bodies.take(i + 1) =~= v.advance_upto(i as int, radius as int).push(moved));
                assert forall|k: int| 0 <= k < self@.bodies.len() implies self@.body_ok(
                    #[trigger] self@.bodies[k],
                ) by {
                    if k != i {
                        assert(w.body_ok(w.bodies[k]));
                    }
                }
                assert(self@.segments =~= w.segments);
            }
            i = i + 1;
        }
        assert(self@.bodies.take(n as int) =~= self@.bodies);
        self.prune();
    }
}

} // verus!

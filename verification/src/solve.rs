//! A tick of the chain: every body is given its target on the head's path
//! and the bodies are then moved toward their targets.

use vstd::prelude::*;
use crate::body::SnakeBody;
use crate::chain::ChainView;
use crate::fixed::{mul_div, scale, spec_clamp, spec_max, spec_min, COORD_MAX, EPSILON};
use crate::head::SnakeHead;
use crate::relax::{moves_ok, relax, relaxed, BodyMove, GroundProjector, SOLVE_STEP};
use crate::vector::Vector2;

verus! {

/// The speed limit of a body that is `expect` short of its target: one and
/// a half times `max_move` up to one and a half radii, twice `max_move` from
/// four radii on, and rising evenly in between.
pub open spec fn boosted(max_move: int, expect: int, radius: int) -> int {
    scale(max_move, 15 * radius + spec_clamp(2 * expect - 3 * radius, 0, 5 * radius), 10 * radius)
}

/// The bodies with the positions and targets that the solved entries hold;
/// entry `k + 1` belongs to body `k`.
pub open spec fn committed(bodies: Seq<SnakeBody>, m: Seq<BodyMove>) -> Seq<SnakeBody> {
    Seq::new(
        bodies.len(),
        |k: int| SnakeBody { position: m[k + 1].position, target: m[k + 1].target, ..bodies[k] },
    )
}

impl ChainView {
    /// What body `b` brings into the tick. Its target is the point of its
    /// segment at the arc length it asks for. Where that arc length falls
    /// short of the segment, the body is to stop that much short of the
    /// target. Its step goes toward the target, no farther than it is to go
    /// and no farther than its speed limit.
    pub open spec fn sampled(self, b: SnakeBody, max_move: int, radius: int) -> BodyMove {
        let at = self.position_at(b.segment - self.segment_first, self.query(b));
        let current = at.0.planar().dist(b.position.planar());
        let expect = spec_max(current - spec_max(at.1, 0), 0);
        let ceiling = boosted(max_move, expect, radius);
        BodyMove {
            position: b.position,
            delta: if current > EPSILON {
                at.0.planar().diff(b.position.planar()).scaled(spec_min(expect, ceiling), current)
            } else {
                Vector2 { x: 0, y: 0 }
            },
            origin: b.position,
            target: at.0,
            max_move: ceiling as i64,
        }
    }

    /// What the head brings into the tick: it stands still at its own target.
    pub open spec fn head_entry(self) -> BodyMove {
        BodyMove {
            position: self.position,
            delta: Vector2 { x: 0, y: 0 },
            origin: self.position,
            target: self.position,
            max_move: 0,
        }
    }

    /// The entries of a tick: the head, then the bodies.
    pub open spec fn entries(self, max_move: int, radius: int) -> Seq<BodyMove> {
        Seq::new(
            self.bodies.len() + 1,
            |k: int|
                if k == 0 {
                    self.head_entry()
                } else {
                    self.sampled(self.bodies[k - 1], max_move, radius)
                },
        )
    }

    /// The state after a tick: the bodies have moved on along the segments,
    /// been given their targets, and been moved toward them. Nothing
    /// happens before the head has first moved.
    pub open spec fn solved<G: GroundProjector>(
        self,
        max_move: int,
        min_move: int,
        radius: int,
        ground: Option<&G>,
    ) -> ChainView {
        if self.distances.len() == 0 {
            self
        } else {
            let u = self.updated(radius);
            ChainView {
                bodies: committed(
                    u.bodies,
                    relaxed(u.entries(max_move, radius), min_move, radius, ground, SOLVE_STEP as int),
                ),
                ..u
            }
        }
    }
}

/// The speed limit lies between `max_move` and twice `max_move`.
pub proof fn lemma_boosted(max_move: int, expect: int, radius: int)
    requires
        0 <= max_move,
        0 < radius,
    ensures
        max_move <= boosted(max_move, expect, radius) <= 2 * max_move,
{
    let num = 15 * radius + spec_clamp(2 * expect - 3 * radius, 0, 5 * radius);
    assert(max_move <= (max_move * num) / (10 * radius) <= 2 * max_move) by (nonlinear_arith)
        requires
            0 <= max_move,
            0 < radius,
            15 * radius <= num <= 20 * radius,
    ;
}

impl SnakeHead {
    /// What body `b` brings into the tick.
    fn sample(&self, b: &SnakeBody, max_move: i64, radius: i64) -> (r: BodyMove)
        requires
            self.wf(),
            self@.distances.len() > 0,
            self@.body_ok(*b),
            0 <= max_move <= COORD_MAX,
            0 < radius <= COORD_MAX,
        ensures
            r == self@.sampled(*b, max_move as int, radius as int),
            r.wf(),
    {
        let query = self.query(b);
        let (target, overshoot) = self.get_position(b.segment, query);
        let gap = target.xy().minus(b.position.xy());
        let current = target.xy().distance(b.position.xy());
        let short: i64 = if overshoot > 0 {
            overshoot
        } else {
            0
        };
        let expect: i64 = if current > short {
            current - short
        } else {
            0
        };
        let lift: i64 = if 2 * expect - 3 * radius < 0 {
            0
        } else if 2 * expect - 3 * radius > 5 * radius {
            5 * radius
        } else {
            2 * expect - 3 * radius
        };
        proof {
            lemma_boosted(max_move as int, expect as int, radius as int);
        }
        let ceiling = mul_div(max_move, 15 * radius + lift, 10 * radius);
        let delta = if current > EPSILON {
            let reach: i64 = if expect < ceiling {
                expect
            } else {
                ceiling
            };
            gap.shrink(reach, current)
        } else {
            Vector2 { x: 0, y: 0 }
        };
        BodyMove { position: b.position, delta, origin: b.position, target, max_move: ceiling }
    }

    /// Solves a tick. Every body has its turn to move on to the next
    /// segment of the path, is given its target there, and is moved toward
    /// it in [`SOLVE_STEP`] rounds that keep bodies from overlapping; then
    /// the bodies hold their new positions and their targets.
    pub fn solve_body<G: GroundProjector>(
        &mut self,
        max_move: i64,
        min_move: i64,
        radius: i64,
        ground: Option<&G>,
    )
        requires
            old(self).wf(),
            0 <= max_move <= COORD_MAX,
            0 < radius <= COORD_MAX,
        ensures
            final(self)@ == old(self)@.solved(max_move as int, min_move as int, radius as int, ground),
            final(self).wf(),
    {
        if self.dis_rec.is_empty() {
            return;
        }
        self.update_body(radius);
        let ghost u = self@;
        let n = self.bodies.len();
        let head = self.position;
        let mut m: Vec<BodyMove> = Vec::new();
        m.push(
            BodyMove {
                position: head,
                delta: Vector2 { x: 0, y: 0 },
                origin: head,
                target: head,
                max_move: 0,
            },
        );
        let mut k: usize = 0;
        while k < n
            invariant
                k <= n,
                n == self@.bodies.len(),
                self@ == u,
                self.wf(),
                u.distances.len() > 0,
                0 <= max_move <= COORD_MAX,
                0 < radius <= COORD_MAX,
                m@.len() == k + 1,
                moves_ok(m@),
                forall|q: int| 0 <= q <= k ==> #[trigger] m@[q] == u.entries(max_move as int, radius as int)[q],
            decreases n - k,
        {
            let b = self.bodies[k];
            assert(u.body_ok(u.bodies[k as int]));
            let entry = self.sample(&b, max_move, radius);
            let ghost before = m@;
            m.push(entry);
            proof {
                assert forall|q: int| 0 <= q < m@.len() implies (#[trigger] m@[q]).wf() by {
                    if q < before.len() {
                        assert(before[q].wf());
                    }
                }
                assert forall|q: int| 0 <= q <= k + 1 implies #[trigger] m@[q] == u.entries(
                    max_move as int,
                    radius as int,
                )[q] by {
                    if q <= k {
                        assert(before[q] == u.entries(max_move as int, radius as int)[q]);
                    }
                }
            }
            k = k + 1;
        }
        assert(m@ =~= u.entries(max_move as int, radius as int));
        relax(&mut m, min_move, radius, ground);
        let ghost done = m@;
        let mut k: usize = 0;
        while k < n
            invariant
                k <= n,
                n == u.bodies.len(),
                m@ == done,
                done.len() == n + 1,
                moves_ok(done),
                u.wf(),
                self.wf(),
                self@ == (ChainView { bodies: self@.bodies, ..u }),
                self@.bodies.len() == n,
                forall|q: int| 0 <= q < k ==> #[trigger] self@.bodies[q] == committed(u.bodies, done)[q],
                forall|q: int| k <= q < n ==> #[trigger] self@.bodies[q] == u.bodies[q],
            decreases n - k,
        {
            let entry = m[k + 1];
            let b = self.bodies[k];
            let ghost w = self@;
            assert(done[k + 1].wf());
            assert(w.body_ok(w.bodies[k as int]));
            self.bodies[k] = SnakeBody { position: entry.position, target: entry.target, ..b };
            proof {
                assert forall|q: int| 0 <= q < self@.bodies.len() implies self@.body_ok(
                    #[trigger] self@.bodies[q],
                ) by {
                    if q != k {
                        assert(w.body_ok(w.bodies[q]));
                    }
                }
                assert(self@.segments =~= w.segments);
            }
            k = k + 1;
        }
        assert(self@.bodies =~= committed(u.bodies, done));
    }
}

} // verus!

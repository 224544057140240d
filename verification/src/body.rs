//! A follower: its fixed configuration and where it stands.

use vstd::prelude::*;
use crate::fixed::KEY_MAX;
use crate::vector::Vector3;

verus! {

/// One body of the chain.
#[derive(Clone, Copy, Debug)]
pub struct SnakeBody {
    /// How long behind the head the body trails.
    pub delay: i64,
    /// How much arc length behind the head the body trails.
    pub distance: i64,
    /// Where the body stands.
    pub position: Vector3,
    /// Where the body was last asked to be.
    pub target: Vector3,
    /// The segment of the head's path that the body follows.
    pub segment: usize,
}

impl SnakeBody {
    /// The configuration is one a chain accepts, and the points lie in the world.
    pub open spec fn wf(self) -> bool {
        &&& 0 <= self.delay <= KEY_MAX
        &&& 0 <= self.distance <= KEY_MAX
        &&& self.position.bounded()
        &&& self.target.bounded()
    }

    /// A body at `position` that follows the first segment.
    pub fn new(delay: i64, distance: i64, position: Vector3) -> (r: Self)
        ensures
            r == (SnakeBody {
                delay,
                distance,
                position,
                target: Vector3 { x: 0, y: 0, z: 0 },
                segment: 0,
            }),
    {
        SnakeBody { delay, distance, position, target: Vector3 { x: 0, y: 0, z: 0 }, segment: 0 }
    }
}

} // verus!

//! Cylindrical no-fly zones and the test whether a point lies inside one.

use vstd::prelude::*;
use crate::point::Point;
use crate::point::horizontal_dist_sq;
use crate::point::axis_gap_squared;

verus! {

/// A no-fly zone: an upright solid cylinder that stands on the ground.
///
/// The axis of the cylinder passes through `center` (the altitude of
/// `center` plays no part), `radius` is its horizontal extent and `height`
/// the altitude of its top, all in ticks. A radius that is not positive
/// encloses nothing.
#[derive(Debug, Clone, Copy)]
pub struct Obstacle {
    pub center: Point,
    pub radius: i64,
    pub height: i64,
}

impl Obstacle {
    /// The obstacle with the given axis, radius and height.
    pub fn new(center: Point, radius: i64, height: i64) -> (o: Obstacle)
        ensures
            o == (Obstacle { center, radius, height }),
    {
        Obstacle { center, radius, height }
    }

    /// `p` lies inside this obstacle: strictly closer to the axis than the
    /// radius, and not above the top.
    pub open spec fn blocks(self, p: Point) -> bool {
        &&& self.radius > 0
        &&& horizontal_dist_sq(p, self.center) < self.radius * self.radius
        &&& p.z <= self.height
    }

    /// Whether `p` lies inside this obstacle.
    pub fn contains(&self, p: &Point) -> (inside: bool)
        ensures
            inside == self.blocks(*p),
    {
        if self.radius <= 0 || p.z as i64 > self.height {
            return false;
        }
        let reach: u128 = self.radius as u128;
        assert(reach * reach <= u128::MAX && reach * reach == self.radius * self.radius)
            by (nonlinear_arith)
            requires
                reach == self.radius,
                0 < reach <= i64::MAX,
        ;
        let across: u128 = axis_gap_squared(p.x, self.center.x) + axis_gap_squared(
            p.y,
            self.center.y,
        );
        across < reach * reach
    }
}

/// `p` lies inside at least one of `obstacles`.
pub open spec fn blocked(p: Point, obstacles: Seq<Obstacle>) -> bool {
    exists|i: int| 0 <= i < obstacles.len() && (#[trigger] obstacles[i]).blocks(p)
}

} // verus!

//! Lattice coordinates and the distances between them.
//!
//! Lengths are fixed-point numbers. A coordinate counts ticks, and
//! `TICKS_PER_UNIT` ticks make one unit of length. Travelled distance is
//! counted in cost units, `COST_PER_TICK` of them to the tick, and is always
//! rounded up to a whole cost unit.

use vstd::prelude::*;
use crate::sqrt::ceil_sqrt;

verus! {

/// Ticks in one unit of length.
pub const TICKS_PER_UNIT: i32 = 1000;

/// The length of one axis move, in ticks: half a unit of length.
pub const STEP: i32 = 500;

/// Cost units in one tick.
pub const COST_PER_TICK: u128 = 1_000_000;

/// The cost of a move along one axis: `STEP` ticks.
pub const AXIS_COST: u128 = 500_000_000;

/// The cost of a move along two axes at once: `STEP` times the square root
/// of two, rounded up to a whole cost unit.
pub const DIAGONAL_COST: u128 = 707_106_782;

/// No two points are further apart than this many cost units: 2^54.
pub const MAX_TRAVEL_COST: u128 = 0x40_0000_0000_0000;

/// A point in space: `x` and `y` on the ground plane, `z` the altitude, each
/// in ticks.
#[derive(Debug, Clone, Copy, PartialEq, Eq, Hash, Structural)]
pub struct Point {
    pub x: i32,
    pub y: i32,
    pub z: i32,
}

/// The square of the difference of two coordinates.
pub open spec fn axis_gap_sq(a: i32, b: i32) -> nat {
    ((a - b) * (a - b)) as nat
}

/// The square of the distance between `a` and `b`, in ticks squared.
pub open spec fn dist_sq(a: Point, b: Point) -> nat {
    axis_gap_sq(a.x, b.x) + axis_gap_sq(a.y, b.y) + axis_gap_sq(a.z, b.z)
}

/// The square of the distance between `a` and `b` on the ground plane,
/// altitude ignored, in ticks squared.
pub open spec fn horizontal_dist_sq(a: Point, b: Point) -> nat {
    axis_gap_sq(a.x, b.x) + axis_gap_sq(a.y, b.y)
}

/// The distance between `a` and `b` in cost units, rounded up.
pub open spec fn travel_cost(a: Point, b: Point) -> nat {
    ceil_sqrt(COST_PER_TICK as nat * COST_PER_TICK as nat * dist_sq(a, b))
}

/// The square of the difference of two coordinates. It is below 2^64.
pub fn axis_gap_squared(a: i32, b: i32) -> (sq: u128)
    ensures
        sq == axis_gap_sq(a, b),
        sq <= 0xffff_ffff * 0xffff_ffff,
{
    let gap: i64 = a as i64 - b as i64;
    let size: u128 = if gap < 0 {
        (-gap) as u128
    } else {
        gap as u128
    };
    assert(size * size == (a - b) * (a - b) && size * size <= 0xffff_ffff * 0xffff_ffff)
        by (nonlinear_arith)
        requires
            size == a - b || size == -(a - b),
            size <= 0xffff_ffff,
    ;
    size * size
}

impl Point {
    /// The point with the given coordinates.
    pub fn new(x: i32, y: i32, z: i32) -> (p: Point)
        ensures
            p == (Point { x, y, z }),
    {
        Point { x, y, z }
    }
}

} // verus!

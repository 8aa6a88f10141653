//! Route planning for a point-sized aerial vehicle among cylindrical no-fly
//! zones.
//!
//! Space is a lattice of points with whole-numbered coordinates, counted in
//! ticks of a thousandth of a unit of length. From any point the vehicle can
//! make one of sixteen moves of half a unit: along the `x` or the `y` axis,
//! or diagonally across two of the three axes. A move may not end inside an
//! obstacle. The planner finds a route of least total length between two
//! points, or finds that there is none.
//!
//! All arithmetic is exact integer arithmetic. Lengths that have no exact
//! value, such as that of a diagonal move, are rounded up to the next
//! millionth of a tick.
//!
//! The search itself is the A* search of the `pathfinding` crate. Its
//! behaviour is assumed, not proved; everything around it is: the moves, the
//! collision test, the distances, and that the distance to the end never
//! overestimates what a route to the end costs, on which A* relies.

pub mod metric;
pub mod obstacle;
pub mod planner;
pub mod point;
pub mod route;
pub mod sqrt;
pub mod theorems;

//! What a route is: the sixteen moves, the routes they make up, and the
//! cost of a route.

use vstd::prelude::*;
use crate::obstacle::blocked;
use crate::obstacle::Obstacle;
use crate::point::axis_gap_sq;
use crate::point::dist_sq;
use crate::point::travel_cost;
use crate::point::Point;
use crate::point::AXIS_COST;
use crate::point::COST_PER_TICK;
use crate::point::DIAGONAL_COST;
use crate::point::STEP;
use crate::sqrt::is_ceil_sqrt;
use crate::sqrt::lemma_ceil_sqrt_unique;

verus! {

/// The number of directions in which a move can go.
pub const DIRECTIONS: usize = 16;

/// The `i`-th direction, as the sign of the move along each axis.
///
/// Four directions follow the `x` or the `y` axis and twelve are diagonals
/// across two axes. No direction is purely vertical, and none changes all
/// three coordinates.
pub open spec fn direction(i: int) -> (int, int, int) {
    if i == 0 {
        (1, 0, 0)
    } else if i == 1 {
        (-1, 0, 0)
    } else if i == 2 {
        (0, 1, 0)
    } else if i == 3 {
        (0, -1, 0)
    } else if i == 4 {
        (1, 1, 0)
    } else if i == 5 {
        (1, -1, 0)
    } else if i == 6 {
        (-1, 1, 0)
    } else if i == 7 {
        (-1, -1, 0)
    } else if i == 8 {
        (1, 0, 1)
    } else if i == 9 {
        (1, 0, -1)
    } else if i == 10 {
        (-1, 0, 1)
    } else if i == 11 {
        (-1, 0, -1)
    } else if i == 12 {
        (0, 1, 1)
    } else if i == 13 {
        (0, 1, -1)
    } else if i == 14 {
        (0, -1, 1)
    } else {
        (0, -1, -1)
    }
}

/// `d` is nothing or one step, forwards or backwards.
pub open spec fn is_axis_offset(d: int) -> bool {
    d == 0 || d == STEP || d == -STEP
}

/// `b` is one move away from `a`: every coordinate differs by nothing or by
/// one step, `x` or `y` differs, and not all three do.
pub open spec fn is_step(a: Point, b: Point) -> bool {
    &&& is_axis_offset(b.x - a.x)
    &&& is_axis_offset(b.y - a.y)
    &&& is_axis_offset(b.z - a.z)
    &&& (b.x != a.x || b.y != a.y)
    &&& !(b.x != a.x && b.y != a.y && b.z != a.z)
}

/// A move from `a` to `b` is allowed: `b` is one move away and lies inside
/// no obstacle.
pub open spec fn is_move(a: Point, b: Point, obstacles: Seq<Obstacle>) -> bool {
    is_step(a, b) && !blocked(b, obstacles)
}

/// Each coordinate of `b` differs from that of `a` by a whole number of
/// steps: `b - a` is a sum of moves.
pub open spec fn aligned(a: Point, b: Point) -> bool {
    &&& (b.x - a.x) % (STEP as int) == 0
    &&& (b.y - a.y) % (STEP as int) == 0
    &&& (b.z - a.z) % (STEP as int) == 0
}

/// The `i`-th waypoint of `path` is an allowed move away from the one
/// before it.
pub open spec fn move_at(path: Seq<Point>, obstacles: Seq<Obstacle>, i: int) -> bool {
    is_move(path[i - 1], path[i], obstacles)
}

/// `path` is a route from `start` to `end`: it begins at `start`, ends at
/// `end`, and each waypoint after the first is an allowed move away from the
/// one before it.
pub open spec fn is_route(start: Point, end: Point, obstacles: Seq<Obstacle>, path: Seq<Point>) -> bool {
    &&& path.len() >= 1
    &&& path.first() == start
    &&& path.last() == end
    &&& forall|i: int| 0 < i < path.len() ==> #[trigger] move_at(path, obstacles, i)
}

/// The cost of travelling along `path`: the sum of the distances between
/// consecutive waypoints.
pub open spec fn route_cost(path: Seq<Point>) -> nat
    decreases path.len(),
{
    if path.len() < 2 {
        0
    } else {
        route_cost(path.drop_last()) + travel_cost(path[path.len() - 2], path.last())
    }
}

/// The point reached from `p` by the `i`-th direction, as it would be
/// without the limits of the lattice.
pub open spec fn target(p: Point, i: int) -> (int, int, int) {
    let (sx, sy, sz) = direction(i);
    (p.x + sx * STEP, p.y + sy * STEP, p.z + sz * STEP)
}

/// The coordinates `(x, y, z)` are those of a point of the lattice.
pub open spec fn on_lattice(c: (int, int, int)) -> bool {
    &&& i32::MIN <= c.0 <= i32::MAX
    &&& i32::MIN <= c.1 <= i32::MAX
    &&& i32::MIN <= c.2 <= i32::MAX
}

/// The point with the coordinates `c`.
pub open spec fn point_at(c: (int, int, int)) -> Point {
    Point { x: c.0 as i32, y: c.1 as i32, z: c.2 as i32 }
}

/// The `i`-th direction leads from `p` to a point of the lattice that lies
/// inside no obstacle.
pub open spec fn open_direction(p: Point, obstacles: Seq<Obstacle>, i: int) -> bool {
    on_lattice(target(p, i)) && !blocked(point_at(target(p, i)), obstacles)
}

/// The allowed moves from `p` among the first `n` directions, each with its
/// cost, in the order of the directions.
pub open spec fn moves_among(p: Point, obstacles: Seq<Obstacle>, n: int) -> Seq<(Point, u128)>
    decreases n,
{
    if n <= 0 {
        Seq::empty()
    } else if open_direction(p, obstacles, n - 1) {
        let q = point_at(target(p, n - 1));
        moves_among(p, obstacles, n - 1).push((q, travel_cost(p, q) as u128))
    } else {
        moves_among(p, obstacles, n - 1)
    }
}

/// Every direction leads to a point one move away, if it leads to a point
/// of the lattice at all.
pub proof fn lemma_direction_is_step(p: Point, i: int)
    requires
        0 <= i < DIRECTIONS,
        on_lattice(target(p, i)),
    ensures
        is_step(p, point_at(target(p, i))),
{
}

/// A point one move away is reached by one of the directions.
pub proof fn lemma_step_has_direction(a: Point, b: Point) -> (i: int)
    requires
        is_step(a, b),
    ensures
        0 <= i < DIRECTIONS,
        on_lattice(target(a, i)),
        point_at(target(a, i)) == b,
{
    let dx = b.x - a.x;
    let dy = b.y - a.y;
    let dz = b.z - a.z;
    if dz == 0 {
        if dy == 0 {
            if dx > 0 { 0 } else { 1 }
        } else if dx == 0 {
            if dy > 0 { 2 } else { 3 }
        } else if dx > 0 {
            if dy > 0 { 4 } else { 5 }
        } else {
            if dy > 0 { 6 } else { 7 }
        }
    } else if dy == 0 {
        if dx > 0 {
            if dz > 0 { 8 } else { 9 }
        } else {
            if dz > 0 { 10 } else { 11 }
        }
    } else if dy > 0 {
        if dz > 0 { 12 } else { 13 }
    } else {
        if dz > 0 { 14 } else { 15 }
    }
}

/// Being one move away is symmetric.
pub proof fn lemma_step_symmetric(a: Point, b: Point)
    requires
        is_step(a, b),
    ensures
        is_step(b, a),
{
}

/// `b` differs from `a` in exactly one coordinate.
pub open spec fn along_one_axis(a: Point, b: Point) -> bool {
    (b.x != a.x && b.y == a.y && b.z == a.z) || (b.x == a.x && b.y != a.y && b.z == a.z)
}

/// The cost of a single move: `AXIS_COST` along one axis, `DIAGONAL_COST`
/// across two.
pub open spec fn step_cost(a: Point, b: Point) -> nat {
    if along_one_axis(a, b) {
        AXIS_COST as nat
    } else {
        DIAGONAL_COST as nat
    }
}

/// The square of the difference of two coordinates that lie nothing or one
/// step apart.
proof fn lemma_axis_gap_of_offset(a: i32, b: i32)
    requires
        is_axis_offset(b - a),
    ensures
        axis_gap_sq(a, b) == (if a == b {
            0nat
        } else {
            250_000nat
        }),
{
    let d = a - b;
    assert(d == 0 || d == 500 || d == -500);
    assert(d * d == (if d == 0 {
        0int
    } else {
        250_000int
    })) by (nonlinear_arith)
        requires
            d == 0 || d == 500 || d == -500,
    ;
}

/// The distance between two points one move apart is the cost of that
/// move.
pub proof fn lemma_step_cost(a: Point, b: Point)
    requires
        is_step(a, b),
    ensures
        travel_cost(a, b) == step_cost(a, b),
{
    lemma_axis_gap_of_offset(a.x, b.x);
    lemma_axis_gap_of_offset(a.y, b.y);
    lemma_axis_gap_of_offset(a.z, b.z);
    let scaled: nat = COST_PER_TICK as nat * COST_PER_TICK as nat * dist_sq(a, b);
    if along_one_axis(a, b) {
        assert(dist_sq(a, b) == 250_000);
        assert(scaled == 250_000_000_000_000_000) by (nonlinear_arith)
            requires
                scaled == 1_000_000nat * 1_000_000nat * 250_000nat,
        ;
        assert(is_ceil_sqrt(scaled, 500_000_000)) by (nonlinear_arith)
            requires
                scaled == 250_000_000_000_000_000,
        ;
        lemma_ceil_sqrt_unique(scaled, 500_000_000);
    } else {
        assert(dist_sq(a, b) == 500_000);
        assert(scaled == 500_000_000_000_000_000) by (nonlinear_arith)
            requires
                scaled == 1_000_000nat * 1_000_000nat * 500_000nat,
        ;
        assert(is_ceil_sqrt(scaled, 707_106_782)) by (nonlinear_arith)
            requires
                scaled == 500_000_000_000_000_000,
        ;
        lemma_ceil_sqrt_unique(scaled, 707_106_782);
    }
}

/// Each entry of `moves_among` is an allowed move from `p` together with
/// its cost.
pub proof fn lemma_moves_are_allowed(p: Point, obstacles: Seq<Obstacle>, n: int, k: int)
    requires
        0 <= n <= DIRECTIONS,
        0 <= k < moves_among(p, obstacles, n).len(),
    ensures
        is_move(p, moves_among(p, obstacles, n)[k].0, obstacles),
        moves_among(p, obstacles, n)[k].1 == step_cost(p, moves_among(p, obstacles, n)[k].0),
    decreases n,
{
    if n > 0 {
        let before = moves_among(p, obstacles, n - 1);
        if open_direction(p, obstacles, n - 1) && k == before.len() {
            let q = point_at(target(p, n - 1));
            lemma_direction_is_step(p, n - 1);
            lemma_step_cost(p, q);
        } else {
            lemma_moves_are_allowed(p, obstacles, n - 1, k);
        }
    }
}

/// Each open direction below `n` has its entry in `moves_among`.
pub proof fn lemma_open_direction_listed(p: Point, obstacles: Seq<Obstacle>, n: int, i: int) -> (k:
    int)
    requires
        0 <= i < n <= DIRECTIONS,
        open_direction(p, obstacles, i),
    ensures
        0 <= k < moves_among(p, obstacles, n).len(),
        moves_among(p, obstacles, n)[k].0 == point_at(target(p, i)),
    decreases n,
{
    if i == n - 1 {
        moves_among(p, obstacles, n - 1).len() as int
    } else {
        lemma_open_direction_listed(p, obstacles, n - 1, i)
    }
}

/// Every allowed move from `p` has its entry in the full list of moves.
pub proof fn lemma_move_listed(p: Point, q: Point, obstacles: Seq<Obstacle>) -> (k: int)
    requires
        is_move(p, q, obstacles),
    ensures
        0 <= k < moves_among(p, obstacles, DIRECTIONS as int).len(),
        moves_among(p, obstacles, DIRECTIONS as int)[k].0 == q,
{
    let i = lemma_step_has_direction(p, q);
    lemma_open_direction_listed(p, obstacles, DIRECTIONS as int, i)
}

/// A route only joins points that are a whole number of steps apart.
pub proof fn lemma_route_keeps_alignment(
    start: Point,
    end: Point,
    obstacles: Seq<Obstacle>,
    path: Seq<Point>,
)
    requires
        is_route(start, end, obstacles, path),
    ensures
        aligned(start, end),
    decreases path.len(),
{
    if path.len() >= 2 {
        let before = path.drop_last();
        assert forall|i: int| 0 < i < before.len() implies #[trigger] move_at(
            before,
            obstacles,
            i,
        ) by {
            assert(move_at(path, obstacles, i));
        }
        lemma_route_keeps_alignment(start, before.last(), obstacles, before);
        assert(move_at(path, obstacles, path.len() - 1));
    }
}

} // verus!

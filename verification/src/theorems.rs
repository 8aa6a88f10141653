//! What holds of every route and of every answer of the planner.

use vstd::prelude::*;
use crate::obstacle::blocked;
use crate::obstacle::Obstacle;
use crate::planner::is_answer;
use crate::planner::is_shortest_route;
use crate::planner::Outcome;
use crate::point::horizontal_dist_sq;
use crate::point::travel_cost;
use crate::point::Point;
use crate::point::STEP;
use crate::route::aligned;
use crate::route::is_route;
use crate::route::is_step;
use crate::route::lemma_step_cost;
use crate::route::move_at;
use crate::route::route_cost;
use crate::route::step_cost;

verus! {

/// A point whose horizontal distance from the axis of an obstacle equals
/// the radius is outside the obstacle, whatever its altitude.
pub proof fn lemma_rim_is_outside(o: Obstacle, p: Point)
    requires
        horizontal_dist_sq(p, o.center) == o.radius * o.radius,
    ensures
        !o.blocks(p),
{
}

/// A point strictly within the radius of an obstacle and exactly as high as
/// its top is inside the obstacle; one tick higher it is outside.
pub proof fn lemma_top_is_inside(o: Obstacle, p: Point, above: Point)
    requires
        o.radius > 0,
        horizontal_dist_sq(p, o.center) < o.radius * o.radius,
        p.z == o.height,
        above.z > o.height,
    ensures
        o.blocks(p),
        !o.blocks(above),
{
}

/// An obstacle whose radius is not positive encloses no point.
pub proof fn lemma_empty_obstacle(o: Obstacle, p: Point)
    requires
        o.radius <= 0,
    ensures
        !o.blocks(p),
{
}

/// Every waypoint of a route but the first lies outside every obstacle.
/// The first one, the start, is never tested: it does so only if the
/// request puts it there.
pub proof fn lemma_route_avoids_obstacles(
    start: Point,
    end: Point,
    obstacles: Seq<Obstacle>,
    path: Seq<Point>,
)
    requires
        is_route(start, end, obstacles, path),
    ensures
        forall|i: int, j: int|
            0 < i < path.len() && 0 <= j < obstacles.len() ==> !(#[trigger] obstacles[j]).blocks(
                #[trigger] path[i],
            ),
        !blocked(start, obstacles) ==> forall|i: int, j: int|
            0 <= i < path.len() && 0 <= j < obstacles.len() ==> !(#[trigger] obstacles[j]).blocks(
                #[trigger] path[i],
            ),
{
    assert forall|i: int, j: int|
        0 < i < path.len() && 0 <= j < obstacles.len() implies !(#[trigger] obstacles[j]).blocks(
        #[trigger] path[i],
    ) by {
        assert(move_at(path, obstacles, i));
    }
}

/// A route begins at the start and ends at the end, consecutive waypoints
/// are exactly one move apart, and the cost of the route up to a waypoint
/// is the cost up to the one before it plus the cost of that one move.
pub proof fn lemma_route_is_ordered(
    start: Point,
    end: Point,
    obstacles: Seq<Obstacle>,
    path: Seq<Point>,
    i: int,
)
    requires
        is_route(start, end, obstacles, path),
        0 < i < path.len(),
    ensures
        path[0] == start,
        path[path.len() - 1] == end,
        is_step(path[i - 1], path[i]),
        travel_cost(path[i - 1], path[i]) == step_cost(path[i - 1], path[i]),
        route_cost(path.take(i + 1)) == route_cost(path.take(i)) + step_cost(path[i - 1], path[i]),
{
    assert(move_at(path, obstacles, i));
    lemma_step_cost(path[i - 1], path[i]);
    assert(path.take(i + 1).drop_last() =~= path.take(i));
}

/// A route of a single waypoint costs nothing, and start and end are then
/// the same point.
pub proof fn lemma_trivial_route(start: Point, end: Point, obstacles: Seq<Obstacle>)
    ensures
        is_route(start, end, obstacles, seq![start]) <==> start == end,
        route_cost(seq![start]) == 0,
{
}

/// The answer is empty exactly when no route exists.
pub proof fn lemma_empty_answer(start: Point, end: Point, obstacles: Seq<Obstacle>, outcome: Outcome)
    requires
        is_answer(start, end, obstacles, outcome),
    ensures
        outcome is None <==> forall|path: Seq<Point>| !#[trigger] is_route(start, end, obstacles, path),
{
}

/// Two answers to one request cost the same.
pub proof fn lemma_answers_agree_on_cost(
    start: Point,
    end: Point,
    obstacles: Seq<Obstacle>,
    first: Outcome,
    second: Outcome,
)
    requires
        is_answer(start, end, obstacles, first),
        is_answer(start, end, obstacles, second),
    ensures
        first is Some <==> second is Some,
        first is Some ==> (first->0).1 == (second->0).1,
{
}

/// A start that differs from the end and from which every move leads into
/// an obstacle has no route to the end.
pub proof fn lemma_enclosed_start(start: Point, end: Point, obstacles: Seq<Obstacle>, path: Seq<Point>)
    requires
        start != end,
        forall|q: Point| #[trigger] is_step(start, q) ==> blocked(q, obstacles),
    ensures
        !is_route(start, end, obstacles, path),
{
    if is_route(start, end, obstacles, path) {
        assert(path.len() >= 2);
        assert(move_at(path, obstacles, 1));
    }
}

/// An end that lies inside an obstacle and differs from the start has no
/// route to it.
pub proof fn lemma_blocked_end(start: Point, end: Point, obstacles: Seq<Obstacle>, path: Seq<Point>)
    requires
        start != end,
        blocked(end, obstacles),
    ensures
        !is_route(start, end, obstacles, path),
{
    if is_route(start, end, obstacles, path) {
        assert(move_at(path, obstacles, path.len() - 1));
    }
}

/// The size of a number.
pub open spec fn magnitude(d: int) -> nat {
    if d < 0 {
        (-d) as nat
    } else {
        d as nat
    }
}

/// With no obstacles, there is a route between any two points that are a
/// whole number of steps apart.
pub proof fn lemma_open_space_route(start: Point, end: Point) -> (path: Seq<Point>)
    requires
        aligned(start, end),
    ensures
        is_route(start, end, Seq::<Obstacle>::empty(), path),
    decreases magnitude(end.x - start.x) + magnitude(end.y - start.y) + 2 * magnitude(end.z - start.z),
{
    let none = Seq::<Obstacle>::empty();
    let dx = end.x - start.x;
    let dy = end.y - start.y;
    let dz = end.z - start.z;
    let s = STEP as int;
    if dx == 0 && dy == 0 && dz == 0 {
        seq![start]
    } else {
        // The last move of the route, chosen so that the point before it is
        // nearer to the start.
        let mx: int = if dx > 0 {
            s
        } else if dx < 0 {
            -s
        } else if dy == 0 {
            if end.x - s >= i32::MIN {
                s
            } else {
                -s
            }
        } else {
            0
        };
        let my: int = if dx != 0 {
            0
        } else if dy > 0 {
            s
        } else if dy < 0 {
            -s
        } else {
            0
        };
        let mz: int = if dz > 0 {
            s
        } else if dz < 0 {
            -s
        } else {
            0
        };
        assert(dx != 0 ==> magnitude(dx) >= s);
        assert(dy != 0 ==> magnitude(dy) >= s);
        assert(dz != 0 ==> magnitude(dz) >= s);
        let before = Point {
            x: (end.x - mx) as i32,
            y: (end.y - my) as i32,
            z: (end.z - mz) as i32,
        };
        assert(before.x == end.x - mx && before.y == end.y - my && before.z == end.z - mz);
        assert(is_step(before, end));
        let path = lemma_open_space_route(start, before);
        let whole = path.push(end);
        assert forall|i: int| 0 < i < whole.len() implies #[trigger] move_at(whole, none, i) by {
            if i < path.len() {
                assert(move_at(path, none, i));
            }
        }
        whole
    }
}

/// With no obstacles and start and end a whole number of steps apart, the
/// answer holds a route, and its cost is the least that any route from
/// start to end can have.
pub proof fn lemma_open_space_answer(start: Point, end: Point, outcome: Outcome)
    requires
        aligned(start, end),
        is_answer(start, end, Seq::<Obstacle>::empty(), outcome),
    ensures
        outcome is Some,
        is_shortest_route(
            start,
            end,
            Seq::<Obstacle>::empty(),
            (outcome->0).0,
            (outcome->0).1 as nat,
        ),
{
    let path = lemma_open_space_route(start, end);
    assert(is_route(start, end, Seq::<Obstacle>::empty(), path));
}

} // verus!

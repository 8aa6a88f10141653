//! The route planner: the moves open from a point, the estimate of the
//! remaining distance, and the search for a shortest route.

use vstd::prelude::*;
use crate::metric::lemma_no_shortcut;
use crate::obstacle::blocked;
use crate::obstacle::Obstacle;
use crate::point::axis_gap_squared;
use crate::point::dist_sq;
use crate::point::horizontal_dist_sq;
use crate::point::travel_cost;
use crate::point::Point;
use crate::point::COST_PER_TICK;
use crate::point::MAX_TRAVEL_COST;
use crate::point::STEP;
use crate::route::aligned;
use crate::route::direction;
use crate::route::lemma_route_keeps_alignment;
use crate::route::is_move;
use crate::route::is_route;
use crate::route::is_step;
use crate::route::move_at;
use crate::route::lemma_move_listed;
use crate::route::lemma_moves_are_allowed;
use crate::route::moves_among;
use crate::route::route_cost;
use crate::route::step_cost;
use crate::route::DIRECTIONS;
use crate::sqrt::ceil_sqrt_of;
use crate::sqrt::lemma_ceil_sqrt_least;

verus! {

/// One planning request: where the vehicle starts, where it is to arrive,
/// and the altitude ceiling of the mission, in ticks.
///
/// The ceiling belongs to the request but does not limit the search: a
/// route may climb above it.
pub struct DronePath {
    pub start: Point,
    pub end: Point,
    pub max_height: i64,
}

/// What the search for a route ends with: the waypoints from start to end
/// with the cost of travelling along them, or nothing.
pub type Outcome = Option<(Seq<Point>, u128)>;

/// What the A* search returns for a start, an end and a list of obstacles.
pub uninterp spec fn astar_outcome(start: Point, end: Point, obstacles: Seq<Obstacle>) -> Option<
    (Seq<Point>, u128),
>;

/// The result of a search, with the waypoints as a sequence.
pub open spec fn outcome_of(found: Option<(Vec<Point>, u128)>) -> Outcome {
    match found {
        Some((path, cost)) => Some((path@, cost)),
        None => None,
    }
}

/// `path` is a route from `start` to `end`, `cost` is what it costs, and no
/// route from `start` to `end` costs less.
pub open spec fn is_shortest_route(
    start: Point,
    end: Point,
    obstacles: Seq<Obstacle>,
    path: Seq<Point>,
    cost: nat,
) -> bool {
    &&& is_route(start, end, obstacles, path)
    &&& cost == route_cost(path)
    &&& forall|other: Seq<Point>| #[trigger]
        is_route(start, end, obstacles, other) ==> cost <= route_cost(other)
}

/// `outcome` answers the request: it holds a shortest route with its cost,
/// or it is empty and there is no route at all.
pub open spec fn is_answer(start: Point, end: Point, obstacles: Seq<Obstacle>, outcome: Outcome) -> bool {
    match outcome {
        Some((path, cost)) => is_shortest_route(start, end, obstacles, path, cost as nat),
        None => forall|path: Seq<Point>| !#[trigger] is_route(start, end, obstacles, path),
    }
}

/// `end` differs from `start` and cannot be reached, for a reason that shows
/// without a search: it lies inside an obstacle, or it is not a whole number
/// of steps away from `start`.
pub open spec fn out_of_reach(start: Point, end: Point, obstacles: Seq<Obstacle>) -> bool {
    start != end && (blocked(end, obstacles) || !aligned(start, end))
}

/// What the planner answers to a request.
pub open spec fn planned(start: Point, end: Point, obstacles: Seq<Obstacle>) -> Outcome {
    if out_of_reach(start, end, obstacles) {
        None
    } else {
        astar_outcome(start, end, obstacles)
    }
}

/// The estimate of the cost from any point to `end` never exceeds the cost
/// of a route between them.
pub open spec fn estimate_is_admissible(end: Point, obstacles: Seq<Obstacle>) -> bool {
    forall|p: Point, path: Seq<Point>| #[trigger]
        is_route(p, end, obstacles, path) ==> travel_cost(p, end) <= route_cost(path)
}

/// The signs of the `i`-th direction.
fn direction_signs(i: usize) -> (signs: (i64, i64, i64))
    requires
        i < DIRECTIONS,
    ensures
        (signs.0 as int, signs.1 as int, signs.2 as int) == direction(i as int),
{
    match i {
        0 => (1, 0, 0),
        1 => (-1, 0, 0),
        2 => (0, 1, 0),
        3 => (0, -1, 0),
        4 => (1, 1, 0),
        5 => (1, -1, 0),
        6 => (-1, 1, 0),
        7 => (-1, -1, 0),
        8 => (1, 0, 1),
        9 => (1, 0, -1),
        10 => (-1, 0, 1),
        11 => (-1, 0, -1),
        12 => (0, 1, 1),
        13 => (0, 1, -1),
        14 => (0, -1, 1),
        _ => (0, -1, -1),
    }
}

/// Whether `c` is a coordinate of the lattice.
fn fits(c: i64) -> (yes: bool)
    ensures
        yes == (i32::MIN <= c <= i32::MAX),
{
    -0x8000_0000 <= c && c <= 0x7fff_ffff
}

impl DronePath {
    /// The request to fly from `start` to `end` under the ceiling
    /// `max_height`.
    pub fn new(start: Point, end: Point, max_height: i64) -> (plan: DronePath)
        ensures
            plan.start == start,
            plan.end == end,
            plan.max_height == max_height,
    {
        DronePath { start, end, max_height }
    }

    /// The distance between `a` and `b` in cost units, rounded up.
    pub fn distance(&self, a: &Point, b: &Point) -> (d: u128)
        ensures
            d == travel_cost(*a, *b),
            d <= MAX_TRAVEL_COST,
    {
        let gx: u128 = axis_gap_squared(a.x, b.x);
        let gy: u128 = axis_gap_squared(a.y, b.y);
        let gz: u128 = axis_gap_squared(a.z, b.z);
        let total: u128 = gx + gy + gz;
        assert(total == dist_sq(*a, *b));
        let scale: u128 = COST_PER_TICK * COST_PER_TICK;
        assert(scale == 1_000_000_000_000);
        assert(total <= 3 * (0xffff_ffff * 0xffff_ffff));
        assert(scale * total <= MAX_TRAVEL_COST * MAX_TRAVEL_COST) by (nonlinear_arith)
            requires
                scale == 1_000_000_000_000,
                total <= 3 * (0xffff_ffff * 0xffff_ffff),
                MAX_TRAVEL_COST == 0x40_0000_0000_0000,
        ;
        assert(MAX_TRAVEL_COST * MAX_TRAVEL_COST <= u128::MAX) by (nonlinear_arith)
            requires
                MAX_TRAVEL_COST == 0x40_0000_0000_0000,
        ;
        proof {
            lemma_ceil_sqrt_least((scale * total) as nat, MAX_TRAVEL_COST as nat);
        }
        ceil_sqrt_of(scale * total)
    }

    /// The square of the distance between `a` and `b` on the ground plane,
    /// in ticks squared.
    pub fn distance_2d_squared(&self, a: &Point, b: &Point) -> (d: u128)
        ensures
            d == horizontal_dist_sq(*a, *b),
    {
        axis_gap_squared(a.x, b.x) + axis_gap_squared(a.y, b.y)
    }

    /// The estimate of the cost still to pay from `current` to `goal`: the
    /// distance between them.
    pub fn heuristic(&self, current: &Point, goal: &Point) -> (h: u128)
        ensures
            h == travel_cost(*current, *goal),
    {
        self.distance(current, goal)
    }

    /// Whether `point` lies inside one of `obstacles`.
    pub fn collides_with_obstacles(&self, point: &Point, obstacles: &[Obstacle]) -> (hit: bool)
        ensures
            hit == blocked(*point, obstacles@),
    {
        let mut i: usize = 0;
        while i < obstacles.len()
            invariant
                i <= obstacles.len(),
                forall|j: int| 0 <= j < i ==> !(#[trigger] obstacles@[j]).blocks(*point),
            decreases obstacles.len() - i,
        {
            if obstacles[i].contains(point) {
                return true;
            }
            i += 1;
        }
        false
    }

    /// Whether `p` is the end of the route.
    pub fn is_goal(&self, p: &Point) -> (reached: bool)
        ensures
            reached == (*p == self.end),
    {
        *p == self.end
    }

    /// The allowed moves from `current`, each with its cost, in the order
    /// of the directions.
    ///
    /// A direction is left out if it leads off the lattice or into an
    /// obstacle. `current` itself is not tested against the obstacles.
    pub fn successors(&self, current: &Point, obstacles: &[Obstacle]) -> (moves: Vec<(Point, u128)>)
        ensures
            moves@ == moves_among(*current, obstacles@, DIRECTIONS as int),
            forall|k: int|
                0 <= k < moves.len() ==> is_move(*current, (#[trigger] moves[k]).0, obstacles@)
                    && moves[k].1 == step_cost(*current, moves[k].0),
            forall|q: Point|
                is_move(*current, q, obstacles@) ==> exists|k: int|
                    0 <= k < moves.len() && (#[trigger] moves[k]).0 == q,
    {
        let mut moves: Vec<(Point, u128)> = Vec::new();
        let mut i: usize = 0;
        while i < DIRECTIONS
            invariant
                i <= DIRECTIONS,
                moves@ == moves_among(*current, obstacles@, i as int),
            decreases DIRECTIONS - i,
        {
            let (sx, sy, sz) = direction_signs(i);
            let x: i64 = current.x as i64 + sx * (STEP as i64);
            let y: i64 = current.y as i64 + sy * (STEP as i64);
            let z: i64 = current.z as i64 + sz * (STEP as i64);
            if fits(x) && fits(y) && fits(z) {
                let next = Point::new(x as i32, y as i32, z as i32);
                if !self.collides_with_obstacles(&next, obstacles) {
                    let cost: u128 = self.distance(current, &next);
                    moves.push((next, cost));
                }
            }
            i += 1;
        }
        proof {
            let p = *current;
            assert forall|k: int| 0 <= k < moves.len() implies is_move(
                p,
                (#[trigger] moves[k]).0,
                obstacles@,
            ) && moves[k].1 == step_cost(p, moves[k].0) by {
                lemma_moves_are_allowed(p, obstacles@, DIRECTIONS as int, k);
            }
            assert forall|q: Point| is_move(p, q, obstacles@) implies exists|k: int|
                0 <= k < moves.len() && (#[trigger] moves[k]).0 == q by {
                let k = lemma_move_listed(p, q, obstacles@);
                assert(moves[k].0 == q);
            }
        }
        moves
    }

    /// Whether `b` is one move away from `a`.
    pub fn one_move_apart(&self, a: &Point, b: &Point) -> (yes: bool)
        ensures
            yes == is_step(*a, *b),
    {
        let dx: i64 = b.x as i64 - a.x as i64;
        let dy: i64 = b.y as i64 - a.y as i64;
        let dz: i64 = b.z as i64 - a.z as i64;
        let step: i64 = STEP as i64;
        (dx == 0 || dx == step || dx == -step) && (dy == 0 || dy == step || dy == -step) && (dz
            == 0 || dz == step || dz == -step) && (dx != 0 || dy != 0) && !(dx != 0 && dy != 0
            && dz != 0)
    }

    /// The cost of travelling along `path`.
    pub fn path_cost(&self, path: &[Point]) -> (cost: u128)
        ensures
            cost == route_cost(path@),
    {
        if path.len() < 2 {
            return 0;
        }
        let mut cost: u128 = 0;
        let mut i: usize = 1;
        assert(path@.take(1).len() == 1);
        while i < path.len()
            invariant
                1 <= i <= path.len(),
                cost == route_cost(path@.take(i as int)),
                cost <= (i - 1) * MAX_TRAVEL_COST,
            decreases path.len() - i,
        {
            let leg: u128 = self.distance(&path[i - 1], &path[i]);
            proof {
                let upto = path@.take(i + 1);
                assert(upto.drop_last() =~= path@.take(i as int));
                assert(upto[upto.len() - 2] == path@[i - 1]);
                assert(upto.last() == path@[i as int]);
                assert(i * MAX_TRAVEL_COST <= usize::MAX * MAX_TRAVEL_COST) by (nonlinear_arith)
                    requires
                        i <= usize::MAX,
                ;
            }
            cost = cost + leg;
            i += 1;
        }
        assert(path@.take(path.len() as int) =~= path@);
        cost
    }

    /// Whether `path` is a route from `self.start` to `self.end` among
    /// `obstacles`.
    pub fn is_valid_route(&self, obstacles: &[Obstacle], path: &[Point]) -> (ok: bool)
        ensures
            ok == is_route(self.start, self.end, obstacles@, path@),
    {
        let n: usize = path.len();
        if n == 0 {
            return false;
        }
        if path[0] != self.start || !self.is_goal(&path[n - 1]) {
            return false;
        }
        let mut i: usize = 1;
        while i < n
            invariant
                1 <= i <= n,
                n == path.len(),
                forall|j: int| 0 < j < i ==> #[trigger] move_at(path@, obstacles@, j),
            decreases n - i,
        {
            if !self.one_move_apart(&path[i - 1], &path[i]) || self.collides_with_obstacles(
                &path[i],
                obstacles,
            ) {
                assert(!move_at(path@, obstacles@, i as int));
                return false;
            }
            i += 1;
        }
        true
    }

    /// Whether each coordinate of `b` is a whole number of steps away from
    /// that of `a`.
    pub fn is_aligned(&self, a: &Point, b: &Point) -> (yes: bool)
        ensures
            yes == aligned(*a, *b),
    {
        let step: i64 = STEP as i64;
        let dx: i64 = b.x as i64 - a.x as i64;
        let dy: i64 = b.y as i64 - a.y as i64;
        let dz: i64 = b.z as i64 - a.z as i64;
        let ax: i64 = if dx < 0 { -dx } else { dx };
        let ay: i64 = if dy < 0 { -dy } else { dy };
        let az: i64 = if dz < 0 { -dz } else { dz };
        ax % step == 0 && ay % step == 0 && az % step == 0
    }

    /// Searches for a shortest route from `self.start` to `self.end` that
    /// enters no obstacle.
    ///
    /// The result holds the waypoints, `self.start` first and `self.end`
    /// last, and the cost of the route, which no other route undercuts. It
    /// is empty exactly when there is no route. The same request always has
    /// the same result.
    ///
    /// An end that lies inside an obstacle, or that is not a whole number of
    /// steps away from the start, is known to be out of reach without a
    /// search, and none is made for it.
    pub fn calculate_route(&self, obstacles: &[Obstacle]) -> (found: Option<(Vec<Point>, u128)>)
        ensures
            outcome_of(found) == planned(self.start, self.end, obstacles@),
            is_answer(self.start, self.end, obstacles@, outcome_of(found)),
            found is None <==> forall|path: Seq<Point>|
                !#[trigger] is_route(self.start, self.end, obstacles@, path),
            found matches Some((path, cost)) ==> {
                &&& path.len() >= 1
                &&& path[0] == self.start
                &&& path[path.len() - 1] == self.end
                &&& forall|i: int|
                    0 < i < path.len() ==> is_step(path[i - 1], #[trigger] path[i]) && !blocked(
                        path[i],
                        obstacles@,
                    )
                &&& cost == route_cost(path@)
                &&& forall|other: Seq<Point>| #[trigger]
                    is_route(self.start, self.end, obstacles@, other) ==> cost <= route_cost(
                        other,
                    )
            },
    {
        if self.start != self.end && (self.collides_with_obstacles(&self.end, obstacles)
            || !self.is_aligned(&self.start, &self.end)) {
            proof {
                assert forall|path: Seq<Point>| !#[trigger] is_route(
                    self.start,
                    self.end,
                    obstacles@,
                    path,
                ) by {
                    if is_route(self.start, self.end, obstacles@, path) {
                        lemma_route_keeps_alignment(self.start, self.end, obstacles@, path);
                        assert(move_at(path, obstacles@, path.len() - 1));
                    }
                }
            }
            return None;
        }
        proof {
            lemma_estimate_is_admissible(self.end, obstacles@);
        }
        let found = astar_search(self, obstacles);
        proof {
            if found is Some {
                let path = (found->0).0@;
                assert forall|i: int| 0 < i < path.len() implies is_step(
                    path[i - 1],
                    #[trigger] path[i],
                ) && !blocked(path[i], obstacles@) by {
                    assert(move_at(path, obstacles@, i));
                }
            }
        }
        found
    }
}

/// The distance to the end never exceeds the cost of a route to the end.
pub proof fn lemma_estimate_is_admissible(end: Point, obstacles: Seq<Obstacle>)
    ensures
        estimate_is_admissible(end, obstacles),
{
    assert forall|p: Point, path: Seq<Point>| #[trigger]
        is_route(p, end, obstacles, path) implies travel_cost(p, end) <= route_cost(path) by {
        lemma_no_shortcut(path);
    }
}

/// Runs `pathfinding::prelude::astar` from the start of `plan`, with
/// `successors` as the edges of the graph, `heuristic` towards the end of
/// `plan` as the estimate and `is_goal` as the test for success.
///
/// Nothing here is proved. The contract states what the documentation of
/// `astar` promises when the estimate never exceeds the true remaining cost
/// (which the caller has to show): a returned path leads from the start to a
/// node that passes the test, each node on it is a successor of the one
/// before, the returned cost is the sum of the costs of those edges and is
/// the least among all such paths, and nothing is returned only if no such
/// path exists. The search keeps no state between calls and draws on
/// nothing but its arguments, so its result is given a name.
///
/// The search ends on every input, since the lattice is finite. Costs are
/// added without overflow: a node is never included twice in a path, the
/// lattice has 2^96 points, and one move costs less than 2^30.
#[verifier::external_body]
fn astar_search(plan: &DronePath, obstacles: &[Obstacle]) -> (found: Option<(Vec<Point>, u128)>)
    requires
        estimate_is_admissible(plan.end, obstacles@),
    ensures
        outcome_of(found) == astar_outcome(plan.start, plan.end, obstacles@),
        is_answer(plan.start, plan.end, obstacles@, outcome_of(found)),
{
    pathfinding::prelude::astar(
        &plan.start,
        |p| plan.successors(p, obstacles),
        |p| plan.heuristic(p, &plan.end),
        |p| plan.is_goal(p),
    )
}

} // verus!

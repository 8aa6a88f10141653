use drone_route::obstacle::Obstacle;
use drone_route::planner::DronePath;
use drone_route::point::Point;
use drone_route::point::{AXIS_COST, DIAGONAL_COST};

fn plan() -> DronePath {
    DronePath::new(Point::new(0, 0, 0), Point::new(1000, 0, 0), 100_000)
}

const OFFSETS: [(i32, i32, i32); 16] = [
    (500, 0, 0),
    (-500, 0, 0),
    (0, 500, 0),
    (0, -500, 0),
    (500, 500, 0),
    (500, -500, 0),
    (-500, 500, 0),
    (-500, -500, 0),
    (500, 0, 500),
    (500, 0, -500),
    (-500, 0, 500),
    (-500, 0, -500),
    (0, 500, 500),
    (0, 500, -500),
    (0, -500, 500),
    (0, -500, -500),
];

#[test]
fn sixteen_moves_in_open_space() {
    let from = Point::new(300, -200, 100);
    let moves = plan().successors(&from, &[]);
    assert_eq!(moves.len(), 16);
    for (i, (dx, dy, dz)) in OFFSETS.iter().enumerate() {
        assert_eq!(moves[i].0, Point::new(300 + dx, -200 + dy, 100 + dz));
        let axes: u32 = (*dx != 0) as u32 + (*dy != 0) as u32 + (*dz != 0) as u32;
        let expected: u128 = if axes == 1 { AXIS_COST } else { DIAGONAL_COST };
        assert_eq!(moves[i].1, expected);
    }
}

#[test]
fn four_axis_moves_and_twelve_diagonals() {
    let moves = plan().successors(&Point::new(0, 0, 0), &[]);
    let axis: usize = moves.iter().filter(|m| m.1 == 500_000_000).count();
    let diagonal: usize = moves.iter().filter(|m| m.1 == 707_106_782).count();
    assert_eq!(axis, 4);
    assert_eq!(diagonal, 12);
}

#[test]
fn no_vertical_and_no_space_diagonal_move() {
    let from = Point::new(0, 0, 0);
    let moves = plan().successors(&from, &[]);
    for (q, _) in moves.iter() {
        assert!(q.x != 0 || q.y != 0);
        assert!(!(q.x != 0 && q.y != 0 && q.z != 0));
        assert_ne!(*q, from);
    }
    assert!(!moves.iter().any(|m| m.0 == Point::new(0, 0, 500)));
    assert!(!moves.iter().any(|m| m.0 == Point::new(0, 0, -500)));
    assert!(!moves.iter().any(|m| m.0 == Point::new(500, 500, 500)));
}

#[test]
fn colliding_moves_are_left_out() {
    // blocks every point with x > 0 near the start, at low altitude only
    let obstacles = vec![Obstacle::new(Point::new(800, 0, 0), 790, 0)];
    let moves = plan().successors(&Point::new(0, 0, 0), &obstacles);
    let expected = vec![
        (Point::new(-500, 0, 0), AXIS_COST),
        (Point::new(0, 500, 0), AXIS_COST),
        (Point::new(0, -500, 0), AXIS_COST),
        (Point::new(-500, 500, 0), DIAGONAL_COST),
        (Point::new(-500, -500, 0), DIAGONAL_COST),
        (Point::new(500, 0, 500), DIAGONAL_COST),
        (Point::new(-500, 0, 500), DIAGONAL_COST),
        (Point::new(-500, 0, -500), DIAGONAL_COST),
        (Point::new(0, 500, 500), DIAGONAL_COST),
        (Point::new(0, 500, -500), DIAGONAL_COST),
        (Point::new(0, -500, 500), DIAGONAL_COST),
        (Point::new(0, -500, -500), DIAGONAL_COST),
    ];
    assert_eq!(moves, expected);
}

#[test]
fn moves_never_collide() {
    let p = plan();
    let obstacles = vec![
        Obstacle::new(Point::new(500, 0, 0), 600, 10_000),
        Obstacle::new(Point::new(-500, 500, 0), 100, 0),
    ];
    for from in [Point::new(0, 0, 0), Point::new(500, 0, 0), Point::new(0, 1000, 10_000)] {
        let moves = p.successors(&from, &obstacles);
        for (q, cost) in moves.iter() {
            assert!(!p.collides_with_obstacles(q, &obstacles));
            assert!(p.one_move_apart(&from, q));
            assert_eq!(*cost, p.distance(&from, q));
        }
        let free: usize = OFFSETS
            .iter()
            .filter(|(dx, dy, dz)| {
                !p.collides_with_obstacles(&Point::new(from.x + dx, from.y + dy, from.z + dz), &obstacles)
            })
            .count();
        assert_eq!(moves.len(), free);
    }
}

#[test]
fn start_inside_an_obstacle_may_leave_it() {
    let obstacles = vec![Obstacle::new(Point::new(0, 0, 0), 600, 0)];
    let p = plan();
    assert!(p.collides_with_obstacles(&Point::new(0, 0, 0), &obstacles));
    let moves = p.successors(&Point::new(0, 0, 0), &obstacles);
    // the four axis moves end 500 ticks from the axis, at altitude 0: blocked.
    // the four flat diagonals end 707 ticks away: free. the climbing moves
    // end above the top: free. the descending ones stay below it: blocked.
    let expected = vec![
        (Point::new(500, 500, 0), DIAGONAL_COST),
        (Point::new(500, -500, 0), DIAGONAL_COST),
        (Point::new(-500, 500, 0), DIAGONAL_COST),
        (Point::new(-500, -500, 0), DIAGONAL_COST),
        (Point::new(500, 0, 500), DIAGONAL_COST),
        (Point::new(-500, 0, 500), DIAGONAL_COST),
        (Point::new(0, 500, 500), DIAGONAL_COST),
        (Point::new(0, -500, 500), DIAGONAL_COST),
    ];
    assert_eq!(moves, expected);
}

#[test]
fn enclosed_point_has_no_moves() {
    let obstacles = vec![Obstacle::new(Point::new(0, 0, 0), 800, i64::MAX)];
    assert!(plan().successors(&Point::new(0, 0, 0), &obstacles).is_empty());
}

#[test]
fn moves_stay_on_the_lattice() {
    let p = plan();
    let corner = Point::new(i32::MAX, i32::MIN, i32::MAX - 499);
    let moves = p.successors(&corner, &[]);
    let expected = vec![
        (Point::new(i32::MAX - 500, i32::MIN, i32::MAX - 499), AXIS_COST),
        (Point::new(i32::MAX, i32::MIN + 500, i32::MAX - 499), AXIS_COST),
        (Point::new(i32::MAX - 500, i32::MIN + 500, i32::MAX - 499), DIAGONAL_COST),
        (Point::new(i32::MAX - 500, i32::MIN, i32::MAX - 999), DIAGONAL_COST),
        (Point::new(i32::MAX, i32::MIN + 500, i32::MAX - 999), DIAGONAL_COST),
    ];
    assert_eq!(moves, expected);
    let edge = Point::new(i32::MAX - 500, 0, 0);
    assert_eq!(p.successors(&edge, &[]).len(), 16);
    let over = Point::new(i32::MAX - 499, 0, 0);
    assert_eq!(p.successors(&over, &[]).len(), 11);
}

#[test]
fn one_move_apart_knows_the_sixteen_moves() {
    let p = plan();
    let from = Point::new(10, 20, 30);
    for dx in [-1000, -500, -1, 0, 1, 500, 1000] {
        for dy in [-500, 0, 250, 500] {
            for dz in [-500, 0, 500, 501] {
                let q = Point::new(10 + dx, 20 + dy, 30 + dz);
                let listed = OFFSETS.contains(&(dx, dy, dz));
                assert_eq!(p.one_move_apart(&from, &q), listed);
                assert_eq!(p.one_move_apart(&q, &from), listed);
            }
        }
    }
    assert!(!p.one_move_apart(&Point::new(i32::MIN, 0, 0), &Point::new(i32::MAX, 0, 0)));
}

#[test]
fn goal_test_is_exact() {
    let p = plan();
    assert!(p.is_goal(&Point::new(1000, 0, 0)));
    assert!(!p.is_goal(&Point::new(999, 0, 0)));
    assert!(!p.is_goal(&Point::new(1000, 1, 0)));
    assert!(!p.is_goal(&Point::new(1000, 0, -1)));
    assert!(!p.is_goal(&Point::new(0, 0, 0)));
}

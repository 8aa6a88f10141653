use drone_route::obstacle::Obstacle;
use drone_route::planner::DronePath;
use drone_route::point::Point;
use drone_route::point::{AXIS_COST, COST_PER_TICK, DIAGONAL_COST, MAX_TRAVEL_COST, STEP, TICKS_PER_UNIT};
use drone_route::sqrt::{ceil_sqrt_of, floor_sqrt};

fn plan() -> DronePath {
    DronePath::new(Point::new(0, 0, 0), Point::new(1000, 0, 0), 100_000)
}

#[test]
fn point_new_keeps_coordinates() {
    let p = Point::new(1, -2, 3);
    assert_eq!(p.x, 1);
    assert_eq!(p.y, -2);
    assert_eq!(p.z, 3);
    assert_eq!(p, Point { x: 1, y: -2, z: 3 });
}

#[test]
fn obstacle_new_keeps_fields() {
    let o = Obstacle::new(Point::new(5, 6, 7), 600, 10_000);
    assert_eq!(o.center, Point::new(5, 6, 7));
    assert_eq!(o.radius, 600);
    assert_eq!(o.height, 10_000);
}

#[test]
fn drone_path_new_keeps_fields() {
    let d = DronePath::new(Point::new(1, 2, 3), Point::new(4, 5, 6), 77);
    assert_eq!(d.start, Point::new(1, 2, 3));
    assert_eq!(d.end, Point::new(4, 5, 6));
    assert_eq!(d.max_height, 77);
}

#[test]
fn step_is_half_a_unit() {
    assert_eq!(STEP * 2, TICKS_PER_UNIT);
    assert_eq!(AXIS_COST, STEP as u128 * COST_PER_TICK);
}

#[test]
fn floor_sqrt_rounds_down() {
    assert_eq!(floor_sqrt(0), 0);
    assert_eq!(floor_sqrt(1), 1);
    assert_eq!(floor_sqrt(3), 1);
    assert_eq!(floor_sqrt(4), 2);
    assert_eq!(floor_sqrt(24), 4);
    assert_eq!(floor_sqrt(25), 5);
    assert_eq!(floor_sqrt(1_000_000_000_000_000_000), 1_000_000_000);
    assert_eq!(floor_sqrt(u128::MAX), u64::MAX);
}

#[test]
fn ceil_sqrt_rounds_up() {
    assert_eq!(ceil_sqrt_of(0), 0);
    assert_eq!(ceil_sqrt_of(1), 1);
    assert_eq!(ceil_sqrt_of(2), 2);
    assert_eq!(ceil_sqrt_of(4), 2);
    assert_eq!(ceil_sqrt_of(5), 3);
    assert_eq!(ceil_sqrt_of(25), 5);
    assert_eq!(ceil_sqrt_of(26), 6);
    assert_eq!(ceil_sqrt_of(u128::MAX), 1u128 << 64);
}

#[test]
fn distance_of_a_point_to_itself_is_zero() {
    let p = Point::new(123, -456, 789);
    assert_eq!(plan().distance(&p, &p), 0);
}

#[test]
fn distance_of_one_axis_move() {
    let d = plan().distance(&Point::new(0, 0, 0), &Point::new(500, 0, 0));
    assert_eq!(d, 500_000_000);
    assert_eq!(d, AXIS_COST);
    assert_eq!(d as f64 / (COST_PER_TICK as f64 * TICKS_PER_UNIT as f64), 0.5);
}

#[test]
fn distance_of_one_diagonal_move() {
    let d = plan().distance(&Point::new(0, 0, 0), &Point::new(500, -500, 0));
    assert_eq!(d, 707_106_782);
    assert_eq!(d, DIAGONAL_COST);
    let exact = 0.5_f64 * 2.0_f64.sqrt();
    let got = d as f64 / (COST_PER_TICK as f64 * TICKS_PER_UNIT as f64);
    assert!(got >= exact);
    assert!(got - exact < 2e-9);
}

#[test]
fn distance_is_rounded_up() {
    // 3-4-5 is exact, 1-1-1 is not: sqrt(3) * 10^6 = 1732050.807...
    let p = plan();
    assert_eq!(p.distance(&Point::new(0, 0, 0), &Point::new(3, 4, 0)), 5_000_000);
    assert_eq!(p.distance(&Point::new(0, 0, 0), &Point::new(1, 1, 1)), 1_732_051);
    assert_eq!(p.distance(&Point::new(1, 1, 1), &Point::new(0, 0, 0)), 1_732_051);
}

#[test]
fn distance_across_the_whole_lattice_fits() {
    let a = Point::new(i32::MIN, i32::MIN, i32::MIN);
    let b = Point::new(i32::MAX, i32::MAX, i32::MAX);
    let d = plan().distance(&a, &b);
    // sqrt(3) * (2^32 - 1) * 10^6, rounded up
    assert_eq!(d, 7_439_101_571_786_667);
    assert!(d <= MAX_TRAVEL_COST);
}

#[test]
fn heuristic_is_the_distance_to_the_goal() {
    let p = plan();
    let a = Point::new(250, 0, -1000);
    let g = Point::new(1000, 2000, 0);
    assert_eq!(p.heuristic(&a, &g), p.distance(&a, &g));
    assert_eq!(p.heuristic(&g, &g), 0);
    assert_eq!(p.heuristic(&Point::new(0, 0, 0), &Point::new(1000, 0, 0)), 1_000_000_000);
}

#[test]
fn horizontal_distance_ignores_altitude() {
    let p = plan();
    assert_eq!(p.distance_2d_squared(&Point::new(0, 0, 0), &Point::new(3, 4, 999)), 25);
    assert_eq!(p.distance_2d_squared(&Point::new(-3, -4, 7), &Point::new(0, 0, -7)), 25);
    assert_eq!(
        p.distance_2d_squared(&Point::new(i32::MIN, i32::MIN, 0), &Point::new(i32::MAX, i32::MAX, 0)),
        2 * (u32::MAX as u128) * (u32::MAX as u128)
    );
}

#[test]
fn point_on_the_rim_does_not_collide() {
    let p = plan();
    let obstacles = vec![Obstacle::new(Point::new(0, 0, 0), 500, 1000)];
    // exactly on the radius: free
    assert!(!p.collides_with_obstacles(&Point::new(500, 0, 0), &obstacles));
    assert!(!p.collides_with_obstacles(&Point::new(300, 400, 0), &obstacles));
    assert!(!p.collides_with_obstacles(&Point::new(0, -500, 1000), &obstacles));
    // one tick inside: blocked
    assert!(p.collides_with_obstacles(&Point::new(499, 0, 0), &obstacles));
    assert!(p.collides_with_obstacles(&Point::new(300, 399, 0), &obstacles));
    // one tick outside: free
    assert!(!p.collides_with_obstacles(&Point::new(501, 0, 0), &obstacles));
}

#[test]
fn point_at_the_top_collides() {
    let p = plan();
    let obstacles = vec![Obstacle::new(Point::new(0, 0, 0), 500, 1000)];
    assert!(p.collides_with_obstacles(&Point::new(0, 0, 1000), &obstacles));
    assert!(p.collides_with_obstacles(&Point::new(100, 100, 1000), &obstacles));
    assert!(!p.collides_with_obstacles(&Point::new(0, 0, 1001), &obstacles));
    assert!(p.collides_with_obstacles(&Point::new(0, 0, -5000), &obstacles));
}

#[test]
fn altitude_of_the_center_plays_no_part() {
    let p = plan();
    let low = vec![Obstacle::new(Point::new(0, 0, -9000), 500, 1000)];
    let high = vec![Obstacle::new(Point::new(0, 0, 9000), 500, 1000)];
    for z in [-2000, 0, 1000, 1001, 9000] {
        let q = Point::new(10, 10, z);
        assert_eq!(p.collides_with_obstacles(&q, &low), p.collides_with_obstacles(&q, &high));
        assert_eq!(p.collides_with_obstacles(&q, &low), z <= 1000);
    }
}

#[test]
fn obstacle_without_extent_blocks_nothing() {
    let p = plan();
    let center = Point::new(0, 0, 0);
    assert!(!p.collides_with_obstacles(&center, &[Obstacle::new(center, 0, 1000)]));
    assert!(!p.collides_with_obstacles(&center, &[Obstacle::new(center, -600, 1000)]));
    assert!(!p.collides_with_obstacles(&Point::new(100, 0, 0), &[Obstacle::new(center, -600, 1000)]));
    assert!(!p.collides_with_obstacles(&center, &[Obstacle::new(center, i64::MIN, i64::MAX)]));
    // negative height: only points below it are blocked
    assert!(!p.collides_with_obstacles(&center, &[Obstacle::new(center, 600, -1)]));
    assert!(p.collides_with_obstacles(&Point::new(0, 0, -1), &[Obstacle::new(center, 600, -1)]));
}

#[test]
fn no_obstacles_no_collision() {
    let p = plan();
    assert!(!p.collides_with_obstacles(&Point::new(0, 0, 0), &[]));
}

#[test]
fn any_obstacle_of_the_list_blocks() {
    let p = plan();
    let obstacles = vec![
        Obstacle::new(Point::new(0, 0, 0), 100, 100),
        Obstacle::new(Point::new(5000, 0, 0), 100, 100),
        Obstacle::new(Point::new(0, 5000, 0), 100, 100),
    ];
    assert!(p.collides_with_obstacles(&Point::new(0, 5000, 50), &obstacles));
    assert!(p.collides_with_obstacles(&Point::new(5050, 0, 100), &obstacles));
    assert!(!p.collides_with_obstacles(&Point::new(2500, 2500, 0), &obstacles));
}

#[test]
fn unbounded_obstacle_covers_the_lattice() {
    let p = plan();
    let everything = vec![Obstacle::new(Point::new(0, 0, 0), i64::MAX, i64::MAX)];
    assert!(p.collides_with_obstacles(&Point::new(i32::MAX, i32::MIN, i32::MAX), &everything));
    assert!(p.collides_with_obstacles(&Point::new(i32::MIN, i32::MAX, i32::MIN), &everything));
    assert!(everything[0].contains(&Point::new(1, 2, 3)));
}

#[test]
fn contains_agrees_with_collides() {
    let p = plan();
    let o = Obstacle::new(Point::new(500, 0, 0), 600, 10_000);
    for q in [
        Point::new(0, 0, 0),
        Point::new(1000, 0, 0),
        Point::new(1100, 0, 0),
        Point::new(500, 600, 0),
        Point::new(500, 599, 10_000),
        Point::new(500, 599, 10_001),
    ] {
        assert_eq!(o.contains(&q), p.collides_with_obstacles(&q, &[o]));
    }
    assert!(o.contains(&Point::new(0, 0, 0)));
    assert!(o.contains(&Point::new(1000, 0, 0)));
    assert!(!o.contains(&Point::new(1100, 0, 0)));
}

use plots::geometry::Point;
use plots::routes::{
    build_routes, build_routes_with_collision_par, build_routes_with_collision_seq, RouteStep,
    StraightSteps,
};

fn pt(x: i64, y: i64) -> Point {
    Point { x, y }
}

fn crossing_steps() -> StraightSteps {
    StraightSteps { dirs: vec![pt(1, 0), pt(0, 2)], steps: 10 }
}

fn crossing_origins() -> Vec<Point> {
    vec![pt(0, 5), pt(3, 0)]
}

#[test]
fn straight_steps_end_at_the_horizon() {
    let mut s = StraightSteps { dirs: vec![pt(1, 2)], steps: 2 };
    assert_eq!(s.step(pt(0, 0), 1, 0), Some((pt(1, 2), false)));
    assert_eq!(s.step(pt(1, 2), 2, 0), Some((pt(2, 4), true)));
    assert_eq!(s.step(pt(2, 4), 3, 0), None);
    assert_eq!(s.step(pt(0, 0), 1, 1), None);
}

#[test]
fn plain_routes_ignore_collisions() {
    let routes = build_routes(crossing_origins(), crossing_steps());
    assert_eq!(routes.len(), 2);
    assert_eq!(routes[0], (0..=10).map(|x| pt(x, 5)).collect::<Vec<_>>());
    assert_eq!(routes[1], (0..=10).map(|k| pt(3, 2 * k)).collect::<Vec<_>>());
}

#[test]
fn sequential_second_route_stops_at_the_crossing() {
    let routes = build_routes_with_collision_seq(crossing_origins(), crossing_steps());
    assert_eq!(routes.len(), 2);
    // the first route is built to completion
    assert_eq!(routes[0], (0..=10).map(|x| pt(x, 5)).collect::<Vec<_>>());
    // three points before the crossing, then the crossing point
    assert_eq!(routes[1], vec![pt(3, 0), pt(3, 2), pt(3, 4), pt(3, 5)]);
}

#[test]
fn parallel_routes_stop_on_each_other() {
    let routes = build_routes_with_collision_par(crossing_origins(), crossing_steps());
    assert_eq!(routes.len(), 2);
    // at step 3 the vertical route reaches the horizontal one at (3, 5);
    // at step 4 the horizontal route leaves (3, 5), where the other now ends
    assert_eq!(routes[0], vec![pt(0, 5), pt(1, 5), pt(2, 5), pt(3, 5), pt(3, 5)]);
    assert_eq!(routes[1], vec![pt(3, 0), pt(3, 2), pt(3, 4), pt(3, 5)]);
}

#[test]
fn degenerate_routes_are_dropped() {
    // the second origin has no direction, so its route keeps one point
    let origins = vec![pt(0, 0), pt(5, 5), pt(9, 9)];
    let steps = || StraightSteps { dirs: vec![pt(0, 1)], steps: 3 };
    let expected = vec![vec![pt(0, 0), pt(0, 1), pt(0, 2), pt(0, 3)]];
    assert_eq!(build_routes(origins.clone(), steps()), expected);
    assert_eq!(build_routes_with_collision_seq(origins.clone(), steps()), expected);
    assert_eq!(build_routes_with_collision_par(origins, steps()), expected);
}

#[test]
fn no_origins_no_routes() {
    assert!(build_routes(vec![], crossing_steps()).is_empty());
    assert!(build_routes_with_collision_seq(vec![], crossing_steps()).is_empty());
    assert!(build_routes_with_collision_par(vec![], crossing_steps()).is_empty());
}

#[test]
fn single_step_routes_have_two_points() {
    let routes = build_routes_with_collision_seq(vec![pt(0, 0)], StraightSteps { dirs: vec![pt(1, 1)], steps: 1 });
    assert_eq!(routes, vec![vec![pt(0, 0), pt(1, 1)]]);
    let none = build_routes_with_collision_par(vec![pt(0, 0)], StraightSteps { dirs: vec![pt(1, 1)], steps: 0 });
    assert!(none.is_empty());
}

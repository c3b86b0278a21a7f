use plots::error::PlotError;
use plots::geometry::Point;
use plots::tour::tour_route;

fn pt(x: i64, y: i64) -> Point {
    Point { x, y }
}

#[test]
fn tour_visits_points_in_the_given_order() {
    let pts = vec![pt(0, 0), pt(5, 1), pt(2, 8)];
    assert_eq!(tour_route(&pts, &vec![2, 0, 1, 2]), Ok(vec![pt(2, 8), pt(0, 0), pt(5, 1), pt(2, 8)]));
    assert_eq!(tour_route(&pts, &vec![]), Ok(vec![]));
}

#[test]
fn tour_with_unknown_index_is_invalid() {
    let pts = vec![pt(0, 0), pt(5, 1)];
    assert_eq!(tour_route(&pts, &vec![0, 2]), Err(PlotError::InvalidInput));
}

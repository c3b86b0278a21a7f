use plots::error::PlotError;
use plots::geometry::Point;
use plots::polygon::{bounds, polygon_contains, samples_polygon};
use plots::sampling::rng_from_seed;

fn p(x: i64, y: i64) -> Point {
    Point { x, y }
}

fn square() -> Vec<Point> {
    vec![p(0, 0), p(32, 0), p(32, 32), p(0, 32), p(0, 0)]
}

#[test]
fn points_on_the_ring_are_outside() {
    let sq = square();
    assert!(polygon_contains(&sq, p(5, 5)));
    assert!(!polygon_contains(&sq, p(0, 5)));
    assert!(!polygon_contains(&sq, p(32, 32)));
    assert!(!polygon_contains(&sq, p(40, 5)));
}

#[test]
fn bounds_of_a_polygon() {
    assert_eq!(bounds(&vec![p(3, -1), p(-2, 4), p(7, 2)]), (-2, -1, 7, 4));
}

#[test]
fn polygon_samples_are_inner_lattice_points() {
    let mut rng = rng_from_seed(9);
    let s = samples_polygon(&square(), 2000, &mut rng).unwrap();
    // the lattice step is 1: the inner points are 1..31 on both axes
    assert_eq!(s.len(), 31 * 31);
    assert!(s.iter().all(|q| q.x >= 1 && q.x <= 31 && q.y >= 1 && q.y <= 31));
    let mut keys = s.iter().map(|q| (q.x, q.y)).collect::<Vec<_>>();
    keys.sort();
    keys.dedup();
    assert_eq!(keys.len(), 31 * 31);
}

#[test]
fn polygon_samples_are_truncated() {
    let mut rng = rng_from_seed(9);
    let tri = vec![p(0, 0), p(64, 0), p(0, 64), p(0, 0)];
    let s = samples_polygon(&tri, 10, &mut rng).unwrap();
    assert_eq!(s.len(), 10);
    assert!(s.iter().all(|q| q.x > 0 && q.y > 0 && q.x + q.y < 64 && q.x % 2 == 0 && q.y % 2 == 0));
}

#[test]
fn empty_polygon_cannot_be_sampled() {
    let mut rng = rng_from_seed(9);
    assert_eq!(samples_polygon(&vec![], 10, &mut rng), Err(PlotError::EmptyPolygon));
}

use plots::error::PlotError;
use plots::geometry::{
    boundaries_route, collide_route_segment, collide_segment_boundaries, collides_segment,
    find_best_collision_1d, out_of_boundaries, poly_bounding_square_edge, strictly_in_boundaries,
    Point,
};

fn pt(x: i64, y: i64) -> Point {
    Point { x, y }
}

#[test]
fn crossing_diagonals_meet_in_the_middle() {
    assert_eq!(collides_segment(pt(0, 0), pt(2, 2), pt(0, 2), pt(2, 0)), Some(pt(1, 1)));
}

#[test]
fn parallel_segments_do_not_meet() {
    assert_eq!(collides_segment(pt(0, 0), pt(1, 0), pt(0, 1), pt(1, 1)), None);
}

#[test]
fn shared_endpoint_is_an_intersection() {
    assert_eq!(collides_segment(pt(0, 0), pt(1, 1), pt(1, 1), pt(2, 0)), Some(pt(1, 1)));
}

#[test]
fn collinear_overlap_is_no_intersection() {
    assert_eq!(collides_segment(pt(0, 0), pt(4, 0), pt(2, 0), pt(6, 0)), None);
}

#[test]
fn disjoint_segments_do_not_meet() {
    assert_eq!(collides_segment(pt(0, 0), pt(1, 1), pt(3, 0), pt(2, 1)), None);
}

#[test]
fn off_grid_crossing_is_rounded_toward_the_start() {
    // (0,0)-(3,1) and (0,1)-(3,0) cross at (1.5, 0.5)
    assert_eq!(collides_segment(pt(0, 0), pt(3, 1), pt(0, 1), pt(3, 0)), Some(pt(1, 0)));
    assert_eq!(collides_segment(pt(3, 1), pt(0, 0), pt(0, 1), pt(3, 0)), Some(pt(2, 1)));
}

#[test]
fn nearest_collision_by_horizontal_distance() {
    let from = pt(0, 0);
    assert_eq!(find_best_collision_1d(from, vec![pt(5, 0), pt(-2, 9), pt(2, 1)]), Some(pt(-2, 9)));
    assert_eq!(find_best_collision_1d(from, vec![]), None);
}

#[test]
fn nearest_collision_ties_keep_the_first() {
    assert_eq!(find_best_collision_1d(pt(0, 0), vec![pt(3, 0), pt(-3, 7)]), Some(pt(3, 0)));
}

#[test]
fn route_collision_takes_the_nearest_crossing() {
    // a zig-zag crossed twice by the horizontal segment y = 1
    let route = vec![pt(2, 0), pt(2, 4), pt(6, 4), pt(6, -2)];
    assert_eq!(collide_route_segment(&route, pt(10, 1), pt(0, 1)), Some(pt(6, 1)));
    assert_eq!(collide_route_segment(&route, pt(0, 1), pt(10, 1)), Some(pt(2, 1)));
    assert_eq!(collide_route_segment(&route, pt(0, 9), pt(10, 9)), None);
    assert_eq!(collide_route_segment(&vec![pt(1, 1)], pt(0, 0), pt(2, 2)), None);
}

#[test]
fn boundary_predicates() {
    let b = (0, 0, 10, 10);
    assert!(strictly_in_boundaries(pt(5, 5), b));
    assert!(!strictly_in_boundaries(pt(0, 5), b));
    assert!(!out_of_boundaries(pt(0, 5), b));
    assert!(out_of_boundaries(pt(11, 5), b));
    assert!(out_of_boundaries(pt(5, -1), b));
}

#[test]
fn boundaries_outline_is_closed() {
    assert_eq!(
        boundaries_route((1, 2, 3, 4)),
        vec![pt(1, 2), pt(3, 2), pt(3, 4), pt(1, 4), pt(1, 2)]
    );
}

#[test]
fn segment_inside_boundaries_is_not_clipped() {
    assert_eq!(collide_segment_boundaries(pt(2, 2), pt(8, 8), (0, 0, 10, 10)), None);
}

#[test]
fn segment_leaving_boundaries_is_clipped_at_the_edge() {
    assert_eq!(collide_segment_boundaries(pt(5, 5), pt(5, -5), (0, 0, 10, 10)), Some(pt(5, 0)));
    assert_eq!(collide_segment_boundaries(pt(5, 5), pt(15, 5), (0, 0, 10, 10)), Some(pt(10, 5)));
    assert_eq!(collide_segment_boundaries(pt(5, 5), pt(5, 15), (0, 0, 10, 10)), Some(pt(5, 10)));
}

#[test]
fn segment_outside_boundaries_meets_no_edge() {
    assert_eq!(collide_segment_boundaries(pt(20, 20), pt(30, 30), (0, 0, 10, 10)), None);
}

#[test]
fn bounding_square_edge_is_the_larger_side() {
    let poly = vec![pt(0, 0), pt(4, 1), pt(2, 7), pt(-1, 3)];
    assert_eq!(poly_bounding_square_edge(&poly), Ok(7));
    assert_eq!(poly_bounding_square_edge(&vec![pt(3, 3)]), Ok(0));
}

#[test]
fn empty_polygon_has_no_bounding_square() {
    assert_eq!(poly_bounding_square_edge(&vec![]), Err(PlotError::EmptyPolygon));
}

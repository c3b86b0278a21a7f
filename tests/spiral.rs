use plots::geometry::Point;
use plots::spiral::route_spiral;

fn pt(x: i64, y: i64) -> Point {
    Point { x, y }
}

#[test]
fn empty_input_gives_empty_tour() {
    assert!(route_spiral(vec![]).is_empty());
}

#[test]
fn square_is_swept_in_one_turning_sense() {
    let tour = route_spiral(vec![pt(2, 2), pt(0, 2), pt(0, 0), pt(2, 0)]);
    assert_eq!(tour, vec![pt(0, 0), pt(2, 0), pt(2, 2), pt(0, 2)]);
}

#[test]
fn tour_is_a_permutation_of_its_input() {
    let input = vec![pt(3, 1), pt(-2, 4), pt(0, 0), pt(5, 5), pt(3, 1), pt(1, -1), pt(-4, -1)];
    let tour = route_spiral(input.clone());
    assert_eq!(tour.len(), input.len());
    // the first of the lowest points starts the tour
    assert_eq!(tour[0], pt(1, -1));
    let mut a = input.iter().map(|p| (p.x, p.y)).collect::<Vec<_>>();
    let mut b = tour.iter().map(|p| (p.x, p.y)).collect::<Vec<_>>();
    a.sort();
    b.sort();
    assert_eq!(a, b);
}

#[test]
fn single_point_tour() {
    assert_eq!(route_spiral(vec![pt(7, 7)]), vec![pt(7, 7)]);
}

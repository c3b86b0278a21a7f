use plots::error::PlotError;
use plots::geometry::Point;
use plots::passage::Passage2DCounter;

fn pt(x: i64, y: i64) -> Point {
    Point { x, y }
}

#[test]
fn counting_one_cell_gives_one_two_three() {
    let mut c = Passage2DCounter::new(10, 100, 50).unwrap();
    assert_eq!(c.count(pt(5, 5)), 1);
    assert_eq!(c.count(pt(9, 0)), 2);
    assert_eq!(c.count(pt(0, 9)), 3);
    assert_eq!(c.get(pt(1, 1)), 3);
    assert_eq!(c.get(pt(1, 1)), 3);
}

#[test]
fn other_cells_are_untouched() {
    let mut c = Passage2DCounter::new(10, 100, 50).unwrap();
    c.count(pt(5, 5));
    assert_eq!(c.get(pt(10, 5)), 0);
    assert_eq!(c.get(pt(5, 10)), 0);
    assert_eq!(c.count(pt(15, 5)), 1);
}

#[test]
fn coordinates_are_clamped_into_the_grid() {
    let mut c = Passage2DCounter::new(10, 100, 50).unwrap();
    // 10 columns and 5 rows: far points land in the border cells
    assert_eq!(c.count(pt(-5, 1000)), 1);
    assert_eq!(c.get(pt(0, 45)), 1);
    assert_eq!(c.count(pt(1000, -1000)), 1);
    assert_eq!(c.get(pt(95, 0)), 1);
}

#[test]
fn partial_cells_round_up() {
    let mut c = Passage2DCounter::new(10, 15, 15).unwrap();
    // a 2 by 2 grid: 12 is in the second column, not clamped into the first
    c.count(pt(12, 12));
    assert_eq!(c.get(pt(12, 12)), 1);
    assert_eq!(c.get(pt(0, 0)), 0);
}

#[test]
fn zero_sizes_are_invalid() {
    assert_eq!(Passage2DCounter::new(0, 10, 10).err(), Some(PlotError::InvalidInput));
    assert_eq!(Passage2DCounter::new(1, 0, 10).err(), Some(PlotError::InvalidInput));
    assert_eq!(Passage2DCounter::new(1, 10, 0).err(), Some(PlotError::InvalidInput));
}

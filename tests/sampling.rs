use plots::error::PlotError;
use plots::geometry::Point;
use plots::grouping::group_by_proximity;
use plots::sampling::{keep_by_density, rng_from_seed, sample_2d_candidates, sample_2d_candidates_f64, DENSITY_ONE};

fn pt(x: i64, y: i64) -> Point {
    Point { x, y }
}

fn half_density(p: Point) -> u64 {
    if p.x < 8 { DENSITY_ONE / 2 } else { 0 }
}

#[test]
fn same_seed_same_samples() {
    let mut r1 = rng_from_seed(42);
    let mut r2 = rng_from_seed(42);
    let a = sample_2d_candidates_f64(&half_density, 16, 20, &mut r1).unwrap();
    let b = sample_2d_candidates_f64(&half_density, 16, 20, &mut r2).unwrap();
    assert_eq!(a, b);
    let c = sample_2d_candidates(&|p: Point| p.x > p.y, 10, 7, &mut r1).unwrap();
    let d = sample_2d_candidates(&|p: Point| p.x > p.y, 10, 7, &mut r2).unwrap();
    assert_eq!(c, d);
}

#[test]
fn predicate_samples_are_kept_lattice_points() {
    let mut rng = rng_from_seed(7);
    let s = sample_2d_candidates(&|p: Point| p.x > p.y, 10, 7, &mut rng).unwrap();
    assert_eq!(s.len(), 7);
    for p in &s {
        assert!(p.x > p.y && p.x < 10 && p.y >= 0);
    }
    let mut keys = s.iter().map(|p| (p.x, p.y)).collect::<Vec<_>>();
    keys.sort();
    keys.dedup();
    assert_eq!(keys.len(), 7);
}

#[test]
fn fewer_candidates_than_samples_returns_all() {
    let mut rng = rng_from_seed(1);
    let s = sample_2d_candidates(&|p: Point| p.x == 0, 5, 100, &mut rng).unwrap();
    let mut keys = s.iter().map(|p| (p.x, p.y)).collect::<Vec<_>>();
    keys.sort();
    assert_eq!(keys, vec![(0, 0), (0, 1), (0, 2), (0, 3), (0, 4)]);
}

#[test]
fn zero_density_is_never_sampled_and_full_density_always() {
    let mut rng = rng_from_seed(3);
    assert!(sample_2d_candidates_f64(&|_p: Point| 0, 8, 100, &mut rng).unwrap().is_empty());
    let all = sample_2d_candidates_f64(&|_p: Point| DENSITY_ONE, 8, 100, &mut rng).unwrap();
    assert_eq!(all.len(), 64);
    let some = sample_2d_candidates_f64(&half_density, 16, 1000, &mut rng).unwrap();
    assert!(some.iter().all(|p| p.x < 8));
    assert!(some.len() < 128);
}

#[test]
fn zero_samples_or_zero_sized_lattice() {
    let mut rng = rng_from_seed(5);
    assert!(sample_2d_candidates(&|_p: Point| true, 4, 0, &mut rng).unwrap().is_empty());
    assert_eq!(sample_2d_candidates(&|_p: Point| true, 0, 10, &mut rng), Err(PlotError::InvalidInput));
    assert_eq!(sample_2d_candidates_f64(&|_p: Point| 1, 0, 10, &mut rng), Err(PlotError::InvalidInput));
}

#[test]
fn grouping_joins_the_first_near_group() {
    let pts = vec![pt(0, 0), pt(1, 0), pt(10, 10), pt(11, 10), pt(2, 0), pt(30, 0)];
    let groups = group_by_proximity(pts, 2);
    assert_eq!(
        groups,
        vec![vec![pt(0, 0), pt(1, 0), pt(2, 0)], vec![pt(10, 10), pt(11, 10)], vec![pt(30, 0)]]
    );
}

#[test]
fn grouping_threshold_is_strict() {
    // a distance of exactly the threshold does not join
    let groups = group_by_proximity(vec![pt(0, 0), pt(3, 4)], 5);
    assert_eq!(groups, vec![vec![pt(0, 0)], vec![pt(3, 4)]]);
    let joined = group_by_proximity(vec![pt(0, 0), pt(3, 4)], 6);
    assert_eq!(joined, vec![vec![pt(0, 0), pt(3, 4)]]);
}

#[test]
fn shuffling_changes_the_lattice_order() {
    let mut rng = rng_from_seed(11);
    let s = sample_2d_candidates(&|_p: Point| true, 10, 100, &mut rng).unwrap();
    let lattice: Vec<Point> = (0..10).flat_map(|x| (0..10).map(move |y| pt(x, y))).collect();
    assert_eq!(s.len(), 100);
    assert_ne!(s, lattice);
    let mut keys = s.iter().map(|p| (p.x, p.y)).collect::<Vec<_>>();
    keys.sort();
    assert_eq!(keys, lattice.iter().map(|p| (p.x, p.y)).collect::<Vec<_>>());
}

#[test]
fn different_seeds_give_different_samples() {
    let mut r1 = rng_from_seed(1);
    let mut r2 = rng_from_seed(2);
    let a = sample_2d_candidates(&|_p: Point| true, 10, 100, &mut r1).unwrap();
    let b = sample_2d_candidates(&|_p: Point| true, 10, 100, &mut r2).unwrap();
    assert_ne!(a, b);
}

#[test]
fn density_above_the_draw_keeps_the_point() {
    // 2 by 2 lattice, ranks (0,0), (0,1), (1,0), (1,1)
    let dens = |p: Point| (p.x * 10 + p.y) as u64;
    let kept = keep_by_density(&dens, 2, &vec![0, 1, 10, 11]);
    // densities 0, 1, 10, 11 against draws 0, 1, 10, 11: none is above
    assert!(kept.is_empty());
    let kept = keep_by_density(&dens, 2, &vec![0, 0, 9, 12]);
    assert_eq!(kept, vec![pt(0, 1), pt(1, 0)]);
}

#[test]
fn full_density_beats_every_draw() {
    let kept = keep_by_density(&|_p: Point| DENSITY_ONE, 2, &vec![u32::MAX, 0, u32::MAX, 7]);
    assert_eq!(kept, vec![pt(0, 0), pt(0, 1), pt(1, 0), pt(1, 1)]);
}

//! Sampling inside a polygon: a lattice over its bounding box, filtered by
//! point-in-polygon, shuffled.
use vstd::prelude::*;

use crate::error::PlotError;
use crate::geometry::{valid_point, valid_route, Point, COORD_MAX};
use crate::sampling::{lemma_shuffled_members, shuffle_and_truncate, shuffled_prefix};
use rand::rngs::SmallRng;

verus! {

/// Lattice points per side of the bounding box.
pub const POLY_LATTICE: usize = 32;

pub open spec fn min_x(s: Seq<Point>) -> int
    decreases s.len(),
{
    if s.len() <= 1 {
        s[0].x as int
    } else if s.last().x < min_x(s.drop_last()) {
        s.last().x as int
    } else {
        min_x(s.drop_last())
    }
}

pub open spec fn max_x(s: Seq<Point>) -> int
    decreases s.len(),
{
    if s.len() <= 1 {
        s[0].x as int
    } else if s.last().x > max_x(s.drop_last()) {
        s.last().x as int
    } else {
        max_x(s.drop_last())
    }
}

pub open spec fn min_y(s: Seq<Point>) -> int
    decreases s.len(),
{
    if s.len() <= 1 {
        s[0].y as int
    } else if s.last().y < min_y(s.drop_last()) {
        s.last().y as int
    } else {
        min_y(s.drop_last())
    }
}

pub open spec fn max_y(s: Seq<Point>) -> int
    decreases s.len(),
{
    if s.len() <= 1 {
        s[0].y as int
    } else if s.last().y > max_y(s.drop_last()) {
        s.last().y as int
    } else {
        max_y(s.drop_last())
    }
}

/// Point `k` (x-major) of the `POLY_LATTICE` by `POLY_LATTICE` lattice over
/// the bounding box of `poly`: the box corner plus `(a * w / n, b * h / n)`
/// for `k = a * n + b`, rounded down.
pub open spec fn polygon_lattice_point(poly: Seq<Point>, k: int) -> Point {
    let n = POLY_LATTICE as int;
    Point {
        x: (min_x(poly) + (k / n) * (max_x(poly) - min_x(poly)) / n) as i64,
        y: (min_y(poly) + (k % n) * (max_y(poly) - min_y(poly)) / n) as i64,
    }
}

/// The lattice over the bounding box of `poly`, x-major.
pub open spec fn polygon_lattice(poly: Seq<Point>) -> Seq<Point> {
    Seq::new((POLY_LATTICE * POLY_LATTICE) as nat, |k: int| polygon_lattice_point(poly, k))
}

/// Whether geo counts `p` inside the polygon whose ring is `poly`.
pub uninterp spec fn polygon_contains_of(poly: Seq<Point>, p: Point) -> bool;

/// The points of `s` inside the polygon `poly`, in order.
pub open spec fn inside_of(poly: Seq<Point>, s: Seq<Point>) -> Seq<Point>
    decreases s.len(),
{
    if s.len() == 0 {
        Seq::empty()
    } else if polygon_contains_of(poly, s.last()) {
        inside_of(poly, s.drop_last()).push(s.last())
    } else {
        inside_of(poly, s.drop_last())
    }
}

proof fn lemma_inside_of(poly: Seq<Point>, s: Seq<Point>)
    ensures
        forall|i: int| 0 <= i < inside_of(poly, s).len() ==> polygon_contains_of(poly, #[trigger] inside_of(poly, s)[i]),
    decreases s.len(),
{
    if s.len() > 0 {
        lemma_inside_of(poly, s.drop_last());
        let prev = inside_of(poly, s.drop_last());
        let cur = inside_of(poly, s);
        assert forall|i: int| 0 <= i < cur.len() implies polygon_contains_of(poly, #[trigger] cur[i]) by {
            if i < prev.len() {
                assert(cur[i] == prev[i]);
            }
        }
    }
}

/// Relies on geo's `Contains<Point>` for `Polygon<i64>`: `p` is strictly
/// inside the polygon whose exterior ring is `poly` (a point on the ring is
/// outside). On integers geo uses its simple kernel, whose products of
/// coordinate differences stay within `i64` for valid points.
#[verifier::external_body]
pub fn polygon_contains(poly: &Vec<Point>, p: Point) -> (r: bool)
    requires
        valid_route(poly@),
        valid_point(p),
    ensures
        r == polygon_contains_of(poly@, p),
{
    let ring: Vec<(i64, i64)> = poly.iter().map(|q| (q.x, q.y)).collect();
    let polygon = geo::Polygon::new(geo::LineString::from(ring), vec![]);
    geo::Contains::contains(&polygon, &geo::Point::new(p.x, p.y))
}

/// The smallest and largest coordinates of a non-empty point sequence.
pub fn bounds(poly: &Vec<Point>) -> (r: (i64, i64, i64, i64))
    requires
        poly@.len() > 0,
    ensures
        r.0 == min_x(poly@) && r.1 == min_y(poly@) && r.2 == max_x(poly@) && r.3 == max_y(poly@),
{
    let mut r = (poly[0].x, poly[0].y, poly[0].x, poly[0].y);
    let mut k: usize = 1;
    proof {
        assert(poly@.take(1).len() == 1);
    }
    while k < poly.len()
        invariant
            1 <= k <= poly@.len(),
            r.0 == min_x(poly@.take(k as int)) && r.1 == min_y(poly@.take(k as int)),
            r.2 == max_x(poly@.take(k as int)) && r.3 == max_y(poly@.take(k as int)),
        decreases poly@.len() - k,
    {
        proof {
            let t = poly@.take(k as int + 1);
            assert(t.drop_last() =~= poly@.take(k as int));
        }
        let p = poly[k];
        if p.x < r.0 {
            r.0 = p.x;
        }
        if p.y < r.1 {
            r.1 = p.y;
        }
        if p.x > r.2 {
            r.2 = p.x;
        }
        if p.y > r.3 {
            r.3 = p.y;
        }
        k += 1;
    }
    proof {
        assert(poly@.take(poly@.len() as int) =~= poly@);
    }
    r
}

proof fn lemma_bounds_valid(s: Seq<Point>)
    requires
        s.len() > 0,
        valid_route(s),
    ensures
        -COORD_MAX <= min_x(s) <= max_x(s) <= COORD_MAX,
        -COORD_MAX <= min_y(s) <= max_y(s) <= COORD_MAX,
    decreases s.len(),
{
    if s.len() > 1 {
        let t = s.drop_last();
        assert forall|i: int| 0 <= i < t.len() implies valid_point(#[trigger] t[i]) by {
            assert(t[i] == s[i]);
        }
        lemma_bounds_valid(t);
        assert(valid_point(s[s.len() - 1]));
    } else {
        assert(valid_point(s[0]));
    }
}

/// `lo + a * w / n` lies between `lo` and `lo + w`.
proof fn lemma_lattice_step(lo: int, w: int, a: int, n: int)
    requires
        0 <= a < n,
        0 <= w,
    ensures
        0 <= a * w / n <= w,
{
    assert(0 <= a * w <= n * w) by (nonlinear_arith)
        requires
            0 <= a < n,
            0 <= w,
    ;
    assert(0 <= a * w / n <= w) by (nonlinear_arith)
        requires
            0 < n,
            0 <= a * w <= n * w,
    ;
}

/// Up to `samples` points of the lattice over the polygon's bounding box
/// that lie inside it, in an order shuffled with `rng`; `EmptyPolygon` for a
/// polygon without points.
pub fn samples_polygon(poly: &Vec<Point>, samples: usize, rng: &mut SmallRng) -> (r: Result<Vec<Point>, PlotError>)
    requires
        valid_route(poly@),
    ensures
        poly@.len() == 0 <==> r is Err,
        r is Err ==> r == Err::<Vec<Point>, PlotError>(PlotError::EmptyPolygon) && *final(rng) == *old(rng),
        r matches Ok(v) ==> shuffled_prefix(v@, inside_of(poly@, polygon_lattice(poly@)), samples as int),
        r matches Ok(v) ==> forall|i: int| 0 <= i < v@.len() ==> polygon_contains_of(poly@, #[trigger] v@[i]),
{
    if poly.len() == 0 {
        return Err(PlotError::EmptyPolygon);
    }
    let (x0, y0, x1, y1) = bounds(poly);
    proof {
        lemma_bounds_valid(poly@);
    }
    let w = x1 - x0;
    let h = y1 - y0;
    let ghost lattice = polygon_lattice(poly@);
    let n = POLY_LATTICE;
    let mut candidates: Vec<Point> = Vec::new();
    let mut k: usize = 0;
    while k < n * n
        invariant
            k <= n * n,
            n == POLY_LATTICE,
            valid_route(poly@),
            poly@.len() > 0,
            x0 == min_x(poly@) && y0 == min_y(poly@) && w == max_x(poly@) - min_x(poly@) && h == max_y(poly@) - min_y(poly@),
            -COORD_MAX <= x0 && x0 + w <= COORD_MAX && 0 <= w,
            -COORD_MAX <= y0 && y0 + h <= COORD_MAX && 0 <= h,
            lattice == polygon_lattice(poly@),
            candidates@ == inside_of(poly@, lattice.take(k as int)),
        decreases n * n - k,
    {
        let a = (k / n) as i64;
        let b = (k % n) as i64;
        proof {
            lemma_lattice_step(x0 as int, w as int, a as int, n as int);
            lemma_lattice_step(y0 as int, h as int, b as int, n as int);
            assert(a * w <= 32 * 2 * COORD_MAX && b * h <= 32 * 2 * COORD_MAX) by (nonlinear_arith)
                requires
                    0 <= a < 32,
                    0 <= b < 32,
                    0 <= w <= 2 * COORD_MAX,
                    0 <= h <= 2 * COORD_MAX,
            ;
        }
        let p = Point { x: x0 + a * w / 32, y: y0 + b * h / 32 };
        proof {
            assert(p == lattice[k as int]);
            let t = lattice.take(k as int + 1);
            assert(t.drop_last() =~= lattice.take(k as int));
            assert(t.last() == p);
        }
        if polygon_contains(poly, p) {
            candidates.push(p);
        }
        k += 1;
    }
    proof {
        assert(lattice.take((n * n) as int) =~= lattice);
    }
    let ghost kept = candidates@;
    let v = shuffle_and_truncate(candidates, samples, rng);
    proof {
        lemma_inside_of(poly@, lattice);
        lemma_shuffled_members(v@, kept, samples as int);
        assert forall|i: int| 0 <= i < v@.len() implies polygon_contains_of(poly@, #[trigger] v@[i]) by {
            let k = choose|k: int| 0 <= k < kept.len() && kept[k] == v@[i];
        }
    }
    Ok(v)
}

} // verus!

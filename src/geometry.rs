//! Geometry kernel on integer coordinates.
//!
//! Coordinates are integers (any fixed unit, e.g. micrometres on the page),
//! bounded by `COORD_MAX` so that every product below fits in an `i128`.
use vstd::prelude::*;

use crate::error::PlotError;

verus! {

/// Largest absolute coordinate accepted by the kernel.
pub const COORD_MAX: i64 = 1_000_000_000;

#[derive(Clone, Copy, Debug, PartialEq, Eq, Structural)]
pub struct Point {
    pub x: i64,
    pub y: i64,
}

pub open spec fn valid_point(p: Point) -> bool {
    -COORD_MAX <= p.x <= COORD_MAX && -COORD_MAX <= p.y <= COORD_MAX
}

pub open spec fn valid_route(r: Seq<Point>) -> bool {
    forall|i: int| 0 <= i < r.len() ==> valid_point(#[trigger] r[i])
}

pub open spec fn cross_spec(ax: int, ay: int, bx: int, by: int) -> int {
    ax * by - ay * bx
}

/// Denominator of the crossing parameters: the cross product of the two
/// direction vectors. Zero exactly when the segments are parallel.
pub open spec fn seg_denom(p1: Point, p2: Point, q1: Point, q2: Point) -> int {
    cross_spec(p2.x - p1.x, p2.y - p1.y, q2.x - q1.x, q2.y - q1.y)
}

/// Numerator of the parameter along the first segment.
pub open spec fn seg_t_num(p1: Point, p2: Point, q1: Point, q2: Point) -> int {
    cross_spec(q1.x - p1.x, q1.y - p1.y, q2.x - q1.x, q2.y - q1.y)
}

/// Numerator of the parameter along the second segment.
pub open spec fn seg_u_num(p1: Point, p2: Point, q1: Point, q2: Point) -> int {
    cross_spec(q1.x - p1.x, q1.y - p1.y, p2.x - p1.x, p2.y - p1.y)
}

pub open spec fn abs_spec(a: int) -> int {
    if a < 0 { -a } else { a }
}

pub open spec fn sign_spec(a: int) -> int {
    if a < 0 { -1 } else { 1 }
}

/// `n / d` rounded toward zero, for `d > 0`.
pub open spec fn div_toward_zero(n: int, d: int) -> int {
    if n >= 0 { n / d } else { -((-n) / d) }
}

/// The two segments are not parallel and both crossing parameters lie in
/// the closed interval [0, 1].
pub open spec fn segments_cross(p1: Point, p2: Point, q1: Point, q2: Point) -> bool {
    let d = seg_denom(p1, p2, q1, q2);
    let t = seg_t_num(p1, p2, q1, q2) * sign_spec(d);
    let u = seg_u_num(p1, p2, q1, q2) * sign_spec(d);
    d != 0 && 0 <= t <= abs_spec(d) && 0 <= u <= abs_spec(d)
}

/// The crossing point `p1 + t * (p2 - p1)`, each coordinate rounded toward
/// `p1` onto the integer grid (exact whenever the crossing is a grid point).
pub open spec fn crossing_point(p1: Point, p2: Point, q1: Point, q2: Point) -> Point {
    let d = seg_denom(p1, p2, q1, q2);
    let t = seg_t_num(p1, p2, q1, q2) * sign_spec(d);
    Point {
        x: (p1.x + div_toward_zero(t * (p2.x - p1.x), abs_spec(d))) as i64,
        y: (p1.y + div_toward_zero(t * (p2.y - p1.y), abs_spec(d))) as i64,
    }
}

/// Intersection of the closed segments `p1-p2` and `q1-q2`; parallel and
/// collinear segments never intersect.
pub open spec fn segment_intersection(p1: Point, p2: Point, q1: Point, q2: Point) -> Option<Point> {
    if segments_cross(p1, p2, q1, q2) {
        Some(crossing_point(p1, p2, q1, q2))
    } else {
        None
    }
}

pub(crate) fn cross(ax: i128, ay: i128, bx: i128, by: i128) -> (r: i128)
    requires
        -2 * COORD_MAX <= ax <= 2 * COORD_MAX,
        -2 * COORD_MAX <= ay <= 2 * COORD_MAX,
        -2 * COORD_MAX <= bx <= 2 * COORD_MAX,
        -2 * COORD_MAX <= by <= 2 * COORD_MAX,
    ensures
        r == cross_spec(ax as int, ay as int, bx as int, by as int),
        -8 * COORD_MAX * COORD_MAX <= r <= 8 * COORD_MAX * COORD_MAX,
{
    proof {
        let m = 2 * COORD_MAX as int;
        lemma_mul_bound(ax as int, by as int, m);
        lemma_mul_bound(ay as int, bx as int, m);
        assert(m * m == 4 * COORD_MAX * COORD_MAX) by (nonlinear_arith)
            requires
                m == 2 * COORD_MAX,
        ;
    }
    ax * by - ay * bx
}

proof fn lemma_mul_bound(a: int, b: int, m: int)
    requires
        0 <= m,
        -m <= a <= m,
        -m <= b <= m,
    ensures
        -(m * m) <= a * b <= m * m,
{
    assert(-(m * m) <= a * b <= m * m) by (nonlinear_arith)
        requires
            0 <= m,
            -m <= a <= m,
            -m <= b <= m,
    ;
}

/// `n / d` rounded toward zero, on the offsets that `collides_segment` forms.
fn div_zero(n: i128, d: i128) -> (r: i128)
    requires
        0 < d <= 8 * COORD_MAX * COORD_MAX,
        abs_spec(n as int) <= d * (2 * COORD_MAX),
    ensures
        r == div_toward_zero(n as int, d as int),
        abs_spec(r as int) <= 2 * COORD_MAX,
{
    proof {
        let m = 2 * COORD_MAX as int;
        let a = abs_spec(n as int);
        assert(d * m <= 16 * COORD_MAX * COORD_MAX * COORD_MAX) by (nonlinear_arith)
            requires
                0 < d <= 8 * COORD_MAX * COORD_MAX,
                m == 2 * COORD_MAX,
        ;
        assert(a / (d as int) <= m) by (nonlinear_arith)
            requires
                0 < d,
                0 <= a <= d * m,
        ;
        assert(a / (d as int) >= 0) by (nonlinear_arith)
            requires
                0 < d,
                0 <= a,
        ;
    }
    if n >= 0 {
        ((n as u128) / (d as u128)) as i128
    } else {
        -((((-n) as u128) / (d as u128)) as i128)
    }
}

/// Rounding `t * r / d` toward zero, for `0 <= t <= d`, lands between 0 and `r`.
pub proof fn lemma_offset_within(t: int, d: int, r: int)
    requires
        0 < d,
        0 <= t <= d,
    ensures
        r >= 0 ==> 0 <= div_toward_zero(t * r, d) <= r,
        r < 0 ==> r <= div_toward_zero(t * r, d) <= 0,
{
    if r >= 0 {
        assert(0 <= t * r <= d * r) by (nonlinear_arith)
            requires 0 <= t <= d, r >= 0;
        assert(0 <= (t * r) / d <= r) by (nonlinear_arith)
            requires 0 < d, 0 <= t * r <= d * r;
    } else {
        assert(t * r <= 0 && -(t * r) <= d * (-r)) by (nonlinear_arith)
            requires 0 <= t <= d, r < 0;
        assert(0 <= (-(t * r)) / d <= -r) by (nonlinear_arith)
            requires 0 < d, 0 <= -(t * r) <= d * (-r);
    }
}

/// A crossing point lies in the bounding box of the first segment.
pub proof fn lemma_crossing_in_box(p1: Point, p2: Point, q1: Point, q2: Point)
    requires
        valid_point(p1),
        valid_point(p2),
        segments_cross(p1, p2, q1, q2),
    ensures
        valid_point(crossing_point(p1, p2, q1, q2)),
        p1.x <= p2.x ==> p1.x <= crossing_point(p1, p2, q1, q2).x <= p2.x,
        p2.x <= p1.x ==> p2.x <= crossing_point(p1, p2, q1, q2).x <= p1.x,
        p1.y <= p2.y ==> p1.y <= crossing_point(p1, p2, q1, q2).y <= p2.y,
        p2.y <= p1.y ==> p2.y <= crossing_point(p1, p2, q1, q2).y <= p1.y,
{
    let d = seg_denom(p1, p2, q1, q2);
    let t = seg_t_num(p1, p2, q1, q2) * sign_spec(d);
    lemma_offset_within(t, abs_spec(d), p2.x - p1.x);
    lemma_offset_within(t, abs_spec(d), p2.y - p1.y);
}

/// Intersection point of the segments `from_1-to_1` and `from_2-to_2`.
pub fn collides_segment(from_1: Point, to_1: Point, from_2: Point, to_2: Point) -> (r: Option<Point>)
    requires
        valid_point(from_1),
        valid_point(to_1),
        valid_point(from_2),
        valid_point(to_2),
    ensures
        r == segment_intersection(from_1, to_1, from_2, to_2),
        r matches Some(q) ==> valid_point(q),
{
    let rx = to_1.x as i128 - from_1.x as i128;
    let ry = to_1.y as i128 - from_1.y as i128;
    let sx = to_2.x as i128 - from_2.x as i128;
    let sy = to_2.y as i128 - from_2.y as i128;
    let qx = from_2.x as i128 - from_1.x as i128;
    let qy = from_2.y as i128 - from_1.y as i128;
    let d = cross(rx, ry, sx, sy);
    if d == 0 {
        return None;
    }
    let tn = cross(qx, qy, sx, sy);
    let un = cross(qx, qy, rx, ry);
    let (ad, t, u) = if d < 0 { (-d, -tn, -un) } else { (d, tn, un) };
    proof {
        assert(d == seg_denom(from_1, to_1, from_2, to_2));
        assert(tn == seg_t_num(from_1, to_1, from_2, to_2));
        assert(un == seg_u_num(from_1, to_1, from_2, to_2));
        assert(ad == abs_spec(d as int));
        assert(t == tn * sign_spec(d as int));
        assert(u == un * sign_spec(d as int));
    }
    if !(0 <= t && t <= ad && 0 <= u && u <= ad) {
        return None;
    }
    proof {
        let m = 2 * COORD_MAX as int;
        assert(abs_spec(t * rx) <= ad * m) by (nonlinear_arith)
            requires
                0 <= t <= ad,
                -m <= rx <= m,
        ;
        assert(abs_spec(t * ry) <= ad * m) by (nonlinear_arith)
            requires
                0 <= t <= ad,
                -m <= ry <= m,
        ;
        assert(ad * m <= 16 * COORD_MAX * COORD_MAX * COORD_MAX) by (nonlinear_arith)
            requires
                0 < ad <= 8 * COORD_MAX * COORD_MAX,
                m == 2 * COORD_MAX,
        ;
    }
    let ox = div_zero(t * rx, ad);
    let oy = div_zero(t * ry, ad);
    proof {
        lemma_offset_within(t as int, ad as int, rx as int);
        lemma_offset_within(t as int, ad as int, ry as int);
        lemma_crossing_in_box(from_1, to_1, from_2, to_2);
        assert(segments_cross(from_1, to_1, from_2, to_2));
    }
    Some(Point { x: (from_1.x as i128 + ox) as i64, y: (from_1.y as i128 + oy) as i64 })
}

/// Horizontal distance between two points.
pub open spec fn dx_spec(a: Point, b: Point) -> int {
    abs_spec(b.x - a.x)
}

/// The first point of `s` whose horizontal distance to `from` is smallest.
pub open spec fn nearest_1d(from: Point, s: Seq<Point>) -> Option<Point>
    decreases s.len(),
{
    if s.len() == 0 {
        None
    } else {
        let q = s.last();
        match nearest_1d(from, s.drop_last()) {
            None => Some(q),
            Some(b) => if dx_spec(from, q) < dx_spec(from, b) {
                Some(q)
            } else {
                Some(b)
            },
        }
    }
}

/// The crossings of the segment `from-to` with the consecutive segments of
/// `route`, in route order.
pub open spec fn route_hits(route: Seq<Point>, from: Point, to: Point) -> Seq<Point>
    decreases route.len(),
{
    if route.len() < 2 {
        Seq::empty()
    } else {
        let n = route.len();
        let prev = route_hits(route.drop_last(), from, to);
        match segment_intersection(from, to, route[n - 2], route[n - 1]) {
            Some(q) => prev.push(q),
            None => prev,
        }
    }
}

/// The crossing of `from-to` with `route` nearest to `from` horizontally.
pub open spec fn route_collision(route: Seq<Point>, from: Point, to: Point) -> Option<Point> {
    nearest_1d(from, route_hits(route, from, to))
}

/// `nearest_1d` picks an element of the sequence, at least as near as every
/// other and strictly nearer than every element before it.
pub proof fn lemma_nearest_1d(from: Point, s: Seq<Point>)
    ensures
        s.len() == 0 <==> nearest_1d(from, s) is None,
        nearest_1d(from, s) matches Some(b) ==> exists|i: int|
            0 <= i < s.len() && s[i] == b
                && (forall|j: int| 0 <= j < i ==> dx_spec(from, b) < dx_spec(from, #[trigger] s[j])),
        nearest_1d(from, s) matches Some(b) ==> forall|j: int|
            0 <= j < s.len() ==> dx_spec(from, b) <= dx_spec(from, #[trigger] s[j]),
    decreases s.len(),
{
    if s.len() > 0 {
        let t = s.drop_last();
        lemma_nearest_1d(from, t);
        assert forall|j: int| 0 <= j < t.len() implies t[j] == s[j] by {}
        match nearest_1d(from, t) {
            None => {
                assert(s[0] == s.last());
            },
            Some(b) => {
                let i = choose|i: int|
                    0 <= i < t.len() && t[i] == b
                        && (forall|j: int| 0 <= j < i ==> dx_spec(from, b) < dx_spec(from, #[trigger] t[j]));
                if dx_spec(from, s.last()) < dx_spec(from, b) {
                    assert(s[s.len() - 1] == s.last());
                } else {
                    assert(s[i] == b);
                }
            },
        }
    }
}

fn abs_dx(a: Point, b: Point) -> (r: i64)
    requires
        valid_point(a),
        valid_point(b),
    ensures
        r == dx_spec(a, b),
{
    if b.x >= a.x { b.x - a.x } else { a.x - b.x }
}

/// Of the candidate collisions `others`, the one nearest to `from` on the
/// horizontal axis (the first such one on ties).
pub fn find_best_collision_1d(from: Point, others: Vec<Point>) -> (r: Option<Point>)
    requires
        valid_point(from),
        valid_route(others@),
    ensures
        r == nearest_1d(from, others@),
        r matches Some(q) ==> valid_point(q),
{
    let mut best: Option<Point> = None;
    let mut best_dx: i64 = 0;
    let mut i: usize = 0;
    while i < others.len()
        invariant
            i <= others@.len(),
            valid_point(from),
            valid_route(others@),
            best == nearest_1d(from, others@.take(i as int)),
            best matches Some(b) ==> best_dx == dx_spec(from, b),
        decreases others@.len() - i,
    {
        let q = others[i];
        let d = abs_dx(from, q);
        proof {
            assert(others@.take(i as int + 1).drop_last() == others@.take(i as int));
        }
        match best {
            None => {
                best = Some(q);
                best_dx = d;
            },
            Some(_) => {
                if d < best_dx {
                    best = Some(q);
                    best_dx = d;
                }
            },
        }
        i += 1;
    }
    proof {
        assert(others@.take(others@.len() as int) == others@);
        lemma_nearest_1d(from, others@);
    }
    best
}

/// The crossing of the segment `from-to` with `route` that is nearest to
/// `from` on the horizontal axis.
pub fn collide_route_segment(route: &Vec<Point>, from: Point, to: Point) -> (r: Option<Point>)
    requires
        valid_route(route@),
        valid_point(from),
        valid_point(to),
    ensures
        r == route_collision(route@, from, to),
        r matches Some(q) ==> valid_point(q),
{
    if route.len() < 2 {
        return None;
    }
    let mut hits: Vec<Point> = Vec::new();
    let mut i: usize = 1;
    while i < route.len()
        invariant
            1 <= i <= route@.len(),
            valid_route(route@),
            valid_point(from),
            valid_point(to),
            hits@ == route_hits(route@.take(i as int), from, to),
            valid_route(hits@),
        decreases route@.len() - i,
    {
        let hit = collides_segment(from, to, route[i - 1], route[i]);
        proof {
            let t = route@.take(i as int + 1);
            assert(t.drop_last() == route@.take(i as int));
            assert(t[i - 1] == route@[i - 1] && t[i as int] == route@[i as int]);
        }
        if let Some(q) = hit {
            hits.push(q);
        }
        i += 1;
    }
    proof {
        assert(route@.take(route@.len() as int) == route@);
    }
    find_best_collision_1d(from, hits)
}

/// A rectangle `(x0, y0, x1, y1)`: left, top, right and bottom edges.
pub type Boundaries = (i64, i64, i64, i64);

pub open spec fn valid_boundaries(b: Boundaries) -> bool {
    valid_point(Point { x: b.0, y: b.1 }) && valid_point(Point { x: b.2, y: b.3 })
}

/// `p` lies outside the closed rectangle.
pub fn out_of_boundaries(p: Point, boundaries: Boundaries) -> (r: bool)
    ensures
        r == (p.x < boundaries.0 || p.x > boundaries.2 || p.y < boundaries.1 || p.y > boundaries.3),
{
    p.x < boundaries.0 || p.x > boundaries.2 || p.y < boundaries.1 || p.y > boundaries.3
}

/// `p` lies inside the open rectangle.
pub fn strictly_in_boundaries(p: Point, boundaries: Boundaries) -> (r: bool)
    ensures
        r == strictly_in_boundaries_spec(p, boundaries),
{
    p.x > boundaries.0 && p.x < boundaries.2 && p.y > boundaries.1 && p.y < boundaries.3
}

pub open spec fn boundary_corners(b: Boundaries) -> Seq<Point> {
    seq![
        Point { x: b.0, y: b.1 },
        Point { x: b.2, y: b.1 },
        Point { x: b.2, y: b.3 },
        Point { x: b.0, y: b.3 },
        Point { x: b.0, y: b.1 },
    ]
}

/// The closed outline of the rectangle, starting and ending at its top-left
/// corner.
pub fn boundaries_route(boundaries: Boundaries) -> (r: Vec<Point>)
    ensures
        r@ == boundary_corners(boundaries),
{
    let r = vec![
        Point { x: boundaries.0, y: boundaries.1 },
        Point { x: boundaries.2, y: boundaries.1 },
        Point { x: boundaries.2, y: boundaries.3 },
        Point { x: boundaries.0, y: boundaries.3 },
        Point { x: boundaries.0, y: boundaries.1 },
    ];
    assert(r@ =~= boundary_corners(boundaries));
    r
}

/// The edges of the rectangle in the order they are tried: top, left,
/// right, bottom.
pub open spec fn boundary_edges(b: Boundaries) -> Seq<(Point, Point)> {
    seq![
        (Point { x: b.0, y: b.1 }, Point { x: b.2, y: b.1 }),
        (Point { x: b.0, y: b.1 }, Point { x: b.0, y: b.3 }),
        (Point { x: b.2, y: b.1 }, Point { x: b.2, y: b.3 }),
        (Point { x: b.0, y: b.3 }, Point { x: b.2, y: b.3 }),
    ]
}

/// The intersection of `from-to` with the first of `edges` that it crosses.
pub open spec fn first_edge_hit(from: Point, to: Point, edges: Seq<(Point, Point)>) -> Option<Point>
    decreases edges.len(),
{
    if edges.len() == 0 {
        None
    } else {
        match segment_intersection(from, to, edges[0].0, edges[0].1) {
            Some(q) => Some(q),
            None => first_edge_hit(from, to, edges.drop_first()),
        }
    }
}

/// Where the segment `from-to` leaves the rectangle: `None` when both ends
/// are strictly inside, else its intersection with the first edge it
/// crosses (top, left, right, bottom), if any.
pub fn collide_segment_boundaries(from: Point, to: Point, boundaries: Boundaries) -> (r: Option<Point>)
    requires
        valid_point(from),
        valid_point(to),
        valid_boundaries(boundaries),
    ensures
        r == if strictly_in_boundaries_spec(from, boundaries) && strictly_in_boundaries_spec(to, boundaries) {
            None
        } else {
            first_edge_hit(from, to, boundary_edges(boundaries))
        },
{
    if strictly_in_boundaries(from, boundaries) && strictly_in_boundaries(to, boundaries) {
        return None;
    }
    let (x0, y0, x1, y1) = boundaries;
    let edges = vec![
        (Point { x: x0, y: y0 }, Point { x: x1, y: y0 }),
        (Point { x: x0, y: y0 }, Point { x: x0, y: y1 }),
        (Point { x: x1, y: y0 }, Point { x: x1, y: y1 }),
        (Point { x: x0, y: y1 }, Point { x: x1, y: y1 }),
    ];
    let ghost all = boundary_edges(boundaries);
    assert(edges@ =~= all);
    assert(all.skip(0) =~= all);
    let mut k: usize = 0;
    while k < edges.len()
        invariant
            k <= edges@.len() == 4,
            edges@ == all,
            valid_point(from),
            valid_point(to),
            valid_boundaries(boundaries),
            all == boundary_edges(boundaries),
            !(strictly_in_boundaries_spec(from, boundaries) && strictly_in_boundaries_spec(to, boundaries)),
            first_edge_hit(from, to, all) == first_edge_hit(from, to, all.skip(k as int)),
        decreases edges@.len() - k,
    {
        let (a, b) = edges[k];
        let hit = collides_segment(from, to, a, b);
        proof {
            assert(all.skip(k as int)[0] == edges@[k as int]);
            assert(all.skip(k as int).drop_first() =~= all.skip(k as int + 1));
        }
        if hit.is_some() {
            proof {
                assert(first_edge_hit(from, to, all.skip(k as int)) == hit);
            }
            return hit;
        }
        k += 1;
    }
    assert(all.skip(4) =~= Seq::<(Point, Point)>::empty());
    None
}

pub open spec fn strictly_in_boundaries_spec(p: Point, b: Boundaries) -> bool {
    p.x > b.0 && p.x < b.2 && p.y > b.1 && p.y < b.3
}

/// `w` is the largest difference between two `x` coordinates of `s`.
pub open spec fn is_span_x(s: Seq<Point>, w: int) -> bool {
    &&& exists|i: int, j: int| 0 <= i < s.len() && 0 <= j < s.len() && #[trigger] s[i].x - #[trigger] s[j].x == w
    &&& forall|i: int, j: int| 0 <= i < s.len() && 0 <= j < s.len() ==> #[trigger] s[i].x - #[trigger] s[j].x <= w
}

/// `h` is the largest difference between two `y` coordinates of `s`.
pub open spec fn is_span_y(s: Seq<Point>, h: int) -> bool {
    &&& exists|i: int, j: int| 0 <= i < s.len() && 0 <= j < s.len() && #[trigger] s[i].y - #[trigger] s[j].y == h
    &&& forall|i: int, j: int| 0 <= i < s.len() && 0 <= j < s.len() ==> #[trigger] s[i].y - #[trigger] s[j].y <= h
}

/// Side of the smallest axis-aligned square holding the polygon `poly`;
/// `EmptyPolygon` when it has no point.
pub fn poly_bounding_square_edge(poly: &Vec<Point>) -> (r: Result<u64, PlotError>)
    requires
        valid_route(poly@),
    ensures
        poly@.len() == 0 <==> r == Err::<u64, PlotError>(PlotError::EmptyPolygon),
        poly@.len() > 0 ==> r is Ok,
        r matches Ok(e) ==> exists|w: int, h: int|
            is_span_x(poly@, w) && is_span_y(poly@, h) && e == if w < h { h } else { w },
{
    if poly.len() == 0 {
        return Err(PlotError::EmptyPolygon);
    }
    let mut lo_x: usize = 0;
    let mut hi_x: usize = 0;
    let mut lo_y: usize = 0;
    let mut hi_y: usize = 0;
    let mut k: usize = 1;
    while k < poly.len()
        invariant
            1 <= k <= poly@.len(),
            lo_x < k && hi_x < k && lo_y < k && hi_y < k,
            forall|i: int| 0 <= i < k ==> poly@[lo_x as int].x <= #[trigger] poly@[i].x <= poly@[hi_x as int].x,
            forall|i: int| 0 <= i < k ==> poly@[lo_y as int].y <= #[trigger] poly@[i].y <= poly@[hi_y as int].y,
        decreases poly@.len() - k,
    {
        let p = poly[k];
        if p.x < poly[lo_x].x {
            lo_x = k;
        }
        if p.x > poly[hi_x].x {
            hi_x = k;
        }
        if p.y < poly[lo_y].y {
            lo_y = k;
        }
        if p.y > poly[hi_y].y {
            hi_y = k;
        }
        k += 1;
    }
    let w = (poly[hi_x].x - poly[lo_x].x) as u64;
    let h = (poly[hi_y].y - poly[lo_y].y) as u64;
    proof {
        assert(valid_point(poly@[hi_x as int]) && valid_point(poly@[lo_x as int]));
        assert(valid_point(poly@[hi_y as int]) && valid_point(poly@[lo_y as int]));
        assert(is_span_x(poly@, w as int));
        assert(is_span_y(poly@, h as int));
    }
    Ok(if w < h { h } else { w })
}

} // verus!

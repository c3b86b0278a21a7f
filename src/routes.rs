//! Incremental route building with three collision disciplines.
use vstd::prelude::*;

use crate::geometry::{
    collide_route_segment, find_best_collision_1d, lemma_nearest_1d, nearest_1d, route_collision,
    route_hits, valid_point, valid_route, Point, COORD_MAX,
};

verus! {

/// The caller's strategy for growing routes: from the current position, the
/// index of the point to build and the index of the route, propose the next
/// point and whether it ends the route, or `None` when there is nothing more.
///
/// A step never proposes a non-terminal point at an index of `horizon` or
/// more, so every route ends.
pub trait RouteStep: Sized {
    spec fn horizon(&self) -> usize;

    /// What `step` returns from this state.
    spec fn next(&self, cur: Point, i: usize, j: usize) -> Option<(Point, bool)>;

    /// The state after `step`.
    spec fn advanced(&self, cur: Point, i: usize, j: usize) -> Self;

    fn step(&mut self, cur: Point, i: usize, j: usize) -> (r: Option<(Point, bool)>)
        ensures
            r == old(self).next(cur, i, j),
            *final(self) == old(self).advanced(cur, i, j),
            final(self).horizon() == old(self).horizon(),
            i >= old(self).horizon() ==> !(r matches Some((_, false))),
            r matches Some((p, _)) ==> valid_point(p),
    ;
}

pub open spec fn routes_view(rs: Seq<Vec<Point>>) -> Seq<Seq<Point>> {
    rs.map_values(|v: Vec<Point>| v@)
}

pub open spec fn valid_routes(rs: Seq<Seq<Point>>) -> bool {
    forall|k: int| 0 <= k < rs.len() ==> valid_route(#[trigger] rs[k])
}

/// No route is degenerate: each has at least two points.
pub open spec fn all_long(rs: Seq<Seq<Point>>) -> bool {
    forall|k: int| 0 <= k < rs.len() ==> #[trigger] rs[k].len() >= 2
}

/// The collisions of `from-to` with each route but the one at `skip`, in
/// route order.
pub open spec fn others_hits(rs: Seq<Seq<Point>>, skip: int, from: Point, to: Point) -> Seq<Point>
    decreases rs.len(),
{
    if rs.len() == 0 {
        Seq::empty()
    } else {
        let k = rs.len() - 1;
        let prev = others_hits(rs.drop_last(), skip, from, to);
        if k == skip {
            prev
        } else {
            match route_collision(rs[k], from, to) {
                Some(q) => prev.push(q),
                None => prev,
            }
        }
    }
}

/// The collision that stops a route moving along `from-to`: of the nearest
/// collisions with each other route, the one nearest to `from` horizontally.
pub open spec fn collision_with_others(rs: Seq<Seq<Point>>, skip: int, from: Point, to: Point) -> Option<Point> {
    nearest_1d(from, others_hits(rs, skip, from, to))
}

/// Without a collision, `from-to` crosses no segment of any other route.
pub proof fn lemma_no_collision(rs: Seq<Seq<Point>>, skip: int, from: Point, to: Point)
    requires
        collision_with_others(rs, skip, from, to) is None,
    ensures
        forall|k: int| 0 <= k < rs.len() && k != skip ==> route_hits(#[trigger] rs[k], from, to).len() == 0,
    decreases rs.len(),
{
    lemma_nearest_1d(from, others_hits(rs, skip, from, to));
    if rs.len() > 0 {
        let t = rs.drop_last();
        let k = rs.len() - 1;
        if k != skip {
            lemma_nearest_1d(from, route_hits(rs[k], from, to));
        }
        lemma_nearest_1d(from, others_hits(t, skip, from, to));
        lemma_no_collision(t, skip, from, to);
        assert forall|m: int| 0 <= m < rs.len() && m != skip implies route_hits(#[trigger] rs[m], from, to).len() == 0 by {
            if m < k {
                assert(rs[m] == t[m]);
            }
        }
    }
}

fn collide_routes(rs: &Vec<Vec<Point>>, skip: usize, from: Point, to: Point) -> (r: Option<Point>)
    requires
        valid_routes(routes_view(rs@)),
        valid_point(from),
        valid_point(to),
    ensures
        r == collision_with_others(routes_view(rs@), skip as int, from, to),
        r matches Some(q) ==> valid_point(q),
{
    let ghost all = routes_view(rs@);
    let mut hits: Vec<Point> = Vec::new();
    let mut k: usize = 0;
    while k < rs.len()
        invariant
            k <= rs@.len(),
            all == routes_view(rs@),
            valid_routes(all),
            valid_point(from),
            valid_point(to),
            hits@ == others_hits(all.take(k as int), skip as int, from, to),
            valid_route(hits@),
        decreases rs@.len() - k,
    {
        proof {
            let t = all.take(k as int + 1);
            assert(t.drop_last() == all.take(k as int));
            assert(t[k as int] == rs@[k as int]@);
        }
        if k != skip {
            let c = collide_route_segment(&rs[k], from, to);
            proof {
                lemma_nearest_1d(from, route_hits(rs@[k as int]@, from, to));
            }
            if let Some(q) = c {
                hits.push(q);
            }
        }
        k += 1;
    }
    proof {
        assert(all.take(rs@.len() as int) == all);
        lemma_nearest_1d(from, hits@);
    }
    find_best_collision_1d(from, hits)
}

/// Each route starts at one of `origins`, in the order of the origins.
pub open spec fn from_origins(rs: Seq<Seq<Point>>, origins: Seq<Point>, idx: Seq<int>) -> bool {
    &&& idx.len() == rs.len()
    &&& forall|k: int| 0 <= k < idx.len() ==> 0 <= #[trigger] idx[k] < origins.len()
    &&& forall|k: int| 0 <= k < rs.len() ==> rs[k].len() >= 1 && #[trigger] rs[k][0] == origins[idx[k]]
    &&& forall|a: int, b: int| 0 <= a < b < idx.len() ==> #[trigger] idx[a] < #[trigger] idx[b]
}

/// The segment `a-b` crosses no segment of any route of `rs`.
pub open spec fn clear_of(rs: Seq<Seq<Point>>, a: Point, b: Point) -> bool {
    forall|m: int| 0 <= m < rs.len() ==> route_hits(#[trigger] rs[m], a, b).len() == 0
}

/// Every segment of `v` but the last one crosses no route of `rs`.
pub open spec fn clear_but_last(rs: Seq<Seq<Point>>, v: Seq<Point>) -> bool {
    forall|k: int| 0 <= k && k + 2 < v.len() ==> clear_of(rs, v[k], #[trigger] v[k + 1])
}

/// Of two routes, the later one crosses the earlier one only on its last
/// segment, where it was cut.
pub open spec fn later_routes_stop_at_earlier(rs: Seq<Seq<Point>>) -> bool {
    forall|b: int| 0 <= b < rs.len() ==> clear_but_last(#[trigger] rs.take(b), rs[b])
}

/// The points that route `j` gains from `cur`, asking `s` for the point of
/// index `i` and on, with collisions checked against `acc` when `check`
/// holds; and the step state afterwards. `h` is the horizon.
pub open spec fn route_trace<S: RouteStep>(
    s: S,
    acc: Seq<Seq<Point>>,
    check: bool,
    cur: Point,
    i: int,
    j: int,
    h: int,
) -> (Seq<Point>, S)
    decreases h - i,
{
    let s2 = s.advanced(cur, i as usize, j as usize);
    match s.next(cur, i as usize, j as usize) {
        None => (Seq::empty(), s2),
        Some((p, ends)) => {
            let hit = if check { collision_with_others(acc, acc.len() as int, cur, p) } else { None };
            match hit {
                Some(q) => (seq![q], s2),
                None => if ends || i >= h {
                    (seq![p], s2)
                } else {
                    let rest = route_trace(s2, acc, check, p, i + 1, j, h);
                    (seq![p] + rest.0, rest.1)
                },
            }
        },
    }
}

/// The routes of at least two points built one after the other from the
/// first `n` origins, with collisions against the routes already kept when
/// `check` holds; and the step state afterwards.
pub open spec fn build_in_order<S: RouteStep>(s0: S, origins: Seq<Point>, n: int, check: bool, h: int) -> (Seq<Seq<Point>>, S)
    decreases n,
{
    if n <= 0 {
        (Seq::empty(), s0)
    } else {
        let prev = build_in_order(s0, origins, n - 1, check, h);
        let t = route_trace(prev.1, prev.0, check, origins[n - 1], 1, n - 1, h);
        let r = seq![origins[n - 1]] + t.0;
        (if r.len() > 1 { prev.0.push(r) } else { prev.0 }, t.1)
    }
}

proof fn lemma_trace_without_routes<S: RouteStep>(s: S, cur: Point, i: int, j: int, h: int)
    ensures
        route_trace(s, Seq::empty(), true, cur, i, j, h) == route_trace(s, Seq::empty(), false, cur, i, j, h),
    decreases h - i,
{
    let none: Seq<Seq<Point>> = Seq::empty();
    if let Some((p, ends)) = s.next(cur, i as usize, j as usize) {
        assert(others_hits(none, 0, cur, p) =~= Seq::<Point>::empty());
        assert(collision_with_others(none, 0, cur, p) is None);
        if !(ends || i >= h) {
            lemma_trace_without_routes(s.advanced(cur, i as usize, j as usize), p, i + 1, j, h);
        }
    }
}

/// The first route is built as if alone: with collisions checked against
/// the routes already built, the first origin gives the same route, and
/// leaves the step state the same, as without any check.
pub proof fn lemma_first_route_unaffected<S: RouteStep>(s0: S, origins: Seq<Point>, h: int)
    requires
        origins.len() > 0,
    ensures
        build_in_order(s0, origins, 1, true, h) == build_in_order(s0, origins, 1, false, h),
{
    lemma_trace_without_routes(s0, origins[0], 1, 0, h);
    assert(build_in_order(s0, origins, 0, true, h).0 =~= Seq::<Seq<Point>>::empty());
    assert(build_in_order(s0, origins, 0, false, h).0 =~= Seq::<Seq<Point>>::empty());
}

/// The point that ends a route whose last proposed segment is `a-b`: the
/// collision with the routes `acc`, or `b` when there is none.
pub open spec fn cut_point(acc: Seq<Seq<Point>>, a: Point, b: Point) -> Point {
    match collision_with_others(acc, acc.len() as int, a, b) {
        Some(q) => q,
        None => b,
    }
}

/// A route built with collision checks against `acc` follows the points
/// proposed without checks up to the first proposed segment that meets a
/// route of `acc`, and ends there with the collision point: it holds the
/// points of the steps before the crossing, plus the crossing. Without any
/// collision it is the unchecked route.
pub proof fn lemma_cut_at_first_collision<S: RouteStep>(s: S, acc: Seq<Seq<Point>>, cur: Point, i: int, j: int, h: int)
    ensures
        ({
            let c = route_trace(s, acc, true, cur, i, j, h).0;
            let u = route_trace(s, acc, false, cur, i, j, h).0;
            let from = seq![cur] + u;
            &&& c.len() <= u.len()
            &&& c.len() == 0 <==> u.len() == 0
            &&& forall|k: int| 0 <= k < c.len() - 1 ==> c[k] == u[k]
                && collision_with_others(acc, acc.len() as int, #[trigger] from[k], u[k]) is None
            &&& c.len() > 0 ==> c.last() == cut_point(acc, from[c.len() - 1], u[c.len() - 1])
            &&& c.len() > 0 && collision_with_others(acc, acc.len() as int, from[c.len() - 1], u[c.len() - 1]) is None ==> c == u
        }),
    decreases h - i,
{
    let c = route_trace(s, acc, true, cur, i, j, h).0;
    let u = route_trace(s, acc, false, cur, i, j, h).0;
    let from = seq![cur] + u;
    if let Some((p, ends)) = s.next(cur, i as usize, j as usize) {
        let s2 = s.advanced(cur, i as usize, j as usize);
        assert(from[0] == cur);
        assert(u[0] == p);
        if collision_with_others(acc, acc.len() as int, cur, p) is None && !(ends || i >= h) {
            lemma_cut_at_first_collision(s2, acc, p, i + 1, j, h);
            let c2 = route_trace(s2, acc, true, p, i + 1, j, h).0;
            let u2 = route_trace(s2, acc, false, p, i + 1, j, h).0;
            let from2 = seq![p] + u2;
            assert(c == seq![p] + c2);
            assert(u == seq![p] + u2);
            assert forall|k: int| 1 <= k < u.len() + 1 implies from[k] == from2[k - 1] && u[k - 1] == from2[k - 1] by {}
            assert forall|k: int| 0 <= k < c.len() - 1 implies c[k] == u[k]
                && collision_with_others(acc, acc.len() as int, #[trigger] from[k], u[k]) is None by {
                if k > 0 {
                    assert(c[k] == c2[k - 1]);
                    assert(u[k] == u2[k - 1]);
                    assert(from[k] == from2[k - 1]);
                }
            }
            if c2.len() > 0 {
                assert(c.last() == c2.last());
                assert(from[c.len() - 1] == from2[c2.len() - 1]);
                assert(u[c.len() - 1] == u2[c2.len() - 1]);
                if collision_with_others(acc, acc.len() as int, from[c.len() - 1], u[c.len() - 1]) is None {
                    assert(c =~= u);
                }
            } else {
                assert(c =~= u);
            }
        }
    }
}

/// Builds one route per origin by calling `build_route` until it returns
/// `None` or a terminal point, without any collision check; degenerate
/// routes are left out.
pub fn build_routes<S: RouteStep>(initial_positions: Vec<Point>, mut build_route: S) -> (r: Vec<Vec<Point>>)
    requires
        valid_route(initial_positions@),
    ensures
        routes_view(r@) == build_in_order(
            build_route,
            initial_positions@,
            initial_positions@.len() as int,
            false,
            build_route.horizon() as int,
        ).0,
        all_long(routes_view(r@)),
        valid_routes(routes_view(r@)),
        exists|idx: Seq<int>| from_origins(routes_view(r@), initial_positions@, idx),
{
    let ghost s0 = build_route;
    let ghost h = build_route.horizon();
    let mut acc: Vec<Vec<Point>> = Vec::new();
    let ghost mut idx: Seq<int> = Seq::empty();
    let mut j: usize = 0;
    while j < initial_positions.len()
        invariant
            j <= initial_positions@.len(),
            valid_route(initial_positions@),
            build_route.horizon() == h,
            (routes_view(acc@), build_route) == build_in_order(s0, initial_positions@, j as int, false, h as int),
            all_long(routes_view(acc@)),
            valid_routes(routes_view(acc@)),
            from_origins(routes_view(acc@), initial_positions@, idx),
            forall|k: int| 0 <= k < idx.len() ==> #[trigger] idx[k] < j,
        decreases initial_positions@.len() - j,
    {
        let ghost built = routes_view(acc@);
        let ghost s_start = build_route;
        let ghost target = route_trace(s_start, built, false, initial_positions@[j as int], 1, j as int, h as int);
        let origin = initial_positions[j];
        let mut v: Vec<Point> = Vec::new();
        v.push(origin);
        let mut i: usize = 1;
        let mut cur = origin;
        let mut done = false;
        while !done
            invariant
                1 <= i <= h + 1,
                build_route.horizon() == h,
                v@.len() >= 1,
                v@[0] == origin,
                valid_route(v@),
                valid_point(cur),
                !done ==> cur == v@.last(),
                !done ==> target.0 == v@.subrange(1, v@.len() as int) + route_trace(build_route, built, false, cur, i as int, j as int, h as int).0
                    && target.1 == route_trace(build_route, built, false, cur, i as int, j as int, h as int).1,
                done ==> target.0 == v@.subrange(1, v@.len() as int) && target.1 == build_route,
            decreases (h + 1 - i) * 2 + if done { 0int } else { 1int },
        {
            let ghost st = build_route;
            let ghost vv = v@;
            match build_route.step(cur, i, j) {
                None => {
                    done = true;
                },
                Some((next, ends)) => {
                    v.push(next);
                    proof {
                        assert(v@.subrange(1, v@.len() as int) =~= vv.subrange(1, vv.len() as int).push(next));
                        assert(vv.subrange(1, vv.len() as int) + seq![next] =~= vv.subrange(1, vv.len() as int).push(next));
                    }
                    if ends {
                        done = true;
                    } else {
                        proof {
                            let rest = route_trace(build_route, built, false, next, i + 1, j as int, h as int);
                            assert(route_trace(st, built, false, cur, i as int, j as int, h as int).0 == seq![next] + rest.0);
                            assert(vv.subrange(1, vv.len() as int) + (seq![next] + rest.0)
                                =~= v@.subrange(1, v@.len() as int) + rest.0);
                        }
                        i += 1;
                        cur = next;
                    }
                },
            }
            proof {
                if done {
                    assert(vv.subrange(1, vv.len() as int) + Seq::empty() =~= vv.subrange(1, vv.len() as int));
                }
            }
        }
        proof {
            assert(v@ =~= seq![origin] + v@.subrange(1, v@.len() as int));
        }
        if v.len() > 1 {
            proof {
                idx = idx.push(j as int);
            }
            let ghost prev = acc@;
            let ghost vv = v@;
            acc.push(v);
            proof {
                assert(routes_view(acc@) =~= routes_view(prev).push(vv));
            }
        }
        j += 1;
    }
    acc
}

/// Builds the routes one after the other, in origin order. A proposed
/// segment that crosses an already built route is cut at the collision
/// nearest to the current point (horizontally), which ends the route.
/// Degenerate routes are left out.
pub fn build_routes_with_collision_seq<S: RouteStep>(initial_positions: Vec<Point>, mut build_route: S) -> (r: Vec<Vec<Point>>)
    requires
        valid_route(initial_positions@),
    ensures
        routes_view(r@) == build_in_order(
            build_route,
            initial_positions@,
            initial_positions@.len() as int,
            true,
            build_route.horizon() as int,
        ).0,
        all_long(routes_view(r@)),
        valid_routes(routes_view(r@)),
        exists|idx: Seq<int>| from_origins(routes_view(r@), initial_positions@, idx),
        later_routes_stop_at_earlier(routes_view(r@)),
{
    let ghost s0 = build_route;
    let ghost h = build_route.horizon();
    let mut acc: Vec<Vec<Point>> = Vec::new();
    let ghost mut idx: Seq<int> = Seq::empty();
    let mut j: usize = 0;
    while j < initial_positions.len()
        invariant
            j <= initial_positions@.len(),
            valid_route(initial_positions@),
            build_route.horizon() == h,
            (routes_view(acc@), build_route) == build_in_order(s0, initial_positions@, j as int, true, h as int),
            all_long(routes_view(acc@)),
            valid_routes(routes_view(acc@)),
            from_origins(routes_view(acc@), initial_positions@, idx),
            forall|k: int| 0 <= k < idx.len() ==> #[trigger] idx[k] < j,
            later_routes_stop_at_earlier(routes_view(acc@)),
        decreases initial_positions@.len() - j,
    {
        let ghost built = routes_view(acc@);
        let ghost s_start = build_route;
        let ghost target = route_trace(s_start, built, true, initial_positions@[j as int], 1, j as int, h as int);
        let origin = initial_positions[j];
        let mut v: Vec<Point> = Vec::new();
        v.push(origin);
        let mut i: usize = 1;
        let mut cur = origin;
        let mut done = false;
        while !done
            invariant
                1 <= i <= h + 1,
                build_route.horizon() == h,
                built == routes_view(acc@),
                valid_routes(built),
                v@.len() >= 1,
                v@[0] == origin,
                valid_route(v@),
                valid_point(cur),
                !done ==> cur == v@.last(),
                clear_but_last(built, v@),
                !done ==> forall|k: int| 0 <= k && k + 1 < v@.len() ==> clear_of(built, v@[k], #[trigger] v@[k + 1]),
                !done ==> target.0 == v@.subrange(1, v@.len() as int) + route_trace(build_route, built, true, cur, i as int, j as int, h as int).0
                    && target.1 == route_trace(build_route, built, true, cur, i as int, j as int, h as int).1,
                done ==> target.0 == v@.subrange(1, v@.len() as int) && target.1 == build_route,
            decreases (h + 1 - i) * 2 + if done { 0int } else { 1int },
        {
            let ghost st = build_route;
            let ghost vv = v@;
            match build_route.step(cur, i, j) {
                None => {
                    done = true;
                    proof {
                        assert(vv.subrange(1, vv.len() as int) + Seq::empty() =~= vv.subrange(1, vv.len() as int));
                    }
                },
                Some((next, ends)) => {
                    let collision = collide_routes(&acc, acc.len(), cur, next);
                    match collision {
                        Some(point) => {
                            v.push(point);
                            done = true;
                            proof {
                                assert(v@.subrange(1, v@.len() as int) =~= vv.subrange(1, vv.len() as int) + seq![point]);
                            }
                        },
                        None => {
                            proof {
                                lemma_no_collision(built, acc@.len() as int, cur, next);
                            }
                            v.push(next);
                            proof {
                                assert(v@.subrange(1, v@.len() as int) =~= vv.subrange(1, vv.len() as int) + seq![next]);
                            }
                            if ends {
                                done = true;
                            } else {
                                proof {
                                    let rest = route_trace(build_route, built, true, next, i + 1, j as int, h as int);
                                    assert(route_trace(st, built, true, cur, i as int, j as int, h as int).0 == seq![next] + rest.0);
                                    assert(vv.subrange(1, vv.len() as int) + (seq![next] + rest.0)
                                        =~= v@.subrange(1, v@.len() as int) + rest.0);
                                }
                                i += 1;
                                cur = next;
                            }
                        },
                    }
                },
            }
        }
        proof {
            assert(v@ =~= seq![origin] + v@.subrange(1, v@.len() as int));
        }
        if v.len() > 1 {
            proof {
                idx = idx.push(j as int);
            }
            let ghost vv = v@;
            acc.push(v);
            proof {
                let now = routes_view(acc@);
                assert(now =~= built.push(vv));
                assert forall|b: int| 0 <= b < now.len() implies clear_but_last(#[trigger] now.take(b), now[b]) by {
                    if b < built.len() {
                        assert(now.take(b) =~= built.take(b));
                    } else {
                        assert(now.take(b) =~= built);
                    }
                }
            }
        }
        j += 1;
    }
    acc
}

/// The routes of `rs` that have at least two points, in order.
pub open spec fn long_only(rs: Seq<Seq<Point>>) -> Seq<Seq<Point>>
    decreases rs.len(),
{
    if rs.len() == 0 {
        Seq::empty()
    } else if rs.last().len() > 1 {
        long_only(rs.drop_last()).push(rs.last())
    } else {
        long_only(rs.drop_last())
    }
}

/// One lock-step pass at step index `i` over routes `j` and on: each
/// unfinished route asks for its next point and is cut at the nearest
/// collision with the current state of the other routes. Gives the routes,
/// which of them are finished, the step state, and whether some route
/// goes on.
pub open spec fn lock_step_pass<S: RouteStep>(
    s: S,
    acc: Seq<Seq<Point>>,
    fin: Seq<bool>,
    i: int,
    j: int,
    cont: bool,
) -> (Seq<Seq<Point>>, Seq<bool>, S, bool)
    decreases acc.len() - j,
{
    if j < 0 || j >= acc.len() {
        (acc, fin, s, cont)
    } else if fin[j] {
        lock_step_pass(s, acc, fin, i, j + 1, cont)
    } else {
        let cur = acc[j].last();
        let s2 = s.advanced(cur, i as usize, j as usize);
        match s.next(cur, i as usize, j as usize) {
            None => lock_step_pass(s2, acc, fin.update(j, true), i, j + 1, cont),
            Some((p, ends)) => match collision_with_others(acc, j, cur, p) {
                Some(q) => lock_step_pass(s2, acc.update(j, acc[j].push(q)), fin.update(j, true), i, j + 1, cont),
                None => if ends {
                    lock_step_pass(s2, acc.update(j, acc[j].push(p)), fin.update(j, true), i, j + 1, cont)
                } else {
                    lock_step_pass(s2, acc.update(j, acc[j].push(p)), fin, i, j + 1, true)
                },
            },
        }
    }
}

/// Lock-step passes from step index `i` on, until no route goes on; the
/// routes and the step state at the end. `h` is the horizon.
pub open spec fn lock_step_rounds<S: RouteStep>(s: S, acc: Seq<Seq<Point>>, fin: Seq<bool>, i: int, h: int) -> (Seq<Seq<Point>>, S)
    decreases h + 1 - i,
{
    let r = lock_step_pass(s, acc, fin, i, 0, false);
    if r.3 && i < h {
        lock_step_rounds(r.2, r.0, r.1, i + 1, h)
    } else {
        (r.0, r.2)
    }
}

/// The starting state of the lock-step build: each route is its origin.
pub open spec fn lock_step_start(origins: Seq<Point>) -> Seq<Seq<Point>> {
    origins.map_values(|o: Point| seq![o])
}

/// Keeps the routes of at least two points, in order.
fn keep_long(acc: Vec<Vec<Point>>, origins: Ghost<Seq<Point>>) -> (r: Vec<Vec<Point>>)
    requires
        acc@.len() == origins@.len(),
        valid_routes(routes_view(acc@)),
        forall|k: int| 0 <= k < acc@.len() ==> (#[trigger] acc@[k])@.len() >= 1 && acc@[k]@[0] == origins@[k],
    ensures
        routes_view(r@) == long_only(routes_view(acc@)),
        all_long(routes_view(r@)),
        valid_routes(routes_view(r@)),
        exists|idx: Seq<int>| from_origins(routes_view(r@), origins@, idx),
{
    let ghost all = routes_view(acc@);
    let mut out: Vec<Vec<Point>> = Vec::new();
    let ghost mut idx: Seq<int> = Seq::empty();
    let mut k: usize = 0;
    while k < acc.len()
        invariant
            k <= acc@.len(),
            acc@.len() == origins@.len(),
            all == routes_view(acc@),
            valid_routes(all),
            forall|m: int| 0 <= m < acc@.len() ==> (#[trigger] acc@[m])@.len() >= 1 && acc@[m]@[0] == origins@[m],
            routes_view(out@) == long_only(all.take(k as int)),
            all_long(routes_view(out@)),
            valid_routes(routes_view(out@)),
            from_origins(routes_view(out@), origins@, idx),
            forall|m: int| 0 <= m < idx.len() ==> #[trigger] idx[m] < k,
        decreases acc@.len() - k,
    {
        proof {
            let t = all.take(k as int + 1);
            assert(t.drop_last() =~= all.take(k as int));
            assert(t.last() == acc@[k as int]@);
        }
        if acc[k].len() > 1 {
            let route = acc[k].clone();
            proof {
                assert(route@ =~= acc@[k as int]@);
                assert(valid_route(all[k as int]));
                idx = idx.push(k as int);
            }
            let ghost prev = out@;
            out.push(route);
            proof {
                assert(routes_view(out@) =~= routes_view(prev).push(acc@[k as int]@));
            }
        }
        k += 1;
    }
    proof {
        assert(all.take(acc@.len() as int) =~= all);
    }
    out
}

/// Builds all routes in lock-step: at each step index every unfinished route
/// proposes its next point, and a proposed segment that crosses the current
/// state of any other route is cut at the collision nearest to the current
/// point (horizontally), which ends the route. Degenerate routes are left out.
pub fn build_routes_with_collision_par<S: RouteStep>(initial_positions: Vec<Point>, mut build_route: S) -> (r: Vec<Vec<Point>>)
    requires
        valid_route(initial_positions@),
    ensures
        routes_view(r@) == long_only(
            lock_step_rounds(
                build_route,
                lock_step_start(initial_positions@),
                Seq::new(initial_positions@.len(), |k: int| false),
                1,
                build_route.horizon() as int,
            ).0,
        ),
        all_long(routes_view(r@)),
        valid_routes(routes_view(r@)),
        exists|idx: Seq<int>| from_origins(routes_view(r@), initial_positions@, idx),
{
    let ghost s0 = build_route;
    let ghost h = build_route.horizon();
    let len = initial_positions.len();
    let mut acc: Vec<Vec<Point>> = Vec::new();
    let mut finished: Vec<bool> = Vec::new();
    let mut j: usize = 0;
    while j < len
        invariant
            j <= len == initial_positions@.len(),
            valid_route(initial_positions@),
            acc@.len() == j,
            finished@.len() == j,
            valid_routes(routes_view(acc@)),
            forall|k: int| 0 <= k < j ==> (#[trigger] acc@[k])@.len() >= 1 && acc@[k]@[0] == initial_positions@[k],
            routes_view(acc@) == lock_step_start(initial_positions@.take(j as int)),
            finished@ == Seq::new(j as nat, |k: int| false),
        decreases len - j,
    {
        let mut v: Vec<Point> = Vec::new();
        v.push(initial_positions[j]);
        let ghost prev = acc@;
        let ghost vv = v@;
        acc.push(v);
        finished.push(false);
        proof {
            assert(routes_view(acc@) =~= routes_view(prev).push(vv));
            assert(routes_view(acc@) =~= lock_step_start(initial_positions@.take(j as int + 1)));
            assert(finished@ =~= Seq::new((j + 1) as nat, |k: int| false));
        }
        j += 1;
    }
    proof {
        assert(initial_positions@.take(len as int) =~= initial_positions@);
    }
    let ghost start = lock_step_rounds(s0, routes_view(acc@), finished@, 1, h as int);
    let mut i: usize = 1;
    let mut more = true;
    while more
        invariant
            1 <= i <= h + 1,
            build_route.horizon() == h,
            len == initial_positions@.len(),
            acc@.len() == len,
            finished@.len() == len,
            valid_routes(routes_view(acc@)),
            forall|k: int| 0 <= k < len ==> (#[trigger] acc@[k])@.len() >= 1 && acc@[k]@[0] == initial_positions@[k],
            more ==> start == lock_step_rounds(build_route, routes_view(acc@), finished@, i as int, h as int),
            !more ==> start == (routes_view(acc@), build_route),
        decreases (h + 1 - i) * 2 + if more { 1int } else { 0int },
    {
        let ghost pass = lock_step_pass(build_route, routes_view(acc@), finished@, i as int, 0, false);
        let mut continues = false;
        let mut j: usize = 0;
        while j < len
            invariant
                j <= len,
                1 <= i <= h + 1,
                build_route.horizon() == h,
                len == initial_positions@.len(),
                acc@.len() == len,
                finished@.len() == len,
                valid_routes(routes_view(acc@)),
                forall|k: int| 0 <= k < len ==> (#[trigger] acc@[k])@.len() >= 1 && acc@[k]@[0] == initial_positions@[k],
                continues ==> i < h,
                pass == lock_step_pass(build_route, routes_view(acc@), finished@, i as int, j as int, continues),
            decreases len - j,
        {
            if !finished[j] {
                let cur = acc[j][acc[j].len() - 1];
                let ghost av = routes_view(acc@);
                proof {
                    assert(valid_route(av[j as int]));
                    assert(cur == av[j as int].last());
                }
                match build_route.step(cur, i, j) {
                    None => {
                        finished.set(j, true);
                    },
                    Some((next, ends)) => {
                        let collision = collide_routes(&acc, j, cur, next);
                        let p = match collision {
                            Some(point) => {
                                finished.set(j, true);
                                point
                            },
                            None => {
                                if ends {
                                    finished.set(j, true);
                                } else {
                                    continues = true;
                                }
                                next
                            },
                        };
                        let ghost prev = acc@;
                        let mut route = acc[j].clone();
                        proof {
                            assert(route@ =~= prev[j as int]@);
                        }
                        route.push(p);
                        acc.set(j, route);
                        proof {
                            assert(routes_view(acc@) =~= av.update(j as int, av[j as int].push(p)));
                            assert forall|k: int| 0 <= k < len implies (#[trigger] acc@[k])@.len() >= 1
                                && acc@[k]@[0] == initial_positions@[k] by {
                                if k != j {
                                    assert(acc@[k] == prev[k]);
                                }
                            }
                            assert forall|k: int| 0 <= k < len implies valid_route(#[trigger] routes_view(acc@)[k]) by {
                                if k != j {
                                    assert(acc@[k] == prev[k]);
                                    assert(valid_route(routes_view(prev)[k]));
                                } else {
                                    assert(valid_route(routes_view(prev)[k]));
                                }
                            }
                        }
                    },
                }
            }
            j += 1;
        }
        proof {
            assert(pass == (routes_view(acc@), finished@, build_route, continues));
        }
        if continues {
            i += 1;
        } else {
            more = false;
        }
    }
    keep_long(acc, Ghost(initial_positions@))
}

/// Straight-line steps: route `j` moves by the vector `dirs[j]` at each step
/// and ends with its point of index `steps`. A step that would leave the
/// coordinate range, or a route without a direction, gives `None`.
pub struct StraightSteps {
    pub dirs: Vec<Point>,
    pub steps: usize,
}

impl RouteStep for StraightSteps {
    open spec fn horizon(&self) -> usize {
        self.steps
    }

    open spec fn next(&self, cur: Point, i: usize, j: usize) -> Option<(Point, bool)> {
        if j >= self.dirs@.len() || i > self.steps {
            None
        } else {
            let d = self.dirs@[j as int];
            let nx = cur.x + d.x;
            let ny = cur.y + d.y;
            if nx < -COORD_MAX || nx > COORD_MAX || ny < -COORD_MAX || ny > COORD_MAX {
                None
            } else {
                Some((Point { x: nx as i64, y: ny as i64 }, i >= self.steps))
            }
        }
    }

    open spec fn advanced(&self, cur: Point, i: usize, j: usize) -> Self {
        *self
    }

    fn step(&mut self, cur: Point, i: usize, j: usize) -> (r: Option<(Point, bool)>) {
        if j >= self.dirs.len() || i > self.steps {
            return None;
        }
        let d = self.dirs[j];
        let nx = cur.x as i128 + d.x as i128;
        let ny = cur.y as i128 + d.y as i128;
        if nx < -(COORD_MAX as i128) || nx > COORD_MAX as i128 || ny < -(COORD_MAX as i128) || ny > COORD_MAX as i128 {
            return None;
        }
        Some((Point { x: nx as i64, y: ny as i64 }, i >= self.steps))
    }
}

} // verus!

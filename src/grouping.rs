//! Greedy single-pass grouping of points by proximity.
use vstd::prelude::*;

use crate::geometry::{valid_point, valid_route, Point, COORD_MAX};
use crate::routes::routes_view;

verus! {

/// `p` and `q` are closer than `t` (Euclidean distance).
pub open spec fn near(p: Point, q: Point, t: u64) -> bool {
    (p.x - q.x) * (p.x - q.x) + (p.y - q.y) * (p.y - q.y) < (t as int) * (t as int)
}

pub open spec fn near_any(g: Seq<Point>, p: Point, t: u64) -> bool {
    exists|i: int| 0 <= i < g.len() && near(#[trigger] g[i], p, t)
}

/// Index of the first group holding a point near `p`, or the number of
/// groups when there is none.
pub open spec fn first_near_group(gs: Seq<Seq<Point>>, p: Point, t: u64) -> int
    decreases gs.len(),
{
    if gs.len() == 0 {
        0
    } else if near_any(gs[0], p, t) {
        0
    } else {
        1 + first_near_group(gs.drop_first(), p, t)
    }
}

/// `p` joins the first group that has a point near it, or starts a new one.
pub open spec fn add_to_groups(gs: Seq<Seq<Point>>, p: Point, t: u64) -> Seq<Seq<Point>> {
    let g = first_near_group(gs, p, t);
    if g < gs.len() {
        gs.update(g, gs[g].push(p))
    } else {
        gs.push(seq![p])
    }
}

/// The groups formed by adding the points of `s` one after the other.
pub open spec fn grouped(s: Seq<Point>, t: u64) -> Seq<Seq<Point>>
    decreases s.len(),
{
    if s.len() == 0 {
        Seq::empty()
    } else {
        add_to_groups(grouped(s.drop_last(), t), s.last(), t)
    }
}

proof fn lemma_first_near_group(gs: Seq<Seq<Point>>, p: Point, t: u64)
    ensures
        0 <= first_near_group(gs, p, t) <= gs.len(),
        forall|k: int| 0 <= k < first_near_group(gs, p, t) ==> !near_any(#[trigger] gs[k], p, t),
        first_near_group(gs, p, t) < gs.len() ==> near_any(gs[first_near_group(gs, p, t)], p, t),
    decreases gs.len(),
{
    if gs.len() > 0 && !near_any(gs[0], p, t) {
        lemma_first_near_group(gs.drop_first(), p, t);
        assert forall|k: int| 0 <= k < first_near_group(gs, p, t) implies !near_any(#[trigger] gs[k], p, t) by {
            if k > 0 {
                assert(gs[k] == gs.drop_first()[k - 1]);
            }
        }
    }
}

fn is_near(p: Point, q: Point, t: u64) -> (r: bool)
    requires
        valid_point(p),
        valid_point(q),
    ensures
        r == near(p, q, t),
{
    let dx: i128 = p.x as i128 - q.x as i128;
    let dy: i128 = p.y as i128 - q.y as i128;
    proof {
        let m = 2 * COORD_MAX as int;
        assert(0 <= dx * dx <= m * m && 0 <= dy * dy <= m * m) by (nonlinear_arith)
            requires
                -m <= dx <= m,
                -m <= dy <= m,
        ;
        assert(m * m == 4 * COORD_MAX * COORD_MAX) by (nonlinear_arith)
            requires
                m == 2 * COORD_MAX,
        ;
        assert(0 <= (t as int) * (t as int) <= 0xffff_ffff_ffff_ffff * 0xffff_ffff_ffff_ffff) by (nonlinear_arith)
            requires
                0 <= t <= 0xffff_ffff_ffff_ffff,
        ;
    }
    let d2 = (dx * dx + dy * dy) as u128;
    let t2 = (t as u128) * (t as u128);
    d2 < t2
}

fn any_near(g: &Vec<Point>, p: Point, t: u64) -> (r: bool)
    requires
        valid_route(g@),
        valid_point(p),
    ensures
        r == near_any(g@, p, t),
{
    let mut i: usize = 0;
    while i < g.len()
        invariant
            i <= g@.len(),
            valid_route(g@),
            valid_point(p),
            forall|k: int| 0 <= k < i ==> !near(#[trigger] g@[k], p, t),
        decreases g@.len() - i,
    {
        if is_near(g[i], p, t) {
            return true;
        }
        i += 1;
    }
    false
}

/// Puts each point, in order, into the first group that already holds a
/// point closer to it than `threshold`, or else into a new group.
pub fn group_by_proximity(candidates: Vec<Point>, threshold: u64) -> (r: Vec<Vec<Point>>)
    requires
        valid_route(candidates@),
    ensures
        routes_view(r@) == grouped(candidates@, threshold),
{
    let mut groups: Vec<Vec<Point>> = Vec::new();
    let mut i: usize = 0;
    while i < candidates.len()
        invariant
            i <= candidates@.len(),
            valid_route(candidates@),
            routes_view(groups@) == grouped(candidates@.take(i as int), threshold),
            forall|k: int| 0 <= k < groups@.len() ==> valid_route(#[trigger] groups@[k]@),
        decreases candidates@.len() - i,
    {
        let item = candidates[i];
        let ghost gs = routes_view(groups@);
        proof {
            assert(candidates@.take(i as int + 1).drop_last() =~= candidates@.take(i as int));
            lemma_first_near_group(gs, item, threshold);
        }
        let mut g: usize = 0;
        let mut found = false;
        while g < groups.len() && !found
            invariant
                g <= groups@.len(),
                gs == routes_view(groups@),
                valid_point(item),
                forall|k: int| 0 <= k < groups@.len() ==> valid_route(#[trigger] groups@[k]@),
                forall|k: int| 0 <= k < g ==> !near_any(#[trigger] gs[k], item, threshold),
                found ==> g < groups@.len() && near_any(gs[g as int], item, threshold),
                0 <= first_near_group(gs, item, threshold) <= gs.len(),
                forall|k: int| 0 <= k < first_near_group(gs, item, threshold) ==> !near_any(#[trigger] gs[k], item, threshold),
                first_near_group(gs, item, threshold) < gs.len() ==> near_any(gs[first_near_group(gs, item, threshold)], item, threshold),
            decreases groups@.len() - g + if found { 0int } else { 1int },
        {
            if any_near(&groups[g], item, threshold) {
                found = true;
            } else {
                g += 1;
            }
        }
        let ghost prev = groups@;
        if found {
            proof {
                assert(g == first_near_group(gs, item, threshold));
            }
            let mut group = groups[g].clone();
            proof {
                assert(group@ =~= prev[g as int]@);
            }
            group.push(item);
            groups.set(g, group);
            proof {
                assert(routes_view(groups@) =~= add_to_groups(gs, item, threshold));
                assert forall|k: int| 0 <= k < groups@.len() implies valid_route(#[trigger] groups@[k]@) by {
                    if k != g {
                        assert(groups@[k] == prev[k]);
                    }
                }
            }
        } else {
            proof {
                assert(first_near_group(gs, item, threshold) == gs.len());
            }
            let mut group: Vec<Point> = Vec::new();
            group.push(item);
            groups.push(group);
            proof {
                assert(routes_view(groups@) =~= add_to_groups(gs, item, threshold));
                assert forall|k: int| 0 <= k < groups@.len() implies valid_route(#[trigger] groups@[k]@) by {
                    if k < prev.len() {
                        assert(groups@[k] == prev[k]);
                    }
                }
            }
        }
        i += 1;
    }
    proof {
        assert(candidates@.take(candidates@.len() as int) =~= candidates@);
    }
    groups
}

} // verus!

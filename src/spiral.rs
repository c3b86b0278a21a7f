//! Greedy spiral tour: from the lowest point, always take the point that
//! needs the smallest counter-clockwise turn from the current heading.
use vstd::prelude::*;

use crate::geometry::{cross, valid_point, valid_route, Point, COORD_MAX};

verus! {

broadcast use vstd::seq_lib::group_to_multiset_ensures;

pub open spec fn cross2(a: (int, int), b: (int, int)) -> int {
    a.0 * b.1 - a.1 * b.0
}

pub open spec fn dot2(a: (int, int), b: (int, int)) -> int {
    a.0 * b.0 + a.1 * b.1
}

/// Direction from `q` to `p`; two equal points give the direction of the
/// x axis.
pub open spec fn heading_of(p: Point, q: Point) -> (int, int) {
    if p.x == q.x && p.y == q.y {
        (1, 0)
    } else {
        (p.x - q.x, p.y - q.y)
    }
}

/// 0 when the counter-clockwise turn from `h` to `v` is below half a turn,
/// 1 otherwise.
pub open spec fn half_turn(h: (int, int), v: (int, int)) -> int {
    let c = cross2(h, v);
    if c > 0 || (c == 0 && dot2(h, v) > 0) { 0 } else { 1 }
}

/// The counter-clockwise turn from `h` to `v1` is strictly smaller than the
/// one from `h` to `v2`.
pub open spec fn turns_before(h: (int, int), v1: (int, int), v2: (int, int)) -> bool {
    half_turn(h, v1) < half_turn(h, v2) || (half_turn(h, v1) == half_turn(h, v2) && cross2(v1, v2) > 0)
}

/// Index of the first point of `s` reached from `p` with the smallest turn
/// from heading `h`.
pub open spec fn pick(p: Point, h: (int, int), s: Seq<Point>) -> int
    decreases s.len(),
{
    if s.len() <= 1 {
        0
    } else {
        let b = pick(p, h, s.drop_last());
        if turns_before(h, heading_of(p, s.last()), heading_of(p, s[b])) {
            s.len() - 1
        } else {
            b
        }
    }
}

/// Index of the first point of `s` with the smallest `y`.
pub open spec fn lowest(s: Seq<Point>) -> int
    decreases s.len(),
{
    if s.len() <= 1 {
        0
    } else {
        let b = lowest(s.drop_last());
        if s.last().y < s[b].y {
            s.len() - 1
        } else {
            b
        }
    }
}

/// The tour of `rest` continued from `p` with heading `h`.
pub open spec fn spiral_from(p: Point, h: (int, int), rest: Seq<Point>) -> Seq<Point>
    decreases rest.len(),
{
    let i = pick(p, h, rest);
    if 0 <= i < rest.len() {
        seq![rest[i]] + spiral_from(rest[i], heading_of(p, rest[i]), rest.remove(i))
    } else {
        Seq::empty()
    }
}

/// The spiral tour of `s`: its lowest point, then the tour of the others.
pub open spec fn spiral_route(s: Seq<Point>) -> Seq<Point> {
    if s.len() == 0 {
        s
    } else {
        let i = lowest(s);
        seq![s[i]] + spiral_from(s[i], (1, 0), s.remove(i))
    }
}

pub proof fn lemma_pick_in_range(p: Point, h: (int, int), s: Seq<Point>)
    requires
        s.len() > 0,
    ensures
        0 <= pick(p, h, s) < s.len(),
    decreases s.len(),
{
    if s.len() > 1 {
        lemma_pick_in_range(p, h, s.drop_last());
    }
}

pub proof fn lemma_lowest_in_range(s: Seq<Point>)
    requires
        s.len() > 0,
    ensures
        0 <= lowest(s) < s.len(),
    decreases s.len(),
{
    if s.len() > 1 {
        lemma_lowest_in_range(s.drop_last());
    }
}

proof fn lemma_spiral_from_permutation(p: Point, h: (int, int), rest: Seq<Point>)
    ensures
        spiral_from(p, h, rest).to_multiset() == rest.to_multiset(),
        spiral_from(p, h, rest).len() == rest.len(),
    decreases rest.len(),
{
    if rest.len() > 0 {
        lemma_pick_in_range(p, h, rest);
        let i = pick(p, h, rest);
        let q = rest[i];
        let tail = rest.remove(i);
        lemma_spiral_from_permutation(q, heading_of(p, q), tail);
        vstd::seq_lib::to_multiset_remove(rest, i);
        vstd::seq_lib::lemma_multiset_commutative(seq![q], spiral_from(q, heading_of(p, q), tail));
        assert(seq![q].to_multiset() =~= vstd::multiset::Multiset::empty().insert(q)) by {
            assert(seq![q] =~= Seq::<Point>::empty().push(q));
            vstd::seq_lib::to_multiset_build(Seq::<Point>::empty(), q);
        }
        assert(rest.to_multiset().contains(q));
        assert(spiral_from(p, h, rest).to_multiset() =~= rest.to_multiset());
    }
}

/// The spiral tour uses every point of its input exactly once: it is a
/// permutation of the input.
pub proof fn lemma_spiral_permutation(s: Seq<Point>)
    ensures
        spiral_route(s).to_multiset() == s.to_multiset(),
        spiral_route(s).len() == s.len(),
{
    if s.len() > 0 {
        lemma_lowest_in_range(s);
        let i = lowest(s);
        let q = s[i];
        let tail = s.remove(i);
        lemma_spiral_from_permutation(q, (1, 0), tail);
        vstd::seq_lib::to_multiset_remove(s, i);
        vstd::seq_lib::lemma_multiset_commutative(seq![q], spiral_from(q, (1, 0), tail));
        assert(seq![q].to_multiset() =~= vstd::multiset::Multiset::empty().insert(q)) by {
            assert(seq![q] =~= Seq::<Point>::empty().push(q));
            vstd::seq_lib::to_multiset_build(Seq::<Point>::empty(), q);
        }
        assert(s.to_multiset().contains(q));
        assert(spiral_route(s).to_multiset() =~= s.to_multiset());
    }
}

pub open spec fn small_vec(v: (i64, i64)) -> bool {
    -2 * COORD_MAX <= v.0 <= 2 * COORD_MAX && -2 * COORD_MAX <= v.1 <= 2 * COORD_MAX
}

pub open spec fn vec_view(v: (i64, i64)) -> (int, int) {
    (v.0 as int, v.1 as int)
}

fn heading(p: Point, q: Point) -> (r: (i64, i64))
    requires
        valid_point(p),
        valid_point(q),
    ensures
        vec_view(r) == heading_of(p, q),
        small_vec(r),
{
    if p.x == q.x && p.y == q.y {
        (1, 0)
    } else {
        (p.x - q.x, p.y - q.y)
    }
}

fn dot(ax: i128, ay: i128, bx: i128, by: i128) -> (r: i128)
    requires
        -2 * COORD_MAX <= ax <= 2 * COORD_MAX,
        -2 * COORD_MAX <= ay <= 2 * COORD_MAX,
        -2 * COORD_MAX <= bx <= 2 * COORD_MAX,
        -2 * COORD_MAX <= by <= 2 * COORD_MAX,
    ensures
        r == ax * bx + ay * by,
{
    proof {
        let m = 2 * COORD_MAX as int;
        assert(-(m * m) <= ax * bx <= m * m && -(m * m) <= ay * by <= m * m) by (nonlinear_arith)
            requires
                -m <= ax <= m,
                -m <= ay <= m,
                -m <= bx <= m,
                -m <= by <= m,
        ;
        assert(m * m == 4 * COORD_MAX * COORD_MAX) by (nonlinear_arith)
            requires
                m == 2 * COORD_MAX,
        ;
    }
    ax * bx + ay * by
}

fn half_turn_exec(h: (i64, i64), v: (i64, i64)) -> (r: i64)
    requires
        small_vec(h),
        small_vec(v),
    ensures
        r == half_turn(vec_view(h), vec_view(v)),
{
    let c = cross(h.0 as i128, h.1 as i128, v.0 as i128, v.1 as i128);
    let d = dot(h.0 as i128, h.1 as i128, v.0 as i128, v.1 as i128);
    if c > 0 || (c == 0 && d > 0) { 0 } else { 1 }
}

fn turns_before_exec(h: (i64, i64), v1: (i64, i64), v2: (i64, i64)) -> (r: bool)
    requires
        small_vec(h),
        small_vec(v1),
        small_vec(v2),
    ensures
        r == turns_before(vec_view(h), vec_view(v1), vec_view(v2)),
{
    let a = half_turn_exec(h, v1);
    let b = half_turn_exec(h, v2);
    a < b || (a == b && cross(v1.0 as i128, v1.1 as i128, v2.0 as i128, v2.1 as i128) > 0)
}

fn pick_index(p: Point, h: (i64, i64), list: &Vec<Point>) -> (r: usize)
    requires
        list@.len() > 0,
        valid_point(p),
        valid_route(list@),
        small_vec(h),
    ensures
        r == pick(p, vec_view(h), list@),
{
    let mut best: usize = 0;
    let mut k: usize = 1;
    while k < list.len()
        invariant
            1 <= k <= list@.len(),
            valid_point(p),
            valid_route(list@),
            small_vec(h),
            best == pick(p, vec_view(h), list@.take(k as int)),
            best < k,
        decreases list@.len() - k,
    {
        proof {
            let t = list@.take(k as int + 1);
            assert(t.drop_last() =~= list@.take(k as int));
            lemma_pick_in_range(p, vec_view(h), list@.take(k as int));
            assert(t[best as int] == list@[best as int]);
        }
        let vk = heading(p, list[k]);
        let vb = heading(p, list[best]);
        if turns_before_exec(h, vk, vb) {
            best = k;
        }
        k += 1;
    }
    proof {
        assert(list@.take(list@.len() as int) =~= list@);
    }
    best
}

fn lowest_index(list: &Vec<Point>) -> (r: usize)
    requires
        list@.len() > 0,
    ensures
        r == lowest(list@),
{
    let mut best: usize = 0;
    let mut k: usize = 1;
    while k < list.len()
        invariant
            1 <= k <= list@.len(),
            best == lowest(list@.take(k as int)),
            best < k,
        decreases list@.len() - k,
    {
        proof {
            let t = list@.take(k as int + 1);
            assert(t.drop_last() =~= list@.take(k as int));
            lemma_lowest_in_range(list@.take(k as int));
            assert(t[best as int] == list@[best as int]);
        }
        if list[k].y < list[best].y {
            best = k;
        }
        k += 1;
    }
    proof {
        assert(list@.take(list@.len() as int) =~= list@);
    }
    best
}

/// Orders `candidates` as a spiral: start at the lowest point (the first one
/// on ties), then repeatedly move to the remaining point that needs the
/// smallest counter-clockwise turn from the current heading (the first one
/// on ties), until no point is left.
pub fn route_spiral(candidates: Vec<Point>) -> (r: Vec<Point>)
    requires
        valid_route(candidates@),
    ensures
        r@ == spiral_route(candidates@),
{
    if candidates.len() == 0 {
        return candidates;
    }
    let mut list = candidates;
    let ghost all = list@;
    let s = lowest_index(&list);
    proof {
        lemma_lowest_in_range(all);
    }
    let mut p = list.remove(s);
    let mut h: (i64, i64) = (1, 0);
    let mut result: Vec<Point> = Vec::new();
    result.push(p);
    proof {
        assert(result@ =~= seq![p]);
    }
    while list.len() > 0
        invariant
            valid_point(p),
            valid_route(list@),
            small_vec(h),
            result@ + spiral_from(p, vec_view(h), list@) == spiral_route(all),
        decreases list@.len(),
    {
        let i = pick_index(p, h, &list);
        proof {
            lemma_pick_in_range(p, vec_view(h), list@);
        }
        let ghost before = list@;
        let ghost prev = result@;
        let q = list.remove(i);
        let nh = heading(p, q);
        result.push(q);
        proof {
            assert(before.remove(i as int) == list@);
            assert(prev + spiral_from(p, vec_view(h), before)
                =~= result@ + spiral_from(q, vec_view(nh), list@));
            assert forall|k: int| 0 <= k < list@.len() implies valid_point(#[trigger] list@[k]) by {
                if k < i {
                    assert(list@[k] == before[k]);
                } else {
                    assert(list@[k] == before[k + 1]);
                }
            }
        }
        p = q;
        h = nh;
    }
    proof {
        assert(spiral_from(p, vec_view(h), list@) =~= Seq::<Point>::empty());
        assert(result@ + Seq::<Point>::empty() =~= result@);
    }
    result
}

} // verus!

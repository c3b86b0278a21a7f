//! Rejection sampling of lattice points, shuffled with a seeded generator.
use vstd::prelude::*;

use crate::error::PlotError;
use crate::geometry::{Point, COORD_MAX};
use rand::rngs::SmallRng;

verus! {

broadcast use vstd::seq_lib::group_to_multiset_ensures;

#[verifier::external_type_specification]
#[verifier::external_body]
pub struct ExSmallRng(rand::rngs::SmallRng);

/// Density that always keeps a point: densities are fixed-point numbers
/// where this value stands for 1.
pub const DENSITY_ONE: u64 = 0x1_0000_0000;

/// Byte `k` (0 to 7) of `s` written most significant first.
pub open spec fn be_byte(s: u64, k: int) -> u8 {
    ((s >> (((7 - k) * 8) as u64)) & 0xff) as u8
}

/// Relies on byteorder's `BigEndian::write_u64`: it copies `s.to_be_bytes()`
/// into the first eight bytes of the buffer.
#[verifier::external_body]
fn seed_bytes(s: u64) -> (r: [u8; 16])
    ensures
        forall|k: int| 0 <= k < 8 ==> r@[k] == be_byte(s, k),
        forall|k: int| 8 <= k < 16 ==> r@[k] == 0,
{
    let mut bs = [0u8; 16];
    <byteorder::BigEndian as byteorder::ByteOrder>::write_u64(&mut bs, s);
    bs
}

/// Relies on rand's `SmallRng::from_seed` (Pcg64Mcg on 64-bit targets,
/// Pcg32 on 32-bit ones), which accepts any seed and does not fail.
#[verifier::external_body]
fn small_rng_from_seed(seed: [u8; 16]) -> (r: SmallRng) {
    <SmallRng as rand::SeedableRng>::from_seed(seed)
}

/// Relies on rand's `Rng::gen::<u64>`: one uniform draw.
#[verifier::external_body]
fn draw_u64(rng: &mut SmallRng) -> (r: u64) {
    rand::Rng::gen::<u64>(rng)
}

/// Relies on rand's `Rng::gen::<u32>`: one uniform draw.
#[verifier::external_body]
fn draw_u32(rng: &mut SmallRng) -> (r: u32) {
    rand::Rng::gen::<u32>(rng)
}

/// Relies on rand's `SliceRandom::shuffle`, a Fisher-Yates shuffle that
/// only swaps elements: the result is a permutation of the input.
#[verifier::external_body]
fn shuffle_points(rng: &mut SmallRng, v: &mut Vec<Point>)
    ensures
        final(v)@.to_multiset() == old(v)@.to_multiset(),
{
    rand::seq::SliceRandom::shuffle(v.as_mut_slice(), rng)
}

/// A generator seeded with the eight bytes of `s` (most significant first,
/// then eight zero bytes), advanced by fifty draws.
pub fn rng_from_seed(s: u64) -> (r: SmallRng) {
    let bs = seed_bytes(s);
    let mut rng = small_rng_from_seed(bs);
    let mut i: usize = 0;
    while i < 50
        invariant
            i <= 50,
        decreases 50 - i,
    {
        let _ = draw_u64(&mut rng);
        i += 1;
    }
    rng
}

/// The lattice point of row-major rank `k` on a `dim` by `dim` lattice,
/// ranked with `x` first: `(k / dim, k % dim)`.
pub open spec fn lattice_point(dim: int, k: int) -> Point {
    Point { x: (k / dim) as i64, y: (k % dim) as i64 }
}

/// `s` holds, in rank order, the lattice points of ranks `ranks`, each of
/// them a point on which `keep` answered `true`; every other lattice point
/// is one on which it answered `false`.
pub open spec fn kept_in_order<F: Fn(Point) -> bool>(keep: &F, dim: int, s: Seq<Point>, ranks: Seq<int>, n: int) -> bool {
    &&& ranks.len() == s.len()
    &&& forall|i: int| 0 <= i < s.len() ==> 0 <= #[trigger] ranks[i] < n && s[i] == lattice_point(dim, ranks[i])
    &&& forall|i: int, j: int| 0 <= i < j < s.len() ==> #[trigger] ranks[i] < #[trigger] ranks[j]
    &&& forall|i: int| 0 <= i < s.len() ==> keep.ensures((#[trigger] s[i],), true)
    &&& forall|k: int| 0 <= k < n && !ranks.contains(k) ==> keep.ensures((#[trigger] lattice_point(dim, k),), false)
}

pub open spec fn in_lattice(dim: int, p: Point) -> bool {
    0 <= p.x < dim && 0 <= p.y < dim
}

proof fn lemma_lattice_point(dim: int, k: int)
    requires
        0 < dim <= COORD_MAX,
        0 <= k < dim * dim,
    ensures
        in_lattice(dim, lattice_point(dim, k)),
{
    assert(0 <= k / dim < dim && 0 <= k % dim < dim) by (nonlinear_arith)
        requires
            0 < dim,
            0 <= k < dim * dim,
    ;
}

/// The points `(x, y)` of the `dim` by `dim` lattice, `x` major, on which
/// `keep` answers `true`.
pub fn lattice_candidates<F: Fn(Point) -> bool>(keep: &F, dim: usize) -> (r: Vec<Point>)
    requires
        dim <= COORD_MAX,
        dim * dim <= usize::MAX,
        forall|p: Point| keep.requires((p,)),
    ensures
        exists|ranks: Seq<int>| #[trigger] kept_in_order(keep, dim as int, r@, ranks, dim * dim),
        forall|i: int| 0 <= i < r@.len() ==> in_lattice(dim as int, #[trigger] r@[i]),
{
    let n = dim * dim;
    let mut out: Vec<Point> = Vec::new();
    let ghost mut ranks: Seq<int> = Seq::empty();
    let mut k: usize = 0;
    while k < n
        invariant
            k <= n == dim * dim,
            0 < dim || n == 0,
            dim <= COORD_MAX,
            forall|p: Point| keep.requires((p,)),
            kept_in_order(keep, dim as int, out@, ranks, k as int),
            forall|i: int| 0 <= i < out@.len() ==> in_lattice(dim as int, #[trigger] out@[i]),
        decreases n - k,
    {
        let p = Point { x: (k / dim) as i64, y: (k % dim) as i64 };
        proof {
            lemma_lattice_point(dim as int, k as int);
            assert(p == lattice_point(dim as int, k as int));
        }
        let kept = keep(p);
        let ghost old_ranks = ranks;
        if kept {
            out.push(p);
            proof {
                ranks = ranks.push(k as int);
            }
        }
        proof {
            assert forall|m: int| 0 <= m < k + 1 && !ranks.contains(m) implies keep.ensures(
                (#[trigger] lattice_point(dim as int, m),),
                false,
            ) by {
                if m < k {
                    assert(!old_ranks.contains(m)) by {
                        if old_ranks.contains(m) {
                            let i = choose|i: int| 0 <= i < old_ranks.len() && old_ranks[i] == m;
                            assert(ranks[i] == m);
                        }
                    }
                    if kept {
                        assert(!ranks.drop_last().contains(m)) by {
                            if ranks.drop_last().contains(m) {
                                let i = choose|i: int| 0 <= i < ranks.drop_last().len() && ranks.drop_last()[i] == m;
                                assert(ranks[i] == m);
                            }
                        }
                    }
                } else {
                    if kept {
                        assert(ranks[ranks.len() - 1] == m);
                    }
                }
            }
        }
        k += 1;
    }
    out
}

pub open spec fn min_spec(a: int, b: int) -> int {
    if a < b { a } else { b }
}

/// `r` is the first `samples` points (or all of them) of some ordering of
/// `kept`.
pub open spec fn shuffled_prefix(r: Seq<Point>, kept: Seq<Point>, samples: int) -> bool {
    exists|order: Seq<Point>| #[trigger] order.to_multiset() == kept.to_multiset()
        && r == order.take(min_spec(samples, kept.len() as int))
}

/// Every point of a shuffled prefix of `kept` is a point of `kept`.
pub proof fn lemma_shuffled_members(r: Seq<Point>, kept: Seq<Point>, samples: int)
    requires
        shuffled_prefix(r, kept, samples),
        samples >= 0,
    ensures
        forall|i: int| 0 <= i < r.len() ==> kept.contains(#[trigger] r[i]),
{
    let order = choose|order: Seq<Point>| #[trigger] order.to_multiset() == kept.to_multiset()
        && r == order.take(min_spec(samples, kept.len() as int));
    vstd::seq_lib::to_multiset_len(order);
    vstd::seq_lib::to_multiset_len(kept);
    assert forall|i: int| 0 <= i < r.len() implies kept.contains(#[trigger] r[i]) by {
        assert(order.contains(r[i])) by {
            assert(order[i] == r[i]);
        }
        vstd::seq_lib::to_multiset_contains(order, r[i]);
        vstd::seq_lib::to_multiset_contains(kept, r[i]);
    }
}

pub(crate) fn shuffle_and_truncate(v: Vec<Point>, samples: usize, rng: &mut SmallRng) -> (r: Vec<Point>)
    ensures
        shuffled_prefix(r@, v@, samples as int),
{
    let mut v = v;
    let ghost kept = v@;
    shuffle_points(rng, &mut v);
    let ghost order = v@;
    proof {
        vstd::seq_lib::to_multiset_len(order);
        vstd::seq_lib::to_multiset_len(kept);
    }
    v.truncate(samples);
    proof {
        assert(v@ == order.take(min_spec(samples as int, kept.len() as int)));
    }
    v
}

/// The lattice is empty, or too large for coordinates or for memory.
pub open spec fn bad_lattice(dim: int) -> bool {
    dim == 0 || dim > COORD_MAX || dim * dim > usize::MAX
}

fn check_lattice(dim: usize) -> (r: bool)
    ensures
        r == bad_lattice(dim as int),
{
    if dim == 0 || dim as u64 > COORD_MAX as u64 {
        return true;
    }
    proof {
        assert(dim as int * dim as int <= 0xffff_ffff_ffff_ffff * 0xffff_ffff_ffff_ffff) by (nonlinear_arith)
            requires
                dim <= 0xffff_ffff_ffff_ffff,
        ;
    }
    (dim as u128) * (dim as u128) > usize::MAX as u128
}

/// Takes the lattice points on which `f` answers `true`, shuffles them with
/// `rng` and keeps the first `samples` of them; `InvalidInput` for an empty
/// lattice or one too large.
pub fn sample_2d_candidates<F: Fn(Point) -> bool>(f: &F, dim: usize, samples: usize, rng: &mut SmallRng) -> (r: Result<Vec<Point>, PlotError>)
    requires
        forall|p: Point| f.requires((p,)),
    ensures
        bad_lattice(dim as int) <==> r is Err,
        r is Err ==> r == Err::<Vec<Point>, PlotError>(PlotError::InvalidInput) && *final(rng) == *old(rng),
        r matches Ok(v) ==> exists|kept: Seq<Point>, ranks: Seq<int>|
            #[trigger] kept_in_order(f, dim as int, kept, ranks, dim * dim) && shuffled_prefix(v@, kept, samples as int),
        r matches Ok(v) ==> forall|i: int| 0 <= i < v@.len() ==> in_lattice(dim as int, #[trigger] v@[i]),
{
    if check_lattice(dim) {
        return Err(PlotError::InvalidInput);
    }
    let candidates = lattice_candidates(f, dim);
    let ghost kept = candidates@;
    let v = shuffle_and_truncate(candidates, samples, rng);
    proof {
        lemma_shuffled_members(v@, kept, samples as int);
        assert forall|i: int| 0 <= i < v@.len() implies in_lattice(dim as int, #[trigger] v@[i]) by {
            let k = choose|k: int| 0 <= k < kept.len() && kept[k] == v@[i];
        }
    }
    Ok(v)
}

/// The lattice points of rank below `n` whose density `dens[k]` exceeds
/// the draw `draws[k]`, in rank order.
pub open spec fn dense_points(dim: int, dens: Seq<u64>, draws: Seq<u32>, n: int) -> Seq<Point>
    decreases n,
{
    if n <= 0 {
        Seq::empty()
    } else if dens[n - 1] > draws[n - 1] {
        dense_points(dim, dens, draws, n - 1).push(lattice_point(dim, n - 1))
    } else {
        dense_points(dim, dens, draws, n - 1)
    }
}

/// Keeps each lattice point whose density under `f` exceeds its draw:
/// the point of rank `k` is held against `draws[k]`.
pub fn keep_by_density<F: Fn(Point) -> u64>(f: &F, dim: usize, draws: &Vec<u32>) -> (r: Vec<Point>)
    requires
        0 < dim <= COORD_MAX,
        draws@.len() == dim * dim,
        forall|p: Point| f.requires((p,)),
    ensures
        exists|dens: Seq<u64>| #![trigger dens.len()]
            dens.len() == dim * dim
            && (forall|k: int| 0 <= k < dim * dim ==> f.ensures((lattice_point(dim as int, k),), #[trigger] dens[k]))
            && r@ == dense_points(dim as int, dens, draws@, dim * dim),
{
    let n = draws.len();
    let mut out: Vec<Point> = Vec::new();
    let ghost mut dens: Seq<u64> = Seq::empty();
    let mut k: usize = 0;
    while k < n
        invariant
            k <= n == dim * dim == draws@.len(),
            0 < dim <= COORD_MAX,
            forall|p: Point| f.requires((p,)),
            dens.len() == k,
            forall|m: int| 0 <= m < k ==> f.ensures((lattice_point(dim as int, m),), #[trigger] dens[m]),
            out@ == dense_points(dim as int, dens, draws@, k as int),
        decreases n - k,
    {
        let p = Point { x: (k / dim) as i64, y: (k % dim) as i64 };
        proof {
            assert(p == lattice_point(dim as int, k as int));
        }
        let d = f(p);
        let ghost prev = out@;
        let ghost old_dens = dens;
        if d > draws[k] as u64 {
            out.push(p);
        }
        proof {
            dens = dens.push(d);
            lemma_dense_prefix(dim as int, old_dens, dens, draws@, k as int);
            assert(dens[k as int] == d);
        }
        k += 1;
    }
    out
}

proof fn lemma_dense_in_lattice(dim: int, dens: Seq<u64>, draws: Seq<u32>, n: int)
    requires
        0 < dim <= COORD_MAX,
        n <= dim * dim,
    ensures
        forall|i: int| 0 <= i < dense_points(dim, dens, draws, n).len() ==> in_lattice(dim, #[trigger] dense_points(dim, dens, draws, n)[i]),
    decreases n,
{
    if n > 0 {
        lemma_dense_in_lattice(dim, dens, draws, n - 1);
        lemma_lattice_point(dim, n - 1);
        let prev = dense_points(dim, dens, draws, n - 1);
        let cur = dense_points(dim, dens, draws, n);
        assert forall|i: int| 0 <= i < cur.len() implies in_lattice(dim, #[trigger] cur[i]) by {
            if i < prev.len() {
                assert(cur[i] == prev[i]);
            }
        }
    }
}

proof fn lemma_dense_prefix(dim: int, d1: Seq<u64>, d2: Seq<u64>, draws: Seq<u32>, n: int)
    requires
        0 <= n <= d1.len(),
        n <= d2.len(),
        forall|m: int| 0 <= m < n ==> d1[m] == d2[m],
    ensures
        dense_points(dim, d1, draws, n) == dense_points(dim, d2, draws, n),
    decreases n,
{
    if n > 0 {
        lemma_dense_prefix(dim, d1, d2, draws, n - 1);
    }
}

/// Takes each lattice point with the probability its density gives (a
/// fixed-point number, `DENSITY_ONE` standing for 1): one uniform 32-bit
/// draw is made per lattice point, in rank order, and a point is kept when
/// its density exceeds its draw. The kept points are then shuffled with
/// `rng` and the first `samples` of them returned; `InvalidInput` for an
/// empty lattice or one too large.
pub fn sample_2d_candidates_f64<F: Fn(Point) -> u64>(f: &F, dim: usize, samples: usize, rng: &mut SmallRng) -> (r: Result<Vec<Point>, PlotError>)
    requires
        forall|p: Point| f.requires((p,)),
    ensures
        bad_lattice(dim as int) <==> r is Err,
        r is Err ==> r == Err::<Vec<Point>, PlotError>(PlotError::InvalidInput) && *final(rng) == *old(rng),
        r matches Ok(v) ==> exists|dens: Seq<u64>, draws: Seq<u32>|
            #![trigger dens.len(), draws.len()]
            dens.len() == dim * dim && draws.len() == dim * dim
            && (forall|k: int| 0 <= k < dim * dim ==> f.ensures((lattice_point(dim as int, k),), #[trigger] dens[k]))
            && shuffled_prefix(v@, dense_points(dim as int, dens, draws, dim * dim), samples as int),
        r matches Ok(v) ==> forall|i: int| 0 <= i < v@.len() ==> in_lattice(dim as int, #[trigger] v@[i]),
{
    if check_lattice(dim) {
        return Err(PlotError::InvalidInput);
    }
    let n = dim * dim;
    let mut draws: Vec<u32> = Vec::new();
    let mut k: usize = 0;
    while k < n
        invariant
            k <= n,
            draws@.len() == k,
        decreases n - k,
    {
        draws.push(draw_u32(rng));
        k += 1;
    }
    let kept = keep_by_density(f, dim, &draws);
    let ghost kv = kept@;
    let v = shuffle_and_truncate(kept, samples, rng);
    proof {
        let dens = choose|dens: Seq<u64>| #![trigger dens.len()]
            dens.len() == dim * dim
            && (forall|k: int| 0 <= k < dim * dim ==> f.ensures((lattice_point(dim as int, k),), #[trigger] dens[k]))
            && kv == dense_points(dim as int, dens, draws@, dim * dim);
        lemma_dense_in_lattice(dim as int, dens, draws@, dim * dim);
        lemma_shuffled_members(v@, kv, samples as int);
        assert forall|i: int| 0 <= i < v@.len() implies in_lattice(dim as int, #[trigger] v@[i]) by {
            let k = choose|k: int| 0 <= k < kv.len() && kv[k] == v@[i];
        }
    }
    Ok(v)
}

} // verus!

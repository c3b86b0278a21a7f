//! A coarse grid counting how many times paths passed through each cell.
use vstd::prelude::*;

use crate::error::PlotError;
use crate::geometry::Point;

verus! {

/// Number of cells of size `g` needed to cover `len`.
pub open spec fn cells_for(len: int, g: int) -> int {
    len / g + if len % g == 0 { 0int } else { 1int }
}

/// Index along one axis of the cell holding coordinate `c`, clamped to the
/// `n` cells of the grid.
pub open spec fn axis_cell(c: int, g: int, n: int) -> int {
    if c < 0 {
        0
    } else if c / g >= n {
        n - 1
    } else {
        c / g
    }
}

/// Row-major index of the cell holding `p`, on a grid of `cols` by `rows`
/// cells of size `g`.
pub open spec fn cell_index(g: int, cols: int, rows: int, p: Point) -> int {
    axis_cell(p.y as int, g, rows) * cols + axis_cell(p.x as int, g, cols)
}

pub struct Passage2DCounter {
    granularity: u64,
    cols: usize,
    rows: usize,
    counters: Vec<usize>,
}

impl Passage2DCounter {
    pub closed spec fn granularity_spec(&self) -> int {
        self.granularity as int
    }

    pub closed spec fn cols_spec(&self) -> int {
        self.cols as int
    }

    pub closed spec fn rows_spec(&self) -> int {
        self.rows as int
    }

    /// The counters, row by row.
    pub closed spec fn counts(&self) -> Seq<usize> {
        self.counters@
    }

    pub closed spec fn wf(&self) -> bool {
        &&& self.granularity > 0
        &&& self.cols > 0
        &&& self.rows > 0
        &&& self.counters@.len() == self.cols * self.rows
        &&& self.cols * self.rows <= usize::MAX
    }

    /// The cell that holds `p`.
    pub open spec fn cell(&self, p: Point) -> int {
        cell_index(self.granularity_spec(), self.cols_spec(), self.rows_spec(), p)
    }

    /// How many passages were counted in the cell of `p`.
    pub open spec fn value_at(&self, p: Point) -> int {
        self.counts()[self.cell(p)] as int
    }

    pub open spec fn same_grid(&self, o: &Passage2DCounter) -> bool {
        &&& self.granularity_spec() == o.granularity_spec()
        &&& self.cols_spec() == o.cols_spec()
        &&& self.rows_spec() == o.rows_spec()
    }

    /// The counter after one passage through the cell of `p`.
    pub open spec fn counted(&self, p: Point) -> Seq<usize> {
        self.counts().update(self.cell(p), (self.value_at(p) + 1) as usize)
    }

    pub proof fn lemma_cell_in_grid(&self, p: Point)
        requires
            self.wf(),
        ensures
            0 <= self.cell(p) < self.counts().len(),
    {
        let g = self.granularity as int;
        let c = self.cols as int;
        let r = self.rows as int;
        let xi = axis_cell(p.x as int, g, c);
        let yi = axis_cell(p.y as int, g, r);
        if p.x >= 0 {
            assert(0 <= (p.x as int) / g) by (nonlinear_arith)
                requires
                    g > 0,
                    p.x >= 0,
            ;
        }
        if p.y >= 0 {
            assert(0 <= (p.y as int) / g) by (nonlinear_arith)
                requires
                    g > 0,
                    p.y >= 0,
            ;
        }
        assert(0 <= yi * c + xi < c * r) by (nonlinear_arith)
            requires
                0 <= xi < c,
                0 <= yi < r,
        ;
    }

    /// A grid of `⌈width / granularity⌉ × ⌈height / granularity⌉` counters,
    /// all zero; `InvalidInput` when any argument is zero or the number of
    /// cells does not fit in a `usize`.
    pub fn new(granularity: u64, width: u64, height: u64) -> (r: Result<Passage2DCounter, PlotError>)
        ensures
            (granularity == 0 || width == 0 || height == 0
                || cells_for(width as int, granularity as int) * cells_for(height as int, granularity as int)
                > usize::MAX) <==> r is Err,
            r is Err ==> r == Err::<Passage2DCounter, PlotError>(PlotError::InvalidInput),
            r matches Ok(c) ==> {
                &&& c.wf()
                &&& c.granularity_spec() == granularity
                &&& c.cols_spec() == cells_for(width as int, granularity as int)
                &&& c.rows_spec() == cells_for(height as int, granularity as int)
                &&& forall|k: int| 0 <= k < c.counts().len() ==> #[trigger] c.counts()[k] == 0
                &&& forall|p: Point| #[trigger] c.value_at(p) == 0
            },
    {
        if granularity == 0 || width == 0 || height == 0 {
            return Err(PlotError::InvalidInput);
        }
        proof {
            lemma_cells_fit(width as int, granularity as int);
            lemma_cells_fit(height as int, granularity as int);
        }
        let cols64: u64 = width / granularity + if width % granularity == 0 { 0 } else { 1 };
        let rows64: u64 = height / granularity + if height % granularity == 0 { 0 } else { 1 };
        proof {
            assert(cols64 as int * rows64 as int <= 0xffff_ffff_ffff_ffff * 0xffff_ffff_ffff_ffff) by (nonlinear_arith)
                requires
                    cols64 <= 0xffff_ffff_ffff_ffff,
                    rows64 <= 0xffff_ffff_ffff_ffff,
            ;
            assert(cols64 >= 1 && rows64 >= 1) by (nonlinear_arith)
                requires
                    granularity > 0,
                    width > 0,
                    height > 0,
                    cols64 == cells_for(width as int, granularity as int),
                    rows64 == cells_for(height as int, granularity as int),
            ;
            assert(cols64 <= cols64 * rows64 && rows64 <= cols64 * rows64) by (nonlinear_arith)
                requires
                    cols64 >= 1,
                    rows64 >= 1,
            ;
        }
        let total: u128 = cols64 as u128 * rows64 as u128;
        if total > usize::MAX as u128 {
            return Err(PlotError::InvalidInput);
        }
        let cols = cols64 as usize;
        let rows = rows64 as usize;
        let n = cols * rows;
        let mut counters: Vec<usize> = Vec::new();
        let mut k: usize = 0;
        while k < n
            invariant
                k <= n,
                counters@.len() == k,
                forall|m: int| 0 <= m < k ==> #[trigger] counters@[m] == 0,
            decreases n - k,
        {
            counters.push(0);
            k += 1;
        }
        let c = Passage2DCounter { granularity, cols, rows, counters };
        proof {
            assert forall|p: Point| #[trigger] c.value_at(p) == 0 by {
                c.lemma_cell_in_grid(p);
            }
        }
        Ok(c)
    }

    fn index(&self, p: Point) -> (r: usize)
        requires
            self.wf(),
        ensures
            r == self.cell(p),
            r < self.counts().len(),
    {
        proof {
            self.lemma_cell_in_grid(p);
        }
        let xi: usize = if p.x < 0 {
            0
        } else if (p.x as u64) / self.granularity >= self.cols as u64 {
            self.cols - 1
        } else {
            ((p.x as u64) / self.granularity) as usize
        };
        let yi: usize = if p.y < 0 {
            0
        } else if (p.y as u64) / self.granularity >= self.rows as u64 {
            self.rows - 1
        } else {
            ((p.y as u64) / self.granularity) as usize
        };
        assert(xi == axis_cell(p.x as int, self.granularity as int, self.cols as int));
        assert(yi == axis_cell(p.y as int, self.granularity as int, self.rows as int));
        assert(self.cell(p) == yi * self.cols + xi);
        yi * self.cols + xi
    }

    /// Counts one more passage through the cell of `p` and returns the new
    /// count of that cell.
    pub fn count(&mut self, p: Point) -> (r: usize)
        requires
            old(self).wf(),
            old(self).value_at(p) < usize::MAX,
        ensures
            final(self).wf(),
            final(self).same_grid(old(self)),
            r == old(self).value_at(p) + 1,
            final(self).counts() == old(self).counted(p),
            final(self).value_at(p) == r,
            forall|q: Point| old(self).cell(q) != old(self).cell(p) ==> #[trigger] final(self).value_at(q) == old(self).value_at(q),
    {
        proof {
            old(self).lemma_cell_in_grid(p);
        }
        let i = self.index(p);
        let v = self.counters[i] + 1;
        self.counters.set(i, v);
        proof {
            assert forall|q: Point| old(self).cell(q) != old(self).cell(p) implies #[trigger] self.value_at(q) == old(self).value_at(q) by {
                old(self).lemma_cell_in_grid(q);
                assert(self.cell(q) == old(self).cell(q));
            }
        }
        v
    }

    /// The count of the cell of `p`.
    pub fn get(&self, p: Point) -> (r: usize)
        requires
            self.wf(),
        ensures
            r == self.value_at(p),
    {
        self.counters[self.index(p)]
    }
}

/// Rounding up the number of cells never exceeds the length itself.
proof fn lemma_cells_fit(len: int, g: int)
    requires
        len >= 1,
        g >= 1,
    ensures
        1 <= cells_for(len, g) <= len,
{
    assert(0 <= len / g <= len && (len / g) * g + len % g == len && 0 <= len % g < g) by (nonlinear_arith)
        requires
            len >= 1,
            g >= 1,
    ;
    if len % g != 0 {
        assert(len / g < len) by (nonlinear_arith)
            requires
                len >= 1,
                g >= 2,
                (len / g) * g + len % g == len,
                0 <= len % g,
                len / g >= 0,
        ;
    } else {
        assert(len / g >= 1) by (nonlinear_arith)
            requires
                len >= 1,
                g >= 1,
                (len / g) * g == len,
        ;
    }
}

/// Counting passages through one cell of a fresh counter gives 1, 2, 3, ...:
/// after the k-th passage (counting from one) the cell holds k. `get` takes
/// the counter by shared reference and so never changes a count.
pub proof fn lemma_count_sequence(states: Seq<Passage2DCounter>, pts: Seq<Point>)
    requires
        states.len() == pts.len() + 1,
        pts.len() < usize::MAX,
        states[0].wf(),
        forall|k: int| 0 <= k < states[0].counts().len() ==> #[trigger] states[0].counts()[k] == 0,
        forall|k: int| 0 <= k < pts.len() ==> #[trigger] states[0].cell(pts[k]) == states[0].cell(pts[0]),
        forall|k: int| 0 <= k < pts.len() ==> {
            &&& (#[trigger] states[k + 1]).wf()
            &&& states[k + 1].same_grid(&states[k])
            &&& states[k + 1].counts() == states[k].counted(pts[k])
        },
    ensures
        forall|k: int| 0 <= k < pts.len() ==> #[trigger] states[k + 1].value_at(pts[k]) == k + 1,
{
    assert forall|k: int| 0 <= k <= pts.len() implies {
        &&& (#[trigger] states[k]).same_grid(&states[0])
        &&& states[k].wf()
        &&& (pts.len() > 0 ==> states[k].value_at(pts[0]) == k)
    } by {
        lemma_count_prefix(states, pts, k);
    }
    assert forall|k: int| 0 <= k < pts.len() implies #[trigger] states[k + 1].value_at(pts[k]) == k + 1 by {
        assert(states[k + 1].same_grid(&states[0]));
        assert(states[0].cell(pts[k]) == states[0].cell(pts[0]));
    }
}

proof fn lemma_count_prefix(states: Seq<Passage2DCounter>, pts: Seq<Point>, k: int)
    requires
        0 <= k <= pts.len(),
        states.len() == pts.len() + 1,
        pts.len() < usize::MAX,
        states[0].wf(),
        forall|m: int| 0 <= m < states[0].counts().len() ==> #[trigger] states[0].counts()[m] == 0,
        forall|m: int| 0 <= m < pts.len() ==> #[trigger] states[0].cell(pts[m]) == states[0].cell(pts[0]),
        forall|m: int| 0 <= m < pts.len() ==> {
            &&& (#[trigger] states[m + 1]).wf()
            &&& states[m + 1].same_grid(&states[m])
            &&& states[m + 1].counts() == states[m].counted(pts[m])
        },
    ensures
        states[k].same_grid(&states[0]),
        states[k].wf(),
        pts.len() > 0 ==> states[k].value_at(pts[0]) == k,
    decreases k,
{
    if k > 0 {
        lemma_count_prefix(states, pts, k - 1);
        let m = k - 1;
        assert(states[m + 1].same_grid(&states[m]));
        if pts.len() > 0 {
            assert(states[0].cell(pts[m]) == states[0].cell(pts[0]));
            let c = states[0].cell(pts[0]);
            assert(states[m].cell(pts[m]) == c);
            assert(states[k].cell(pts[0]) == c);
            states[m].lemma_cell_in_grid(pts[m]);
            assert(states[k].counts()[c] == (states[m].counts()[c] + 1) as usize);
        }
    } else if pts.len() > 0 {
        states[0].lemma_cell_in_grid(pts[0]);
    }
}

} // verus!

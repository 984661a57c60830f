//! Accumulation buffer: a width x height grid of saturating numeric cells,
//! addressed row-major, that completed trajectories add their scores into.
use vstd::prelude::*;

verus! {

use crate::{DIM_LIMIT, POINT_BOUND, SCALE};

/// 64-bit addition clamped at the maximum: the buffer's in-place addition.
pub open spec fn sat_add(a: u64, b: u64) -> u64 {
    if a + b > u64::MAX {
        u64::MAX
    } else {
        (a + b) as u64
    }
}

/// Cell-wise saturating merge of `other` into `base`.
pub open spec fn merged(base: Seq<u64>, other: Seq<u64>) -> Seq<u64> {
    Seq::new(base.len(), |i: int| sat_add(base[i], other[i]))
}

/// Sum of all cells.
pub open spec fn total_of(s: Seq<u64>) -> int
    decreases s.len(),
{
    if s.len() == 0 {
        0
    } else {
        total_of(s.drop_last()) + s.last()
    }
}

/// Row-major cell indices stay inside the grid.
proof fn lemma_row_major_in_range(x: int, y: int, w: int, h: int)
    by (nonlinear_arith)
    requires
        0 <= x < w,
        0 <= y < h,
    ensures
        0 <= x + w * y < w * h,
{
}

/// A 2-D grid of `u64` cells, `width * height` of them, row-major: the cell
/// at `(x, y)` is entry `x + width * y`. Cells start at zero (the additive
/// identity) and accumulate by saturating addition.
pub struct Buffer {
    width: usize,
    height: usize,
    cells: Vec<u64>,
}

impl View for Buffer {
    type V = Seq<u64>;

    closed spec fn view(&self) -> Seq<u64> {
        self.cells@
    }
}

impl Buffer {
    /// The grid's width.
    pub closed spec fn width_spec(&self) -> nat {
        self.width as nat
    }

    /// The grid's height.
    pub closed spec fn height_spec(&self) -> nat {
        self.height as nat
    }

    /// Well-formed: as many cells as the grid has pixels, and dimensions
    /// within the global limit.
    pub open spec fn wf(&self) -> bool {
        &&& self@.len() == self.width_spec() * self.height_spec()
        &&& 1 <= self.width_spec() <= DIM_LIMIT
        &&& 1 <= self.height_spec() <= DIM_LIMIT
    }

    /// The cell index of pixel `(x, y)`.
    pub open spec fn idx(&self, x: int, y: int) -> int {
        x + self.width_spec() * y
    }

    /// A fresh all-zero buffer.
    pub fn new(width: usize, height: usize) -> (r: Buffer)
        requires
            1 <= width <= DIM_LIMIT,
            1 <= height <= DIM_LIMIT,
        ensures
            r.wf(),
            r.width_spec() == width,
            r.height_spec() == height,
            forall|i: int| 0 <= i < r@.len() ==> r@[i] == 0u64,
    {
        proof {
            crate::geometry::lemma_abs_mul_bound(width as int, height as int,
                DIM_LIMIT as int, DIM_LIMIT as int);
        }
        let n = width * height;
        let mut cells: Vec<u64> = Vec::new();
        while cells.len() < n
            invariant
                cells@.len() <= n,
                forall|i: int| 0 <= i < cells@.len() ==> cells@[i] == 0u64,
            decreases n - cells@.len(),
        {
            cells.push(0);
        }
        Buffer { width, height, cells }
    }

    /// The grid's width.
    pub fn width(&self) -> (w: usize)
        ensures
            w == self.width_spec(),
    {
        self.width
    }

    /// The grid's height.
    pub fn height(&self) -> (h: usize)
        ensures
            h == self.height_spec(),
    {
        self.height
    }

    /// Read the cell at `(x, y)`.
    pub fn get(&self, x: usize, y: usize) -> (v: u64)
        requires
            self.wf(),
            x < self.width_spec(),
            y < self.height_spec(),
        ensures
            v == self@[self.idx(x as int, y as int)],
    {
        proof {
            lemma_row_major_in_range(x as int, y as int,
                self.width_spec() as int, self.height_spec() as int);
            crate::geometry::lemma_abs_mul_bound(self.width_spec() as int,
                self.height_spec() as int, DIM_LIMIT as int, DIM_LIMIT as int);
        }
        self.cells[x + self.width * y]
    }

    /// Add `v` into the cell at `(x, y)`, saturating; every other cell is
    /// untouched.
    pub fn add_at(&mut self, x: usize, y: usize, v: u64)
        requires
            old(self).wf(),
            x < old(self).width_spec(),
            y < old(self).height_spec(),
        ensures
            final(self).wf(),
            final(self).width_spec() == old(self).width_spec(),
            final(self).height_spec() == old(self).height_spec(),
            final(self)@ == old(self)@.update(
                old(self).idx(x as int, y as int),
                sat_add(old(self)@[old(self).idx(x as int, y as int)], v),
            ),
    {
        proof {
            lemma_row_major_in_range(x as int, y as int,
                self.width_spec() as int, self.height_spec() as int);
            crate::geometry::lemma_abs_mul_bound(self.width_spec() as int,
                self.height_spec() as int, DIM_LIMIT as int, DIM_LIMIT as int);
        }
        let i = x + self.width * y;
        let c = self.cells[i];
        let nv = match c.checked_add(v) {
            Some(s) => s,
            None => u64::MAX,
        };
        self.cells.set(i, nv);
    }

    /// Add every cell of `other` into the corresponding cell of this
    /// buffer: the merge step a worker performs into the shared result.
    pub fn merge_from(&mut self, other: &Buffer)
        requires
            old(self).wf(),
            other.wf(),
            old(self).width_spec() == other.width_spec(),
            old(self).height_spec() == other.height_spec(),
        ensures
            final(self).wf(),
            final(self).width_spec() == old(self).width_spec(),
            final(self).height_spec() == old(self).height_spec(),
            final(self)@ == merged(old(self)@, other@),
    {
        let n = self.cells.len();
        let ghost base = self@;
        for i in 0..n
            invariant
                n == self@.len(),
                self@.len() == base.len(),
                other@.len() == base.len(),
                self.width_spec() == old(self).width_spec(),
                self.height_spec() == old(self).height_spec(),
                base == old(self)@,
                forall|j: int| 0 <= j < i ==> self@[j] == sat_add(base[j], other@[j]),
                forall|j: int| i <= j < n ==> self@[j] == base[j],
        {
            let c = self.cells[i];
            let o = other.cells[i];
            let nv = match c.checked_add(o) {
                Some(s) => s,
                None => u64::MAX,
            };
            self.cells.set(i, nv);
        }
        proof {
            assert(self@ =~= merged(old(self)@, other@));
        }
    }

    /// Reset every cell to zero.
    pub fn clear(&mut self)
        requires
            old(self).wf(),
        ensures
            final(self).wf(),
            final(self).width_spec() == old(self).width_spec(),
            final(self).height_spec() == old(self).height_spec(),
            final(self)@.len() == old(self)@.len(),
            forall|i: int| 0 <= i < final(self)@.len() ==> final(self)@[i] == 0u64,
    {
        let n = self.cells.len();
        for i in 0..n
            invariant
                n == self@.len(),
                self@.len() == old(self)@.len(),
                self.width_spec() == old(self).width_spec(),
                self.height_spec() == old(self).height_spec(),
                forall|j: int| 0 <= j < i ==> self@[j] == 0u64,
        {
            self.cells.set(i, 0);
        }
    }

    /// The sum of all cells (wide enough that it cannot saturate).
    pub fn sum(&self) -> (r: u128)
        requires
            self.wf(),
        ensures
            r == total_of(self@),
    {
        let n = self.cells.len();
        let mut acc: u128 = 0;
        for i in 0..n
            invariant
                n == self@.len(),
                self.wf(),
                acc == total_of(self@.take(i as int)),
                acc <= i * (u64::MAX as int),
        {
            proof {
                assert(self@.take(i + 1).drop_last() =~= self@.take(i as int));
                assert(self@.take(i + 1).last() == self@[i as int]);
            }
            acc = acc + self.cells[i] as u128;
        }
        proof {
            assert(self@.take(n as int) =~= self@);
        }
        acc
    }
}

/// Merging two private buffers into a shared one in either order yields
/// identical final contents: per cell, saturating addition applied twice
/// clamps the same three-way sum either way.
pub proof fn lemma_merge_order_irrelevant(base: Seq<u64>, a: Seq<u64>, b: Seq<u64>)
    requires
        a.len() == base.len(),
        b.len() == base.len(),
    ensures
        merged(merged(base, a), b) == merged(merged(base, b), a),
{
    assert forall|i: int| 0 <= i < base.len() implies
        merged(merged(base, a), b)[i] == merged(merged(base, b), a)[i] by {
        assert(merged(merged(base, a), b)[i] == sat_add(sat_add(base[i], a[i]), b[i]));
        assert(merged(merged(base, b), a)[i] == sat_add(sat_add(base[i], b[i]), a[i]));
    }
    assert(merged(merged(base, a), b) =~= merged(merged(base, b), a));
}

/// Adding `v` to one cell raises the total by `v`, as long as that cell
/// does not saturate.
pub proof fn lemma_total_update(s: Seq<u64>, i: int, v: u64)
    requires
        0 <= i < s.len(),
        s[i] + v <= u64::MAX,
    ensures
        total_of(s.update(i, sat_add(s[i], v))) == total_of(s) + v,
    decreases s.len(),
{
    let t = s.update(i, sat_add(s[i], v));
    if i == s.len() - 1 {
        assert(t.drop_last() =~= s.drop_last());
    } else {
        lemma_total_update(s.drop_last(), i, v);
        assert(t.drop_last() =~= s.drop_last().update(i, sat_add(s[i], v)));
        assert(t.last() == s.last());
    }
}

/// The pixel a fixed-point coordinate lands in: scale by the dimension,
/// round to the nearest cell, clamp into `[0, dim - 1]`.
pub open spec fn pixel_of(c: int, dim: int) -> int {
    if c < 0 {
        0
    } else {
        let q = (c * dim + SCALE / 2) / (SCALE as int);
        if q >= dim {
            dim - 1
        } else {
            q
        }
    }
}

/// Map a fixed-point coordinate to its pixel.
pub fn pixel_of_exec(c: i64, dim: usize) -> (p: usize)
    requires
        1 <= dim <= DIM_LIMIT,
        crate::geometry::coord_in(c as int, POINT_BOUND as int),
    ensures
        p == pixel_of(c as int, dim as int),
        p < dim,
{
    if c < 0 {
        return 0;
    }
    proof {
        crate::geometry::lemma_abs_mul_bound(c as int, dim as int,
            POINT_BOUND as int, DIM_LIMIT as int);
        vstd::arithmetic::div_mod::lemma_div_pos_is_pos(
            c as int * dim as int + SCALE / 2, SCALE as int);
    }
    let q = ((c as u128) * (dim as u128) + (SCALE / 2) as u128) / (SCALE as u128);
    if q >= dim as u128 {
        dim - 1
    } else {
        q as usize
    }
}

} // verus!

//! A two-dimensional grid whose coordinates wrap around both axes.

use vstd::prelude::*;
use vstd::arithmetic::div_mod::{
    lemma_fundamental_div_mod,
    lemma_fundamental_div_mod_converse,
    lemma_mod_bound,
    lemma_mod_multiples_vanish,
};

verus! {

/// The representative of `v` in `0..n` (Euclidean remainder).
pub open spec fn wrap(v: int, n: int) -> int {
    v % n
}

/// Row-major position of the cell that `(y, x)` wraps to on a `w` by `h` torus.
pub open spec fn cell_index(w: int, h: int, y: int, x: int) -> int {
    wrap(y, h) * w + wrap(x, w)
}

/// The value of the cell that `(y, x)` wraps to.
pub open spec fn at<T>(cells: Seq<T>, w: int, h: int, y: int, x: int) -> T {
    cells[cell_index(w, h, y, x)]
}

/// Whether `cells` is a row-major `w` by `h` grid that `i32` coordinates can address.
pub open spec fn is_grid<T>(cells: Seq<T>, w: int, h: int) -> bool {
    &&& 0 < w < i32::MAX
    &&& 0 < h < i32::MAX
    &&& w * h <= usize::MAX
    &&& cells.len() == w * h
}

/// Shifting both coordinates by whole turns of the torus reaches the same cell.
pub proof fn lemma_toroidal_wrap<T>(cells: Seq<T>, w: int, h: int, y: int, x: int, k: int)
    requires
        0 < w,
        0 < h,
    ensures
        at(cells, w, h, y + k * h, x + k * w) == at(cells, w, h, y, x),
{
    lemma_mod_multiples_vanish(k, y, h);
    lemma_mod_multiples_vanish(k, x, w);
    assert(h * k + y == y + k * h) by (nonlinear_arith);
    assert(w * k + x == x + k * w) by (nonlinear_arith);
}

pub proof fn lemma_index_in_range(w: int, h: int, r: int, c: int)
    requires
        0 < w,
        0 < h,
        0 <= r < h,
        0 <= c < w,
    ensures
        0 <= r * w + c < w * h,
{
    assert(0 <= r * w + c < w * h) by (nonlinear_arith)
        requires
            0 < w,
            0 <= r < h,
            0 <= c < w,
    ;
}

pub proof fn lemma_cell_index_in_range(w: int, h: int, y: int, x: int)
    requires
        0 < w,
        0 < h,
    ensures
        0 <= wrap(y, h) < h,
        0 <= wrap(x, w) < w,
        0 <= cell_index(w, h, y, x) < w * h,
{
    lemma_mod_bound(y, h);
    lemma_mod_bound(x, w);
    lemma_index_in_range(w, h, wrap(y, h), wrap(x, w));
}

/// Maps a possibly negative coordinate onto `0..n`.
pub fn wrap_coord(v: i32, n: usize) -> (r: usize)
    requires
        0 < n <= i32::MAX,
    ensures
        r as int == wrap(v as int, n as int),
        r < n,
{
    if v >= 0 {
        proof {
            lemma_mod_bound(v as int, n as int);
        }
        (v as usize) % n
    } else {
        let k: usize = (-(v as i64) - 1) as usize;
        let m: usize = k % n;
        proof {
            let ki = k as int;
            let ni = n as int;
            lemma_mod_bound(ki, ni);
            lemma_fundamental_div_mod(ki, ni);
            let q = ki / ni;
            assert((v as int) == (-q - 1) * ni + (ni - 1 - m)) by (nonlinear_arith)
                requires
                    ki == ni * q + m,
                    v as int == -ki - 1,
            ;
            lemma_fundamental_div_mod_converse(v as int, ni, -q - 1, ni - 1 - m);
        }
        n - 1 - m
    }
}

/// Sum of the cells `(y, x0) .. (y, x1 - 1)`, wrapped.
pub open spec fn row_sum(cells: Seq<u8>, w: int, h: int, y: int, x0: int, x1: int) -> int
    decreases x1 - x0,
{
    if x1 <= x0 {
        0
    } else {
        row_sum(cells, w, h, y, x0, x1 - 1) + at(cells, w, h, y, x1 - 1) as int
    }
}

/// Sum of the cells of the box `y0 .. y1` by `x0 .. x1` (end-exclusive), wrapped.
pub open spec fn box_sum(cells: Seq<u8>, w: int, h: int, y0: int, y1: int, x0: int, x1: int) -> int
    decreases y1 - y0,
{
    if y1 <= y0 {
        0
    } else {
        box_sum(cells, w, h, y0, y1 - 1, x0, x1) + row_sum(cells, w, h, y1 - 1, x0, x1)
    }
}

pub proof fn lemma_row_sum_bound(cells: Seq<u8>, w: int, h: int, y: int, x0: int, x1: int)
    requires
        x0 <= x1,
    ensures
        0 <= row_sum(cells, w, h, y, x0, x1) <= 255 * (x1 - x0),
    decreases x1 - x0,
{
    if x0 < x1 {
        lemma_row_sum_bound(cells, w, h, y, x0, x1 - 1);
    }
}

pub proof fn lemma_box_sum_bound(cells: Seq<u8>, w: int, h: int, y0: int, y1: int, x0: int, x1: int)
    requires
        y0 <= y1,
        x0 <= x1,
    ensures
        0 <= box_sum(cells, w, h, y0, y1, x0, x1) <= 255 * (y1 - y0) * (x1 - x0),
    decreases y1 - y0,
{
    if y0 < y1 {
        lemma_box_sum_bound(cells, w, h, y0, y1 - 1, x0, x1);
        lemma_row_sum_bound(cells, w, h, y1 - 1, x0, x1);
        assert(255 * (y1 - 1 - y0) * (x1 - x0) + 255 * (x1 - x0) == 255 * (y1 - y0) * (x1 - x0))
            by (nonlinear_arith);
    }
}

/// A box whose every cell is zero sums to zero.
pub proof fn lemma_box_sum_zero(cells: Seq<u8>, w: int, h: int, y0: int, y1: int, x0: int, x1: int)
    requires
        forall|y: int, x: int| y0 <= y < y1 && x0 <= x < x1 ==> at(cells, w, h, y, x) == 0,
    ensures
        box_sum(cells, w, h, y0, y1, x0, x1) == 0,
    decreases y1 - y0,
{
    if y0 < y1 {
        lemma_box_sum_zero(cells, w, h, y0, y1 - 1, x0, x1);
        lemma_row_sum_zero(cells, w, h, y1 - 1, x0, x1);
    }
}

proof fn lemma_row_sum_zero(cells: Seq<u8>, w: int, h: int, y: int, x0: int, x1: int)
    requires
        forall|x: int| x0 <= x < x1 ==> at(cells, w, h, y, x) == 0,
    ensures
        row_sum(cells, w, h, y, x0, x1) == 0,
    decreases x1 - x0,
{
    if x0 < x1 {
        lemma_row_sum_zero(cells, w, h, y, x0, x1 - 1);
    }
}

/// A `size_w` by `size_h` grid stored row-major, indexed by wrapped coordinates.
pub struct Vec2d<T> {
    size_w: usize,
    size_h: usize,
    data: Vec<T>,
}

impl<T> Vec2d<T> {
    pub closed spec fn width(&self) -> int {
        self.size_w as int
    }

    pub closed spec fn height(&self) -> int {
        self.size_h as int
    }

    /// The cells, row-major.
    pub closed spec fn cells(&self) -> Seq<T> {
        self.data@
    }

    pub open spec fn wf(&self) -> bool {
        is_grid(self.cells(), self.width(), self.height())
    }

    /// The value that `(y, x)` wraps to.
    pub open spec fn at(&self, y: int, x: int) -> T {
        at(self.cells(), self.width(), self.height(), y, x)
    }
}

impl<T: Copy> Vec2d<T> {
    /// A grid with every cell set to `fill`.
    pub fn new(size_w: usize, size_h: usize, fill: T) -> (g: Vec2d<T>)
        requires
            0 < size_w < i32::MAX,
            0 < size_h < i32::MAX,
            size_w * size_h <= usize::MAX,
        ensures
            g.wf(),
            g.width() == size_w,
            g.height() == size_h,
            g.cells() == Seq::new((size_w * size_h) as nat, |i: int| fill),
    {
        let n: usize = size_w * size_h;
        let mut data: Vec<T> = Vec::with_capacity(n);
        let mut i: usize = 0;
        while i < n
            invariant
                i <= n,
                data@ == Seq::new(i as nat, |j: int| fill),
            decreases n - i,
        {
            data.push(fill);
            i = i + 1;
            assert(data@ =~= Seq::new(i as nat, |j: int| fill));
        }
        Vec2d { size_w, size_h, data }
    }

    pub fn size_w(&self) -> (r: usize)
        ensures
            r == self.width(),
    {
        self.size_w
    }

    pub fn size_h(&self) -> (r: usize)
        ensures
            r == self.height(),
    {
        self.size_h
    }

    /// Row-major position of the cell that `(y, x)` wraps to.
    fn index_of(&self, y: i32, x: i32) -> (i: usize)
        requires
            self.wf(),
        ensures
            i == cell_index(self.width(), self.height(), y as int, x as int),
            i < self.cells().len(),
    {
        let r = wrap_coord(y, self.size_h);
        let c = wrap_coord(x, self.size_w);
        proof {
            lemma_index_in_range(self.width(), self.height(), r as int, c as int);
        }
        r * self.size_w + c
    }

    /// The value of the cell that `(y, x)` wraps to.
    pub fn get(&self, y: i32, x: i32) -> (v: T)
        requires
            self.wf(),
        ensures
            v == self.at(y as int, x as int),
    {
        let i = self.index_of(y, x);
        self.data[i]
    }

    /// Sets the cell that `(y, x)` wraps to; no other cell changes.
    pub fn set(&mut self, y: i32, x: i32, v: T)
        requires
            old(self).wf(),
        ensures
            final(self).wf(),
            final(self).width() == old(self).width(),
            final(self).height() == old(self).height(),
            final(self).cells() == old(self).cells().update(
                cell_index(old(self).width(), old(self).height(), y as int, x as int),
                v,
            ),
    {
        let i = self.index_of(y, x);
        self.data.set(i, v);
    }

    /// Sets every cell to `v`.
    pub fn fill(&mut self, v: T)
        requires
            old(self).wf(),
        ensures
            final(self).wf(),
            final(self).width() == old(self).width(),
            final(self).height() == old(self).height(),
            final(self).cells() == Seq::new(old(self).cells().len(), |i: int| v),
    {
        let n = self.data.len();
        let mut i: usize = 0;
        while i < n
            invariant
                i <= n,
                n == self.data@.len(),
                self.size_w == old(self).size_w,
                self.size_h == old(self).size_h,
                self.data@.len() == old(self).data@.len(),
                forall|j: int| 0 <= j < i ==> self.data@[j] == v,
            decreases n - i,
        {
            self.data.set(i, v);
            i = i + 1;
        }
        assert(self.data@ =~= Seq::new(old(self).cells().len(), |i: int| v));
    }
}

impl Vec2d<u8> {
    /// Sum of the box `y0 .. y1` by `x0 .. x1` (end-exclusive), wrapped.
    pub fn box_sum(&self, y0: i32, y1: i32, x0: i32, x1: i32) -> (r: u64)
        requires
            self.wf(),
            y0 <= y1,
            x0 <= x1,
            (y1 - y0) * (x1 - x0) <= u32::MAX,
        ensures
            r == box_sum(self.cells(), self.width(), self.height(), y0 as int, y1 as int, x0 as int, x1 as int),
    {
        let ghost g = self.cells();
        let ghost w = self.width();
        let ghost h = self.height();
        let ghost area = (y1 - y0) * (x1 - x0);
        let mut sum: u64 = 0;
        let mut y: i32 = y0;
        while y < y1
            invariant
                self.wf(),
                y0 <= y <= y1,
                x0 <= x1,
                area == (y1 - y0) * (x1 - x0),
                area <= u32::MAX,
                sum == box_sum(g, w, h, y0 as int, y as int, x0 as int, x1 as int),
                g == self.cells(),
                w == self.width(),
                h == self.height(),
            decreases y1 - y,
        {
            proof {
                lemma_box_sum_bound(g, w, h, y0 as int, y as int, x0 as int, x1 as int);
                assert(255 * (y - y0) * (x1 - x0) + 255 * (x1 - x0) <= 255 * area) by (nonlinear_arith)
                    requires
                        y < y1,
                        x0 <= x1,
                        area == (y1 - y0) * (x1 - x0),
                ;
            }
            let mut row: u64 = 0;
            let mut x: i32 = x0;
            while x < x1
                invariant
                    self.wf(),
                    x0 <= x <= x1,
                    y0 <= y < y1,
                    row == row_sum(g, w, h, y as int, x0 as int, x as int),
                    g == self.cells(),
                    w == self.width(),
                    h == self.height(),
                decreases x1 - x,
            {
                proof {
                    lemma_row_sum_bound(g, w, h, y as int, x0 as int, x as int);
                }
                row = row + self.get(y, x) as u64;
                x = x + 1;
            }
            proof {
                lemma_row_sum_bound(g, w, h, y as int, x0 as int, x1 as int);
            }
            sum = sum + row;
            y = y + 1;
        }
        sum
    }
}

} // verus!

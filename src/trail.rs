//! The mathematical model of one tick of the trail field: saturating deposits,
//! a box blur, and multiplicative decay, both over the whole field and over the
//! cells that the work-queue pass visits.

use vstd::prelude::*;
use vstd::arithmetic::div_mod::{
    lemma_add_mod_noop,
    lemma_fundamental_div_mod_converse,
    lemma_mod_bound,
    lemma_mod_twice,
};
use crate::grid::{at, box_sum, cell_index, is_grid, lemma_box_sum_zero, lemma_cell_index_in_range, wrap};

verus! {

/// Half-width of the diffusion kernel: a 3 by 3 box.
pub const DIFFUSE_RADIUS: i32 = 1;

/// Decay multiplies a cell by `DECAY_NUM / DECAY_DEN`, rounding down.
pub const DECAY_NUM: u32 = 97;

pub const DECAY_DEN: u32 = 100;

pub open spec fn radius() -> int {
    DIFFUSE_RADIUS as int
}

/// Number of cells under the diffusion kernel.
pub open spec fn kernel_area() -> int {
    (2 * radius() + 1) * (2 * radius() + 1)
}

pub proof fn lemma_kernel_area()
    ensures
        radius() == 1,
        kernel_area() == 9,
{
    assert((2 * 1 + 1) * (2 * 1 + 1) == 9) by (nonlinear_arith);
}

/// The blurred value of `(y, x)`: the kernel's mean, truncated, at most 255.
pub open spec fn blur_at(g: Seq<u8>, w: int, h: int, y: int, x: int) -> int {
    let m = box_sum(g, w, h, y - radius(), y + radius() + 1, x - radius(), x + radius() + 1)
        / kernel_area();
    if m > 255 {
        255
    } else {
        m
    }
}

/// One dense diffusion pass: every cell replaced by its blurred value.
pub open spec fn blur(g: Seq<u8>, w: int, h: int) -> Seq<u8> {
    Seq::new(g.len(), |i: int| blur_at(g, w, h, i / w, i % w) as u8)
}

/// `v * 0.97`, rounded down.
pub open spec fn decay(v: u8) -> u8 {
    (v as int * DECAY_NUM as int / DECAY_DEN as int) as u8
}

pub open spec fn decay_all(g: Seq<u8>) -> Seq<u8> {
    Seq::new(g.len(), |i: int| decay(g[i]))
}

/// Decay applied to the cells in `a` only.
pub open spec fn decay_on(g: Seq<u8>, a: Set<int>) -> Seq<u8> {
    Seq::new(g.len(), |i: int| if a.contains(i) { decay(g[i]) } else { g[i] })
}

pub open spec fn saturating_add(v: u8, amount: u8) -> u8 {
    if v as int + amount as int > 255 {
        255
    } else {
        (v + amount) as u8
    }
}

/// The cells holding a nonzero value.
pub open spec fn nonzero(g: Seq<u8>) -> Set<int> {
    Set::new(|i: int| 0 <= i < g.len() && g[i] > 0)
}

/// Every nonzero cell of `g` is in `a`.
pub open spec fn covers(g: Seq<u8>, a: Set<int>) -> bool {
    forall|i: int| 0 <= i < g.len() && g[i] > 0 ==> #[trigger] a.contains(i)
}

/// Adds `d.2`, saturating, to the cell that `(d.0, d.1)` wraps to.
pub open spec fn deposit(g: Seq<u8>, w: int, h: int, d: (i32, i32, u8)) -> Seq<u8> {
    let i = cell_index(w, h, d.0 as int, d.1 as int);
    g.update(i, saturating_add(g[i], d.2))
}

/// The deposits of `ds`, in order.
pub open spec fn deposit_all(g: Seq<u8>, w: int, h: int, ds: Seq<(i32, i32, u8)>) -> Seq<u8>
    decreases ds.len(),
{
    if ds.len() == 0 {
        g
    } else {
        deposit(deposit_all(g, w, h, ds.drop_last()), w, h, ds.last())
    }
}

/// The cells that the deposits of `ds` land on.
pub open spec fn deposit_cells(w: int, h: int, ds: Seq<(i32, i32, u8)>) -> Set<int> {
    Set::new(|i: int| exists|k: int| 0 <= k < ds.len() && i == #[trigger] cell_index(w, h, ds[k].0 as int, ds[k].1 as int))
}

/// The cell at offset `(e, f)` from cell `i`, wrapped.
pub open spec fn neighbor(w: int, h: int, i: int, e: int, f: int) -> int {
    cell_index(w, h, i / w + e, i % w + f)
}

pub open spec fn in_kernel(e: int, f: int) -> bool {
    -radius() <= e <= radius() && -radius() <= f <= radius()
}

/// The cells under the kernel of a nonzero cell of `a`.
pub open spec fn halo(g: Seq<u8>, w: int, h: int, a: Set<int>) -> Set<int> {
    Set::new(|j: int| exists|i: int, e: int, f: int|
        a.contains(i) && 0 <= i < g.len() && g[i] > 0 && in_kernel(e, f)
            && j == #[trigger] neighbor(w, h, i, e, f))
}

/// The work-queue diffusion pass started from the active cells `a`: the cells
/// of `a` and their spread get their blurred value, every other cell zero.
pub open spec fn sparse_pass(g: Seq<u8>, w: int, h: int, a: Set<int>) -> Seq<u8> {
    Seq::new(g.len(), |j: int|
        if a.contains(j) || halo(g, w, h, a).contains(j) { blur(g, w, h)[j] } else { 0u8 })
}

/// One tick on the whole field: deposits, blur, decay.
pub open spec fn dense_tick(g: Seq<u8>, w: int, h: int, ds: Seq<(i32, i32, u8)>) -> Seq<u8> {
    decay_all(blur(deposit_all(g, w, h, ds), w, h))
}

/// One tick driven by the active set `a`: deposits (their cells join the set),
/// the work-queue pass, the new set of nonzero cells, and decay on that set.
pub open spec fn sparse_tick(g: Seq<u8>, w: int, h: int, a: Set<int>, ds: Seq<(i32, i32, u8)>) -> (Seq<u8>, Set<int>) {
    let g1 = deposit_all(g, w, h, ds);
    let a1 = a.union(deposit_cells(w, h, ds));
    let g2 = sparse_pass(g1, w, h, a1);
    let a2 = nonzero(g2);
    (decay_on(g2, a2), a2)
}

pub open spec fn dense_run(g: Seq<u8>, w: int, h: int, dss: Seq<Seq<(i32, i32, u8)>>) -> Seq<u8>
    decreases dss.len(),
{
    if dss.len() == 0 {
        g
    } else {
        dense_tick(dense_run(g, w, h, dss.drop_last()), w, h, dss.last())
    }
}

pub open spec fn sparse_run(g: Seq<u8>, w: int, h: int, a: Set<int>, dss: Seq<Seq<(i32, i32, u8)>>) -> (Seq<u8>, Set<int>)
    decreases dss.len(),
{
    if dss.len() == 0 {
        (g, a)
    } else {
        let prev = sparse_run(g, w, h, a, dss.drop_last());
        sparse_tick(prev.0, w, h, prev.1, dss.last())
    }
}

/// `v * 0.97`, rounded down, computed exactly on integers.
pub fn decay_value(v: u8) -> (r: u8)
    ensures
        r == decay(v),
{
    (v as u32 * DECAY_NUM / DECAY_DEN) as u8
}

/// Row and column of the cell that `(y, x)` wraps to.
pub proof fn lemma_cell_index_parts(w: int, h: int, y: int, x: int)
    requires
        0 < w,
        0 < h,
    ensures
        cell_index(w, h, y, x) / w == wrap(y, h),
        cell_index(w, h, y, x) % w == wrap(x, w),
{
    lemma_mod_bound(y, h);
    lemma_mod_bound(x, w);
    lemma_fundamental_div_mod_converse(cell_index(w, h, y, x), w, wrap(y, h), wrap(x, w));
}

/// Wrapping before an offset does not change where the offset lands.
pub proof fn lemma_wrap_offset(a: int, b: int, n: int)
    requires
        0 < n,
    ensures
        wrap(wrap(a, n) + b, n) == wrap(a + b, n),
{
    lemma_add_mod_noop(a % n, b, n);
    lemma_mod_twice(a, n);
    lemma_add_mod_noop(a, b, n);
}

/// The cell index of an in-range row and column is the plain row-major index.
pub proof fn lemma_cell_index_plain(w: int, h: int, r: int, c: int)
    requires
        0 < w,
        0 < h,
        0 <= r < h,
        0 <= c < w,
    ensures
        cell_index(w, h, r, c) == r * w + c,
        (r * w + c) / w == r,
        (r * w + c) % w == c,
{
    lemma_fundamental_div_mod_converse(r, h, 0, r);
    lemma_fundamental_div_mod_converse(c, w, 0, c);
    lemma_fundamental_div_mod_converse(r * w + c, w, r, c);
}

/// Row and column of an in-range cell index.
pub proof fn lemma_row_col(w: int, h: int, i: int)
    requires
        0 < w,
        0 < h,
        0 <= i < w * h,
    ensures
        0 <= i / w < h,
        0 <= i % w < w,
        i == (i / w) * w + i % w,
        cell_index(w, h, i / w, i % w) == i,
{
    vstd::arithmetic::div_mod::lemma_fundamental_div_mod(i, w);
    lemma_mod_bound(i, w);
    let r = i / w;
    let c = i % w;
    assert(i == r * w + c) by (nonlinear_arith)
        requires i == w * r + c;
    assert(0 <= r < h) by (nonlinear_arith)
        requires 0 <= i < w * h, 0 < w, i == r * w + c, 0 <= c < w;
    lemma_cell_index_plain(w, h, r, c);
}

/// Stepping from cell `i` by `(e, f)` and back by `(-e, -f)` returns to `i`.
pub proof fn lemma_neighbor_back(w: int, h: int, i: int, e: int, f: int)
    requires
        0 < w,
        0 < h,
        0 <= i < w * h,
    ensures
        neighbor(w, h, neighbor(w, h, i, e, f), -e, -f) == i,
{
    let r = i / w;
    let c = i % w;
    lemma_row_col(w, h, i);
    let j = neighbor(w, h, i, e, f);
    lemma_cell_index_parts(w, h, r + e, c + f);
    lemma_wrap_offset(r + e, -e, h);
    lemma_wrap_offset(c + f, -f, w);
    lemma_cell_index_plain(w, h, r, c);
}

/// A cell that the pass started from a covering set `a` does not reach has no
/// nonzero cell under its kernel, so its blurred value is zero.
pub proof fn lemma_unreached_blurs_to_zero(g: Seq<u8>, w: int, h: int, a: Set<int>, j: int)
    requires
        is_grid(g, w, h),
        covers(g, a),
        0 <= j < g.len(),
        !halo(g, w, h, a).contains(j),
    ensures
        blur(g, w, h)[j] == 0,
{
    let r = j / w;
    let c = j % w;
    assert forall|y: int, x: int|
        r - radius() <= y < r + radius() + 1 && c - radius() <= x < c + radius() + 1 implies at(g, w, h, y, x) == 0 by {
        let i = cell_index(w, h, y, x);
        lemma_cell_index_in_range(w, h, y, x);
        if g[i] > 0 {
            assert(a.contains(i));
            let e = r - y;
            let f = c - x;
            lemma_cell_index_parts(w, h, y, x);
            lemma_neighbor_back(w, h, j, y - r, x - c);
            lemma_row_col(w, h, j);
            assert(j == neighbor(w, h, i, e, f));
            assert(halo(g, w, h, a).contains(j));
        }
    }
    lemma_box_sum_zero(g, w, h, r - radius(), r + radius() + 1, c - radius(), c + radius() + 1);
}

/// Started from a set that holds every nonzero cell, the work-queue pass gives
/// exactly the dense blur.
pub proof fn lemma_sparse_pass_is_blur(g: Seq<u8>, w: int, h: int, a: Set<int>)
    requires
        is_grid(g, w, h),
        covers(g, a),
    ensures
        sparse_pass(g, w, h, a) == blur(g, w, h),
{
    assert forall|j: int| 0 <= j < g.len() implies sparse_pass(g, w, h, a)[j] == blur(g, w, h)[j] by {
        if !a.contains(j) && !halo(g, w, h, a).contains(j) {
            lemma_unreached_blurs_to_zero(g, w, h, a, j);
        }
    }
    assert(sparse_pass(g, w, h, a) =~= blur(g, w, h));
}

/// A deposit sets its cell to `min(255, v + amount)`, so a cell already at 255
/// stays at 255.
pub proof fn lemma_deposit_saturates(g: Seq<u8>, w: int, h: int, y: i32, x: i32, amount: u8)
    requires
        is_grid(g, w, h),
    ensures
        at(deposit(g, w, h, (y, x, amount)), w, h, y as int, x as int) as int
            == if at(g, w, h, y as int, x as int) + amount > 255 { 255 } else {
                at(g, w, h, y as int, x as int) + amount
            },
        at(g, w, h, y as int, x as int) == 255 ==> at(deposit(g, w, h, (y, x, amount)), w, h, y as int, x as int) == 255,
{
    lemma_cell_index_in_range(w, h, y as int, x as int);
}

/// Decay never raises a value, and zero stays zero.
pub proof fn lemma_decay_monotone(v: u8)
    ensures
        decay(v) <= v,
        decay(0) == 0,
{
}

/// Every blurred value lies in `0 ..= 255`.
pub proof fn lemma_blur_bounded(g: Seq<u8>, w: int, h: int, y: int, x: int)
    requires
        is_grid(g, w, h),
    ensures
        0 <= blur_at(g, w, h, y, x) <= 255,
{
    let s = box_sum(g, w, h, y - radius(), y + radius() + 1, x - radius(), x + radius() + 1);
    crate::grid::lemma_box_sum_bound(g, w, h, y - radius(), y + radius() + 1, x - radius(), x + radius() + 1);
    lemma_kernel_area();
    assert(s / kernel_area() >= 0) by (nonlinear_arith)
        requires s >= 0, kernel_area() == 9;
}

/// Deposits keep the shape of the field, and every cell they make nonzero is
/// one they land on.
pub proof fn lemma_deposit_all_covers(g: Seq<u8>, w: int, h: int, a: Set<int>, ds: Seq<(i32, i32, u8)>)
    requires
        is_grid(g, w, h),
        covers(g, a),
    ensures
        is_grid(deposit_all(g, w, h, ds), w, h),
        covers(deposit_all(g, w, h, ds), a.union(deposit_cells(w, h, ds))),
    decreases ds.len(),
{
    if ds.len() > 0 {
        let init = ds.drop_last();
        let d = ds.last();
        lemma_deposit_all_covers(g, w, h, a, init);
        let g0 = deposit_all(g, w, h, init);
        let i = cell_index(w, h, d.0 as int, d.1 as int);
        lemma_cell_index_in_range(w, h, d.0 as int, d.1 as int);
        assert(deposit_cells(w, h, ds).contains(i)) by {
            assert(ds[ds.len() - 1] == d);
        }
        assert forall|j: int| #[trigger] deposit_cells(w, h, init).contains(j) implies deposit_cells(w, h, ds).contains(j) by {
            let k = choose|k: int| 0 <= k < init.len() && j == #[trigger] cell_index(w, h, init[k].0 as int, init[k].1 as int);
            assert(init[k] == ds[k]);
        }
        let g1 = deposit_all(g, w, h, ds);
        assert forall|j: int| 0 <= j < g1.len() && g1[j] > 0 implies #[trigger] a.union(deposit_cells(w, h, ds)).contains(j) by {
            if j != i {
                assert(g0[j] > 0);
                assert(a.union(deposit_cells(w, h, init)).contains(j));
            }
        }
    }
}

/// One tick driven by a covering active set matches the dense tick, and the
/// new active set covers the new field.
pub proof fn lemma_sparse_tick_is_dense(g: Seq<u8>, w: int, h: int, a: Set<int>, ds: Seq<(i32, i32, u8)>)
    requires
        is_grid(g, w, h),
        covers(g, a),
    ensures
        sparse_tick(g, w, h, a, ds).0 == dense_tick(g, w, h, ds),
        is_grid(sparse_tick(g, w, h, a, ds).0, w, h),
        covers(sparse_tick(g, w, h, a, ds).0, sparse_tick(g, w, h, a, ds).1),
{
    let g1 = deposit_all(g, w, h, ds);
    let a1 = a.union(deposit_cells(w, h, ds));
    lemma_deposit_all_covers(g, w, h, a, ds);
    lemma_sparse_pass_is_blur(g1, w, h, a1);
    let g2 = blur(g1, w, h);
    let a2 = nonzero(g2);
    assert(decay_on(g2, a2) =~= decay_all(g2));
}

/// Over any number of ticks and any deposits, the run driven by a covering
/// active set produces the same field as the dense run.
pub proof fn lemma_sparse_run_is_dense(g: Seq<u8>, w: int, h: int, a: Set<int>, dss: Seq<Seq<(i32, i32, u8)>>)
    requires
        is_grid(g, w, h),
        covers(g, a),
    ensures
        sparse_run(g, w, h, a, dss).0 == dense_run(g, w, h, dss),
        is_grid(sparse_run(g, w, h, a, dss).0, w, h),
        covers(sparse_run(g, w, h, a, dss).0, sparse_run(g, w, h, a, dss).1),
    decreases dss.len(),
{
    if dss.len() > 0 {
        lemma_sparse_run_is_dense(g, w, h, a, dss.drop_last());
        let prev = sparse_run(g, w, h, a, dss.drop_last());
        lemma_sparse_tick_is_dense(prev.0, w, h, prev.1, dss.last());
    }
}

/// With no active cell and no deposit, a tick changes nothing and leaves the
/// active set empty.
pub proof fn lemma_idle_tick(g: Seq<u8>, w: int, h: int)
    requires
        is_grid(g, w, h),
        covers(g, Set::empty()),
    ensures
        sparse_tick(g, w, h, Set::empty(), Seq::empty()) == (g, Set::<int>::empty()),
{
    let e = Set::<int>::empty();
    let ds = Seq::<(i32, i32, u8)>::empty();
    assert(deposit_all(g, w, h, ds) == g);
    assert(e.union(deposit_cells(w, h, ds)) =~= e);
    assert(halo(g, w, h, e) =~= e);
    let g2 = sparse_pass(g, w, h, e);
    assert(g2 =~= g);
    assert(nonzero(g2) =~= e);
    assert(decay_on(g2, e) =~= g);
}

} // verus!

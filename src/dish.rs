//! The simulation's field state: the trail grid with its second buffer, the
//! set of active cells, and the work-queue diffusion and decay over them.

use std::collections::VecDeque;
use rand::rngs::ThreadRng;
use vstd::prelude::*;
use vstd::set_lib::{lemma_int_range, lemma_len_subset, set_int_range};
use crate::grid::{at, box_sum, cell_index, is_grid, lemma_cell_index_in_range, wrap, wrap_coord, Vec2d};
use crate::steer::{decide, decision, gen_below, thread_rng, Decision, DRAW_SCALE};
use crate::trail::{
    blur, covers, decay, decay_all, decay_on, decay_value, dense_tick, deposit, deposit_all, deposit_cells,
    halo, in_kernel, kernel_area, lemma_cell_index_plain, lemma_kernel_area, lemma_sparse_tick_is_dense,
    neighbor, nonzero, radius, sparse_pass, sparse_tick, DIFFUSE_RADIUS,
};

verus! {

/// Row-major index of an in-range cell.
pub open spec fn cell_id(c: (i32, i32), w: int) -> int {
    c.0 as int * w + c.1 as int
}

pub open spec fn cell_ids(cs: Seq<(i32, i32)>, w: int) -> Seq<int> {
    cs.map_values(|c: (i32, i32)| cell_id(c, w))
}

/// Every cell of `cs` has its row in `0 .. h` and its column in `0 .. w`.
pub open spec fn in_grid(cs: Seq<(i32, i32)>, w: int, h: int) -> bool {
    forall|k: int| 0 <= k < cs.len() ==> 0 <= #[trigger] cs[k].0 < h && 0 <= cs[k].1 < w
}

/// The in-range cell that `(y, x)` wraps to.
pub open spec fn wrap_cell(y: int, x: int, w: int, h: int) -> (i32, i32) {
    (wrap(y, h) as i32, wrap(x, w) as i32)
}

proof fn lemma_cell_id_of_wrap(w: int, h: int, y: int, x: int)
    requires
        0 < w < i32::MAX,
        0 < h < i32::MAX,
    ensures
        cell_id(wrap_cell(y, x, w, h), w) == cell_index(w, h, y, x),
        0 <= cell_index(w, h, y, x) < w * h,
        0 <= wrap_cell(y, x, w, h).0 < h,
        0 <= wrap_cell(y, x, w, h).1 < w,
{
    lemma_cell_index_in_range(w, h, y, x);
}

proof fn lemma_ids_in_range(cs: Seq<(i32, i32)>, w: int, h: int)
    requires
        0 < w,
        0 < h,
        in_grid(cs, w, h),
    ensures
        forall|k: int| 0 <= k < cs.len() ==> 0 <= #[trigger] cell_ids(cs, w)[k] < w * h,
{
    assert forall|k: int| 0 <= k < cs.len() implies 0 <= #[trigger] cell_ids(cs, w)[k] < w * h by {
        crate::grid::lemma_index_in_range(w, h, cs[k].0 as int, cs[k].1 as int);
    }
}

/// Adds to the end of `queue` each cell of the kernel around
/// `(cy, cx)` that is not yet visited, and marks them visited.
fn spread(visited: &mut Vec2d<bool>, queue: &mut VecDeque<(i32, i32)>, cy: i32, cx: i32)
    requires
        old(visited).wf(),
        0 <= cy < old(visited).height(),
        0 <= cx < old(visited).width(),
        in_grid(old(queue)@, old(visited).width(), old(visited).height()),
    ensures
        final(visited).wf(),
        final(visited).width() == old(visited).width(),
        final(visited).height() == old(visited).height(),
        final(queue)@.len() >= old(queue)@.len(),
        final(queue)@.subrange(0, old(queue)@.len() as int) == old(queue)@,
        in_grid(final(queue)@, old(visited).width(), old(visited).height()),
        ({
            let w = old(visited).width();
            let added = cell_ids(final(queue)@.subrange(old(queue)@.len() as int, final(queue)@.len() as int), w);
            &&& added.no_duplicates()
            &&& forall|k: int| 0 <= k < added.len() ==> !old(visited).cells()[#[trigger] added[k]]
            &&& forall|i: int| 0 <= i < old(visited).cells().len() ==>
                #[trigger] final(visited).cells()[i] == (old(visited).cells()[i] || added.contains(i))
        }),
        forall|e: int, f: int| in_kernel(e, f) ==> final(visited).cells()[
            #[trigger] neighbor(old(visited).width(), old(visited).height(), cy * old(visited).width() + cx, e, f)],
{
    let ghost w = visited.width();
    let ghost h = visited.height();
    let ghost v0 = visited.cells();
    let ghost q0 = queue@;
    let ghost n = v0.len();
    let size_w = visited.size_w();
    let size_h = visited.size_h();
    proof {
        lemma_kernel_area();
    }
    let mut dy: i32 = -DIFFUSE_RADIUS;
    while dy <= DIFFUSE_RADIUS
        invariant
            -radius() <= dy <= radius() + 1,
            0 <= cy < h,
            0 <= cx < w,
            radius() == 1,
            size_w == w,
            size_h == h,
            visited.wf(),
            visited.width() == w,
            visited.height() == h,
            visited.cells().len() == n,
            v0.len() == n,
            q0.len() <= queue@.len(),
            queue@.subrange(0, q0.len() as int) == q0,
            in_grid(queue@, w, h),
            ({
                let added = cell_ids(queue@.subrange(q0.len() as int, queue@.len() as int), w);
                &&& added.no_duplicates()
                &&& forall|k: int| 0 <= k < added.len() ==> !v0[#[trigger] added[k]]
                &&& forall|i: int| 0 <= i < n ==> #[trigger] visited.cells()[i] == (v0[i] || added.contains(i))
            }),
            forall|e: int, f: int| -radius() <= e < dy && -radius() <= f <= radius() ==>
                visited.cells()[#[trigger] cell_index(w, h, cy + e, cx + f)],
        decreases radius() + 1 - dy,
    {
        let mut dx: i32 = -DIFFUSE_RADIUS;
        while dx <= DIFFUSE_RADIUS
            invariant
                -radius() <= dy <= radius(),
                -radius() <= dx <= radius() + 1,
                0 <= cy < h,
                0 <= cx < w,
                radius() == 1,
                size_w == w,
                size_h == h,
                visited.wf(),
                visited.width() == w,
                visited.height() == h,
                visited.cells().len() == n,
                v0.len() == n,
                q0.len() <= queue@.len(),
                queue@.subrange(0, q0.len() as int) == q0,
                in_grid(queue@, w, h),
                ({
                    let added = cell_ids(queue@.subrange(q0.len() as int, queue@.len() as int), w);
                    &&& added.no_duplicates()
                    &&& forall|k: int| 0 <= k < added.len() ==> !v0[#[trigger] added[k]]
                    &&& forall|i: int| 0 <= i < n ==> #[trigger] visited.cells()[i] == (v0[i] || added.contains(i))
                }),
                forall|e: int, f: int| -radius() <= e < dy && -radius() <= f <= radius() ==>
                    visited.cells()[#[trigger] cell_index(w, h, cy + e, cx + f)],
                forall|f: int| -radius() <= f < dx ==>
                    visited.cells()[#[trigger] cell_index(w, h, cy + dy, cx + f)],
            decreases radius() + 1 - dx,
        {
            let wy = wrap_coord(cy + dy, size_h) as i32;
            let wx = wrap_coord(cx + dx, size_w) as i32;
            let ghost c = cell_index(w, h, cy + dy, cx + dx);
            proof {
                lemma_cell_id_of_wrap(w, h, cy + dy, cx + dx);
                lemma_cell_index_plain(w, h, wy as int, wx as int);
            }
            let ghost before = queue@;
            let ghost vis_before = visited.cells();
            if !visited.get(wy, wx) {
                visited.set(wy, wx, true);
                queue.push_back((wy, wx));
                proof {
                    let added0 = cell_ids(before.subrange(q0.len() as int, before.len() as int), w);
                    let added1 = cell_ids(queue@.subrange(q0.len() as int, queue@.len() as int), w);
                    assert(added1 =~= added0.push(c));
                    assert(queue@.subrange(0, q0.len() as int) =~= before.subrange(0, q0.len() as int));
                    assert(!added0.contains(c)) by {
                        if added0.contains(c) {
                            let k = choose|k: int| 0 <= k < added0.len() && added0[k] == c;
                            lemma_ids_in_range(before.subrange(q0.len() as int, before.len() as int), w, h);
                            assert(added0.contains(added0[k]));
                            assert(vis_before[added0[k]]);
                        }
                    }
                    assert forall|e: int, f: int| -radius() <= e < dy && -radius() <= f <= radius() implies
                        visited.cells()[#[trigger] cell_index(w, h, cy + e, cx + f)] by {
                        lemma_cell_index_in_range(w, h, cy + e, cx + f);
                    }
                    assert forall|f: int| -radius() <= f < dx implies
                        visited.cells()[#[trigger] cell_index(w, h, cy + dy, cx + f)] by {
                        lemma_cell_index_in_range(w, h, cy + dy, cx + f);
                    }
                    assert(cell_index(w, h, wy as int, wx as int) == c);
                    assert(visited.cells() == vis_before.update(c, true));
                    assert(0 <= c < n);
                    assert(!vis_before[c]);
                    assert(!v0[c]);
                    assert(added1.no_duplicates());
                    assert forall|i: int| 0 <= i < n implies #[trigger] visited.cells()[i] == (v0[i] || added1.contains(i)) by {
                        if i != c {
                            assert(added1.contains(i) == added0.contains(i)) by {
                                if added1.contains(i) {
                                    let k = choose|k: int| 0 <= k < added1.len() && added1[k] == i;
                                    assert(added0[k] == i);
                                }
                                if added0.contains(i) {
                                    let k = choose|k: int| 0 <= k < added0.len() && added0[k] == i;
                                    assert(added1[k] == i);
                                }
                            }
                        } else {
                            assert(added1[added1.len() - 1] == c);
                            assert(added1.contains(c));
                        }
                    }
                    assert forall|k: int| 0 <= k < queue@.len() implies 0 <= #[trigger] queue@[k].0 < h && 0 <= queue@[k].1 < w by {
                        if k < before.len() {
                            assert(queue@[k] == before[k]);
                        }
                    }
                }
            }
            dx = dx + 1;
        }
        dy = dy + 1;
    }
    proof {
        let i = cy * w + cx;
        lemma_cell_index_plain(w, h, cy as int, cx as int);
        assert forall|e: int, f: int| in_kernel(e, f) implies visited.cells()[#[trigger] neighbor(w, h, i, e, f)] by {
            assert(neighbor(w, h, i, e, f) == cell_index(w, h, cy + e, cx + f));
        }
    }
}

/// The trail field, its second buffer, the cells that the next diffusion pass
/// starts from, and the random source for steering.
pub struct Dish {
    size_w: usize,
    size_h: usize,
    data: Vec2d<u8>,
    data_alt: Vec2d<u8>,
    visited: Vec2d<bool>,
    active_cells: VecDeque<(i32, i32)>,
    rng: ThreadRng,
}

impl Dish {
    pub closed spec fn width(&self) -> int {
        self.size_w as int
    }

    pub closed spec fn height(&self) -> int {
        self.size_h as int
    }

    /// The trail values, row-major.
    pub closed spec fn field(&self) -> Seq<u8> {
        self.data.cells()
    }

    /// The active cells in queue order; a cell may appear more than once.
    pub closed spec fn active(&self) -> Seq<(i32, i32)> {
        self.active_cells@
    }

    /// Row-major indices of the active cells.
    pub open spec fn active_set(&self) -> Set<int> {
        cell_ids(self.active(), self.width()).to_set()
    }

    /// The three buffers are well formed and share the field's shape.
    pub closed spec fn buffers_wf(&self) -> bool {
        &&& self.data.wf()
        &&& self.data_alt.wf()
        &&& self.visited.wf()
        &&& self.data.width() == self.size_w
        &&& self.data.height() == self.size_h
        &&& self.data_alt.width() == self.size_w
        &&& self.data_alt.height() == self.size_h
        &&& self.visited.width() == self.size_w
        &&& self.visited.height() == self.size_h
    }

    /// Between passes no cell is marked visited and the second buffer is zero.
    pub closed spec fn scratch_clear(&self) -> bool {
        &&& forall|i: int| 0 <= i < self.visited.cells().len() ==> !#[trigger] self.visited.cells()[i]
        &&& forall|i: int| 0 <= i < self.data_alt.cells().len() ==> #[trigger] self.data_alt.cells()[i] == 0
    }

    /// The buffers share one shape, the scratch buffers are clear, the active
    /// cells lie in range, and every nonzero cell of the field is active.
    pub open spec fn wf(&self) -> bool {
        &&& self.buffers_wf()
        &&& self.scratch_clear()
        &&& is_grid(self.field(), self.width(), self.height())
        &&& in_grid(self.active(), self.width(), self.height())
        &&& covers(self.field(), self.active_set())
    }

    /// A zeroed `size_w` by `size_h` field whose active cells are `seeds`, wrapped.
    pub fn new(size_w: usize, size_h: usize, seeds: &Vec<(i32, i32)>) -> (d: Dish)
        requires
            0 < size_w < i32::MAX,
            0 < size_h < i32::MAX,
            size_w * size_h <= usize::MAX,
        ensures
            d.wf(),
            d.width() == size_w,
            d.height() == size_h,
            d.field() == Seq::new((size_w * size_h) as nat, |i: int| 0u8),
            d.active() == seeds@.map_values(|c: (i32, i32)| wrap_cell(c.0 as int, c.1 as int, size_w as int, size_h as int)),
    {
        let mut active_cells: VecDeque<(i32, i32)> = VecDeque::new();
        let mut k: usize = 0;
        while k < seeds.len()
            invariant
                k <= seeds@.len(),
                0 < size_w < i32::MAX,
                0 < size_h < i32::MAX,
                active_cells@ == seeds@.subrange(0, k as int).map_values(
                    |c: (i32, i32)| wrap_cell(c.0 as int, c.1 as int, size_w as int, size_h as int)),
            decreases seeds@.len() - k,
        {
            let (y, x) = seeds[k];
            let wy = wrap_coord(y, size_h) as i32;
            let wx = wrap_coord(x, size_w) as i32;
            active_cells.push_back((wy, wx));
            k = k + 1;
            assert(active_cells@ =~= seeds@.subrange(0, k as int).map_values(
                |c: (i32, i32)| wrap_cell(c.0 as int, c.1 as int, size_w as int, size_h as int)));
        }
        assert(seeds@.subrange(0, k as int) =~= seeds@);
        let d = Dish {
            size_w,
            size_h,
            data: Vec2d::new(size_w, size_h, 0u8),
            data_alt: Vec2d::new(size_w, size_h, 0u8),
            visited: Vec2d::new(size_w, size_h, false),
            active_cells,
            rng: thread_rng(),
        };
        proof {
            assert forall|k: int| 0 <= k < d.active().len() implies
                0 <= #[trigger] d.active()[k].0 < size_h && 0 <= d.active()[k].1 < size_w by {
                lemma_cell_id_of_wrap(size_w as int, size_h as int, seeds@[k].0 as int, seeds@[k].1 as int);
            }
        }
        d
    }

    pub fn size_w(&self) -> (r: usize)
        ensures
            r == self.width(),
    {
        self.size_w
    }

    pub fn size_h(&self) -> (r: usize)
        ensures
            r == self.height(),
    {
        self.size_h
    }

    /// The trail value of the cell that `(y, x)` wraps to.
    pub fn get(&self, y: i32, x: i32) -> (v: u8)
        requires
            self.wf(),
        ensures
            v == at(self.field(), self.width(), self.height(), y as int, x as int),
    {
        self.data.get(y, x)
    }

    /// Sum of the trail over the box `y0 .. y1` by `x0 .. x1` (end-exclusive), wrapped.
    pub fn box_sum(&self, y0: i32, y1: i32, x0: i32, x1: i32) -> (r: u64)
        requires
            self.wf(),
            y0 <= y1,
            x0 <= x1,
            (y1 - y0) * (x1 - x0) <= u32::MAX,
        ensures
            r == box_sum(self.field(), self.width(), self.height(), y0 as int, y1 as int, x0 as int, x1 as int),
    {
        self.data.box_sum(y0, y1, x0, x1)
    }

    /// Draws `d` uniformly from `0 .. DRAW_SCALE` and steers by
    /// `decide(left, center, right, d)`. The field is not touched.
    pub fn steer(&mut self, left: u64, center: u64, right: u64) -> (d: Decision)
        requires
            old(self).wf(),
        ensures
            final(self).wf(),
            final(self).width() == old(self).width(),
            final(self).height() == old(self).height(),
            final(self).field() == old(self).field(),
            final(self).active() == old(self).active(),
            exists|draw: u64| draw < DRAW_SCALE && d == decision(left, center, right, draw),
    {
        let draw = gen_below(&mut self.rng, DRAW_SCALE);
        decide(left, center, right, draw)
    }

    /// The active cells in queue order.
    pub fn active_cells(&self) -> (r: Vec<(i32, i32)>)
        ensures
            r@ == self.active(),
    {
        let mut r: Vec<(i32, i32)> = Vec::new();
        let mut k: usize = 0;
        while k < self.active_cells.len()
            invariant
                k <= self.active_cells@.len(),
                r@ == self.active_cells@.subrange(0, k as int),
            decreases self.active_cells@.len() - k,
        {
            r.push(self.active_cells[k]);
            k = k + 1;
            assert(r@ =~= self.active_cells@.subrange(0, k as int));
        }
        assert(r@ =~= self.active_cells@);
        r
    }

    /// Adds `amount`, saturating at 255, to the cell that `(y, x)` wraps to,
    /// and makes that cell active.
    pub fn deposit(&mut self, y: i32, x: i32, amount: u8)
        requires
            old(self).wf(),
        ensures
            final(self).wf(),
            final(self).width() == old(self).width(),
            final(self).height() == old(self).height(),
            final(self).field() == deposit(old(self).field(), old(self).width(), old(self).height(), (y, x, amount)),
            final(self).active() == old(self).active().push(
                wrap_cell(y as int, x as int, old(self).width(), old(self).height())),
    {
        let ghost w = self.width();
        let ghost h = self.height();
        let ghost g0 = self.field();
        let ghost a0 = self.active();
        let v = self.data.get(y, x);
        self.data.set(y, x, v.saturating_add(amount));
        let wy = wrap_coord(y, self.size_h) as i32;
        let wx = wrap_coord(x, self.size_w) as i32;
        self.active_cells.push_back((wy, wx));
        proof {
            let c = cell_index(w, h, y as int, x as int);
            lemma_cell_id_of_wrap(w, h, y as int, x as int);
            assert(self.field() == deposit(g0, w, h, (y, x, amount)));
            let ids = cell_ids(self.active(), w);
            assert(ids =~= cell_ids(a0, w).push(c));
            assert(ids[ids.len() - 1] == c);
            assert forall|i: int| 0 <= i < self.field().len() && self.field()[i] > 0 implies
                #[trigger] self.active_set().contains(i) by {
                if i != c {
                    assert(cell_ids(a0, w).to_set().contains(i));
                    let k = choose|k: int| 0 <= k < cell_ids(a0, w).len() && cell_ids(a0, w)[k] == i;
                    assert(ids[k] == i);
                }
                assert(ids.contains(i));
            }
            assert forall|k: int| 0 <= k < self.active().len() implies
                0 <= #[trigger] self.active()[k].0 < h && 0 <= self.active()[k].1 < w by {
                if k < a0.len() {
                    assert(self.active()[k] == a0[k]);
                }
            }
        }
    }
    /// Moves the active cells into a queue without repeats, marking each
    /// visited.
    fn take_queue(&mut self) -> (queue: VecDeque<(i32, i32)>)
        requires
            old(self).wf(),
        ensures
            final(self).buffers_wf(),
            final(self).size_w == old(self).size_w,
            final(self).size_h == old(self).size_h,
            final(self).data == old(self).data,
            final(self).data_alt == old(self).data_alt,
            final(self).active_cells@ == Seq::<(i32, i32)>::empty(),
            in_grid(queue@, old(self).width(), old(self).height()),
            cell_ids(queue@, old(self).width()).no_duplicates(),
            forall|i: int| 0 <= i < old(self).field().len() ==>
                #[trigger] final(self).visited.cells()[i] == cell_ids(queue@, old(self).width()).contains(i),
            forall|i: int| #[trigger] old(self).active_set().contains(i) ==> cell_ids(queue@, old(self).width()).contains(i),
    {
        let ghost w = self.width();
        let ghost h = self.height();
        let ghost a0 = self.active_cells@;
        let ghost n = self.field().len();
        let ghost d0 = self.data;
        let ghost alt0 = self.data_alt;
        let mut queue: VecDeque<(i32, i32)> = VecDeque::new();
        let mut k: usize = 0;
        while k < self.active_cells.len()
            invariant
                self.buffers_wf(),
                self.data == d0,
                self.data_alt == alt0,
                self.size_w == old(self).size_w,
                self.size_h == old(self).size_h,
                self.active_cells@ == a0,
                in_grid(a0, w, h),
                is_grid(self.field(), w, h),
                n == self.field().len(),
                w == self.width(),
                h == self.height(),
                k <= a0.len(),
                in_grid(queue@, w, h),
                cell_ids(queue@, w).no_duplicates(),
                forall|i: int| 0 <= i < n ==> #[trigger] self.visited.cells()[i] == cell_ids(queue@, w).contains(i),
                forall|j: int| 0 <= j < k ==> cell_ids(queue@, w).contains(#[trigger] cell_id(a0[j], w)),
            decreases a0.len() - k,
        {
            let (y, x) = self.active_cells[k];
            let ghost c = cell_id((y, x), w);
            proof {
                lemma_cell_index_plain(w, h, y as int, x as int);
                crate::grid::lemma_index_in_range(w, h, y as int, x as int);
            }
            let ghost q_before = queue@;
            let ghost v_before = self.visited.cells();
            if !self.visited.get(y, x) {
                self.visited.set(y, x, true);
                queue.push_back((y, x));
                proof {
                    let ids0 = cell_ids(q_before, w);
                    let ids1 = cell_ids(queue@, w);
                    assert(ids1 =~= ids0.push(c));
                    assert(ids1[ids1.len() - 1] == c);
                    assert(!ids0.contains(c));
                    assert forall|i: int| ids0.contains(i) implies ids1.contains(i) by {
                        let m = choose|m: int| 0 <= m < ids0.len() && ids0[m] == i;
                        assert(ids1[m] == i);
                    }
                    assert forall|i: int| ids1.contains(i) && i != c implies ids0.contains(i) by {
                        let m = choose|m: int| 0 <= m < ids1.len() && ids1[m] == i;
                        assert(ids0[m] == i);
                    }
                    assert forall|i: int| 0 <= i < n implies #[trigger] self.visited.cells()[i] == ids1.contains(i) by {
                        if i == c {
                            assert(ids1.contains(c));
                        }
                    }
                    assert forall|m: int| 0 <= m < queue@.len() implies
                        0 <= #[trigger] queue@[m].0 < h && 0 <= queue@[m].1 < w by {
                        if m < q_before.len() {
                            assert(queue@[m] == q_before[m]);
                        }
                    }
                }
            }
            k = k + 1;
        }
        self.active_cells.clear();
        proof {
            assert forall|i: int| #[trigger] old(self).active_set().contains(i) implies cell_ids(queue@, w).contains(i) by {
                let j = choose|j: int| 0 <= j < cell_ids(a0, w).len() && cell_ids(a0, w)[j] == i;
                assert(cell_id(a0[j], w) == i);
            }
        }
        queue
    }
    /// One diffusion pass driven by the active cells. Each queued cell gets
    /// the truncated mean of its 3 by 3 neighbourhood in the current buffer,
    /// written to the other buffer; a nonzero queued cell queues its unvisited
    /// neighbours. The buffers then swap, the active cells become the cells
    /// whose new value is nonzero, and the visited marks and the old buffer
    /// are cleared on the touched cells only, so the pass costs time in
    /// proportion to the cells it visits.
    pub fn diffuse(&mut self)
        requires
            old(self).wf(),
        ensures
            final(self).wf(),
            final(self).width() == old(self).width(),
            final(self).height() == old(self).height(),
            final(self).field() == blur(old(self).field(), old(self).width(), old(self).height()),
            final(self).field() == sparse_pass(old(self).field(), old(self).width(), old(self).height(), old(self).active_set()),
            final(self).active_set() == nonzero(final(self).field()),
            cell_ids(final(self).active(), final(self).width()).no_duplicates(),
    {
        let ghost w = self.width();
        let ghost h = self.height();
        let ghost g = self.field();
        let ghost n = g.len();
        let ghost a0 = self.active_set();
        let ghost bl = blur(g, w, h);
        proof {
            lemma_kernel_area();
            lemma_ids_in_range(self.active(), w, h);
        }
        assert(self.active_set() == a0);
        let ghost pre = *self;
        let mut queue = self.take_queue();
        proof {
            assert(pre.active_set() == a0);
            assert forall|i: int| #[trigger] a0.contains(i) implies cell_ids(queue@, w).contains(i) by {
                assert(pre.active_set().contains(i));
            }
            lemma_ids_in_range(queue@, w, h);
            assert forall|i: int| #[trigger] a0.contains(i) implies 0 <= i < n && self.visited.cells()[i] by {
                assert(cell_ids(queue@, w).contains(i));
                let k = choose|k: int| 0 <= k < cell_ids(queue@, w).len() && cell_ids(queue@, w)[k] == i;
                assert(0 <= cell_ids(queue@, w)[k] < n);
            }
        }
        let mut next: VecDeque<(i32, i32)> = VecDeque::new();
        let mut touched: Vec<(i32, i32)> = Vec::new();
        let ghost mut done: Set<int> = Set::empty();
        let area: u64 = ((2 * DIFFUSE_RADIUS + 1) * (2 * DIFFUSE_RADIUS + 1)) as u64;
        while queue.len() > 0
            invariant
                self.buffers_wf(),
                self.size_w == w,
                self.size_h == h,
                self.data.cells() == g,
                is_grid(g, w, h),
                n == g.len(),
                covers(g, a0),
                bl == blur(g, w, h),
                radius() == 1,
                kernel_area() == 9,
                area == 9,
                in_grid(queue@, w, h),
                in_grid(next@, w, h),
                cell_ids(queue@, w).no_duplicates(),
                cell_ids(next@, w).no_duplicates(),
                done.finite(),
                forall|i: int| #[trigger] done.contains(i) ==> 0 <= i < n,
                forall|i: int| 0 <= i < n ==>
                    #[trigger] self.visited.cells()[i] == (done.contains(i) || cell_ids(queue@, w).contains(i)),
                forall|k: int| 0 <= k < queue@.len() ==> !done.contains(#[trigger] cell_ids(queue@, w)[k]),
                forall|i: int| 0 <= i < n ==>
                    #[trigger] self.data_alt.cells()[i] == if done.contains(i) { bl[i] } else { 0u8 },
                forall|i: int, e: int, f: int| done.contains(i) && g[i] > 0 && in_kernel(e, f) ==>
                    self.visited.cells()[#[trigger] neighbor(w, h, i, e, f)],
                forall|i: int| #[trigger] a0.contains(i) ==> 0 <= i < n && self.visited.cells()[i],
                forall|i: int| #[trigger] cell_ids(next@, w).contains(i) <==> (done.contains(i) && bl[i] > 0),
                in_grid(touched@, w, h),
                forall|i: int| #[trigger] cell_ids(touched@, w).contains(i) <==> done.contains(i),
            decreases n - done.len(),
        {
            let ghost q_before = queue@;
            let ghost vis_before = self.visited.cells();
            let ghost next_before = next@;
            let ghost touched_before = touched@;
            let (cy, cx) = queue.pop_front().unwrap();
            let ghost p = cell_id((cy, cx), w);
            let ghost q_popped = queue@;
            proof {
                lemma_cell_index_plain(w, h, cy as int, cx as int);
                crate::grid::lemma_index_in_range(w, h, cy as int, cx as int);
                assert(cell_ids(q_before, w)[0] == p);
                assert(cell_ids(q_popped, w) =~= cell_ids(q_before, w).subrange(1, q_before.len() as int));
                assert(!done.contains(p));
            }
            let sum = self.data.box_sum(
                cy - DIFFUSE_RADIUS,
                cy + DIFFUSE_RADIUS + 1,
                cx - DIFFUSE_RADIUS,
                cx + DIFFUSE_RADIUS + 1,
            );
            if self.data.get(cy, cx) > 0 {
                spread(&mut self.visited, &mut queue, cy, cx);
            }
            let ghost q_after = queue@;
            let ghost vis_after = self.visited.cells();
            let m = sum / area;
            let v: u8 = if m > 255 {
                255
            } else {
                m as u8
            };
            proof {
                crate::trail::lemma_blur_bounded(g, w, h, cy as int, cx as int);
                assert(v == bl[p]);
            }
            self.data_alt.set(cy, cx, v);
            if v > 0 {
                next.push_back((cy, cx));
            }
            touched.push((cy, cx));
            proof {
                let ids_b = cell_ids(q_before, w);
                let ids_p = cell_ids(q_popped, w);
                let ids_a = cell_ids(q_after, w);
                let added = cell_ids(q_after.subrange(q_popped.len() as int, q_after.len() as int), w);
                assert(q_after.len() >= q_popped.len());
                assert(q_after.subrange(0, q_popped.len() as int) == q_popped);
                assert(ids_a =~= ids_p + added);
                assert(vis_before[p]);
                // membership in the queue after the pop and after spreading
                assert forall|i: int| ids_p.contains(i) implies ids_b.contains(i) && i != p by {
                    let k = choose|k: int| 0 <= k < ids_p.len() && ids_p[k] == i;
                    assert(ids_b[k + 1] == i);
                }
                assert forall|i: int| ids_b.contains(i) && i != p implies ids_p.contains(i) by {
                    let k = choose|k: int| 0 <= k < ids_b.len() && ids_b[k] == i;
                    assert(k != 0);
                    assert(ids_p[k - 1] == i);
                }
                assert forall|i: int| 0 <= i < n implies #[trigger] vis_after[i] == (vis_before[i] || added.contains(i)) by {
                    if self.data.cells()[p] == 0 {
                        assert(added =~= Seq::<int>::empty());
                    }
                }
                assert forall|k: int| 0 <= k < added.len() implies !vis_before[#[trigger] added[k]] by {
                    if self.data.cells()[p] == 0 {
                        assert(added =~= Seq::<int>::empty());
                    }
                }
                lemma_ids_in_range(q_after, w, h);
                assert forall|i: int| ids_a.contains(i) implies ids_p.contains(i) || added.contains(i) by {
                    let k = choose|k: int| 0 <= k < ids_a.len() && ids_a[k] == i;
                    if k < ids_p.len() {
                        assert(ids_p[k] == i);
                    } else {
                        assert(added[k - ids_p.len()] == i);
                    }
                }
                assert forall|i: int| ids_p.contains(i) implies ids_a.contains(i) by {
                    let k = choose|k: int| 0 <= k < ids_p.len() && ids_p[k] == i;
                    assert(ids_a[k] == i);
                }
                assert forall|i: int| added.contains(i) implies ids_a.contains(i) by {
                    let k = choose|k: int| 0 <= k < added.len() && added[k] == i;
                    assert(ids_a[k + ids_p.len()] == i);
                }
                assert forall|k: int| 0 <= k < added.len() implies 0 <= #[trigger] added[k] < n by {
                    assert(added[k] == ids_a[k + ids_p.len()]);
                }
                // the queue stays free of repeats
                assert(ids_a.no_duplicates()) by {
                    assert forall|a: int, b: int| 0 <= a < b < ids_a.len() implies ids_a[a] != ids_a[b] by {
                        if b >= ids_p.len() && a < ids_p.len() {
                            let i = ids_a[a];
                            assert(ids_p[a] == i);
                            assert(ids_p.contains(i));
                            assert(ids_b.contains(i));
                            assert(vis_before[i]);
                            assert(added[b - ids_p.len()] == ids_a[b]);
                        } else if b >= ids_p.len() {
                            assert(added[a - ids_p.len()] == ids_a[a]);
                            assert(added[b - ids_p.len()] == ids_a[b]);
                        } else {
                            assert(ids_p[a] == ids_b[a + 1]);
                            assert(ids_p[b] == ids_b[b + 1]);
                        }
                    }
                }
                let done1 = done.insert(p);
                assert forall|k: int| 0 <= k < q_after.len() implies !done1.contains(#[trigger] ids_a[k]) by {
                    let i = ids_a[k];
                    assert(ids_a.contains(i));
                    if k < ids_p.len() {
                        assert(ids_p[k] == i);
                        assert(ids_p.contains(i));
                        let kb = k + 1;
                        assert(ids_b[kb] == i);
                    } else {
                        assert(added[k - ids_p.len()] == i);
                        assert(!vis_before[i]);
                    }
                }
                assert forall|i: int| 0 <= i < n implies
                    #[trigger] self.visited.cells()[i] == (done1.contains(i) || ids_a.contains(i)) by {
                    if i != p && ids_b.contains(i) {
                        assert(ids_p.contains(i));
                    }
                }
                assert(forall|i: int| 0 <= i < n ==>
                    #[trigger] self.data_alt.cells()[i] == if done1.contains(i) { bl[i] } else { 0u8 });
                assert forall|i: int, e: int, f: int| done1.contains(i) && g[i] > 0 && in_kernel(e, f) implies
                    self.visited.cells()[#[trigger] neighbor(w, h, i, e, f)] by {
                    lemma_cell_index_in_range(w, h, i / w + e, i % w + f);
                    if i == p {
                        assert(p / w == cy && p % w == cx);
                        assert(p == cy * w + cx);
                    } else {
                        assert(vis_before[neighbor(w, h, i, e, f)]);
                    }
                }
                assert forall|i: int| #[trigger] a0.contains(i) implies 0 <= i < n && self.visited.cells()[i] by {
                    assert(vis_before[i]);
                }
                let ids_nb = cell_ids(next_before, w);
                let ids_n = cell_ids(next@, w);
                if v > 0 {
                    assert(ids_n =~= ids_nb.push(p));
                    assert(ids_n[ids_n.len() - 1] == p);
                    assert(!ids_nb.contains(p));
                    assert forall|i: int| #[trigger] ids_n.contains(i) <==> (done1.contains(i) && bl[i] > 0) by {
                        if ids_n.contains(i) && i != p {
                            let k = choose|k: int| 0 <= k < ids_n.len() && ids_n[k] == i;
                            assert(ids_nb[k] == i);
                        }
                        if ids_nb.contains(i) {
                            let k = choose|k: int| 0 <= k < ids_nb.len() && ids_nb[k] == i;
                            assert(ids_n[k] == i);
                        }
                        if i == p {
                            assert(ids_n.contains(p));
                        }
                    }
                    assert forall|k: int| 0 <= k < next@.len() implies
                        0 <= #[trigger] next@[k].0 < h && 0 <= next@[k].1 < w by {
                        if k < next_before.len() {
                            assert(next@[k] == next_before[k]);
                        }
                    }
                } else {
                    assert(ids_n == ids_nb);
                }
                let ids_tb = cell_ids(touched_before, w);
                let ids_t = cell_ids(touched@, w);
                assert(ids_t =~= ids_tb.push(p));
                assert forall|i: int| #[trigger] ids_t.contains(i) <==> done1.contains(i) by {
                    if ids_t.contains(i) && i != p {
                        let k = choose|k: int| 0 <= k < ids_t.len() && ids_t[k] == i;
                        assert(ids_tb[k] == i);
                    }
                    if ids_tb.contains(i) {
                        let k = choose|k: int| 0 <= k < ids_tb.len() && ids_tb[k] == i;
                        assert(ids_t[k] == i);
                    }
                    if i == p {
                        assert(ids_t[ids_t.len() - 1] == p);
                    }
                }
                assert forall|k: int| 0 <= k < touched@.len() implies
                    0 <= #[trigger] touched@[k].0 < h && 0 <= touched@[k].1 < w by {
                    if k < touched_before.len() {
                        assert(touched@[k] == touched_before[k]);
                    }
                }
                lemma_int_range(0, n as int);
                lemma_len_subset(done, set_int_range(0, n as int));
                lemma_len_subset(done1, set_int_range(0, n as int));
                done = done1;
            }
        }
        proof {
            assert forall|j: int| 0 <= j < n implies #[trigger] self.data_alt.cells()[j] == bl[j] by {
                if !done.contains(j) {
                    assert(!self.visited.cells()[j]);
                    assert(!a0.contains(j));
                    if halo(g, w, h, a0).contains(j) {
                        let (i, e, f) = choose|i: int, e: int, f: int|
                            a0.contains(i) && 0 <= i < g.len() && g[i] > 0 && in_kernel(e, f)
                                && j == #[trigger] neighbor(w, h, i, e, f);
                        assert(self.visited.cells()[i]);
                        assert(self.visited.cells()[neighbor(w, h, i, e, f)]);
                    }
                    crate::trail::lemma_unreached_blurs_to_zero(g, w, h, a0, j);
                }
            }
            assert(self.data_alt.cells() =~= bl);
            crate::trail::lemma_sparse_pass_is_blur(g, w, h, a0);
        }
        let ghost next_final = next@;
        self.active_cells = next;
        std::mem::swap(&mut self.data, &mut self.data_alt);
        proof {
            let ids = cell_ids(self.active(), w);
            assert forall|i: int| #[trigger] self.active_set().contains(i) == nonzero(self.field()).contains(i) by {
                if ids.contains(i) {
                    assert(done.contains(i));
                }
                if nonzero(self.field()).contains(i) {
                    assert(bl[i] > 0);
                    if !done.contains(i) {
                        assert(self.field()[i] == 0u8);
                    }
                }
            }
            assert(self.active_set() =~= nonzero(self.field()));
            assert forall|i: int| 0 <= i < n && g[i] > 0 implies #[trigger] done.contains(i) by {
                assert(a0.contains(i));
            }
            assert(cell_ids(next_final, w).to_set() == nonzero(bl));
        }
        // Clear the marks and the old buffer on the touched cells only.
        let mut k: usize = 0;
        while k < touched.len()
            invariant
                self.buffers_wf(),
                self.size_w == w,
                self.size_h == h,
                self.data.cells() == bl,
                self.active_cells@ == next_final,
                is_grid(g, w, h),
                n == g.len(),
                k <= touched@.len(),
                in_grid(touched@, w, h),
                forall|i: int| #[trigger] cell_ids(touched@, w).contains(i) <==> done.contains(i),
                forall|i: int| 0 <= i < n && g[i] > 0 ==> #[trigger] done.contains(i),
                forall|i: int| 0 <= i < n ==> #[trigger] self.visited.cells()[i]
                    == (done.contains(i) && !cell_ids(touched@.subrange(0, k as int), w).contains(i)),
                forall|i: int| 0 <= i < n ==> #[trigger] self.data_alt.cells()[i]
                    == if cell_ids(touched@.subrange(0, k as int), w).contains(i) { 0u8 } else { g[i] },
            decreases touched@.len() - k,
        {
            let (y, x) = touched[k];
            proof {
                lemma_cell_index_plain(w, h, y as int, x as int);
                crate::grid::lemma_index_in_range(w, h, y as int, x as int);
            }
            self.visited.set(y, x, false);
            self.data_alt.set(y, x, 0);
            proof {
                let c = cell_id((y, x), w);
                let s0 = cell_ids(touched@.subrange(0, k as int), w);
                let s1 = cell_ids(touched@.subrange(0, k as int + 1), w);
                assert(s1 =~= s0.push(c));
                assert(cell_ids(touched@, w)[k as int] == c);
                assert(cell_ids(touched@, w).contains(c));
                assert(done.contains(c));
                assert forall|i: int| #[trigger] s1.contains(i) <==> (s0.contains(i) || i == c) by {
                    if s1.contains(i) && i != c {
                        let j = choose|j: int| 0 <= j < s1.len() && s1[j] == i;
                        assert(s0[j] == i);
                    }
                    if s0.contains(i) {
                        let j = choose|j: int| 0 <= j < s0.len() && s0[j] == i;
                        assert(s1[j] == i);
                    }
                    if i == c {
                        assert(s1[s1.len() - 1] == c);
                    }
                }
            }
            k = k + 1;
        }
        proof {
            assert(touched@.subrange(0, k as int) =~= touched@);
            assert forall|i: int| 0 <= i < n implies !#[trigger] self.visited.cells()[i] by {
                if done.contains(i) {
                    assert(cell_ids(touched@, w).contains(i));
                }
            }
            assert forall|i: int| 0 <= i < n implies #[trigger] self.data_alt.cells()[i] == 0 by {
                if !cell_ids(touched@, w).contains(i) {
                    assert(!done.contains(i));
                }
            }
        }
    }
    /// Decays each active cell once; the other cells are zero or unchanged.
    pub fn decay(&mut self)
        requires
            old(self).wf(),
            cell_ids(old(self).active(), old(self).width()).no_duplicates(),
        ensures
            final(self).wf(),
            final(self).width() == old(self).width(),
            final(self).height() == old(self).height(),
            final(self).active() == old(self).active(),
            final(self).field() == decay_on(old(self).field(), old(self).active_set()),
    {
        let ghost w = self.width();
        let ghost h = self.height();
        let ghost g = self.field();
        let ghost n = g.len();
        let ghost a = self.active();
        let ghost ids = cell_ids(a, w);
        proof {
            lemma_ids_in_range(a, w, h);
        }
        let mut k: usize = 0;
        while k < self.active_cells.len()
            invariant
                self.buffers_wf(),
                self.size_w == w,
                self.size_h == h,
                self.active_cells@ == a,
                self.visited == old(self).visited,
                self.data_alt == old(self).data_alt,
                ids == cell_ids(a, w),
                ids.no_duplicates(),
                in_grid(a, w, h),
                is_grid(g, w, h),
                n == g.len(),
                self.field().len() == n,
                k <= a.len(),
                forall|j: int| 0 <= j < a.len() ==> 0 <= #[trigger] ids[j] < n,
                forall|i: int| 0 <= i < n ==> #[trigger] self.field()[i] ==
                    if ids.subrange(0, k as int).contains(i) { decay(g[i]) } else { g[i] },
            decreases a.len() - k,
        {
            let (y, x) = self.active_cells[k];
            let ghost c = ids[k as int];
            proof {
                lemma_cell_index_plain(w, h, y as int, x as int);
                assert(!ids.subrange(0, k as int).contains(c)) by {
                    if ids.subrange(0, k as int).contains(c) {
                        let j = choose|j: int| 0 <= j < k && ids.subrange(0, k as int)[j] == c;
                        assert(ids[j] == ids[k as int]);
                    }
                }
            }
            let v = self.data.get(y, x);
            self.data.set(y, x, decay_value(v));
            proof {
                let s0 = ids.subrange(0, k as int);
                let s1 = ids.subrange(0, k as int + 1);
                assert forall|i: int| 0 <= i < n implies #[trigger] self.field()[i] ==
                    if s1.contains(i) { decay(g[i]) } else { g[i] } by {
                    if s1.contains(i) && i != c {
                        let j = choose|j: int| 0 <= j < s1.len() && s1[j] == i;
                        assert(s0[j] == i);
                    }
                    if s0.contains(i) {
                        let j = choose|j: int| 0 <= j < s0.len() && s0[j] == i;
                        assert(s1[j] == i);
                    }
                    if i == c {
                        assert(s1[k as int] == c);
                    }
                }
            }
            k = k + 1;
        }
        proof {
            assert(ids.subrange(0, k as int) =~= ids);
            assert(self.field() =~= decay_on(g, self.active_set()));
            assert forall|i: int| 0 <= i < n && self.field()[i] > 0 implies
                #[trigger] self.active_set().contains(i) by {
                crate::trail::lemma_decay_monotone(g[i]);
            }
        }
    }

    /// Decays every cell of the field.
    pub fn decay_nsquared(&mut self)
        requires
            old(self).wf(),
        ensures
            final(self).wf(),
            final(self).width() == old(self).width(),
            final(self).height() == old(self).height(),
            final(self).active() == old(self).active(),
            final(self).field() == decay_all(old(self).field()),
    {
        let ghost w = self.width();
        let ghost h = self.height();
        let ghost g = self.field();
        let ghost n = g.len();
        let mut y: i32 = 0;
        while y < self.size_h as i32
            invariant
                self.buffers_wf(),
                self.size_w == w,
                self.size_h == h,
                self.active_cells@ == old(self).active_cells@,
                self.visited == old(self).visited,
                self.data_alt == old(self).data_alt,
                is_grid(g, w, h),
                n == g.len(),
                self.field().len() == n,
                0 <= y <= h,
                forall|i: int| 0 <= i < n ==> #[trigger] self.field()[i] ==
                    if i < y * w { decay(g[i]) } else { g[i] },
            decreases h - y,
        {
            let mut x: i32 = 0;
            while x < self.size_w as i32
                invariant
                    self.buffers_wf(),
                    self.size_w == w,
                    self.size_h == h,
                    self.active_cells@ == old(self).active_cells@,
                    self.visited == old(self).visited,
                    self.data_alt == old(self).data_alt,
                self.visited == old(self).visited,
                self.data_alt == old(self).data_alt,
                    is_grid(g, w, h),
                    n == g.len(),
                    self.field().len() == n,
                    0 <= y < h,
                    0 <= x <= w,
                    forall|i: int| 0 <= i < n ==> #[trigger] self.field()[i] ==
                        if i < y * w + x { decay(g[i]) } else { g[i] },
                decreases w - x,
            {
                proof {
                    lemma_cell_index_plain(w, h, y as int, x as int);
                    crate::grid::lemma_index_in_range(w, h, y as int, x as int);
                }
                let v = self.data.get(y, x);
                self.data.set(y, x, decay_value(v));
                x = x + 1;
            }
            proof {
                assert(y * w + w == (y + 1) * w) by (nonlinear_arith);
            }
            y = y + 1;
        }
        proof {
            assert(h * w == n) by (nonlinear_arith)
                requires n == w * h;
            assert(self.field() =~= decay_all(g));
            assert forall|i: int| 0 <= i < n && self.field()[i] > 0 implies
                #[trigger] self.active_set().contains(i) by {
                crate::trail::lemma_decay_monotone(g[i]);
            }
        }
    }
    /// The nonzero cells of the field, in row-major order.
    fn nonzero_cells(&self) -> (q: VecDeque<(i32, i32)>)
        requires
            self.buffers_wf(),
        ensures
            in_grid(q@, self.width(), self.height()),
            cell_ids(q@, self.width()).no_duplicates(),
            cell_ids(q@, self.width()).to_set() == nonzero(self.field()),
    {
        let ghost w = self.width();
        let ghost h = self.height();
        let ghost g = self.field();
        let ghost n = g.len();
        let mut q: VecDeque<(i32, i32)> = VecDeque::new();
        let mut y: i32 = 0;
        while y < self.size_h as i32
            invariant
                self.buffers_wf(),
                is_grid(self.field(), self.width(), self.height()),
                w == self.width(),
                h == self.height(),
                g == self.field(),
                n == g.len(),
                0 <= y <= h,
                in_grid(q@, w, h),
                forall|k: int| 0 <= k < q@.len() ==> #[trigger] cell_ids(q@, w)[k] < y * w,
                cell_ids(q@, w).no_duplicates(),
                forall|i: int| #[trigger] cell_ids(q@, w).contains(i) <==> (0 <= i < y * w && g[i] > 0),
            decreases h - y,
        {
            let mut x: i32 = 0;
            while x < self.size_w as i32
                invariant
                    self.buffers_wf(),
                is_grid(self.field(), self.width(), self.height()),
                    w == self.width(),
                    h == self.height(),
                    g == self.field(),
                    n == g.len(),
                    0 <= y < h,
                    0 <= x <= w,
                    in_grid(q@, w, h),
                    forall|k: int| 0 <= k < q@.len() ==> #[trigger] cell_ids(q@, w)[k] < y * w + x,
                    cell_ids(q@, w).no_duplicates(),
                    forall|i: int| #[trigger] cell_ids(q@, w).contains(i) <==> (0 <= i < y * w + x && g[i] > 0),
                decreases w - x,
            {
                proof {
                    lemma_cell_index_plain(w, h, y as int, x as int);
                    crate::grid::lemma_index_in_range(w, h, y as int, x as int);
                }
                let ghost q0 = q@;
                if self.data.get(y, x) > 0 {
                    q.push_back((y, x));
                    proof {
                        let c = y * w + x;
                        let ids0 = cell_ids(q0, w);
                        let ids1 = cell_ids(q@, w);
                        assert(ids1 =~= ids0.push(c));
                        assert(ids1[ids1.len() - 1] == c);
                        assert(!ids0.contains(c)) by {
                            if ids0.contains(c) {
                                let k = choose|k: int| 0 <= k < ids0.len() && ids0[k] == c;
                                assert(ids0[k] < c);
                            }
                        }
                        assert forall|i: int| #[trigger] ids1.contains(i) <==> (0 <= i < c + 1 && g[i] > 0) by {
                            if ids1.contains(i) && i != c {
                                let k = choose|k: int| 0 <= k < ids1.len() && ids1[k] == i;
                                assert(ids0[k] == i);
                            }
                            if ids0.contains(i) {
                                let k = choose|k: int| 0 <= k < ids0.len() && ids0[k] == i;
                                assert(ids1[k] == i);
                            }
                            if i == c {
                                assert(ids1.contains(c));
                            }
                        }
                        assert forall|k: int| 0 <= k < q@.len() implies #[trigger] cell_ids(q@, w)[k] < c + 1 by {
                            if k < q0.len() {
                                assert(ids1[k] == ids0[k]);
                            }
                        }
                        assert forall|k: int| 0 <= k < q@.len() implies
                            0 <= #[trigger] q@[k].0 < h && 0 <= q@[k].1 < w by {
                            if k < q0.len() {
                                assert(q@[k] == q0[k]);
                            }
                        }
                    }
                }
                x = x + 1;
            }
            proof {
                assert(y * w + w == (y + 1) * w) by (nonlinear_arith);
            }
            y = y + 1;
        }
        proof {
            assert(h * w == n) by (nonlinear_arith)
                requires n == w * h;
            assert(cell_ids(q@, w).to_set() =~= nonzero(g));
        }
        q
    }

    /// One diffusion pass over every cell of the field: each cell gets the
    /// truncated mean of its 3 by 3 neighbourhood. The active cells become the
    /// cells whose new value is nonzero.
    pub fn diffuse_nsquared(&mut self)
        requires
            old(self).wf(),
        ensures
            final(self).wf(),
            final(self).width() == old(self).width(),
            final(self).height() == old(self).height(),
            final(self).field() == blur(old(self).field(), old(self).width(), old(self).height()),
            final(self).active_set() == nonzero(final(self).field()),
            cell_ids(final(self).active(), final(self).width()).no_duplicates(),
    {
        let ghost w = self.width();
        let ghost h = self.height();
        let ghost g = self.field();
        let ghost n = g.len();
        let ghost bl = blur(g, w, h);
        proof {
            lemma_kernel_area();
        }
        let area: u64 = ((2 * DIFFUSE_RADIUS + 1) * (2 * DIFFUSE_RADIUS + 1)) as u64;
        let mut cy: i32 = 0;
        while cy < self.size_h as i32
            invariant
                self.buffers_wf(),
                self.size_w == w,
                self.size_h == h,
                self.data.cells() == g,
                self.visited == old(self).visited,
                is_grid(g, w, h),
                n == g.len(),
                bl == blur(g, w, h),
                radius() == 1,
                kernel_area() == 9,
                area == 9,
                0 <= cy <= h,
                forall|i: int| 0 <= i < cy * w ==> #[trigger] self.data_alt.cells()[i] == bl[i],
            decreases h - cy,
        {
            let mut cx: i32 = 0;
            while cx < self.size_w as i32
                invariant
                    self.buffers_wf(),
                    self.size_w == w,
                    self.size_h == h,
                    self.data.cells() == g,
                    self.visited == old(self).visited,
                self.visited == old(self).visited,
                    is_grid(g, w, h),
                    n == g.len(),
                    bl == blur(g, w, h),
                    radius() == 1,
                    kernel_area() == 9,
                    area == 9,
                    0 <= cy < h,
                    0 <= cx <= w,
                    forall|i: int| 0 <= i < cy * w + cx ==> #[trigger] self.data_alt.cells()[i] == bl[i],
                decreases w - cx,
            {
                proof {
                    lemma_cell_index_plain(w, h, cy as int, cx as int);
                    crate::grid::lemma_index_in_range(w, h, cy as int, cx as int);
                    crate::trail::lemma_blur_bounded(g, w, h, cy as int, cx as int);
                }
                let sum = self.data.box_sum(
                    cy - DIFFUSE_RADIUS,
                    cy + DIFFUSE_RADIUS + 1,
                    cx - DIFFUSE_RADIUS,
                    cx + DIFFUSE_RADIUS + 1,
                );
                let m = sum / area;
                let v: u8 = if m > 255 {
                    255
                } else {
                    m as u8
                };
                assert(v == bl[cy * w + cx]);
                self.data_alt.set(cy, cx, v);
                cx = cx + 1;
            }
            proof {
                assert(cy * w + w == (cy + 1) * w) by (nonlinear_arith);
            }
            cy = cy + 1;
        }
        proof {
            assert(h * w == n) by (nonlinear_arith)
                requires n == w * h;
            assert(self.data_alt.cells() =~= bl);
        }
        std::mem::swap(&mut self.data, &mut self.data_alt);
        self.data_alt.fill(0);
        self.active_cells = self.nonzero_cells();
    }

    /// One tick of the field: the deposits in order (each cell joins the
    /// active set), one work-queue diffusion pass, then decay of the new active
    /// cells.
    pub fn update(&mut self, deposits: &Vec<(i32, i32, u8)>)
        requires
            old(self).wf(),
        ensures
            final(self).wf(),
            final(self).width() == old(self).width(),
            final(self).height() == old(self).height(),
            (final(self).field(), final(self).active_set())
                == sparse_tick(old(self).field(), old(self).width(), old(self).height(), old(self).active_set(), deposits@),
            final(self).field() == dense_tick(old(self).field(), old(self).width(), old(self).height(), deposits@),
    {
        let ghost w = self.width();
        let ghost h = self.height();
        let ghost g = self.field();
        let ghost a0 = self.active_set();
        let ghost ds = deposits@;
        let mut k: usize = 0;
        while k < deposits.len()
            invariant
                self.wf(),
                self.width() == w,
                self.height() == h,
                ds == deposits@,
                k <= ds.len(),
                self.field() == deposit_all(g, w, h, ds.subrange(0, k as int)),
                self.active_set() == a0.union(deposit_cells(w, h, ds.subrange(0, k as int))),
            decreases ds.len() - k,
        {
            let (y, x, amount) = deposits[k];
            let ghost a_before = self.active();
            self.deposit(y, x, amount);
            proof {
                let s0 = ds.subrange(0, k as int);
                let s1 = ds.subrange(0, k as int + 1);
                assert(s1.drop_last() =~= s0);
                assert(s1.last() == (y, x, amount));
                let c = cell_index(w, h, y as int, x as int);
                lemma_cell_id_of_wrap(w, h, y as int, x as int);
                let ids0 = cell_ids(a_before, w);
                let ids1 = cell_ids(self.active(), w);
                assert(ids1 =~= ids0.push(c));
                let dc0 = deposit_cells(w, h, s0);
                let dc1 = deposit_cells(w, h, s1);
                assert(ids0.to_set() == a0.union(dc0));
                assert(dc1.contains(c)) by {
                    assert(s1[k as int] == (y, x, amount));
                }
                assert(ids1.contains(c)) by {
                    assert(ids1[ids1.len() - 1] == c);
                }
                assert forall|i: int| #[trigger] dc0.contains(i) implies dc1.contains(i) by {
                    let j = choose|j: int| 0 <= j < s0.len() && i == #[trigger] cell_index(w, h, s0[j].0 as int, s0[j].1 as int);
                    assert(s0[j] == s1[j]);
                }
                assert forall|i: int| #[trigger] dc1.contains(i) && i != c implies dc0.contains(i) by {
                    let j = choose|j: int| 0 <= j < s1.len() && i == #[trigger] cell_index(w, h, s1[j].0 as int, s1[j].1 as int);
                    assert(j != k);
                    assert(s0[j] == s1[j]);
                }
                assert forall|i: int| #[trigger] ids0.contains(i) implies ids1.contains(i) by {
                    let j = choose|j: int| 0 <= j < ids0.len() && ids0[j] == i;
                    assert(ids1[j] == i);
                }
                assert forall|i: int| #[trigger] ids1.contains(i) && i != c implies ids0.contains(i) by {
                    let j = choose|j: int| 0 <= j < ids1.len() && ids1[j] == i;
                    assert(ids0[j] == i);
                }
                assert forall|i: int| #[trigger] self.active_set().contains(i) implies a0.union(dc1).contains(i) by {
                    assert(ids1.contains(i));
                    if i != c {
                        assert(ids0.to_set().contains(i));
                    }
                }
                assert forall|i: int| #[trigger] a0.union(dc1).contains(i) implies self.active_set().contains(i) by {
                    if i != c {
                        assert(a0.union(dc0).contains(i));
                        assert(ids0.to_set().contains(i));
                        assert(ids1.contains(i));
                    }
                }
                assert(self.active_set() =~= a0.union(deposit_cells(w, h, s1)));
            }
            k = k + 1;
        }
        proof {
            assert(ds.subrange(0, k as int) =~= ds);
        }
        self.diffuse();
        self.decay();
        proof {
            lemma_sparse_tick_is_dense(g, w, h, a0, ds);
        }
    }
}

} // verus!

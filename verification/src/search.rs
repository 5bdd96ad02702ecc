//! The incremental A* engine: frontier selection, neighbour relaxation,
//! visited bookkeeping, and path reconstruction.

use vstd::prelude::*;

use crate::cell::{Cell, CellStatus};
use crate::grid::{lemma_index_in_range, lemma_index_injective, Grid};
use crate::{heuristic, octile, Coord};

verus! {

/// Two coordinates are adjacent when they differ by at most one in each
/// axis and are not the same cell (8-directional movement).
pub open spec fn adjacent(p: Coord, q: Coord) -> bool {
    &&& p.x <= q.x + 1
    &&& q.x <= p.x + 1
    &&& p.y <= q.y + 1
    &&& q.y <= p.y + 1
    &&& !(p.x == q.x && p.y == q.y)
}

/// Whether a table entry holds an expanded cell.
pub open spec fn is_visited(o: Option<Cell>) -> bool {
    o matches Some(c) && c.visited
}

/// How many of the first `n` table entries hold expanded cells.
pub open spec fn visited_in(t: Seq<Option<Cell>>, n: int) -> int
    decreases n,
{
    if n <= 0 {
        0
    } else {
        visited_in(t, n - 1) + if is_visited(t[n - 1]) {
            1int
        } else {
            0int
        }
    }
}

/// Whether the entry at `i` is on the frontier: discovered but not expanded.
pub open spec fn frontier_at(t: Seq<Option<Cell>>, i: int) -> bool {
    t[i] matches Some(c) && !c.visited
}

/// The selection order: `a` is expanded before `b` when its `f_cost` is
/// smaller, with ties broken by the smaller `h_cost`.
pub open spec fn better(a: Cell, b: Cell) -> bool {
    ||| a.f_cost_spec() < b.f_cost_spec()
    ||| (a.f_cost_spec() == b.f_cost_spec() && a.h_cost < b.h_cost)
}

/// The index the search expands next, scanning the first `n` entries: the
/// lowest-index frontier entry that no other frontier entry beats.
pub open spec fn best_upto(t: Seq<Option<Cell>>, n: int) -> Option<int>
    decreases n,
{
    if n <= 0 {
        None
    } else {
        let prev = best_upto(t, n - 1);
        if !frontier_at(t, n - 1) {
            prev
        } else {
            match prev {
                None => Some(n - 1),
                Some(j) => if better(t[n - 1]->Some_0, t[j]->Some_0) {
                    Some(n - 1)
                } else {
                    prev
                },
            }
        }
    }
}

/// An upper bound on every cost the search can ever store: the largest
/// possible accumulated cost plus the largest possible scaled heuristic.
pub open spec fn cost_limit(w: int, h: int, gm: int, hm: int) -> int {
    w * h * 14 * gm + (w + h) * 14 * hm
}

/// The engine: the discovered-cell table plus the parameters of the
/// current search.
pub struct SearchState {
    pub grid: Grid,
    pub start: Coord,
    pub end: Coord,
    pub g_mult: u64,
    pub h_mult: u64,
    pub table: Vec<Option<Cell>>,
    pub visited_count: usize,
    pub reached: bool,
}

impl SearchState {
    pub open spec fn area(self) -> int {
        self.grid.width * self.grid.height
    }

    /// The table index that stores the record of coordinate `p`.
    pub open spec fn idx_of(self, p: Coord) -> int {
        p.y * self.grid.width + p.x
    }

    /// The coordinate whose record lives at table index `i`.
    pub open spec fn coord_of(self, i: int) -> Coord {
        Coord { x: (i % (self.grid.width as int)) as usize, y: (i / (self.grid.width as int)) as usize }
    }

    pub open spec fn in_grid(self, p: Coord) -> bool {
        self.grid.in_bounds(p.x as int, p.y as int)
    }

    /// The table entry for coordinate `p`.
    pub open spec fn entry(self, p: Coord) -> Option<Cell> {
        self.table@[self.idx_of(p)]
    }

    /// Whether `p` has ever been inserted into the table.
    pub open spec fn discovered(self, p: Coord) -> bool {
        self.in_grid(p) && self.entry(p) is Some
    }

    /// The index the next `advance` will expand, if any frontier remains.
    pub open spec fn select(self) -> Option<int> {
        best_upto(self.table@, self.table@.len() as int)
    }

    /// The invariant of a single table entry.  Every recorded cost is
    /// bounded, the stored heuristic is exactly the scaled octile distance
    /// to the end, and every cell except the start points back to an
    /// adjacent, already-discovered predecessor through which it was
    /// reached at no smaller a cost.
    pub open spec fn entry_inv(self, i: int) -> bool {
        self.table@[i] matches Some(c) ==> {
            let p = self.coord_of(i);
            &&& c.g_cost <= self.visited_count * 14 * self.g_mult
            &&& c.h_cost == octile(p, self.end) * self.h_mult
            &&& (p != self.start ==> {
                &&& self.in_grid(c.from)
                &&& adjacent(c.from, p)
                &&& !self.grid.blocked_at(p.x as int, p.y as int)
                &&& self.table@[self.idx_of(c.from)] matches Some(f) && c.g_cost >= f.g_cost
                    + octile(c.from, p) * self.g_mult
            })
        }
    }

    /// The start cell is always discovered, at cost zero.
    pub open spec fn start_ok(self) -> bool {
        self.table@[self.idx_of(self.start)] matches Some(c) && c.g_cost == 0
    }

    /// Well-formedness of the whole search state.
    pub open spec fn wf(self) -> bool {
        &&& self.grid.wf()
        &&& self.grid.width >= 1
        &&& self.grid.height >= 1
        &&& self.in_grid(self.start)
        &&& self.in_grid(self.end)
        &&& self.g_mult >= 1
        &&& self.h_mult >= 1
        &&& cost_limit(
            self.grid.width as int,
            self.grid.height as int,
            self.g_mult as int,
            self.h_mult as int,
        ) <= u64::MAX
        &&& self.table@.len() == self.area()
        &&& self.visited_count == visited_in(self.table@, self.table@.len() as int)
        &&& self.start_ok()
        &&& forall|i: int| 0 <= i < self.table@.len() ==> self.entry_inv(i)
    }

    /// The table entry reset installs at index `i`: the start cell alone is
    /// discovered, at cost zero, with itself as sentinel predecessor.
    pub open spec fn initial_entry(self, i: int) -> Option<Cell> {
        if i == self.idx_of(self.start) {
            Some(
                Cell {
                    g_cost: 0,
                    h_cost: (octile(self.start, self.end) * self.h_mult) as u64,
                    from: self.start,
                    visited: false,
                },
            )
        } else {
            None
        }
    }

    /// Whether this is exactly the state `reset(grid, start, end, gm, hm)`
    /// produces.
    pub open spec fn is_initial(self, grid: Grid, start: Coord, end: Coord, gm: u64, hm: u64) -> bool {
        &&& self.grid == grid
        &&& self.start == start
        &&& self.end == end
        &&& self.g_mult == gm
        &&& self.h_mult == hm
        &&& self.reached == false
        &&& self.visited_count == 0
        &&& self.table@.len() == grid.width * grid.height
        &&& forall|i: int| 0 <= i < self.table@.len() ==> self.table@[i] == self.initial_entry(i)
    }
}

/// The trace a full run leaves: it starts at `a`, ends at `b`, each
/// state produces the next by exactly one `advance`, no state before the
/// last has terminated, and the last one has.  Because each step is a
/// function of the state before it, such a trace, and with it `b`, is
/// determined by `a` alone.
pub open spec fn is_run_trace(tr: Seq<SearchState>, a: SearchState, b: SearchState) -> bool {
    &&& tr.len() >= 1
    &&& tr[0] == a
    &&& tr[tr.len() - 1] == b
    &&& forall|k: int| 0 <= k < tr.len() - 1 ==> (#[trigger] tr[k]).advance_rel(tr[k + 1])
    &&& forall|k: int| 0 <= k < tr.len() - 1 ==> (#[trigger] tr[k]).reached == false
    &&& b.reached
}

/// The count of expanded entries is between 0 and `n`.
pub proof fn lemma_visited_in_le(t: Seq<Option<Cell>>, n: int)
    ensures
        0 <= visited_in(t, n) <= if n <= 0 {
            0int
        } else {
            n
        },
    decreases n,
{
    if n > 0 {
        lemma_visited_in_le(t, n - 1);
    }
}

/// The count of expanded entries depends only on which entries are expanded.
pub proof fn lemma_visited_in_congruence(t1: Seq<Option<Cell>>, t2: Seq<Option<Cell>>, n: int)
    requires
        forall|i: int| 0 <= i < n ==> is_visited(t1[i]) == is_visited(t2[i]),
    ensures
        visited_in(t1, n) == visited_in(t2, n),
    decreases n,
{
    if n > 0 {
        lemma_visited_in_congruence(t1, t2, n - 1);
    }
}

/// Marking one unexpanded entry expanded raises the count by one.
pub proof fn lemma_visited_in_update_true(t: Seq<Option<Cell>>, n: int, k: int, v: Option<Cell>)
    requires
        0 <= k < n <= t.len(),
        !is_visited(t[k]),
        is_visited(v),
    ensures
        visited_in(t.update(k, v), n) == visited_in(t, n) + 1,
    decreases n,
{
    if n > 0 {
        if k == n - 1 {
            lemma_visited_in_congruence(t.update(k, v), t, n - 1);
        } else {
            lemma_visited_in_update_true(t, n - 1, k, v);
        }
    }
}

/// While some entry is unexpanded, the count stays below `n`.
pub proof fn lemma_visited_in_slack(t: Seq<Option<Cell>>, n: int, k: int)
    requires
        0 <= k < n,
        !is_visited(t[k]),
    ensures
        visited_in(t, n) <= n - 1,
    decreases n,
{
    if k == n - 1 {
        lemma_visited_in_le(t, n - 1);
    } else {
        lemma_visited_in_slack(t, n - 1, k);
    }
}

/// A table with no expanded entries counts zero.
pub proof fn lemma_visited_in_zero(t: Seq<Option<Cell>>, n: int)
    requires
        forall|i: int| 0 <= i < n ==> !is_visited(t[i]),
    ensures
        visited_in(t, n) == 0,
    decreases n,
{
    if n > 0 {
        lemma_visited_in_zero(t, n - 1);
    }
}

/// What the selected index guarantees: it is a frontier entry that no
/// frontier entry among the first `n` beats, and when nothing is selected
/// the first `n` entries hold no frontier at all.
pub proof fn lemma_best_upto(t: Seq<Option<Cell>>, n: int)
    ensures
        match best_upto(t, n) {
            None => forall|i: int| 0 <= i < n ==> !frontier_at(t, i),
            Some(j) => 0 <= j < n && frontier_at(t, j) && forall|i: int|
                0 <= i < n && frontier_at(t, i) ==> !better(t[i]->Some_0, t[j]->Some_0),
        },
    decreases n,
{
    if n > 0 {
        lemma_best_upto(t, n - 1);
    }
}

/// The x offset of the `d`-th of the eight neighbour directions, in the
/// order the expansion visits them.
pub open spec fn dir_dx(d: int) -> int {
    if d == 0 {
        1
    } else if d == 1 {
        1
    } else if d == 2 {
        0
    } else if d == 3 {
        -1
    } else if d == 4 {
        -1
    } else if d == 5 {
        -1
    } else if d == 6 {
        0
    } else {
        1
    }
}

/// The y offset of the `d`-th neighbour direction.
pub open spec fn dir_dy(d: int) -> int {
    if d == 0 {
        0
    } else if d == 1 {
        1
    } else if d == 2 {
        1
    } else if d == 3 {
        1
    } else if d == 4 {
        0
    } else if d == 5 {
        -1
    } else if d == 6 {
        -1
    } else {
        -1
    }
}

/// Adjacent cells are one octile step apart: 10 straight, 14 diagonal.
pub proof fn lemma_adjacent_octile(p: Coord, q: Coord)
    requires
        adjacent(p, q),
    ensures
        octile(p, q) == if p.x != q.x && p.y != q.y {
            14int
        } else {
            10int
        },
{
}

/// The scaled heuristic of any in-bounds coordinate fits in `u64`.
pub proof fn lemma_scaled_h_fits(w: int, h: int, gm: int, hm: int, p: Coord, e: Coord)
    requires
        1 <= w,
        1 <= h,
        1 <= gm,
        1 <= hm,
        cost_limit(w, h, gm, hm) <= u64::MAX,
        0 <= p.x < w,
        0 <= p.y < h,
        0 <= e.x < w,
        0 <= e.y < h,
    ensures
        0 <= octile(p, e) <= octile(p, e) * hm <= u64::MAX,
{
    lemma_octile_bound(p, e, w, h);
    assert(octile(p, e) <= octile(p, e) * hm <= 14 * (w + h) * hm) by (nonlinear_arith)
        requires
            0 <= octile(p, e) <= 14 * (w + h),
            hm >= 1,
    ;
    assert(w * h * 14 * gm >= 0) by (nonlinear_arith)
        requires
            w >= 1,
            h >= 1,
            gm >= 1,
    ;
}

/// The octile distance between two in-bounds coordinates is bounded by the
/// grid perimeter measure `14 * (w + h)`.
pub proof fn lemma_octile_bound(a: Coord, b: Coord, w: int, h: int)
    requires
        0 <= a.x < w,
        0 <= a.y < h,
        0 <= b.x < w,
        0 <= b.y < h,
    ensures
        0 <= octile(a, b) <= 14 * (w + h),
{
}

impl SearchState {
    /// Every recorded cost, and the `f_cost` sum, fits in `u64`.
    pub proof fn lemma_entry_costs_bounded(self, i: int)
        requires
            self.wf(),
            0 <= i < self.table@.len(),
            self.table@[i] is Some,
        ensures
            self.table@[i]->Some_0.g_cost + self.table@[i]->Some_0.h_cost <= u64::MAX,
    {
        let c = self.table@[i]->Some_0;
        let w = self.grid.width as int;
        let h = self.grid.height as int;
        let gm = self.g_mult as int;
        let hm = self.h_mult as int;
        assert(self.entry_inv(i));
        lemma_visited_in_le(self.table@, self.table@.len() as int);
        let vc = self.visited_count as int;
        assert(vc <= w * h);
        assert(vc * 14 * gm <= w * h * 14 * gm) by (nonlinear_arith)
            requires
                0 <= vc <= w * h,
                gm >= 1,
        ;
        crate::grid::lemma_index_decompose(w, h, i);
        lemma_octile_bound(self.coord_of(i), self.end, w, h);
        assert(octile(self.coord_of(i), self.end) * hm <= 14 * (w + h) * hm) by (nonlinear_arith)
            requires
                0 <= octile(self.coord_of(i), self.end) <= 14 * (w + h),
                hm >= 1,
        ;
        assert(c.g_cost + c.h_cost <= cost_limit(w, h, gm, hm));
    }

    /// The entry the relaxation rule leaves for the free cell `p`, reached
    /// from the selected cell `sel` whose accumulated cost is `base_g`:
    /// insert if undiscovered; keep the existing record when its cost is
    /// strictly smaller; otherwise overwrite cost and predecessor,
    /// preserving the visited flag.
    pub open spec fn relaxed_entry(self, sel: Coord, base_g: u64, p: Coord) -> Option<Cell> {
        let cand = base_g + octile(sel, p) * self.g_mult;
        let hc = octile(p, self.end) * self.h_mult;
        match self.entry(p) {
            None => Some(
                Cell { g_cost: cand as u64, h_cost: hc as u64, from: sel, visited: false },
            ),
            Some(c) => if c.g_cost < cand {
                Some(c)
            } else {
                Some(Cell { g_cost: cand as u64, h_cost: hc as u64, from: sel, visited: c.visited })
            },
        }
    }

    /// What one relaxation leaves at `p`: blocked cells are skipped.
    pub open spec fn relax_result(self, sel: Coord, base_g: u64, p: Coord) -> Option<Cell> {
        if self.grid.blocked_at(p.x as int, p.y as int) {
            self.entry(p)
        } else {
            self.relaxed_entry(sel, base_g, p)
        }
    }

    /// The table entry at `i` after the neighbours of `sel` are relaxed:
    /// entries adjacent to `sel` are relaxed, all others are untouched.
    pub open spec fn expanded_entry(self, sel: Coord, base_g: u64, i: int) -> Option<Cell> {
        if adjacent(sel, self.coord_of(i)) {
            self.relax_result(sel, base_g, self.coord_of(i))
        } else {
            self.table@[i]
        }
    }

    /// The table entry at `i` after one full expansion of the cell at
    /// index `j`: `j` itself is marked visited, its free neighbours are
    /// relaxed, everything else is untouched.
    pub open spec fn step_cell(self, j: int, i: int) -> Option<Cell> {
        let c = self.table@[j]->Some_0;
        if i == j {
            Some(Cell { visited: true, ..c })
        } else {
            self.expanded_entry(self.coord_of(j), c.g_cost, i)
        }
    }

    /// Whether the `d`-th neighbour of `sel` lies on the grid.
    pub open spec fn dir_in_bounds(self, sel: Coord, d: int) -> bool {
        &&& 0 <= sel.x + dir_dx(d) < self.grid.width
        &&& 0 <= sel.y + dir_dy(d) < self.grid.height
    }

    /// The coordinate of the `d`-th neighbour of `sel`.
    pub open spec fn dir_coord(self, sel: Coord, d: int) -> Coord {
        Coord { x: (sel.x + dir_dx(d)) as usize, y: (sel.y + dir_dy(d)) as usize }
    }

    /// Whether one of the first `m` neighbour directions of `sel` lands on
    /// table index `i`.
    pub open spec fn hit_before(self, sel: Coord, i: int, m: int) -> bool
        decreases m,
    {
        if m <= 0 {
            false
        } else {
            ||| self.hit_before(sel, i, m - 1)
            ||| (self.dir_in_bounds(sel, m - 1) && i == self.idx_of(self.dir_coord(sel, m - 1)))
        }
    }

    /// The table entry at `i` after the first `m` neighbour directions of
    /// `sel` have been relaxed.
    pub open spec fn mid_entry(self, sel: Coord, base_g: u64, i: int, m: int) -> Option<Cell> {
        if self.hit_before(sel, i, m) {
            self.relax_result(sel, base_g, self.coord_of(i))
        } else {
            self.table@[i]
        }
    }

    /// No direction before `m` lands on the cell the `d`-th direction
    /// targets: the eight offsets are pairwise distinct.
    pub proof fn lemma_fresh_target(self, sel: Coord, d: int, m: int)
        requires
            self.grid.width >= 1,
            self.grid.height >= 1,
            self.in_grid(sel),
            0 <= m <= d < 8,
            self.dir_in_bounds(sel, d),
        ensures
            !self.hit_before(sel, self.idx_of(self.dir_coord(sel, d)), m),
        decreases m,
    {
        if m > 0 {
            self.lemma_fresh_target(sel, d, m - 1);
            if self.dir_in_bounds(sel, m - 1) {
                let qd = self.dir_coord(sel, d);
                let qm = self.dir_coord(sel, m - 1);
                assert(dir_dx(m - 1) != dir_dx(d) || dir_dy(m - 1) != dir_dy(d));
                if self.idx_of(qm) == self.idx_of(qd) {
                    lemma_index_injective(
                        self.grid.width as int,
                        self.grid.height as int,
                        qm.x as int,
                        qm.y as int,
                        qd.x as int,
                        qd.y as int,
                    );
                }
            }
        }
    }

    /// An index hit by one of the first `m` directions is an in-bounds
    /// cell adjacent to `sel`.
    pub proof fn lemma_hit_adjacent(self, sel: Coord, i: int, m: int)
        requires
            self.grid.width >= 1,
            self.grid.height >= 1,
            self.in_grid(sel),
            0 <= m <= 8,
            self.hit_before(sel, i, m),
        ensures
            0 <= i < self.area(),
            adjacent(sel, self.coord_of(i)),
        decreases m,
    {
        if self.hit_before(sel, i, m - 1) {
            self.lemma_hit_adjacent(sel, i, m - 1);
        } else {
            let q = self.dir_coord(sel, m - 1);
            lemma_index_in_range(
                self.grid.width as int,
                self.grid.height as int,
                q.x as int,
                q.y as int,
            );
            crate::grid::lemma_coord_roundtrip(
                self.grid.width as int,
                self.grid.height as int,
                q.x as int,
                q.y as int,
            );
            assert(self.coord_of(i) == q);
            assert(dir_dx(m - 1) != 0 || dir_dy(m - 1) != 0);
        }
    }

    /// A direction that lands on `i` makes every later stage hit `i`.
    pub proof fn lemma_hit_mono(self, sel: Coord, i: int, d: int, m: int)
        requires
            0 <= d < m,
            self.dir_in_bounds(sel, d),
            i == self.idx_of(self.dir_coord(sel, d)),
        ensures
            self.hit_before(sel, i, m),
        decreases m,
    {
        if d < m - 1 {
            self.lemma_hit_mono(sel, i, d, m - 1);
        }
    }

    /// Performs one relaxation: if the cell at `(x, y)` is free, its table
    /// entry becomes `relax_result`; a blocked cell's entry is untouched.
    fn relax(&mut self, sel: Coord, base_g: u64, x: usize, y: usize, step: u64)
        requires
            old(self).grid.wf(),
            old(self).grid.width >= 1,
            old(self).grid.height >= 1,
            old(self).table@.len() == old(self).area(),
            old(self).in_grid(old(self).end),
            old(self).g_mult >= 1,
            old(self).h_mult >= 1,
            cost_limit(
                old(self).grid.width as int,
                old(self).grid.height as int,
                old(self).g_mult as int,
                old(self).h_mult as int,
            ) <= u64::MAX,
            old(self).grid.in_bounds(x as int, y as int),
            step == octile(sel, Coord { x, y }),
            base_g + step * old(self).g_mult <= u64::MAX,
        ensures
            final(self).grid == old(self).grid,
            final(self).start == old(self).start,
            final(self).end == old(self).end,
            final(self).g_mult == old(self).g_mult,
            final(self).h_mult == old(self).h_mult,
            final(self).visited_count == old(self).visited_count,
            final(self).reached == old(self).reached,
            final(self).table@.len() == old(self).table@.len(),
            final(self).table@[old(self).idx_of(Coord { x, y })] == old(self).relax_result(
                sel,
                base_g,
                Coord { x, y },
            ),
            forall|k: int|
                0 <= k < old(self).table@.len() && k != old(self).idx_of(Coord { x, y })
                    ==> final(self).table@[k] == old(self).table@[k],
    {
        let p = Coord { x, y };
        if !self.grid.blocked(x, y) {
            proof {
                lemma_index_in_range(
                    self.grid.width as int,
                    self.grid.height as int,
                    x as int,
                    y as int,
                );
                lemma_scaled_h_fits(
                    self.grid.width as int,
                    self.grid.height as int,
                    self.g_mult as int,
                    self.h_mult as int,
                    p,
                    self.end,
                );
            }
            let idx: usize = y * self.grid.width + x;
            let cand: u64 = base_g + step * self.g_mult;
            let mut keep: bool = false;
            let mut visited: bool = false;
            match self.table[idx] {
                Some(c) => {
                    keep = c.g_cost < cand;
                    visited = c.visited;
                },
                None => {},
            }
            if !keep {
                let hc: u64 = heuristic(p, self.end) * self.h_mult;
                self.table.set(idx, Some(Cell { g_cost: cand, h_cost: hc, from: sel, visited }));
            }
        }
    }

    /// Relaxes the `d`-th neighbour direction of `sel`, carrying the
    /// table from its stage-`d` to its stage-`d + 1` characterization
    /// relative to the snapshot `s0` taken before any neighbour was
    /// relaxed.
    fn relax_dir(
        &mut self,
        sel: Coord,
        base_g: u64,
        nx: usize,
        ny: usize,
        step: u64,
        in_b: bool,
        Ghost(d): Ghost<int>,
        Ghost(s0): Ghost<SearchState>,
    )
        requires
            old(self).grid.wf(),
            old(self).grid.width >= 1,
            old(self).grid.height >= 1,
            old(self).table@.len() == old(self).area(),
            old(self).in_grid(sel),
            old(self).in_grid(old(self).end),
            old(self).g_mult >= 1,
            old(self).h_mult >= 1,
            cost_limit(
                old(self).grid.width as int,
                old(self).grid.height as int,
                old(self).g_mult as int,
                old(self).h_mult as int,
            ) <= u64::MAX,
            base_g + 14 * old(self).g_mult <= u64::MAX,
            0 <= d < 8,
            in_b == old(self).dir_in_bounds(sel, d),
            in_b ==> nx == sel.x + dir_dx(d) && ny == sel.y + dir_dy(d),
            in_b ==> step == octile(sel, Coord { x: nx, y: ny }),
            s0.grid == old(self).grid,
            s0.start == old(self).start,
            s0.end == old(self).end,
            s0.g_mult == old(self).g_mult,
            s0.h_mult == old(self).h_mult,
            s0.table@.len() == old(self).table@.len(),
            forall|i: int|
                0 <= i < old(self).table@.len() ==> old(self).table@[i] == s0.mid_entry(
                    sel,
                    base_g,
                    i,
                    d,
                ),
        ensures
            final(self).grid == old(self).grid,
            final(self).start == old(self).start,
            final(self).end == old(self).end,
            final(self).g_mult == old(self).g_mult,
            final(self).h_mult == old(self).h_mult,
            final(self).visited_count == old(self).visited_count,
            final(self).reached == old(self).reached,
            final(self).table@.len() == old(self).table@.len(),
            forall|i: int|
                0 <= i < old(self).table@.len() ==> final(self).table@[i] == s0.mid_entry(
                    sel,
                    base_g,
                    i,
                    d + 1,
                ),
    {
        if in_b {
            proof {
                assert(adjacent(sel, Coord { x: nx, y: ny }));
                lemma_adjacent_octile(sel, Coord { x: nx, y: ny });
            }
            self.relax(sel, base_g, nx, ny, step);
            proof {
                let q = Coord { x: nx, y: ny };
                s0.lemma_fresh_target(sel, d, d);
                lemma_index_in_range(
                    s0.grid.width as int,
                    s0.grid.height as int,
                    nx as int,
                    ny as int,
                );
                crate::grid::lemma_coord_roundtrip(
                    s0.grid.width as int,
                    s0.grid.height as int,
                    nx as int,
                    ny as int,
                );
                assert(s0.dir_coord(sel, d) == q);
                assert forall|i: int| 0 <= i < old(self).table@.len() implies self.table@[i]
                    == s0.mid_entry(sel, base_g, i, d + 1) by {
                    if i == s0.idx_of(q) {
                        s0.lemma_hit_mono(sel, i, d, d + 1);
                        assert(s0.coord_of(i) == q);
                        assert(old(self).entry(q) == s0.table@[s0.idx_of(q)]);
                        assert(self.table@[i] == old(self).relax_result(sel, base_g, q));
                        assert(old(self).relax_result(sel, base_g, q) == s0.relax_result(
                            sel,
                            base_g,
                            q,
                        ));
                    }
                }
            }
        } else {
            proof {
                assert forall|i: int| 0 <= i < old(self).table@.len() implies self.table@[i]
                    == s0.mid_entry(sel, base_g, i, d + 1) by {}
            }
        }
    }

    /// Relaxes all free in-bounds neighbours of the selected cell `sel`,
    /// whose accumulated cost is `base_g`.
    fn expand(&mut self, sel: Coord, base_g: u64)
        requires
            old(self).grid.wf(),
            old(self).grid.width >= 1,
            old(self).grid.height >= 1,
            old(self).table@.len() == old(self).area(),
            old(self).in_grid(sel),
            old(self).in_grid(old(self).end),
            old(self).g_mult >= 1,
            old(self).h_mult >= 1,
            cost_limit(
                old(self).grid.width as int,
                old(self).grid.height as int,
                old(self).g_mult as int,
                old(self).h_mult as int,
            ) <= u64::MAX,
            base_g + 14 * old(self).g_mult <= u64::MAX,
        ensures
            final(self).grid == old(self).grid,
            final(self).start == old(self).start,
            final(self).end == old(self).end,
            final(self).g_mult == old(self).g_mult,
            final(self).h_mult == old(self).h_mult,
            final(self).visited_count == old(self).visited_count,
            final(self).reached == old(self).reached,
            final(self).table@.len() == old(self).table@.len(),
            forall|i: int|
                0 <= i < old(self).table@.len() ==> final(self).table@[i] == old(
                    self,
                ).expanded_entry(sel, base_g, i),
    {
        let w = self.grid.width;
        let h = self.grid.height;
        let ghost s0: SearchState = *old(self);
        let xp: usize = sel.x + 1;
        let yp: usize = sel.y + 1;
        let xm: usize = if sel.x >= 1 {
            sel.x - 1
        } else {
            0
        };
        let ym: usize = if sel.y >= 1 {
            sel.y - 1
        } else {
            0
        };
        self.relax_dir(sel, base_g, xp, sel.y, 10, xp < w, Ghost(0int), Ghost(s0));
        self.relax_dir(sel, base_g, xp, yp, 14, xp < w && yp < h, Ghost(1int), Ghost(s0));
        self.relax_dir(sel, base_g, sel.x, yp, 10, yp < h, Ghost(2int), Ghost(s0));
        self.relax_dir(sel, base_g, xm, yp, 14, sel.x >= 1 && yp < h, Ghost(3int), Ghost(s0));
        self.relax_dir(sel, base_g, xm, sel.y, 10, sel.x >= 1, Ghost(4int), Ghost(s0));
        self.relax_dir(sel, base_g, xm, ym, 14, sel.x >= 1 && sel.y >= 1, Ghost(5int), Ghost(s0));
        self.relax_dir(sel, base_g, sel.x, ym, 10, sel.y >= 1, Ghost(6int), Ghost(s0));
        self.relax_dir(sel, base_g, xp, ym, 14, xp < w && sel.y >= 1, Ghost(7int), Ghost(s0));
        proof {
            assert forall|i: int| 0 <= i < old(self).table@.len() implies self.table@[i] == old(
                self,
            ).expanded_entry(sel, base_g, i) by {
                let wi = w as int;
                let hi = h as int;
                crate::grid::lemma_index_decompose(wi, hi, i);
                crate::grid::lemma_coord_roundtrip(wi, hi, i % wi, i / wi);
                let q = old(self).coord_of(i);
                assert(old(self).in_grid(q));
                assert(old(self).idx_of(q) == i);
                if old(self).hit_before(sel, i, 8) {
                    old(self).lemma_hit_adjacent(sel, i, 8);
                } else if adjacent(sel, q) {
                    let d: int = if q.x == sel.x + 1 && q.y == sel.y {
                        0
                    } else if q.x == sel.x + 1 && q.y == sel.y + 1 {
                        1
                    } else if q.x == sel.x && q.y == sel.y + 1 {
                        2
                    } else if q.x + 1 == sel.x && q.y == sel.y + 1 {
                        3
                    } else if q.x + 1 == sel.x && q.y == sel.y {
                        4
                    } else if q.x + 1 == sel.x && q.y + 1 == sel.y {
                        5
                    } else if q.x == sel.x && q.y + 1 == sel.y {
                        6
                    } else {
                        7
                    };
                    assert(old(self).dir_in_bounds(sel, d));
                    assert(old(self).dir_coord(sel, d) == q);
                    old(self).lemma_hit_mono(sel, i, d, 8);
                    assert(false);
                }
            }
        }
    }

    /// Whether `s1` is the state one expansion of the frontier entry at
    /// index `jj` produces from this one, apart from the `reached` flag.
    pub open spec fn steps_to(self, s1: SearchState, jj: int) -> bool {
        &&& 0 <= jj < self.table@.len()
        &&& frontier_at(self.table@, jj)
        &&& s1.grid == self.grid
        &&& s1.start == self.start
        &&& s1.end == self.end
        &&& s1.g_mult == self.g_mult
        &&& s1.h_mult == self.h_mult
        &&& s1.table@.len() == self.table@.len()
        &&& s1.visited_count == self.visited_count + 1
        &&& forall|i: int|
            0 <= i < self.table@.len() ==> s1.table@[i] == self.step_cell(jj, i)
    }

    /// What one call of `advance` leaves behind: either no frontier
    /// remained and only the terminal flag was set, or the selected entry
    /// was expanded and the flag records whether it was the end cell.
    pub open spec fn advance_rel(self, s1: SearchState) -> bool {
        match self.select() {
            None => {
                &&& s1.reached
                &&& s1.grid == self.grid
                &&& s1.start == self.start
                &&& s1.end == self.end
                &&& s1.g_mult == self.g_mult
                &&& s1.h_mult == self.h_mult
                &&& s1.table@ == self.table@
                &&& s1.visited_count == self.visited_count
            },
            Some(j) => {
                &&& self.steps_to(s1, j)
                &&& s1.reached == (self.reached || self.coord_of(j) == self.end)
            },
        }
    }

    /// Whether the search has terminated for one of the two normal
    /// reasons: the frontier is exhausted, or the end cell was expanded.
    pub open spec fn terminal(self) -> bool {
        ||| self.select() is None
        ||| is_visited(self.table@[self.idx_of(self.end)])
    }

    /// One expansion never raises a discovered cell's accumulated cost,
    /// and flips no visited flag but the expanded cell's own.
    pub proof fn lemma_step_g_mono(self, s1: SearchState, jj: int, k: int)
        requires
            self.wf(),
            self.steps_to(s1, jj),
            0 <= k < self.table@.len(),
            self.table@[k] is Some,
        ensures
            s1.table@[k] is Some,
            s1.table@[k]->Some_0.g_cost <= self.table@[k]->Some_0.g_cost,
            k != jj ==> s1.table@[k]->Some_0.visited == self.table@[k]->Some_0.visited,
    {
        let w = self.grid.width as int;
        let h = self.grid.height as int;
        crate::grid::lemma_index_decompose(w, h, jj);
        let sel = self.coord_of(jj);
        assert(self.idx_of(sel) == jj);
        let base_g = self.table@[jj]->Some_0.g_cost;
        crate::grid::lemma_index_decompose(w, h, k);
        let q = self.coord_of(k);
        assert(self.idx_of(q) == k);
        assert(s1.table@[k] == self.step_cell(jj, k));
        if k != jj && adjacent(sel, q) {
            lemma_adjacent_octile(sel, q);
            if !self.grid.blocked_at(q.x as int, q.y as int) {
                let cand = base_g + octile(sel, q) * self.g_mult;
                assert(0 <= cand);
                if !(self.table@[k]->Some_0.g_cost < cand) {
                    assert(s1.table@[k]->Some_0.g_cost == cand as u64);
                }
            }
        }
    }

    /// One expansion keeps the start cell discovered at cost zero.
    pub proof fn lemma_step_start_ok(self, s1: SearchState, jj: int)
        requires
            self.wf(),
            self.steps_to(s1, jj),
        ensures
            s1.start_ok(),
    {
        let w = self.grid.width as int;
        let h = self.grid.height as int;
        crate::grid::lemma_index_decompose(w, h, jj);
        let sel = self.coord_of(jj);
        assert(self.idx_of(sel) == jj);
        let base_g = self.table@[jj]->Some_0.g_cost;
        let si = self.idx_of(self.start);
        lemma_index_in_range(w, h, self.start.x as int, self.start.y as int);
        crate::grid::lemma_coord_roundtrip(w, h, self.start.x as int, self.start.y as int);
        assert(self.coord_of(si) == self.start);
        assert(s1.table@[si] == self.step_cell(jj, si));
        if si != jj && adjacent(sel, self.start) {
            lemma_adjacent_octile(sel, self.start);
        }
    }

    /// One expansion preserves the invariant of every table entry.
    pub proof fn lemma_step_entry_inv(self, s1: SearchState, jj: int, i2: int)
        requires
            self.wf(),
            self.steps_to(s1, jj),
            0 <= i2 < self.table@.len(),
        ensures
            s1.entry_inv(i2),
    {
        let w = self.grid.width as int;
        let h = self.grid.height as int;
        let vc = self.visited_count as int;
        let gm = self.g_mult as int;
        let hm = self.h_mult as int;
        crate::grid::lemma_index_decompose(w, h, jj);
        let sel = self.coord_of(jj);
        assert(self.idx_of(sel) == jj);
        let base_g = self.table@[jj]->Some_0.g_cost;
        crate::grid::lemma_index_decompose(w, h, i2);
        let p = self.coord_of(i2);
        assert(self.idx_of(p) == i2);
        assert(s1.coord_of(i2) == p);
        assert(s1.table@[i2] == self.step_cell(jj, i2));
        assert(self.entry_inv(i2));
        assert(self.entry_inv(jj));
        lemma_visited_in_slack(self.table@, self.table@.len() as int, jj);
        assert((vc + 1) * 14 * gm == vc * 14 * gm + 14 * gm) by (nonlinear_arith);
        assert((vc + 1) * 14 * gm <= w * h * 14 * gm) by (nonlinear_arith)
            requires
                0 <= vc,
                vc + 1 <= w * h,
                gm >= 1,
        ;
        assert((w + h) * 14 * hm >= 0) by (nonlinear_arith)
            requires
                w >= 1,
                h >= 1,
                hm >= 1,
        ;
        if s1.table@[i2] is Some {
            if i2 != jj && adjacent(sel, p) && !self.grid.blocked_at(p.x as int, p.y as int) {
                lemma_adjacent_octile(sel, p);
                lemma_scaled_h_fits(w, h, gm, hm, p, self.end);
                let cand = base_g + octile(sel, p) * self.g_mult;
                if self.table@[i2] is Some && self.table@[i2]->Some_0.g_cost < cand {
                    // the existing, strictly better record is kept
                    self.keeps_links(s1, jj, i2, p);
                } else {
                    // inserted or overwritten: the predecessor is the
                    // expanded cell itself
                    assert(s1.table@[i2]->Some_0.g_cost == cand as u64);
                    assert(s1.table@[jj] == self.step_cell(jj, jj));
                    if p == self.start {
                        assert(self.table@[i2] is Some && self.table@[i2]->Some_0.g_cost == 0);
                        assert(octile(sel, p) * self.g_mult >= 10);
                        assert(false);
                    }
                }
            } else {
                self.keeps_links(s1, jj, i2, p);
            }
        }
    }

    /// An entry whose record survives one expansion unchanged (up to its
    /// visited flag) keeps its predecessor link facts.
    proof fn keeps_links(self, s1: SearchState, jj: int, i2: int, p: Coord)
        requires
            self.wf(),
            self.steps_to(s1, jj),
            0 <= i2 < self.table@.len(),
            p == self.coord_of(i2),
            self.table@[i2] is Some,
            s1.table@[i2] is Some,
            s1.table@[i2]->Some_0.g_cost == self.table@[i2]->Some_0.g_cost,
            s1.table@[i2]->Some_0.h_cost == self.table@[i2]->Some_0.h_cost,
            s1.table@[i2]->Some_0.from == self.table@[i2]->Some_0.from,
        ensures
            p != self.start ==> {
                let c = s1.table@[i2]->Some_0;
                &&& s1.in_grid(c.from)
                &&& adjacent(c.from, p)
                &&& s1.table@[s1.idx_of(c.from)] matches Some(f) && c.g_cost >= f.g_cost
                    + octile(c.from, p) * s1.g_mult
            },
    {
        let w = self.grid.width as int;
        let h = self.grid.height as int;
        assert(self.entry_inv(i2));
        if p != self.start {
            let f = self.table@[i2]->Some_0.from;
            lemma_index_in_range(w, h, f.x as int, f.y as int);
            self.lemma_step_g_mono(s1, jj, self.idx_of(f));
        }
    }

    /// Performs exactly one A* expansion step.  If no frontier entry
    /// remains, the search terminates with `reached` set: the goal is
    /// provably unreachable, a normal terminal outcome.  Otherwise the
    /// frontier entry with the least `f_cost` is expanded (ties broken by
    /// least `h_cost`, then by least table index): its free in-bounds
    /// neighbours are relaxed and it is marked visited.  Expanding the end
    /// cell sets `reached`.
    #[verifier::loop_isolation(false)]
    #[verifier::rlimit(100)]
    pub fn advance(&mut self)
        requires
            old(self).wf(),
        ensures
            final(self).wf(),
            final(self).grid == old(self).grid,
            final(self).start == old(self).start,
            final(self).end == old(self).end,
            final(self).g_mult == old(self).g_mult,
            final(self).h_mult == old(self).h_mult,
            final(self).table@.len() == old(self).table@.len(),
            match old(self).select() {
                None => {
                    &&& final(self).reached
                    &&& final(self).table@ == old(self).table@
                    &&& final(self).visited_count == old(self).visited_count
                },
                Some(j) => {
                    &&& old(self).steps_to(*final(self), j)
                    &&& final(self).visited_count == old(self).visited_count + 1
                    &&& final(self).reached == (old(self).reached || old(self).coord_of(j)
                        == old(self).end)
                },
            },
    {
        let len = self.table.len();
        let mut found: bool = false;
        let mut best: usize = 0;
        let mut i: usize = 0;
        while i < len
            invariant
                i <= len,
                !found ==> best_upto(self.table@, i as int) is None,
                found ==> best < i && best_upto(self.table@, i as int) == Some(best as int),
            decreases len - i,
        {
            match self.table[i] {
                Some(c) => {
                    if !c.visited {
                        proof {
                            self.lemma_entry_costs_bounded(i as int);
                            lemma_best_upto(self.table@, i as int);
                            if found {
                                self.lemma_entry_costs_bounded(best as int);
                            }
                        }
                        if !found {
                            found = true;
                            best = i;
                        } else {
                            match self.table[best] {
                                Some(b) => {
                                    let fi = c.f_cost();
                                    let fb = b.f_cost();
                                    if fi < fb || (fi == fb && c.h_cost < b.h_cost) {
                                        best = i;
                                    }
                                },
                                None => {
                                    proof {
                                        assert(false);
                                    }
                                },
                            }
                        }
                    }
                },
                None => {},
            }
            i = i + 1;
        }
        proof {
            lemma_best_upto(self.table@, len as int);
        }
        if !found {
            self.reached = true;
            proof {
                assert forall|i2: int| 0 <= i2 < self.table@.len() implies self.entry_inv(
                    i2,
                ) by {
                    assert(old(self).entry_inv(i2));
                }
            }
            return;
        }
        let j = best;
        let wd = self.grid.width;
        proof {
            crate::grid::lemma_index_decompose(wd as int, self.grid.height as int, j as int);
        }
        let sel = Coord { x: j % wd, y: j / wd };
        proof {
            assert(self.coord_of(j as int) == sel);
            crate::grid::lemma_coord_roundtrip(
                wd as int,
                self.grid.height as int,
                sel.x as int,
                sel.y as int,
            );
            assert(self.idx_of(sel) == j);
        }
        let base_g: u64 = match self.table[j] {
            Some(c) => c.g_cost,
            None => unreached(),
        };
        proof {
            lemma_visited_in_slack(self.table@, len as int, j as int);
            assert(self.entry_inv(j as int));
            let vc = self.visited_count as int;
            let gm = self.g_mult as int;
            let hm = self.h_mult as int;
            let w = self.grid.width as int;
            let h = self.grid.height as int;
            assert(vc * 14 * gm + 14 * gm <= w * h * 14 * gm) by (nonlinear_arith)
                requires
                    0 <= vc,
                    vc + 1 <= w * h,
                    gm >= 1,
            ;
            assert((w + h) * 14 * hm >= 0) by (nonlinear_arith)
                requires
                    w >= 1,
                    h >= 1,
                    hm >= 1,
            ;
            assert(base_g + 14 * self.g_mult <= u64::MAX);
        }
        let ghost s0: SearchState = *self;
        self.expand(sel, base_g);
        proof {
            assert(!adjacent(sel, sel));
            assert(self.table@[j as int] == s0.table@[j as int]);
        }
        let ghost t1 = self.table@;
        let c = match self.table[j] {
            Some(c) => c,
            None => unreached(),
        };
        self.table.set(
            j,
            Some(Cell { g_cost: c.g_cost, h_cost: c.h_cost, from: c.from, visited: true }),
        );
        self.visited_count = self.visited_count + 1;
        if sel == self.end {
            self.reached = true;
        }
        proof {
            let t0 = s0.table@;
            let jj = j as int;
            let w = s0.grid.width as int;
            let h = s0.grid.height as int;
            let vc = s0.visited_count as int;
            let gm = s0.g_mult as int;
            let hm = s0.h_mult as int;
            // the new table is exactly the one-step table
            assert forall|i2: int| 0 <= i2 < t0.len() implies self.table@[i2] == s0.step_cell(
                jj,
                i2,
            ) by {
                if i2 != jj {
                    assert(self.table@[i2] == t1[i2]);
                    assert(t1[i2] == s0.expanded_entry(sel, base_g, i2));
                }
            }
            // the visited count still matches the table
            assert forall|k: int| 0 <= k < t0.len() implies is_visited(t1[k]) == is_visited(
                t0[k],
            ) by {
                crate::grid::lemma_index_decompose(w, h, k);
                crate::grid::lemma_coord_roundtrip(w, h, k % w, k / w);
                assert(t1[k] == s0.expanded_entry(sel, base_g, k));
            }
            lemma_visited_in_congruence(t1, t0, t0.len() as int);
            lemma_visited_in_update_true(
                t1,
                t0.len() as int,
                jj,
                Some(Cell { g_cost: c.g_cost, h_cost: c.h_cost, from: c.from, visited: true }),
            );
            assert(s0.steps_to(*self, jj));
            s0.lemma_step_start_ok(*self, jj);
            assert forall|i2: int| 0 <= i2 < t0.len() implies self.entry_inv(i2) by {
                s0.lemma_step_entry_inv(*self, jj, i2);
            }
        }
    }

    /// Repeats `advance` until the search terminates: either the end cell
    /// was expanded or the frontier was exhausted.  Terminates because
    /// every step expands one more cell of a finite grid.  The run is
    /// pinned to the search: some trace of single `advance` steps leads
    /// from the old state to the final one (`is_run_trace`), the final
    /// state satisfies one of the two terminal conditions, and a search
    /// that had already terminated is left untouched.
    pub fn run_to_completion(&mut self)
        requires
            old(self).wf(),
        ensures
            final(self).wf(),
            final(self).reached,
            final(self).visited_count <= final(self).area(),
            final(self).grid == old(self).grid,
            final(self).start == old(self).start,
            final(self).end == old(self).end,
            final(self).g_mult == old(self).g_mult,
            final(self).h_mult == old(self).h_mult,
            exists|tr: Seq<SearchState>| #[trigger] is_run_trace(tr, *old(self), *final(self)),
            !old(self).reached ==> final(self).terminal(),
            old(self).reached ==> final(self).table@ == old(self).table@
                && final(self).visited_count == old(self).visited_count,
            old(self).h_mult <= old(self).g_mult && crate::laws::expansion_ordered(*old(self))
                && crate::laws::expanded_closed(*old(self)) ==> crate::laws::expansion_ordered(
                *final(self),
            ) && crate::laws::expanded_closed(*final(self)),
            crate::laws::expanded_covered(*old(self)) ==> crate::laws::expanded_covered(
                *final(self),
            ),
    {
        proof {
            lemma_visited_in_le(self.table@, self.table@.len() as int);
        }
        let ghost mut tr: Seq<SearchState> = seq![*self];
        while !self.reached
            invariant
                self.wf(),
                self.grid == old(self).grid,
                self.start == old(self).start,
                self.end == old(self).end,
                self.g_mult == old(self).g_mult,
                self.h_mult == old(self).h_mult,
                tr.len() >= 1,
                tr[0] == *old(self),
                tr[tr.len() - 1] == *self,
                forall|k: int| 0 <= k < tr.len() - 1 ==> (#[trigger] tr[k]).advance_rel(tr[k + 1]),
                forall|k: int| 0 <= k < tr.len() - 1 ==> (#[trigger] tr[k]).reached == false,
                !old(self).reached ==> (self.reached ==> self.terminal()),
                old(self).reached ==> self.table@ == old(self).table@ && self.visited_count
                    == old(self).visited_count,
                old(self).h_mult <= old(self).g_mult && crate::laws::expansion_ordered(
                    *old(self),
                ) && crate::laws::expanded_closed(*old(self)) ==> crate::laws::expansion_ordered(
                    *self,
                ) && crate::laws::expanded_closed(*self),
                crate::laws::expanded_covered(*old(self)) ==> crate::laws::expanded_covered(
                    *self,
                ),
            decreases (if self.reached {
                0int
            } else {
                1int
            }), self.area() - self.visited_count,
        {
            proof {
                lemma_visited_in_le(self.table@, self.table@.len() as int);
                lemma_best_upto(self.table@, self.table@.len() as int);
                match self.select() {
                    Some(j) => lemma_visited_in_slack(self.table@, self.table@.len() as int, j),
                    None => (),
                }
            }
            let ghost pre: SearchState = *self;
            self.advance();
            proof {
                tr = tr.push(*self);
                assert(pre.advance_rel(*self));
                if self.reached {
                    match pre.select() {
                        Some(j) => {
                            if pre.coord_of(j) == pre.end {
                                crate::grid::lemma_index_decompose(
                                    pre.grid.width as int,
                                    pre.grid.height as int,
                                    j,
                                );
                                assert(self.idx_of(self.end) == j);
                                assert(self.table@[j] == pre.step_cell(j, j));
                                assert(is_visited(self.table@[j]));
                            }
                        },
                        None => {
                            assert(self.select() == pre.select());
                        },
                    }
                }
                if crate::laws::expanded_covered(pre) {
                    match pre.select() {
                        Some(j) => {
                            crate::laws::lemma_step_preserves_covered(pre, *self, j);
                        },
                        None => {
                            assert(crate::laws::expanded_covered(*self)) by {
                                assert forall|u: int, q: Coord|
                                    0 <= u < self.table@.len() && #[trigger] is_visited(
                                        self.table@[u],
                                    ) && self.in_grid(q) && #[trigger] adjacent(
                                        self.coord_of(u),
                                        q,
                                    ) && !self.grid.blocked_at(
                                        q.x as int,
                                        q.y as int,
                                    ) implies self.entry(q) is Some by {
                                    assert(self.coord_of(u) == pre.coord_of(u));
                                    assert(self.entry(q) == pre.entry(q));
                                    assert(is_visited(pre.table@[u]));
                                    assert(adjacent(pre.coord_of(u), q));
                                }
                            }
                        },
                    }
                }
                if old(self).h_mult <= old(self).g_mult && crate::laws::expansion_ordered(pre)
                    && crate::laws::expanded_closed(pre) {
                    match pre.select() {
                        Some(j) => {
                            crate::laws::lemma_step_preserves_order(pre, *self, j);
                            crate::laws::lemma_step_preserves_closed(pre, *self, j);
                        },
                        None => {
                            assert(crate::laws::expansion_ordered(*self)) by {
                                assert(self.table@ == pre.table@);
                            }
                            assert(crate::laws::expanded_closed(*self)) by {
                                assert forall|u: int, q: Coord|
                                    0 <= u < self.table@.len() && #[trigger] is_visited(
                                        self.table@[u],
                                    ) && self.in_grid(q) && #[trigger] adjacent(
                                        self.coord_of(u),
                                        q,
                                    ) && !self.grid.blocked_at(
                                        q.x as int,
                                        q.y as int,
                                    ) implies self.entry(q) is Some && self.entry(
                                    q,
                                )->Some_0.g_cost <= self.table@[u]->Some_0.g_cost + octile(
                                    self.coord_of(u),
                                    q,
                                ) * self.g_mult by {
                                    assert(self.coord_of(u) == pre.coord_of(u));
                                    assert(self.entry(q) == pre.entry(q));
                                    assert(is_visited(pre.table@[u]));
                                    assert(adjacent(pre.coord_of(u), q));
                                }
                            }
                        },
                    }
                }
            }
        }
        proof {
            lemma_visited_in_le(self.table@, self.table@.len() as int);
            assert(is_run_trace(tr, *old(self), *self));
        }
    }

    /// Walks the predecessor links back from the end cell, producing the
    /// found path from start to end, both endpoints included.  Returns
    /// `None` exactly when the end cell was never discovered: the goal is
    /// unreachable and there is no path to report.  Along the returned
    /// path each step moves to an adjacent cell, follows the recorded
    /// predecessor links, and the recorded costs grow by at least the
    /// scaled octile step cost.
    #[verifier::loop_isolation(false)]
    #[verifier::rlimit(60)]
    pub fn extract_path(&self) -> (r: Option<Vec<Coord>>)
        requires
            self.wf(),
        ensures
            match r {
                None => !self.discovered(self.end),
                Some(p) => {
                    &&& self.discovered(self.end)
                    &&& p@.len() >= 1
                    &&& p@[0] == self.start
                    &&& p@[p@.len() - 1] == self.end
                    &&& forall|i: int| 0 <= i < p@.len() ==> self.discovered(#[trigger] p@[i])
                    &&& forall|i: int|
                        1 <= i < p@.len() ==> (#[trigger] p@[i] != self.start && self.entry(
                            p@[i],
                        )->Some_0.from == p@[i - 1])
                    &&& forall|i: int| 1 <= i < p@.len() ==> adjacent(p@[i - 1], #[trigger] p@[i])
                    &&& forall|i: int|
                        1 <= i < p@.len() ==> !self.grid.blocked_at(
                            (#[trigger] p@[i]).x as int,
                            p@[i].y as int,
                        )
                    &&& forall|i: int|
                        1 <= i < p@.len() ==> self.entry(p@[i - 1])->Some_0.g_cost + octile(
                            p@[i - 1],
                            #[trigger] p@[i],
                        ) * self.g_mult <= self.entry(p@[i])->Some_0.g_cost
                },
            },
    {
        let w = self.grid.width;
        proof {
            lemma_index_in_range(
                w as int,
                self.grid.height as int,
                self.end.x as int,
                self.end.y as int,
            );
        }
        let ei: usize = self.end.y * w + self.end.x;
        match self.table[ei] {
            None => {
                return None;
            },
            Some(_) => {},
        }
        let mut p: Vec<Coord> = Vec::new();
        let mut cur: Coord = self.end;
        p.insert(0, cur);
        while !(cur.x == self.start.x && cur.y == self.start.y)
            invariant
                self.in_grid(cur),
                self.discovered(cur),
                p@.len() >= 1,
                p@[0] == cur,
                p@[p@.len() - 1] == self.end,
                forall|i: int| 0 <= i < p@.len() ==> self.discovered(#[trigger] p@[i]),
                forall|i: int|
                    1 <= i < p@.len() ==> (#[trigger] p@[i] != self.start && self.entry(
                        p@[i],
                    )->Some_0.from == p@[i - 1]),
                forall|i: int| 1 <= i < p@.len() ==> adjacent(p@[i - 1], #[trigger] p@[i]),
                forall|i: int|
                    1 <= i < p@.len() ==> !self.grid.blocked_at(
                        (#[trigger] p@[i]).x as int,
                        p@[i].y as int,
                    ),
                forall|i: int|
                    1 <= i < p@.len() ==> self.entry(p@[i - 1])->Some_0.g_cost + octile(
                        p@[i - 1],
                        #[trigger] p@[i],
                    ) * self.g_mult <= self.entry(p@[i])->Some_0.g_cost,
            decreases self.entry(cur)->Some_0.g_cost,
        {
            let wi = self.grid.width;
            proof {
                lemma_index_in_range(
                    wi as int,
                    self.grid.height as int,
                    cur.x as int,
                    cur.y as int,
                );
                crate::grid::lemma_coord_roundtrip(
                    wi as int,
                    self.grid.height as int,
                    cur.x as int,
                    cur.y as int,
                );
                assert(self.coord_of(self.idx_of(cur)) == cur);
                assert(self.entry_inv(self.idx_of(cur)));
                let f = self.entry(cur)->Some_0.from;
                lemma_adjacent_octile(f, cur);
                lemma_index_in_range(
                    wi as int,
                    self.grid.height as int,
                    f.x as int,
                    f.y as int,
                );
            }
            let ci: usize = cur.y * wi + cur.x;
            let f = match self.table[ci] {
                Some(c) => c.from,
                None => unreached(),
            };
            cur = f;
            p.insert(0, cur);
        }
        proof {
            assert(cur == self.start);
        }
        Some(p)
    }

    /// How the cell at `(x, y)` is currently classified for presentation:
    /// never discovered, on the frontier, or already expanded.
    pub fn status(&self, x: usize, y: usize) -> (r: CellStatus)
        requires
            self.wf(),
            self.grid.in_bounds(x as int, y as int),
        ensures
            (match self.entry(Coord { x, y }) {
                None => r == CellStatus::Unknown,
                Some(c) => r == if c.visited {
                    CellStatus::Visited
                } else {
                    CellStatus::Frontier
                },
            }),
    {
        proof {
            lemma_index_in_range(
                self.grid.width as int,
                self.grid.height as int,
                x as int,
                y as int,
            );
        }
        let i: usize = y * self.grid.width + x;
        match self.table[i] {
            None => CellStatus::Unknown,
            Some(c) => if c.visited {
                CellStatus::Visited
            } else {
                CellStatus::Frontier
            },
        }
    }

    /// Whether the end cell was ever discovered.  Once the search has
    /// terminated this distinguishes "goal found" from "goal unreachable":
    /// `reached` is set either way, and a caller must ask this question
    /// deliberately rather than infer success.
    pub fn end_discovered(&self) -> (r: bool)
        requires
            self.wf(),
        ensures
            r == self.discovered(self.end),
    {
        proof {
            lemma_index_in_range(
                self.grid.width as int,
                self.grid.height as int,
                self.end.x as int,
                self.end.y as int,
            );
        }
        let i: usize = self.end.y * self.grid.width + self.end.x;
        match self.table[i] {
            Some(_) => true,
            None => false,
        }
    }

    /// The record for the cell at `(x, y)`, if it was ever discovered.
    pub fn cell(&self, x: usize, y: usize) -> (r: Option<Cell>)
        requires
            self.wf(),
            self.grid.in_bounds(x as int, y as int),
        ensures
            r == self.entry(Coord { x, y }),
    {
        proof {
            lemma_index_in_range(
                self.grid.width as int,
                self.grid.height as int,
                x as int,
                y as int,
            );
        }
        let i: usize = y * self.grid.width + x;
        self.table[i]
    }

    /// Creates a search over `grid` from `start` toward `end` with the two
    /// positive cost multipliers: only the start cell is discovered, at
    /// cost zero, and the search has not terminated.
    pub fn new(grid: Grid, start: Coord, end: Coord, g_mult: u64, h_mult: u64) -> (s: SearchState)
        requires
            grid.wf(),
            grid.width >= 1,
            grid.height >= 1,
            grid.in_bounds(start.x as int, start.y as int),
            grid.in_bounds(end.x as int, end.y as int),
            g_mult >= 1,
            h_mult >= 1,
            cost_limit(grid.width as int, grid.height as int, g_mult as int, h_mult as int)
                <= u64::MAX,
        ensures
            s.wf(),
            s.is_initial(grid, start, end, g_mult, h_mult),
    {
        let mut s = SearchState {
            grid,
            start,
            end,
            g_mult,
            h_mult,
            table: Vec::new(),
            visited_count: 0,
            reached: false,
        };
        s.clear_table();
        s
    }

    /// Restarts the search from scratch over `grid`: the table is cleared
    /// down to the start cell and the terminal flag is cleared.  Called
    /// whenever the grid or the search parameters change.
    pub fn reset(&mut self, grid: Grid, start: Coord, end: Coord, g_mult: u64, h_mult: u64)
        requires
            grid.wf(),
            grid.width >= 1,
            grid.height >= 1,
            grid.in_bounds(start.x as int, start.y as int),
            grid.in_bounds(end.x as int, end.y as int),
            g_mult >= 1,
            h_mult >= 1,
            cost_limit(grid.width as int, grid.height as int, g_mult as int, h_mult as int)
                <= u64::MAX,
        ensures
            final(self).wf(),
            final(self).is_initial(grid, start, end, g_mult, h_mult),
    {
        self.grid = grid;
        self.start = start;
        self.end = end;
        self.g_mult = g_mult;
        self.h_mult = h_mult;
        self.visited_count = 0;
        self.reached = false;
        self.clear_table();
    }

    /// Rebuilds the table so that only the start cell is discovered.
    fn clear_table(&mut self)
        requires
            old(self).grid.wf(),
            old(self).grid.width >= 1,
            old(self).grid.height >= 1,
            old(self).in_grid(old(self).start),
            old(self).in_grid(old(self).end),
            old(self).g_mult >= 1,
            old(self).h_mult >= 1,
            old(self).visited_count == 0,
            old(self).reached == false,
            cost_limit(
                old(self).grid.width as int,
                old(self).grid.height as int,
                old(self).g_mult as int,
                old(self).h_mult as int,
            ) <= u64::MAX,
        ensures
            final(self).wf(),
            final(self).is_initial(
                old(self).grid,
                old(self).start,
                old(self).end,
                old(self).g_mult,
                old(self).h_mult,
            ),
    {
        let width = self.grid.width();
        let height = self.grid.height();
        let total: usize = width * height;
        let mut table: Vec<Option<Cell>> = Vec::new();
        let mut i: usize = 0;
        while i < total
            invariant
                i <= total,
                table@.len() == i,
                forall|j: int| 0 <= j < i ==> table@[j] is None,
            decreases total - i,
        {
            table.push(None);
            i = i + 1;
        }
        self.table = table;
        proof {
            lemma_index_in_range(
                self.grid.width as int,
                self.grid.height as int,
                self.start.x as int,
                self.start.y as int,
            );
            lemma_octile_bound(
                self.start,
                self.end,
                self.grid.width as int,
                self.grid.height as int,
            );
            assert(octile(self.start, self.end) * self.h_mult <= 14 * (self.grid.width
                + self.grid.height) * self.h_mult) by (nonlinear_arith)
                requires
                    0 <= octile(self.start, self.end) <= 14 * (self.grid.width as int
                        + self.grid.height as int),
                    self.h_mult >= 1,
            ;
            assert(self.grid.width * self.grid.height * 14 * self.g_mult >= 0) by (nonlinear_arith)
                requires
                    self.grid.width >= 1,
                    self.grid.height >= 1,
                    self.g_mult >= 1,
            ;
            assert(14 * (self.grid.width + self.grid.height) <= 14 * (self.grid.width
                + self.grid.height) * self.h_mult) by (nonlinear_arith)
                requires
                    self.grid.width as int + self.grid.height as int >= 0,
                    self.h_mult >= 1,
            ;
        }
        let idx: usize = self.start.y * width + self.start.x;
        let h0: u64 = heuristic(self.start, self.end) * self.h_mult;
        self.table.set(
            idx,
            Some(Cell { g_cost: 0, h_cost: h0, from: self.start, visited: false }),
        );
        proof {
            let w = self.grid.width as int;
            let h = self.grid.height as int;
            crate::grid::lemma_coord_roundtrip(w, h, self.start.x as int, self.start.y as int);
            lemma_visited_in_zero(self.table@, self.table@.len() as int);
            assert forall|i2: int| 0 <= i2 < self.table@.len() implies self.entry_inv(i2) by {
                if self.table@[i2] is Some {
                    assert(i2 == self.idx_of(self.start));
                    assert(self.coord_of(i2) == self.start);
                }
            }
        }
    }
}

} // verus!

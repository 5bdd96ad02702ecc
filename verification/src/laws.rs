//! Laws relating the engine's operations: determinism of single steps
//! and of whole runs, idempotence of `reset`, the A* expansion-order
//! invariant and its consequences (an expanded cell's cost is frozen),
//! completeness (a terminated search has discovered the end of every
//! walkable path), and the optimality of the cost the search reports.

use vstd::prelude::*;

use crate::cell::Cell;
use crate::grid::{lemma_index_decompose, lemma_index_in_range, Grid};
use crate::search::{
    adjacent, better, frontier_at, is_run_trace, is_visited, lemma_adjacent_octile,
    lemma_best_upto, lemma_visited_in_slack, SearchState,
};
use crate::{octile, Coord};

verus! {

/// Two search states are equivalent when every observable component
/// agrees: the grid, the endpoints, the multipliers, the discovered-cell
/// table, the visited count and the terminal flag.
pub open spec fn equiv(s1: SearchState, s2: SearchState) -> bool {
    &&& s1.grid == s2.grid
    &&& s1.start == s2.start
    &&& s1.end == s2.end
    &&& s1.g_mult == s2.g_mult
    &&& s1.h_mult == s2.h_mult
    &&& s1.table@ == s2.table@
    &&& s1.visited_count == s2.visited_count
    &&& s1.reached == s2.reached
}

/// Resetting is deterministic, and therefore idempotent: any two states
/// produced by `reset` (or `new`) from identical arguments are
/// equivalent, so resetting twice in a row with the same arguments
/// leaves exactly the state a single reset leaves.
pub proof fn lemma_reset_deterministic(
    s1: SearchState,
    s2: SearchState,
    grid: Grid,
    start: Coord,
    end: Coord,
    gm: u64,
    hm: u64,
)
    requires
        s1.is_initial(grid, start, end, gm, hm),
        s2.is_initial(grid, start, end, gm, hm),
    ensures
        equiv(s1, s2),
{
    assert forall|i: int| 0 <= i < s1.table@.len() implies s1.table@[i] == s2.table@[i] by {
        assert(s1.initial_entry(i) == s2.initial_entry(i));
    }
    assert(s1.table@ =~= s2.table@);
}

/// Advancing is deterministic: two equivalent searches select the same
/// cell and compute the same table entry for every index, so one
/// `advance` (and hence any number of them) keeps them equivalent.  The
/// visited order and the final path of a run are therefore functions of
/// the grid, the endpoints and the multipliers alone.
pub proof fn lemma_advance_deterministic(s1: SearchState, s2: SearchState)
    requires
        equiv(s1, s2),
    ensures
        s1.select() == s2.select(),
        forall|j: int, i: int|
            0 <= j < s1.table@.len() && 0 <= i < s1.table@.len() ==> s1.step_cell(j, i)
                == s2.step_cell(j, i),
        forall|i: int| s1.coord_of(i) == s2.coord_of(i),
{
    assert forall|j: int, i: int|
        0 <= j < s1.table@.len() && 0 <= i < s1.table@.len() implies s1.step_cell(j, i)
        == s2.step_cell(j, i) by {
        assert(s1.expanded_entry(s1.coord_of(j), s1.table@[j]->Some_0.g_cost, i)
            == s2.expanded_entry(s2.coord_of(j), s2.table@[j]->Some_0.g_cost, i));
    }
}

/// The octile distance obeys the triangle inequality.
pub proof fn lemma_octile_triangle(a: Coord, b: Coord, c: Coord)
    ensures
        octile(a, c) <= octile(a, b) + octile(b, c),
{
}

/// With the heuristic multiplier no larger than the movement multiplier,
/// the scaled octile heuristic is consistent: moving one step toward the
/// goal cannot lower the estimate by more than the step costs.
pub proof fn lemma_octile_consistent(sel: Coord, q: Coord, e: Coord, gm: int, hm: int)
    requires
        1 <= hm,
        hm <= gm,
    ensures
        octile(sel, e) * hm <= octile(sel, q) * gm + octile(q, e) * hm,
{
    lemma_octile_triangle(sel, q, e);
    let oa = octile(sel, e);
    let ob = octile(sel, q);
    let oc = octile(q, e);
    assert(oa * hm <= (ob + oc) * hm) by (nonlinear_arith)
        requires
            oa <= ob + oc,
            hm >= 1,
    ;
    assert((ob + oc) * hm == ob * hm + oc * hm) by (nonlinear_arith);
    assert(ob * hm <= ob * gm) by (nonlinear_arith)
        requires
            0 <= ob,
            hm <= gm,
    ;
}

/// The priority of the entry at `i`.
pub open spec fn entry_f(t: Seq<Option<Cell>>, i: int) -> int {
    t[i]->Some_0.f_cost_spec()
}

/// The A* expansion-order invariant: no expanded cell has a priority
/// larger than any frontier cell's.
pub open spec fn expansion_ordered(s: SearchState) -> bool {
    forall|u: int, v: int|
        0 <= u < s.table@.len() && 0 <= v < s.table@.len() && #[trigger] is_visited(s.table@[u])
            && #[trigger] frontier_at(s.table@, v) ==> entry_f(s.table@, u) <= entry_f(
            s.table@,
            v,
        )
}

/// A freshly reset search is trivially ordered: nothing is expanded yet.
pub proof fn lemma_initial_ordered(
    s: SearchState,
    grid: Grid,
    start: Coord,
    end: Coord,
    gm: u64,
    hm: u64,
)
    requires
        s.is_initial(grid, start, end, gm, hm),
    ensures
        expansion_ordered(s),
{
    assert forall|u: int| 0 <= u < s.table@.len() implies !is_visited(s.table@[u]) by {
        assert(s.table@[u] == s.initial_entry(u));
    }
}

/// While the heuristic multiplier stays no larger than the movement
/// multiplier, one expansion of the selected cell preserves the
/// expansion-order invariant.
#[verifier::rlimit(100)]
pub proof fn lemma_step_preserves_order(s0: SearchState, s1: SearchState, jj: int)
    requires
        s0.wf(),
        s0.steps_to(s1, jj),
        s0.select() == Some(jj),
        s0.h_mult <= s0.g_mult,
        expansion_ordered(s0),
    ensures
        expansion_ordered(s1),
{
    let t0 = s0.table@;
    let len = t0.len() as int;
    let w = s0.grid.width as int;
    let h = s0.grid.height as int;
    let gm = s0.g_mult as int;
    let hm = s0.h_mult as int;
    let vc = s0.visited_count as int;
    lemma_best_upto(t0, len);
    lemma_index_decompose(w, h, jj);
    let sel = s0.coord_of(jj);
    assert(s0.idx_of(sel) == jj);
    let base_g = t0[jj]->Some_0.g_cost;
    assert(s0.entry_inv(jj));
    lemma_visited_in_slack(t0, len, jj);
    assert((vc + 1) * 14 * gm == vc * 14 * gm + 14 * gm) by (nonlinear_arith);
    assert((vc + 1) * 14 * gm <= w * h * 14 * gm) by (nonlinear_arith)
        requires
            0 <= vc,
            vc + 1 <= w * h,
            gm >= 1,
    ;
    assert((w + h) * 14 * hm >= 0) by (nonlinear_arith)
        requires
            w >= 1,
            h >= 1,
            hm >= 1,
    ;
    assert forall|u: int, v: int|
        0 <= u < s1.table@.len() && 0 <= v < s1.table@.len() && #[trigger] is_visited(
            s1.table@[u],
        ) && #[trigger] frontier_at(s1.table@, v) implies entry_f(s1.table@, u) <= entry_f(
        s1.table@,
        v,
    ) by {
        lemma_index_decompose(w, h, u);
        lemma_index_decompose(w, h, v);
        let qu = s0.coord_of(u);
        let qv = s0.coord_of(v);
        assert(s0.idx_of(qu) == u);
        assert(s0.idx_of(qv) == v);
        assert(s1.table@[u] == s0.step_cell(jj, u));
        assert(s1.table@[v] == s0.step_cell(jj, v));
        assert(s0.entry_inv(u));
        assert(s0.entry_inv(v));
        crate::search::lemma_scaled_h_fits(w, h, gm, hm, qv, s0.end);
        // the newly expanded cell keeps jj's old priority; any other
        // expanded cell only got cheaper
        if u != jj {
            assert(is_visited(t0[u]));
            s0.lemma_step_g_mono(s1, jj, u);
            assert(entry_f(t0, u) <= entry_f(t0, jj));
            assert(entry_f(s1.table@, u) <= entry_f(t0, jj));
        }
        // the frontier cell either kept its old record, which the
        // selection rule already placed no earlier than jj, or was
        // relaxed through jj, which consistency bounds from below
        if adjacent(sel, qv) && !s0.grid.blocked_at(qv.x as int, qv.y as int) && (t0[v] is None
            || !(t0[v]->Some_0.g_cost < base_g + octile(sel, qv) * s0.g_mult)) {
            lemma_adjacent_octile(sel, qv);
            lemma_octile_consistent(sel, qv, s0.end, gm, hm);
            let cand = base_g + octile(sel, qv) * gm;
            assert(0 <= cand <= w * h * 14 * gm);
            assert(s1.table@[v]->Some_0.g_cost == cand as u64);
            assert(s1.table@[v]->Some_0.h_cost == (octile(qv, s0.end) * hm) as u64);
            assert(entry_f(t0, jj) <= entry_f(s1.table@, v));
        } else {
            assert(frontier_at(t0, v));
            assert(!better(t0[v]->Some_0, t0[jj]->Some_0));
            assert(entry_f(s1.table@, v) == entry_f(t0, v));
            assert(entry_f(t0, jj) <= entry_f(t0, v));
        }
    }
}

/// In an ordered search whose heuristic multiplier is no larger than the
/// movement multiplier, an expanded cell's accumulated cost never changes
/// again: once `visited` is set the recorded `g_cost` is final.
pub proof fn lemma_visited_cost_frozen(s0: SearchState, s1: SearchState, jj: int, u: int)
    requires
        s0.wf(),
        s0.steps_to(s1, jj),
        s0.select() == Some(jj),
        s0.h_mult <= s0.g_mult,
        expansion_ordered(s0),
        0 <= u < s0.table@.len(),
        is_visited(s0.table@[u]),
    ensures
        is_visited(s1.table@[u]),
        s1.table@[u]->Some_0.g_cost == s0.table@[u]->Some_0.g_cost,
{
    let t0 = s0.table@;
    let len = t0.len() as int;
    let w = s0.grid.width as int;
    let h = s0.grid.height as int;
    let gm = s0.g_mult as int;
    let hm = s0.h_mult as int;
    lemma_best_upto(t0, len);
    lemma_index_decompose(w, h, jj);
    let sel = s0.coord_of(jj);
    assert(s0.idx_of(sel) == jj);
    let base_g = t0[jj]->Some_0.g_cost;
    lemma_index_decompose(w, h, u);
    let q = s0.coord_of(u);
    assert(s0.idx_of(q) == u);
    assert(s1.table@[u] == s0.step_cell(jj, u));
    assert(s0.entry_inv(u));
    assert(s0.entry_inv(jj));
    if adjacent(sel, q) && !s0.grid.blocked_at(q.x as int, q.y as int) {
        lemma_adjacent_octile(sel, q);
        lemma_octile_consistent(sel, q, s0.end, gm, hm);
        let cand = base_g + octile(sel, q) * gm;
        assert(frontier_at(t0, jj));
        assert(entry_f(t0, u) <= entry_f(t0, jj));
        assert(t0[u]->Some_0.g_cost <= cand);
        if !(t0[u]->Some_0.g_cost < cand) {
            assert(cand == t0[u]->Some_0.g_cost);
            assert(s1.table@[u]->Some_0.g_cost == cand as u64);
        }
    }
}

/// The octile-weighted cost of a path, scaled by the movement
/// multiplier: the sum of the step costs between consecutive cells.
pub open spec fn path_cost(p: Seq<Coord>, gm: int) -> int
    decreases p.len(),
{
    if p.len() <= 1 {
        0
    } else {
        path_cost(p.drop_last(), gm) + octile(p[p.len() - 2], p[p.len() - 1]) * gm
    }
}

/// The cost the search records for the last cell of an extracted path
/// bounds the path's own octile-weighted cost from above: the engine
/// never reports a cost cheaper than a real path achieving it.  The
/// preconditions are exactly what `extract_path` ensures of its result.
pub proof fn lemma_path_cost_sound(s: SearchState, p: Seq<Coord>)
    requires
        s.wf(),
        p.len() >= 1,
        p[0] == s.start,
        forall|i: int| 0 <= i < p.len() ==> s.discovered(#[trigger] p[i]),
        forall|i: int|
            1 <= i < p.len() ==> s.entry(p[i - 1])->Some_0.g_cost + octile(
                p[i - 1],
                #[trigger] p[i],
            ) * s.g_mult <= s.entry(p[i])->Some_0.g_cost,
    ensures
        path_cost(p, s.g_mult as int) <= s.entry(p[p.len() - 1])->Some_0.g_cost,
    decreases p.len(),
{
    if p.len() > 1 {
        let q = p.drop_last();
        assert forall|i: int| 0 <= i < q.len() implies s.discovered(#[trigger] q[i]) by {
            assert(q[i] == p[i]);
        }
        assert forall|i: int|
            1 <= i < q.len() implies s.entry(q[i - 1])->Some_0.g_cost + octile(
            q[i - 1],
            #[trigger] q[i],
        ) * s.g_mult <= s.entry(q[i])->Some_0.g_cost by {
            assert(q[i] == p[i] && q[i - 1] == p[i - 1]);
        }
        lemma_path_cost_sound(s, q);
        assert(q[q.len() - 1] == p[p.len() - 2]);
    }
}

/// A walkable path on the grid: it starts at the search's start cell and
/// each later cell is an adjacent, unblocked, in-bounds cell.
pub open spec fn valid_path(s: SearchState, p: Seq<Coord>) -> bool {
    &&& p.len() >= 1
    &&& p[0] == s.start
    &&& forall|i: int| 0 <= i < p.len() ==> s.in_grid(#[trigger] p[i])
    &&& forall|i: int|
        1 <= i < p.len() ==> adjacent(p[i - 1], #[trigger] p[i]) && !s.grid.blocked_at(
            p[i].x as int,
            p[i].y as int,
        )
}

/// The unscaled octile cost of the part of `p` from position `j` on.
pub open spec fn rest_cost(p: Seq<Coord>, j: int) -> int
    decreases p.len() - j,
{
    if j + 1 >= p.len() || j < 0 {
        0
    } else {
        octile(p[j], p[j + 1]) + rest_cost(p, j + 1)
    }
}

/// The octile distance to the path's last cell bounds the remaining path
/// cost from below: each step shortens the distance by at most its cost.
pub proof fn lemma_rest_cost_lower(p: Seq<Coord>, j: int)
    requires
        0 <= j < p.len(),
    ensures
        octile(p[j], p[p.len() - 1]) <= rest_cost(p, j),
    decreases p.len() - j,
{
    if j + 1 < p.len() {
        lemma_rest_cost_lower(p, j + 1);
        lemma_octile_triangle(p[j], p[j + 1], p[p.len() - 1]);
    }
}

/// Dropping the last cell splits off exactly the final step's cost.
pub proof fn lemma_rest_cost_drop_last(p: Seq<Coord>, j: int)
    requires
        p.len() >= 2,
        0 <= j <= p.len() - 2,
    ensures
        rest_cost(p, j) == rest_cost(p.drop_last(), j) + octile(p[p.len() - 2], p[p.len() - 1]),
    decreases p.len() - j,
{
    assert(p.drop_last().len() == p.len() - 1);
    if j + 1 <= p.len() - 2 {
        lemma_rest_cost_drop_last(p, j + 1);
        assert(p.drop_last()[j] == p[j] && p.drop_last()[j + 1] == p[j + 1]);
    } else {
        assert(p.drop_last()[j] == p[j]);
        assert(rest_cost(p, j + 1) == 0);
        assert(rest_cost(p.drop_last(), j) == 0);
    }
}

/// A path's scaled cost splits at any position into the cost of the
/// prefix ending there plus the scaled remaining cost.
pub proof fn lemma_path_cost_split(p: Seq<Coord>, k: int, gm: int)
    requires
        1 <= k <= p.len(),
    ensures
        path_cost(p, gm) == path_cost(p.take(k), gm) + rest_cost(p, k - 1) * gm,
    decreases p.len(),
{
    if k == p.len() {
        assert(p.take(k) =~= p);
    } else {
        lemma_path_cost_split(p.drop_last(), k, gm);
        assert(p.drop_last().take(k) =~= p.take(k));
        lemma_rest_cost_drop_last(p, k - 1);
        assert((rest_cost(p.drop_last(), k - 1) + octile(p[p.len() - 2], p[p.len() - 1])) * gm
            == rest_cost(p.drop_last(), k - 1) * gm + octile(p[p.len() - 2], p[p.len() - 1]) * gm)
            by (nonlinear_arith);
    }
}

/// Every expanded cell has had each of its free in-bounds neighbours
/// discovered, at a cost no worse than stepping there from it.
pub open spec fn expanded_closed(s: SearchState) -> bool {
    forall|u: int, q: Coord|
        0 <= u < s.table@.len() && #[trigger] is_visited(s.table@[u]) && s.in_grid(q)
            && #[trigger] adjacent(s.coord_of(u), q) && !s.grid.blocked_at(
            q.x as int,
            q.y as int,
        ) ==> s.entry(q) is Some && s.entry(q)->Some_0.g_cost <= s.table@[u]->Some_0.g_cost
            + octile(s.coord_of(u), q) * s.g_mult
}

/// A freshly reset search is trivially closed: nothing is expanded yet.
pub proof fn lemma_initial_closed(
    s: SearchState,
    grid: Grid,
    start: Coord,
    end: Coord,
    gm: u64,
    hm: u64,
)
    requires
        s.is_initial(grid, start, end, gm, hm),
    ensures
        expanded_closed(s),
{
    assert forall|u: int| 0 <= u < s.table@.len() implies !is_visited(s.table@[u]) by {
        assert(s.table@[u] == s.initial_entry(u));
    }
}

/// While the heuristic multiplier stays no larger than the movement
/// multiplier, one expansion of the selected cell keeps the search
/// closed: the expanded cell's neighbours are relaxed on the spot, and
/// every older neighbour bound survives because expanded costs are
/// frozen and discovered costs only shrink.
#[verifier::rlimit(100)]
pub proof fn lemma_step_preserves_closed(s0: SearchState, s1: SearchState, jj: int)
    requires
        s0.wf(),
        s0.steps_to(s1, jj),
        s0.select() == Some(jj),
        s0.h_mult <= s0.g_mult,
        expansion_ordered(s0),
        expanded_closed(s0),
    ensures
        expanded_closed(s1),
{
    let t0 = s0.table@;
    let len = t0.len() as int;
    let w = s0.grid.width as int;
    let h = s0.grid.height as int;
    let gm = s0.g_mult as int;
    let vc = s0.visited_count as int;
    lemma_index_decompose(w, h, jj);
    let sel = s0.coord_of(jj);
    assert(s0.idx_of(sel) == jj);
    let base_g = t0[jj]->Some_0.g_cost;
    assert(s0.entry_inv(jj));
    lemma_visited_in_slack(t0, len, jj);
    assert((vc + 1) * 14 * gm == vc * 14 * gm + 14 * gm) by (nonlinear_arith);
    assert((vc + 1) * 14 * gm <= w * h * 14 * gm) by (nonlinear_arith)
        requires
            0 <= vc,
            vc + 1 <= w * h,
            gm >= 1,
    ;
    assert((w + h) * 14 * (s0.h_mult as int) >= 0) by (nonlinear_arith)
        requires
            w >= 1,
            h >= 1,
            s0.h_mult as int >= 1,
    ;
    assert forall|u: int, q: Coord|
        0 <= u < s1.table@.len() && #[trigger] is_visited(s1.table@[u]) && s1.in_grid(q)
            && #[trigger] adjacent(s1.coord_of(u), q) && !s1.grid.blocked_at(
            q.x as int,
            q.y as int,
        ) implies s1.entry(q) is Some && s1.entry(q)->Some_0.g_cost <= s1.table@[u]->Some_0.g_cost
        + octile(s1.coord_of(u), q) * s1.g_mult by {
        lemma_index_decompose(w, h, u);
        let qu = s0.coord_of(u);
        assert(s1.coord_of(u) == qu);
        assert(s0.idx_of(qu) == u);
        lemma_index_in_range(w, h, q.x as int, q.y as int);
        crate::grid::lemma_coord_roundtrip(w, h, q.x as int, q.y as int);
        let iq = s0.idx_of(q);
        assert(s0.coord_of(iq) == q);
        assert(s1.table@[u] == s0.step_cell(jj, u));
        assert(s1.table@[iq] == s0.step_cell(jj, iq));
        lemma_adjacent_octile(qu, q);
        if u == jj {
            // the freshly expanded cell: its neighbour was just relaxed
            assert(iq != jj);
            assert(s1.table@[iq] == s0.expanded_entry(sel, base_g, iq));
        } else {
            assert(is_visited(t0[u]));
            lemma_visited_cost_frozen(s0, s1, jj, u);
            assert(s0.entry(q) is Some);
            s0.lemma_step_g_mono(s1, jj, iq);
        }
    }
}

/// The discovered prefix of a path can always be pushed forward: some
/// cell of the path is discovered at no more than its prefix cost and is
/// either on the frontier or the path's last cell.
pub open spec fn reaches_prefix(s: SearchState, p: Seq<Coord>, m: int) -> bool {
    &&& 1 <= m <= p.len()
    &&& s.discovered(p[m - 1])
    &&& s.entry(p[m - 1])->Some_0.g_cost <= path_cost(p.take(m), s.g_mult as int)
    &&& (m == p.len() || frontier_at(s.table@, s.idx_of(p[m - 1])))
}

/// Starting from a discovered path cell whose recorded cost is within
/// the prefix cost, a closed search has such a witness cell further
/// along: walking over expanded cells, each neighbour bound extends the
/// prefix, until a frontier cell or the path's end is reached.
proof fn lemma_walk(s: SearchState, p: Seq<Coord>, k: int)
    requires
        s.wf(),
        expanded_closed(s),
        valid_path(s, p),
        1 <= k <= p.len(),
        s.discovered(p[k - 1]),
        s.entry(p[k - 1])->Some_0.g_cost <= path_cost(p.take(k), s.g_mult as int),
    ensures
        exists|m: int| #[trigger] reaches_prefix(s, p, m),
    decreases p.len() - k,
{
    let w = s.grid.width as int;
    let h = s.grid.height as int;
    let gm = s.g_mult as int;
    let v = p[k - 1];
    lemma_index_in_range(w, h, v.x as int, v.y as int);
    crate::grid::lemma_coord_roundtrip(w, h, v.x as int, v.y as int);
    let iv = s.idx_of(v);
    assert(s.coord_of(iv) == v);
    if !is_visited(s.table@[iv]) {
        assert(frontier_at(s.table@, iv));
        assert(reaches_prefix(s, p, k));
    } else if k == p.len() {
        assert(reaches_prefix(s, p, k));
    } else {
        let q = p[k];
        assert(adjacent(v, q) && !s.grid.blocked_at(q.x as int, q.y as int));
        assert(s.entry(q) is Some && s.entry(q)->Some_0.g_cost <= s.table@[iv]->Some_0.g_cost
            + octile(v, q) * gm);
        assert(p.take(k + 1).drop_last() =~= p.take(k));
        assert(path_cost(p.take(k + 1), gm) == path_cost(p.take(k), gm) + octile(v, q) * gm);
        lemma_index_in_range(w, h, q.x as int, q.y as int);
        lemma_walk(s, p, k + 1);
    }
}

/// Once the end cell has been expanded, its recorded cost is no larger
/// than the octile-weighted cost of any walkable path from start to end,
/// provided the heuristic multiplier does not exceed the movement
/// multiplier.  Together with `lemma_path_cost_sound` and the path that
/// `extract_path` returns, the engine's reported cost is exactly the
/// optimal path cost.
pub proof fn lemma_reported_cost_optimal(s: SearchState, p: Seq<Coord>)
    requires
        s.wf(),
        s.h_mult <= s.g_mult,
        expansion_ordered(s),
        expanded_closed(s),
        valid_path(s, p),
        p[p.len() - 1] == s.end,
        is_visited(s.table@[s.idx_of(s.end)]),
    ensures
        s.entry(s.end)->Some_0.g_cost <= path_cost(p, s.g_mult as int),
{
    let t = s.table@;
    let w = s.grid.width as int;
    let h = s.grid.height as int;
    let gm = s.g_mult as int;
    let hm = s.h_mult as int;
    lemma_index_in_range(w, h, s.start.x as int, s.start.y as int);
    crate::grid::lemma_coord_roundtrip(w, h, s.start.x as int, s.start.y as int);
    lemma_index_in_range(w, h, s.end.x as int, s.end.y as int);
    crate::grid::lemma_coord_roundtrip(w, h, s.end.x as int, s.end.y as int);
    let ie = s.idx_of(s.end);
    assert(s.coord_of(ie) == s.end);
    assert(s.entry_inv(ie));
    assert(path_cost(p.take(1), gm) == 0);
    assert(s.entry(p[0]) is Some && s.entry(p[0])->Some_0.g_cost == 0);
    lemma_walk(s, p, 1);
    let m = choose|m: int| #[trigger] reaches_prefix(s, p, m);
    let v = p[m - 1];
    lemma_index_in_range(w, h, v.x as int, v.y as int);
    crate::grid::lemma_coord_roundtrip(w, h, v.x as int, v.y as int);
    let iv = s.idx_of(v);
    assert(s.coord_of(iv) == v);
    assert(s.entry_inv(iv));
    lemma_path_cost_split(p, m, gm);
    lemma_rest_cost_lower(p, m - 1);
    if m == p.len() && !frontier_at(t, iv) {
        assert(p.take(m) =~= p);
    } else {
        assert(frontier_at(t, iv));
        assert(entry_f(t, ie) <= entry_f(t, iv));
        assert(octile(s.end, s.end) == 0);
        assert(t[ie]->Some_0.h_cost == 0);
        let ov = octile(v, s.end);
        assert(t[iv]->Some_0.h_cost == ov * hm);
        assert(ov * hm <= ov * gm) by (nonlinear_arith)
            requires
                0 <= ov,
                hm <= gm,
        ;
        assert(rest_cost(p, m - 1) >= ov);
        assert(ov * gm <= rest_cost(p, m - 1) * gm) by (nonlinear_arith)
            requires
                ov <= rest_cost(p, m - 1),
                gm >= 1,
        ;
    }
}


/// One step is deterministic: equivalent states step to equivalent
/// states, whichever of the two `advance` outcomes applies.
pub proof fn lemma_advance_rel_deterministic(
    a1: SearchState,
    a2: SearchState,
    b1: SearchState,
    b2: SearchState,
)
    requires
        equiv(a1, a2),
        a1.advance_rel(b1),
        a2.advance_rel(b2),
    ensures
        equiv(b1, b2),
{
    lemma_advance_deterministic(a1, a2);
    match a1.select() {
        None => {
            assert(b1.table@ =~= b2.table@);
        },
        Some(j) => {
            assert forall|i: int| 0 <= i < b1.table@.len() implies b1.table@[i]
                == b2.table@[i] by {
                assert(b1.table@[i] == a1.step_cell(j, i));
                assert(b2.table@[i] == a2.step_cell(j, i));
            }
            assert(b1.table@ =~= b2.table@);
            assert(a1.coord_of(j) == a2.coord_of(j));
        },
    }
}

/// A full run is deterministic: from equivalent starting states the run
/// traces have the same length and end in equivalent states, so the
/// whole visited order and the final table are functions of the grid,
/// the endpoints and the multipliers alone.
pub proof fn lemma_run_deterministic(
    t1: Seq<SearchState>,
    t2: Seq<SearchState>,
    a1: SearchState,
    a2: SearchState,
    b1: SearchState,
    b2: SearchState,
)
    requires
        is_run_trace(t1, a1, b1),
        is_run_trace(t2, a2, b2),
        equiv(a1, a2),
    ensures
        t1.len() == t2.len(),
        equiv(b1, b2),
    decreases t1.len(),
{
    if t1.len() == 1 {
        if t2.len() > 1 {
            assert(t2[0].reached == false);
            assert(t1[0].reached);
            assert(false);
        }
    } else {
        assert(t1[0].reached == false);
        if t2.len() == 1 {
            assert(t2[0].reached);
            assert(false);
        }
        assert(t1[0].advance_rel(t1[1]));
        assert(t2[0].advance_rel(t2[1]));
        lemma_advance_rel_deterministic(a1, a2, t1[1], t2[1]);
        let r1 = t1.subrange(1, t1.len() as int);
        let r2 = t2.subrange(1, t2.len() as int);
        assert forall|k: int| 0 <= k < r1.len() - 1 implies #[trigger] r1[k].advance_rel(
            r1[k + 1],
        ) && r1[k].reached == false by {
            assert(r1[k] == t1[k + 1] && r1[k + 1] == t1[k + 2]);
        }
        assert forall|k: int| 0 <= k < r2.len() - 1 implies #[trigger] r2[k].advance_rel(
            r2[k + 1],
        ) && r2[k].reached == false by {
            assert(r2[k] == t2[k + 1] && r2[k + 1] == t2[k + 2]);
        }
        assert(is_run_trace(r1, t1[1], b1));
        assert(is_run_trace(r2, t2[1], b2));
        lemma_run_deterministic(r1, r2, t1[1], t2[1], b1, b2);
    }
}

/// When the frontier is exhausted, the search is complete: the last cell
/// of every walkable path is discovered, expanded, and recorded at no
/// more than the path's own cost.  In particular the end cell is absent
/// from the table exactly when no walkable path reaches it.
pub proof fn lemma_no_frontier_completeness(s: SearchState, p: Seq<Coord>)
    requires
        s.wf(),
        expanded_closed(s),
        s.select() is None,
        valid_path(s, p),
    ensures
        s.discovered(p[p.len() - 1]),
        is_visited(s.table@[s.idx_of(p[p.len() - 1])]),
        s.entry(p[p.len() - 1])->Some_0.g_cost <= path_cost(p, s.g_mult as int),
{
    let w = s.grid.width as int;
    let h = s.grid.height as int;
    lemma_best_upto(s.table@, s.table@.len() as int);
    lemma_index_in_range(w, h, s.start.x as int, s.start.y as int);
    crate::grid::lemma_coord_roundtrip(w, h, s.start.x as int, s.start.y as int);
    assert(path_cost(p.take(1), s.g_mult as int) == 0);
    assert(s.entry(p[0]) is Some && s.entry(p[0])->Some_0.g_cost == 0);
    lemma_walk(s, p, 1);
    let m = choose|m: int| #[trigger] reaches_prefix(s, p, m);
    let v = p[m - 1];
    lemma_index_in_range(w, h, v.x as int, v.y as int);
    assert(!frontier_at(s.table@, s.idx_of(v)));
    assert(m == p.len());
    assert(p.take(m) =~= p);
}

/// After a terminated, ordered and closed search whose heuristic
/// multiplier does not exceed the movement multiplier, the end cell is
/// discovered whenever a walkable path from start to end exists, and its
/// recorded cost is then at most the cost of every such path.  Together
/// with `lemma_path_cost_sound` over the path `extract_path` returns,
/// the reported cost equals the optimal octile-weighted path cost.
pub proof fn lemma_terminal_optimal(s: SearchState, p: Seq<Coord>)
    requires
        s.wf(),
        s.h_mult <= s.g_mult,
        expansion_ordered(s),
        expanded_closed(s),
        s.terminal(),
        valid_path(s, p),
        p[p.len() - 1] == s.end,
    ensures
        s.discovered(s.end),
        s.entry(s.end)->Some_0.g_cost <= path_cost(p, s.g_mult as int),
{
    if s.select() is None {
        lemma_no_frontier_completeness(s, p);
    } else {
        let w = s.grid.width as int;
        let h = s.grid.height as int;
        lemma_index_in_range(w, h, s.end.x as int, s.end.y as int);
        lemma_reported_cost_optimal(s, p);
    }
}



/// Every expanded cell has had each of its free in-bounds neighbours
/// discovered.  Unlike `expanded_closed` this carries no cost bound, and
/// it holds for every choice of multipliers.
pub open spec fn expanded_covered(s: SearchState) -> bool {
    forall|u: int, q: Coord|
        0 <= u < s.table@.len() && #[trigger] is_visited(s.table@[u]) && s.in_grid(q)
            && #[trigger] adjacent(s.coord_of(u), q) && !s.grid.blocked_at(
            q.x as int,
            q.y as int,
        ) ==> s.entry(q) is Some
}

/// A freshly reset search is trivially covered: nothing is expanded yet.
pub proof fn lemma_initial_covered(
    s: SearchState,
    grid: Grid,
    start: Coord,
    end: Coord,
    gm: u64,
    hm: u64,
)
    requires
        s.is_initial(grid, start, end, gm, hm),
    ensures
        expanded_covered(s),
{
    assert forall|u: int| 0 <= u < s.table@.len() implies !is_visited(s.table@[u]) by {
        assert(s.table@[u] == s.initial_entry(u));
    }
}

/// One expansion keeps the search covered, for every choice of
/// multipliers: the expanded cell's free neighbours are relaxed on the
/// spot, and discovery is never undone.
pub proof fn lemma_step_preserves_covered(s0: SearchState, s1: SearchState, jj: int)
    requires
        s0.wf(),
        s0.steps_to(s1, jj),
        expanded_covered(s0),
    ensures
        expanded_covered(s1),
{
    let t0 = s0.table@;
    let w = s0.grid.width as int;
    let h = s0.grid.height as int;
    lemma_index_decompose(w, h, jj);
    let sel = s0.coord_of(jj);
    assert(s0.idx_of(sel) == jj);
    let base_g = t0[jj]->Some_0.g_cost;
    assert forall|u: int, q: Coord|
        0 <= u < s1.table@.len() && #[trigger] is_visited(s1.table@[u]) && s1.in_grid(q)
            && #[trigger] adjacent(s1.coord_of(u), q) && !s1.grid.blocked_at(
            q.x as int,
            q.y as int,
        ) implies s1.entry(q) is Some by {
        lemma_index_decompose(w, h, u);
        let qu = s0.coord_of(u);
        assert(s1.coord_of(u) == qu);
        assert(s0.idx_of(qu) == u);
        lemma_index_in_range(w, h, q.x as int, q.y as int);
        crate::grid::lemma_coord_roundtrip(w, h, q.x as int, q.y as int);
        let iq = s0.idx_of(q);
        assert(s0.coord_of(iq) == q);
        assert(s1.table@[u] == s0.step_cell(jj, u));
        assert(s1.table@[iq] == s0.step_cell(jj, iq));
        if u == jj {
            assert(iq != jj);
            assert(s1.table@[iq] == s0.expanded_entry(sel, base_g, iq));
        } else {
            assert(is_visited(t0[u]));
            assert(s0.entry(q) is Some);
            s0.lemma_step_g_mono(s1, jj, iq);
        }
    }
}

/// When the frontier is exhausted in a covered search, every walkable
/// path has been followed to its last cell: each cell on it is
/// discovered.  This holds for every choice of multipliers.
pub proof fn lemma_exhausted_discovers(s: SearchState, p: Seq<Coord>, k: int)
    requires
        s.wf(),
        expanded_covered(s),
        s.select() is None,
        valid_path(s, p),
        1 <= k <= p.len(),
        s.discovered(p[k - 1]),
    ensures
        s.discovered(p[p.len() - 1]),
    decreases p.len() - k,
{
    let w = s.grid.width as int;
    let h = s.grid.height as int;
    let v = p[k - 1];
    lemma_best_upto(s.table@, s.table@.len() as int);
    lemma_index_in_range(w, h, v.x as int, v.y as int);
    crate::grid::lemma_coord_roundtrip(w, h, v.x as int, v.y as int);
    assert(s.coord_of(s.idx_of(v)) == v);
    assert(!frontier_at(s.table@, s.idx_of(v)));
    assert(is_visited(s.table@[s.idx_of(v)]));
    if k < p.len() {
        assert(adjacent(v, p[k]));
        assert(s.entry(p[k]) is Some);
        lemma_index_in_range(w, h, p[k].x as int, p[k].y as int);
        lemma_exhausted_discovers(s, p, k + 1);
    }
}

/// After any terminated, covered search the end cell is discovered
/// whenever a walkable path from start to end exists; the converse holds
/// by `extract_path`, whose result is such a path.  "Goal found" and
/// "goal unreachable" are thus separated exactly by the end cell's
/// presence in the table, for every choice of multipliers.
pub proof fn lemma_terminal_completeness(s: SearchState, p: Seq<Coord>)
    requires
        s.wf(),
        expanded_covered(s),
        s.terminal(),
        valid_path(s, p),
        p[p.len() - 1] == s.end,
    ensures
        s.discovered(s.end),
{
    let w = s.grid.width as int;
    let h = s.grid.height as int;
    lemma_index_in_range(w, h, s.start.x as int, s.start.y as int);
    crate::grid::lemma_coord_roundtrip(w, h, s.start.x as int, s.start.y as int);
    lemma_index_in_range(w, h, s.end.x as int, s.end.y as int);
    if s.select() is None {
        lemma_exhausted_discovers(s, p, 1);
    } else {
        assert(is_visited(s.table@[s.idx_of(s.end)]));
    }
}



/// What `extract_path` guarantees of its result makes it a walkable
/// path in the sense of `valid_path`: the reported cost and the
/// completeness and optimality laws above therefore apply to it.
pub proof fn lemma_extracted_is_valid_path(s: SearchState, p: Seq<Coord>)
    requires
        p.len() >= 1,
        p[0] == s.start,
        forall|i: int| 0 <= i < p.len() ==> s.discovered(#[trigger] p[i]),
        forall|i: int| 1 <= i < p.len() ==> adjacent(p[i - 1], #[trigger] p[i]),
        forall|i: int|
            1 <= i < p.len() ==> !s.grid.blocked_at((#[trigger] p[i]).x as int, p[i].y as int),
    ensures
        valid_path(s, p),
{
}


} // verus!

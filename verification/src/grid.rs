//! The passability map: a fixed-size 2-D boolean grid.

use vstd::prelude::*;

verus! {

/// A width x height map of blocked and free cells, stored row by row.
pub struct Grid {
    pub width: usize,
    pub height: usize,
    pub cells: Vec<bool>,
}

impl Grid {
    /// Row-major storage: the cell at `(x, y)` lives at index `y * width + x`.
    pub open spec fn wf(&self) -> bool {
        &&& self.cells@.len() == self.width * self.height
        &&& self.width * self.height <= usize::MAX
    }

    pub open spec fn width_spec(&self) -> int {
        self.width as int
    }

    pub open spec fn height_spec(&self) -> int {
        self.height as int
    }

    /// Whether the cell at `(x, y)` is blocked.
    pub open spec fn blocked_at(&self, x: int, y: int) -> bool {
        self.cells@[y * self.width + x]
    }

    pub open spec fn in_bounds(&self, x: int, y: int) -> bool {
        0 <= x < self.width && 0 <= y < self.height
    }

    /// A fully passable grid of the given size.
    pub fn new(width: usize, height: usize) -> (g: Grid)
        requires
            width * height <= usize::MAX,
        ensures
            g.wf(),
            g.width_spec() == width,
            g.height_spec() == height,
            forall|x: int, y: int| g.in_bounds(x, y) ==> !g.blocked_at(x, y),
    {
        let total: usize = width * height;
        let mut cells: Vec<bool> = Vec::new();
        let mut i: usize = 0;
        while i < total
            invariant
                i <= total,
                cells@.len() == i,
                forall|j: int| 0 <= j < i ==> !cells@[j],
            decreases total - i,
        {
            cells.push(false);
            i = i + 1;
        }
        let g = Grid { width, height, cells };
        proof {
            assert forall|x: int, y: int| g.in_bounds(x, y) implies !g.blocked_at(x, y) by {
                lemma_index_in_range(width as int, height as int, x, y);
            }
        }
        g
    }

    pub fn width(&self) -> (r: usize)
        ensures
            r == self.width_spec(),
    {
        self.width
    }

    pub fn height(&self) -> (r: usize)
        ensures
            r == self.height_spec(),
    {
        self.height
    }

    /// Whether the cell at `(x, y)` is blocked.
    pub fn blocked(&self, x: usize, y: usize) -> (r: bool)
        requires
            self.wf(),
            self.in_bounds(x as int, y as int),
        ensures
            r == self.blocked_at(x as int, y as int),
    {
        proof {
            crate::grid::lemma_index_in_range(
                self.width as int,
                self.height as int,
                x as int,
                y as int,
            );
        }
        self.cells[y * self.width + x]
    }

    /// Mark the cell at `(x, y)` blocked or free.
    pub fn set_blocked(&mut self, x: usize, y: usize, b: bool)
        requires
            old(self).wf(),
            old(self).in_bounds(x as int, y as int),
        ensures
            final(self).wf(),
            final(self).width_spec() == old(self).width_spec(),
            final(self).height_spec() == old(self).height_spec(),
            final(self).blocked_at(x as int, y as int) == b,
            forall|i: int, j: int|
                old(self).in_bounds(i, j) && !(i == x && j == y) ==> final(self).blocked_at(
                    i,
                    j,
                ) == old(self).blocked_at(i, j),
    {
        proof {
            crate::grid::lemma_index_in_range(
                self.width as int,
                self.height as int,
                x as int,
                y as int,
            );
        }
        let idx: usize = y * self.width + x;
        self.cells.set(idx, b);
        proof {
            assert forall|i: int, j: int|
                old(self).in_bounds(i, j) && !(i == x && j == y) implies final(self).blocked_at(
                i,
                j,
            ) == old(self).blocked_at(i, j) by {
                lemma_index_in_range(old(self).width as int, old(self).height as int, i, j);
                if j * old(self).width + i == y * old(self).width + x {
                    lemma_index_injective(
                        old(self).width as int,
                        old(self).height as int,
                        i,
                        j,
                        x as int,
                        y as int,
                    );
                }
            }
        }
    }
}

/// Row-major indices of in-bounds coordinates lie within the backing store.
pub proof fn lemma_index_in_range(w: int, h: int, x: int, y: int)
    requires
        0 <= x < w,
        0 <= y < h,
    ensures
        0 <= y * w + x < w * h,
{
    assert(y * w + x < w * h) by (nonlinear_arith)
        requires
            0 <= x < w,
            0 <= y < h,
    ;
    assert(0 <= y * w) by (nonlinear_arith)
        requires
            0 <= y,
            0 < w,
    ;
}

/// A row-major index splits back into in-bounds coordinates.
pub proof fn lemma_index_decompose(w: int, h: int, i: int)
    requires
        1 <= w,
        1 <= h,
        0 <= i < w * h,
    ensures
        0 <= i % w < w,
        0 <= i / w < h,
        (i / w) * w + (i % w) == i,
{
    vstd::arithmetic::div_mod::lemma_fundamental_div_mod(i, w);
    vstd::arithmetic::div_mod::lemma_mod_bound(i, w);
    vstd::arithmetic::div_mod::lemma_div_pos_is_pos(i, w);
    vstd::arithmetic::mul::lemma_mul_is_commutative(w, i / w);
    vstd::arithmetic::mul::lemma_mul_is_commutative(w, h);
    if i / w >= h {
        vstd::arithmetic::mul::lemma_mul_inequality(h, i / w, w);
    }
}

/// Decomposing the row-major index of an in-bounds coordinate gives the
/// coordinate back.
pub proof fn lemma_coord_roundtrip(w: int, h: int, x: int, y: int)
    requires
        1 <= w,
        0 <= x < w,
        0 <= y < h,
    ensures
        (y * w + x) / w == y,
        (y * w + x) % w == x,
{
    vstd::arithmetic::div_mod::lemma_fundamental_div_mod_converse(y * w + x, w, y, x);
}

/// Distinct in-bounds coordinates have distinct row-major indices.
pub proof fn lemma_index_injective(w: int, h: int, x1: int, y1: int, x2: int, y2: int)
    requires
        0 <= x1 < w,
        0 <= y1 < h,
        0 <= x2 < w,
        0 <= y2 < h,
        y1 * w + x1 == y2 * w + x2,
    ensures
        x1 == x2 && y1 == y2,
{
    assert(x1 == x2 && y1 == y2) by (nonlinear_arith)
        requires
            0 <= x1 < w,
            0 <= y1 < h,
            0 <= x2 < w,
            0 <= y2 < h,
            y1 * w + x1 == y2 * w + x2,
    ;
}

} // verus!

//! An incremental A* search engine over a 2-D grid of passable and blocked
//! cells, intended for step-by-step visualization.
//!
//! A [`grid::Grid`] records which cells are blocked.  A
//! [`search::SearchState`] owns the discovered-cell table and performs one
//! expansion per call to `advance`, so a front end can render the frontier,
//! the visited set and the reconstructed path after every step.

use vstd::prelude::*;

pub mod cell;
pub mod grid;
pub mod laws;
pub mod search;

verus! {

/// A grid coordinate: column `x`, row `y`.
#[derive(Clone, Copy, PartialEq, Eq, Structural, Debug)]
pub struct Coord {
    pub x: usize,
    pub y: usize,
}

/// Octile distance between `a` and `b`: straight steps cost 10, diagonal
/// steps cost 14 (an integer scaling of sqrt(2) times the straight cost).
pub open spec fn octile(a: Coord, b: Coord) -> int {
    let dx = if a.x >= b.x { a.x - b.x } else { b.x - a.x };
    let dy = if a.y >= b.y { a.y - b.y } else { b.y - a.y };
    let lo = if dx <= dy { dx } else { dy };
    let hi = if dx <= dy { dy } else { dx };
    14 * lo + 10 * (hi - lo)
}

/// The heuristic used by the search: the octile distance to the goal,
/// before multiplier scaling.
pub fn heuristic(a: Coord, b: Coord) -> (r: u64)
    requires
        octile(a, b) <= u64::MAX,
    ensures
        r == octile(a, b),
{
    let dx: usize = if a.x >= b.x { a.x - b.x } else { b.x - a.x };
    let dy: usize = if a.y >= b.y { a.y - b.y } else { b.y - a.y };
    let lo: usize = if dx <= dy { dx } else { dy };
    let hi: usize = if dx <= dy { dy } else { dx };
    14 * (lo as u64) + 10 * ((hi - lo) as u64)
}

} // verus!

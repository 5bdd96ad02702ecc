//! The per-cell record kept for every discovered coordinate.

use vstd::prelude::*;

use crate::Coord;

verus! {

/// What the search has recorded about one discovered coordinate.
#[derive(Clone, Copy, PartialEq, Eq, Structural, Debug)]
pub struct Cell {
    /// Accumulated movement cost from the start along the best known path.
    pub g_cost: u64,
    /// Scaled heuristic estimate of the remaining cost to the end.
    pub h_cost: u64,
    /// The predecessor on the best known path (a sentinel for the start cell).
    pub from: Coord,
    /// True once the cell has been expanded; its `g_cost` is then final.
    pub visited: bool,
}

impl Cell {
    /// The selection priority: accumulated cost plus heuristic estimate.
    pub open spec fn f_cost_spec(self) -> int {
        self.g_cost + self.h_cost
    }

    /// The selection priority: accumulated cost plus heuristic estimate.
    pub fn f_cost(&self) -> (r: u64)
        requires
            self.f_cost_spec() <= u64::MAX,
        ensures
            r == self.f_cost_spec(),
    {
        self.g_cost + self.h_cost
    }
}

/// How a coordinate should be presented: never discovered, discovered but
/// not yet expanded, or expanded.
#[derive(Clone, Copy, PartialEq, Eq, Structural, Debug)]
pub enum CellStatus {
    Unknown,
    Frontier,
    Visited,
}

} // verus!

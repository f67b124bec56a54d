use vstd::prelude::*;
use crate::grid::candidate_grid::CandidateGrid;

verus! {

/// The state of the search: the candidates left in every cell.
pub struct SolverState {
    pub candidate_grid: CandidateGrid,
}

/// What the search found.
pub enum SolverResult {
    NoSolution,
    Solution(SolverState),
    MultipleSolution,
}

} // verus!

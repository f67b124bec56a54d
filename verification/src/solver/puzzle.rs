use vstd::prelude::*;
use crate::constraints::constraint_set::ConstraintSet;
use crate::grid::grid::Grid;

verus! {

/// A puzzle given by its givens and the constraints that its solution obeys.
pub struct Puzzle {
    pub grid: Grid<Option<u8>>,
    pub constraint_set: ConstraintSet,
}

} // verus!

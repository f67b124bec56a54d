pub mod clue;
pub mod puzzle;
pub mod solver_result;

pub use clue::{Clue, ClueType, Direction, KillerCage, LittleKillerArrow, Thermometer};
pub use puzzle::{Puzzle, PuzzleGrid, Rule};
pub use solver_result::{SolverResult, SolverState};

use vstd::prelude::*;
use crate::grid::position::Position;

pub use crate::constraints::variants::little_killer::Direction;

verus! {

/// A killer cage: its cells hold distinct values that add up to `target_sum`.
pub struct KillerCage {
    pub target_sum: u16,
    pub cage_cells: Vec<Position>,
}

/// A little killer arrow: the diagonal from `first_cell` in `direction` adds up to
/// `target_sum`.
pub struct LittleKillerArrow {
    pub target_sum: u16,
    pub first_cell: Position,
    pub direction: Direction,
}

/// A thermometer, from its bulb to its tip.
pub struct Thermometer {
    pub thermometer_cells: Vec<Position>,
}

/// A clue of a puzzle.
pub enum Clue {
    KillerCage(KillerCage),
    LittleKillerArrow(LittleKillerArrow),
    Thermometer(Thermometer),
}

/// The kinds of clues.
#[derive(Debug, Clone, Copy, PartialEq, Eq, Structural)]
pub enum ClueType {
    KillerCage,
    LittleKillerArrow,
    Thermometer,
}

} // verus!

use vstd::prelude::*;

verus! {

/// Side length of the regions of a classic puzzle, by which `Position::region` numbers
/// its regions.
pub const REGION_SIZE: usize = 3;

/// A cell of the puzzle, by zero-based row and column.
#[derive(Debug, Clone, Copy, PartialEq, Eq, Structural)]
pub struct Position {
    pub row: usize,
    pub col: usize,
}

impl Position {
    /// The position at `row` and `col`.
    pub fn new(row: usize, col: usize) -> (r: Position)
        ensures
            r.row == row,
            r.col == col,
    {
        Position { row, col }
    }

    /// The zero-based row.
    pub fn row(&self) -> (r: usize)
        ensures
            r == self.row,
    {
        self.row
    }

    /// The zero-based column.
    pub fn col(&self) -> (r: usize)
        ensures
            r == self.col,
    {
        self.col
    }

    /// The index of the classic 3x3 region that holds this position, regions numbered
    /// row by row.
    pub fn region(self) -> (r: usize)
        requires
            (self.row / 3) * 3 + self.col / 3 <= usize::MAX,
        ensures
            r == (self.row / 3) * 3 + self.col / 3,
    {
        (self.row / REGION_SIZE) * REGION_SIZE + (self.col / REGION_SIZE)
    }
}

} // verus!

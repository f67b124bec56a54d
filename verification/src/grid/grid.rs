use vstd::prelude::*;
use crate::grid::position::Position;

verus! {

/// A square grid of cells, made of `region_rows` x `region_cols` regions, so that its
/// side is `region_rows * region_cols`.
#[derive(Debug, Clone)]
pub struct Grid<Cell> {
    region_rows: usize,
    region_cols: usize,
    grid_size: usize,
    grid: Vec<Vec<Cell>>,
}

impl<Cell> View for Grid<Cell> {
    type V = Seq<Seq<Cell>>;

    /// The cells, row by row.
    closed spec fn view(&self) -> Seq<Seq<Cell>> {
        self.grid@.map_values(|row: Vec<Cell>| row@)
    }
}

impl<Cell> Grid<Cell> {
    /// The number of rows of a region.
    pub closed spec fn rrows(&self) -> nat {
        self.region_rows as nat
    }

    /// The number of columns of a region.
    pub closed spec fn rcols(&self) -> nat {
        self.region_cols as nat
    }

    /// The side of the grid.
    pub closed spec fn size(&self) -> nat {
        self.grid_size as nat
    }

    /// The side is the product of the region's sides, and the cells form a square of
    /// that side.
    pub open spec fn wf(&self) -> bool {
        &&& self.size() == self.rrows() * self.rcols()
        &&& self@.len() == self.size()
        &&& forall|r: int| 0 <= r < self.size() ==> #[trigger] self@[r].len() == self.size()
    }

    /// Whether `pos` lies inside the grid.
    pub open spec fn in_bounds(&self, pos: Position) -> bool {
        pos.row < self.size() && pos.col < self.size()
    }

    /// The cell at `pos`.
    pub open spec fn at(&self, pos: Position) -> Cell {
        self@[pos.row as int][pos.col as int]
    }

    /// Whether `self` and `other` have the same shape.
    pub open spec fn same_shape<Other>(&self, other: &Grid<Other>) -> bool {
        &&& self.rrows() == other.rrows()
        &&& self.rcols() == other.rcols()
        &&& self.size() == other.size()
    }

    /// The side of a grid fits in a `usize`.
    pub proof fn lemma_size_bound(&self)
        ensures
            self.size() <= usize::MAX,
            self.rrows() <= usize::MAX,
            self.rcols() <= usize::MAX,
    {
    }

    proof fn lemma_view(&self)
        ensures
            self@.len() == self.grid@.len(),
            forall|r: int| 0 <= r < self.grid@.len() ==> #[trigger] self@[r] == self.grid@[r]@,
    {
    }

    /// The number of rows of a region.
    pub fn region_rows(&self) -> (r: usize)
        ensures
            r == self.rrows(),
    {
        self.region_rows
    }

    /// The number of columns of a region.
    pub fn region_cols(&self) -> (r: usize)
        ensures
            r == self.rcols(),
    {
        self.region_cols
    }

    /// The side of the grid.
    pub fn grid_size(&self) -> (r: usize)
        ensures
            r == self.size(),
    {
        self.grid_size
    }

    /// Whether the grid is well formed: its side is the product of its region's sides,
    /// and its cells form a square of that side.
    pub fn is_well_formed(&self) -> (r: bool)
        ensures
            r == self.wf(),
    {
        proof {
            self.lemma_view();
        }
        match self.region_rows.checked_mul(self.region_cols) {
            None => false,
            Some(product) => {
                if product != self.grid_size || self.grid.len() != self.grid_size {
                    return false;
                }
                let mut r: usize = 0;
                while r < self.grid.len()
                    invariant
                        self.grid@.len() == self.grid_size,
                        self@.len() == self.grid@.len(),
                        forall|a: int| 0 <= a < self.grid@.len() ==> #[trigger] self@[a] == self.grid@[a]@,
                        r <= self.grid_size,
                        forall|a: int| 0 <= a < r ==> #[trigger] self@[a].len() == self.grid_size,
                    decreases self.grid_size - r,
                {
                    if self.grid[r].len() != self.grid_size {
                        assert(self@[r as int].len() != self.size());
                        return false;
                    }
                    r = r + 1;
                }
                true
            },
        }
    }

    /// The cell at `pos`.
    pub fn get(&self, pos: Position) -> (r: &Cell)
        requires
            self.wf(),
            self.in_bounds(pos),
        ensures
            *r == self.at(pos),
    {
        proof {
            self.lemma_view();
            assert(self@[pos.row as int].len() == self.size());
        }
        &self.grid[pos.row][pos.col]
    }

    /// Puts `value` at `pos` and gives back the cell that stood there.
    pub fn replace(&mut self, pos: Position, value: Cell) -> (r: Cell)
        requires
            old(self).wf(),
            old(self).in_bounds(pos),
        ensures
            r == old(self).at(pos),
            final(self).wf(),
            final(self).same_shape(old(self)),
            final(self)@ == old(self)@.update(
                pos.row as int,
                old(self)@[pos.row as int].update(pos.col as int, value),
            ),
    {
        proof {
            self.lemma_view();
            assert(self@[pos.row as int].len() == self.size());
        }
        let ghost old_view = self@;
        let mut v = value;
        std::mem::swap(&mut self.grid[pos.row][pos.col], &mut v);
        proof {
            self.lemma_view();
            assert(self@ =~= old_view.update(
                pos.row as int,
                old_view[pos.row as int].update(pos.col as int, value),
            )) by {
                assert forall|r: int| 0 <= r < self@.len() implies #[trigger] self@[r] =~= old_view.update(
                    pos.row as int,
                    old_view[pos.row as int].update(pos.col as int, value),
                )[r] by {
                }
            }
        }
        v
    }

    /// Puts `value` at `pos`, leaving every other cell as it was.
    pub fn set(&mut self, pos: Position, value: Cell)
        requires
            old(self).wf(),
            old(self).in_bounds(pos),
        ensures
            final(self).wf(),
            final(self).same_shape(old(self)),
            final(self)@ == old(self)@.update(
                pos.row as int,
                old(self)@[pos.row as int].update(pos.col as int, value),
            ),
    {
        proof {
            self.lemma_view();
            assert(self@[pos.row as int].len() == self.size());
        }
        let ghost old_view = self@;
        self.grid[pos.row].set(pos.col, value);
        proof {
            self.lemma_view();
            assert(self@ =~= old_view.update(
                pos.row as int,
                old_view[pos.row as int].update(pos.col as int, value),
            )) by {
                assert forall|r: int| 0 <= r < self@.len() implies #[trigger] self@[r] =~= old_view.update(
                    pos.row as int,
                    old_view[pos.row as int].update(pos.col as int, value),
                )[r] by {
                }
            }
        }
    }
}

impl<Cell: Clone> Grid<Cell> {
    /// The grid of `region_rows` x `region_cols` regions whose every cell is a clone of
    /// `default_value`.
    pub fn from_default(region_rows: usize, region_cols: usize, default_value: Cell) -> (r: Self)
        requires
            region_rows * region_cols <= usize::MAX,
        ensures
            r.wf(),
            r.rrows() == region_rows,
            r.rcols() == region_cols,
            r.size() == region_rows * region_cols,
            forall|i: int, j: int|
                0 <= i < r.size() && 0 <= j < r.size() ==> cloned(default_value, #[trigger] r@[i][j]),
    {
        let grid_size = region_rows * region_cols;
        let mut grid: Vec<Vec<Cell>> = Vec::new();
        let mut i: usize = 0;
        while i < grid_size
            invariant
                i <= grid_size,
                grid@.len() == i,
                forall|a: int| 0 <= a < i ==> #[trigger] grid@[a]@.len() == grid_size,
                forall|a: int, b: int|
                    0 <= a < i && 0 <= b < grid_size ==> cloned(default_value, #[trigger] grid@[a]@[b]),
            decreases grid_size - i,
        {
            let mut row: Vec<Cell> = Vec::new();
            let mut j: usize = 0;
            while j < grid_size
                invariant
                    j <= grid_size,
                    row@.len() == j,
                    forall|b: int| 0 <= b < j ==> cloned(default_value, #[trigger] row@[b]),
                decreases grid_size - j,
            {
                row.push(default_value.clone());
                j = j + 1;
            }
            grid.push(row);
            i = i + 1;
        }
        let r = Grid { region_rows, region_cols, grid_size, grid };
        proof {
            r.lemma_view();
        }
        r
    }

    /// A copy of the grid whose every cell is a clone of the cell at the same place.
    pub fn clone_grid(&self) -> (r: Self)
        requires
            self.wf(),
        ensures
            r.wf(),
            r.same_shape(self),
            forall|i: int, j: int|
                0 <= i < r.size() && 0 <= j < r.size() ==> cloned(self@[i][j], #[trigger] r@[i][j]),
    {
        proof {
            self.lemma_view();
        }
        let n = self.grid_size;
        let mut grid: Vec<Vec<Cell>> = Vec::new();
        let mut i: usize = 0;
        while i < n
            invariant
                n == self.size(),
                self.wf(),
                self@.len() == self.grid@.len(),
                forall|a: int| 0 <= a < self.grid@.len() ==> #[trigger] self@[a] == self.grid@[a]@,
                i <= n,
                grid@.len() == i,
                forall|a: int| 0 <= a < i ==> #[trigger] grid@[a]@.len() == n,
                forall|a: int, b: int|
                    0 <= a < i && 0 <= b < n ==> cloned(self@[a][b], #[trigger] grid@[a]@[b]),
            decreases n - i,
        {
            assert(self@[i as int].len() == n);
            let mut row: Vec<Cell> = Vec::new();
            let mut j: usize = 0;
            while j < n
                invariant
                    n == self.size(),
                    i < n,
                    self.grid@.len() == n,
                    self.grid@[i as int]@.len() == n,
                    self@[i as int] == self.grid@[i as int]@,
                    j <= n,
                    row@.len() == j,
                    forall|b: int| 0 <= b < j ==> cloned(self@[i as int][b], #[trigger] row@[b]),
                decreases n - j,
            {
                row.push(self.grid[i][j].clone());
                j = j + 1;
            }
            grid.push(row);
            i = i + 1;
        }
        let r = Grid {
            region_rows: self.region_rows,
            region_cols: self.region_cols,
            grid_size: self.grid_size,
            grid,
        };
        proof {
            r.lemma_view();
        }
        r
    }
}

impl<Cell> Grid<Cell> {
    /// The grid of the same shape whose cell at each place is what `f` gives for the
    /// cell of `self` at that place.
    pub fn map<NewCell, F>(&self, f: F) -> (r: Grid<NewCell>)
        where
            F: Fn(&Cell) -> NewCell,
        requires
            self.wf(),
            forall|i: int, j: int|
                0 <= i < self.size() && 0 <= j < self.size() ==> call_requires(f, (&self@[i][j],)),
        ensures
            r.wf(),
            r.same_shape(self),
            forall|i: int, j: int|
                0 <= i < r.size() && 0 <= j < r.size() ==> call_ensures(f, (&self@[i][j],), #[trigger] r@[i][j]),
    {
        proof {
            self.lemma_view();
        }
        let n = self.grid_size;
        let mut grid: Vec<Vec<NewCell>> = Vec::new();
        let mut i: usize = 0;
        while i < n
            invariant
                n == self.size(),
                self.wf(),
                self@.len() == self.grid@.len(),
                forall|a: int| 0 <= a < self.grid@.len() ==> #[trigger] self@[a] == self.grid@[a]@,
                forall|a: int, b: int|
                    0 <= a < self.size() && 0 <= b < self.size() ==> call_requires(f, (&self@[a][b],)),
                i <= n,
                grid@.len() == i,
                forall|a: int| 0 <= a < i ==> #[trigger] grid@[a]@.len() == n,
                forall|a: int, b: int|
                    0 <= a < i && 0 <= b < n ==> call_ensures(f, (&self@[a][b],), #[trigger] grid@[a]@[b]),
            decreases n - i,
        {
            assert(self@[i as int].len() == n);
            let mut row: Vec<NewCell> = Vec::new();
            let mut j: usize = 0;
            while j < n
                invariant
                    n == self.size(),
                    i < n,
                    self.grid@.len() == n,
                    self.grid@[i as int]@.len() == n,
                    self@[i as int] == self.grid@[i as int]@,
                    forall|b: int| 0 <= b < n ==> call_requires(f, (&self@[i as int][b],)),
                    j <= n,
                    row@.len() == j,
                    forall|b: int| 0 <= b < j ==> call_ensures(f, (&self@[i as int][b],), #[trigger] row@[b]),
                decreases n - j,
            {
                let v = f(&self.grid[i][j]);
                row.push(v);
                j = j + 1;
            }
            grid.push(row);
            i = i + 1;
        }
        let r = Grid {
            region_rows: self.region_rows,
            region_cols: self.region_cols,
            grid_size: self.grid_size,
            grid,
        };
        proof {
            r.lemma_view();
        }
        r
    }

    /// Replaces each cell of `self` by what `f` gives for it and for the cell of `other`
    /// at the same place.
    pub fn zip_apply<Other, F>(&mut self, other: &Grid<Other>, f: F)
        where
            F: Fn(&Cell, &Other) -> Cell,
        requires
            old(self).wf(),
            other.wf(),
            other.size() == old(self).size(),
            forall|i: int, j: int|
                0 <= i < old(self).size() && 0 <= j < old(self).size()
                    ==> call_requires(f, (&old(self)@[i][j], &other@[i][j])),
        ensures
            final(self).wf(),
            final(self).same_shape(old(self)),
            forall|i: int, j: int|
                0 <= i < old(self).size() && 0 <= j < old(self).size()
                    ==> call_ensures(f, (&old(self)@[i][j], &other@[i][j]), #[trigger] final(self)@[i][j]),
    {
        let n = self.grid_size;
        let ghost old_grid = self@;
        let mut i: usize = 0;
        while i < n
            invariant
                n == self.size(),
                n == old(self).size(),
                self.wf(),
                self.same_shape(old(self)),
                old_grid == old(self)@,
                other.wf(),
                other.size() == n,
                forall|a: int, b: int|
                    0 <= a < n && 0 <= b < n ==> call_requires(f, (&old_grid[a][b], &other@[a][b])),
                i <= n,
                forall|a: int, b: int|
                    0 <= a < i && 0 <= b < n ==> call_ensures(f, (&old_grid[a][b], &other@[a][b]), #[trigger] self@[a][b]),
                forall|a: int, b: int|
                    i <= a < n && 0 <= b < n ==> #[trigger] self@[a][b] == old_grid[a][b],
            decreases n - i,
        {
            let mut j: usize = 0;
            while j < n
                invariant
                    n == self.size(),
                    self.wf(),
                    self.same_shape(old(self)),
                    n == old(self).size(),
                    old_grid == old(self)@,
                    other.wf(),
                    other.size() == n,
                    forall|a: int, b: int|
                        0 <= a < n && 0 <= b < n ==> call_requires(f, (&old_grid[a][b], &other@[a][b])),
                    i < n,
                    j <= n,
                    forall|a: int, b: int|
                        0 <= a < i && 0 <= b < n ==> call_ensures(f, (&old_grid[a][b], &other@[a][b]), #[trigger] self@[a][b]),
                    forall|b: int|
                        0 <= b < j ==> call_ensures(f, (&old_grid[i as int][b], &other@[i as int][b]), #[trigger] self@[i as int][b]),
                    forall|a: int, b: int|
                        i < a < n && 0 <= b < n ==> #[trigger] self@[a][b] == old_grid[a][b],
                    forall|b: int|
                        j <= b < n ==> #[trigger] self@[i as int][b] == old_grid[i as int][b],
                decreases n - j,
            {
                let pos = Position { row: i, col: j };
                let v = f(self.get(pos), other.get(pos));
                self.set(pos, v);
                j = j + 1;
            }
            i = i + 1;
        }
    }
}

} // verus!

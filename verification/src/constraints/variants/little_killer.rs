use vstd::prelude::*;
use crate::constraints::helpers::{count_in, index_list, lemma_index_list_grow, repeat_index};
use crate::constraints::constraint::{all_cells, changed_cells, marked_set, Constraint};
use crate::constraints::sum_search::{
    lemma_assignment_found, lemma_completes_mono, lemma_completes_singletons, lemma_supports_mono, seq_sum, sum_assignment, sum_completes,
    sum_step, sum_supports,
};
use crate::constraints::variants::killer::{
    cells_cands, cells_values, drop_unsupported, lemma_cells_kept, lemma_drop_unsupported_next, lemma_drop_unsupported_none,
    lemma_pruned_shrink, lemma_pruned_transfer, lemma_pruned_upto_next, lemma_pruned_upto_none, lemma_unsupported_from,
    lemma_unsupported_shrink, pruned, pruned_upto, touched, touches, unsupported_in, values_kept,
};
use crate::grid::candidate_grid::{fits, marks_changes, shrinks, CandidateGrid};
use crate::grid::grid::Grid;
use crate::grid::position::Position;

verus! {

/// The direction in which a little killer diagonal runs from its first cell.
#[derive(Debug, Clone, Copy, PartialEq, Eq, Structural)]
pub enum Direction {
    DownRight,
    DownLeft,
    UpRight,
    UpLeft,
}

/// A diagonal of a little killer puzzle: its cells add up to `sum`.
pub struct Diagonal {
    pub sum: u16,
    pub positions: Vec<Position>,
}

/// The diagonals of a little killer puzzle, with, for each cell, the indices of the
/// diagonals that pass through it.
pub struct LittleKillerConstraint {
    diagonals: Vec<Diagonal>,
    diagonal_indices: Grid<Vec<usize>>,
}

/// `vals`, the values along a diagonal in a grid of side `n`, lie in `1..=n`, differ
/// within each region (`groups` gives the region of each cell), and add up to `sum`.
pub open spec fn diagonal_ok(vals: Seq<int>, groups: Seq<int>, n: int, sum: int) -> bool {
    &&& forall|i: int| 0 <= i < vals.len() ==> 1 <= #[trigger] vals[i] <= n
    &&& forall|i: int, k: int|
        0 <= i < k < vals.len() && groups[i] == groups[k] ==> #[trigger] vals[i] != #[trigger] vals[k]
    &&& seq_sum(vals) == sum
}

/// The little killer rule: every diagonal of `diagonals` is filled as `diagonal_ok`
/// demands, in a grid of `region_rows` x `region_cols` regions.
pub open spec fn little_killer_rule(
    sol: Seq<Seq<int>>,
    diagonals: Seq<Diagonal>,
    n: int,
    region_rows: int,
    region_cols: int,
) -> bool {
    forall|c: int|
        0 <= c < diagonals.len() ==> diagonal_ok(
            #[trigger] cells_values(sol, diagonals[c].positions@),
            region_groups(diagonals[c].positions@, region_rows, region_cols),
            n,
            diagonals[c].sum as int,
        )
}

/// Every cell of every diagonal lies inside a grid of side `n`.
pub open spec fn diagonals_in_bounds(diagonals: Seq<Diagonal>, n: nat) -> bool {
    forall|c: int, k: int|
        0 <= c < diagonals.len() && 0 <= k < diagonals[c].positions@.len() ==> (#[trigger] diagonals[c].positions@[k]).row < n
            && diagonals[c].positions@[k].col < n
}

/// Whether `q` is a cell of one of the diagonals that `flags` marks.
pub open spec fn in_flagged_diagonal(q: Position, diagonals: Seq<Diagonal>, flags: Seq<bool>) -> bool {
    exists|c: int| 0 <= c < diagonals.len() && #[trigger] flags[c] && diagonals[c].positions@.contains(q)
}

/// The step of a diagonal along the rows: down is `+1`.
pub open spec fn dir_dr(direction: Direction) -> int {
    match direction {
        Direction::DownRight | Direction::DownLeft => 1,
        Direction::UpRight | Direction::UpLeft => -1,
    }
}

/// The step of a diagonal along the columns: right is `+1`.
pub open spec fn dir_dc(direction: Direction) -> int {
    match direction {
        Direction::DownRight | Direction::UpRight => 1,
        Direction::DownLeft | Direction::UpLeft => -1,
    }
}

/// `x` moved `k` steps in direction `d` (`+1` or `-1`).
pub open spec fn step_from(x: int, d: int, k: int) -> int {
    if d == 1 { x + k } else { x - k }
}

/// How many steps a diagonal can take from `first` along the rows, and along the
/// columns, before it leaves a grid of side `n`.
pub open spec fn row_steps(direction: Direction, first: Position, n: int) -> int {
    if dir_dr(direction) == 1 { n - 1 - first.row } else { first.row as int }
}

pub open spec fn col_steps(direction: Direction, first: Position, n: int) -> int {
    if dir_dc(direction) == 1 { n - 1 - first.col } else { first.col as int }
}

/// The number of cells of the diagonal from `first` in a grid of side `n`.
pub open spec fn diagonal_len(direction: Direction, first: Position, n: int) -> int {
    let r = row_steps(direction, first, n);
    let c = col_steps(direction, first, n);
    (if r <= c { r } else { c }) + 1
}

/// The cells of the diagonal from `first` in `direction`, in a grid of side `n`.
pub open spec fn diagonal_cells(direction: Direction, first: Position, n: int) -> Seq<Position> {
    Seq::new(
        diagonal_len(direction, first, n) as nat,
        |k: int|
            Position {
                row: step_from(first.row as int, dir_dr(direction), k) as usize,
                col: step_from(first.col as int, dir_dc(direction), k) as usize,
            },
    )
}

/// A diagonal from a cell of a grid of side `n` starts at that cell, stays inside the
/// grid, takes one step each way per cell (`up_right`: one row up and one column to the
/// right; `up_left`: up and left; `down_right`: down and right; `down_left`: down and
/// left), and runs until its last cell is on the edge it moves towards.
pub proof fn law_diagonal_geometry(direction: Direction, first: Position, n: int)
    requires
        first.row < n,
        first.col < n,
        n <= 256,
    ensures
        ({
            let cells = diagonal_cells(direction, first, n);
            let last = cells[cells.len() - 1];
            &&& cells.len() >= 1
            &&& cells[0] == first
            &&& forall|k: int| 0 <= k < cells.len() ==> (#[trigger] cells[k]).row < n && cells[k].col < n
            &&& forall|k: int|
                #![trigger cells[k]]
                0 <= k < cells.len() - 1 ==> match direction {
                    Direction::UpRight => cells[k + 1].row + 1 == cells[k].row && cells[k + 1].col == cells[k].col + 1,
                    Direction::UpLeft => cells[k + 1].row + 1 == cells[k].row && cells[k + 1].col + 1 == cells[k].col,
                    Direction::DownRight => cells[k + 1].row == cells[k].row + 1 && cells[k + 1].col == cells[k].col + 1,
                    Direction::DownLeft => cells[k + 1].row == cells[k].row + 1 && cells[k + 1].col + 1 == cells[k].col,
                }
            &&& match direction {
                Direction::UpRight => last.row == 0 || last.col == n - 1,
                Direction::UpLeft => last.row == 0 || last.col == 0,
                Direction::DownRight => last.row == n - 1 || last.col == n - 1,
                Direction::DownLeft => last.row == n - 1 || last.col == 0,
            }
        }),
{
    let cells = diagonal_cells(direction, first, n);
    let len = diagonal_len(direction, first, n);
    assert(len >= 1);
    assert forall|k: int| 0 <= k < cells.len() implies (#[trigger] cells[k]).row < n && cells[k].col < n by {
    }
    assert(cells[0] == first);
}

/// A diagonal starts on the edge of the grid that it runs away from.
pub open spec fn starts_on_edge(direction: Direction, first: Position, n: int) -> bool {
    match direction {
        Direction::DownRight => first.row == 0 || first.col == 0,
        Direction::DownLeft => first.row == 0 || first.col == n - 1,
        Direction::UpRight => first.row == n - 1 || first.col == 0,
        Direction::UpLeft => first.row == n - 1 || first.col == n - 1,
    }
}

impl Diagonal {
    /// The diagonal with sum `sum` that runs from `first_position` in `direction`
    /// until it reaches the edge of a grid of side `grid_size`.
    pub fn new(sum: u16, direction: Direction, first_position: Position, grid_size: u8) -> (r: Diagonal)
        requires
            first_position.row < grid_size,
            first_position.col < grid_size,
            starts_on_edge(direction, first_position, grid_size as int),
        ensures
            r.sum == sum,
            r.positions@ == diagonal_cells(direction, first_position, grid_size as int),
            r.positions@.len() == diagonal_len(direction, first_position, grid_size as int),
            forall|k: int|
                0 <= k < r.positions@.len() ==> (#[trigger] r.positions@[k]).row == step_from(first_position.row as int, dir_dr(direction), k)
                    && r.positions@[k].col == step_from(first_position.col as int, dir_dc(direction), k),
    {
        let ghost n = grid_size as int;
        let ghost len = diagonal_len(direction, first_position, n);
        let ghost sr = row_steps(direction, first_position, n);
        let ghost sc = col_steps(direction, first_position, n);
        let last = (grid_size - 1) as usize;
        let mut row = first_position.row;
        let mut col = first_position.col;
        let mut positions: Vec<Position> = Vec::new();
        loop
            invariant_except_break
                positions@.len() < len,
                row == step_from(first_position.row as int, dir_dr(direction), positions@.len() as int),
                col == step_from(first_position.col as int, dir_dc(direction), positions@.len() as int),
            invariant
                last == n - 1,
                len == diagonal_len(direction, first_position, n),
                sr == row_steps(direction, first_position, n),
                sc == col_steps(direction, first_position, n),
                0 <= sr < n,
                0 <= sc < n,
                forall|k: int|
                    0 <= k < positions@.len() ==> (#[trigger] positions@[k]).row == step_from(first_position.row as int, dir_dr(direction), k)
                        && positions@[k].col == step_from(first_position.col as int, dir_dc(direction), k),
            ensures
                positions@.len() == len,
            decreases len - positions@.len(),
        {
            let ghost k = positions@.len() as int;
            positions.push(Position { row, col });
            match direction {
                Direction::DownRight | Direction::DownLeft => {
                    if row == last {
                        break;
                    }
                    row = row + 1;
                },
                Direction::UpRight | Direction::UpLeft => {
                    if row == 0 {
                        break;
                    }
                    row = row - 1;
                },
            }
            match direction {
                Direction::DownRight | Direction::UpRight => {
                    if col == last {
                        break;
                    }
                    col = col + 1;
                },
                Direction::DownLeft | Direction::UpLeft => {
                    if col == 0 {
                        break;
                    }
                    col = col - 1;
                },
            }
        }
        proof {
            assert forall|k: int| 0 <= k < len implies 0 <= #[trigger] step_from(first_position.row as int, dir_dr(direction), k) < n
                && 0 <= step_from(first_position.col as int, dir_dc(direction), k) < n by {
            }
            assert(positions@ =~= diagonal_cells(direction, first_position, n));
        }
        Diagonal { sum, positions }
    }
}

/// The index of the region of a grid of `region_rows` x `region_cols` regions that
/// holds `p`, regions numbered row by row.
pub open spec fn region_of(p: Position, region_rows: int, region_cols: int) -> int {
    (p.row as int / region_rows) * region_rows + p.col as int / region_cols
}

/// The regions of the cells at `cells`, in order: a value may not repeat among the
/// cells of a diagonal that share a region.
pub open spec fn region_groups(cells: Seq<Position>, region_rows: int, region_cols: int) -> Seq<int> {
    Seq::new(cells.len(), |i: int| region_of(cells[i], region_rows, region_cols))
}

/// The rows of a table of flags.
pub open spec fn flag_rows(table: Seq<Vec<bool>>) -> Seq<Seq<bool>> {
    table.map_values(|row: Vec<bool>| row@)
}

/// The pairs (region, value) that the table marks as taken, flag `i` of row `g`
/// standing for value `i + 1` in region `g`.
pub open spec fn region_flags(table: Seq<Seq<bool>>) -> Set<(int, int)> {
    Set::new(|p: (int, int)| 0 <= p.0 < table.len() && 1 <= p.1 <= table[p.0].len() && table[p.0][p.1 - 1])
}

proof fn lemma_flag_rows(table: Seq<Vec<bool>>)
    ensures
        flag_rows(table).len() == table.len(),
        forall|g: int| 0 <= g < table.len() ==> #[trigger] flag_rows(table)[g] == table[g]@,
{
}

proof fn lemma_region_bound(row: int, col: int, rr: int, rc: int)
    requires
        rr > 0,
        rc > 0,
        0 <= row < rr * rc,
        0 <= col < rr * rc,
    ensures
        0 <= (row / rr) * rr + col / rc < rr * rc,
{
    assert(0 <= row / rr < rc) by (nonlinear_arith) requires rr > 0, 0 <= row < rr * rc;
    assert(0 <= col / rc < rr) by (nonlinear_arith) requires rc > 0, 0 <= col < rr * rc;
    assert(0 <= (row / rr) * rr + col / rc < rr * rc) by (nonlinear_arith)
        requires rr > 0, rc > 0, 0 <= row / rr < rc, 0 <= col / rc < rr;
}

/// Searches the fillings of the diagonal cells from `index` on that use values not yet
/// flagged for their region in `values_used_in_box` and add up to `target_sum`;
/// flags in `updated_candidates` each value that some filling puts in its slot.
fn recursive_solve(
    grid: &CandidateGrid,
    diagonal_positions: &Vec<Position>,
    updated_candidates: &mut Vec<Vec<bool>>,
    values_used_in_box: &mut Vec<Vec<bool>>,
    index: usize,
    target_sum: u16,
) -> (r: bool)
    requires
        grid.wf(),
        grid.size() <= 64,
        forall|k: int| 0 <= k < diagonal_positions@.len() ==> grid.in_bounds(#[trigger] diagonal_positions@[k]),
        index <= diagonal_positions@.len(),
        old(values_used_in_box)@.len() == grid.size(),
        forall|g: int| 0 <= g < grid.size() ==> (#[trigger] old(values_used_in_box)@[g])@.len() == grid.size(),
        old(updated_candidates)@.len() == diagonal_positions@.len(),
        forall|j: int| 0 <= j < diagonal_positions@.len() ==> (#[trigger] old(updated_candidates)@[j])@.len() == grid.size(),
    ensures
        r == sum_completes(
            cells_cands(grid, diagonal_positions@),
            region_groups(diagonal_positions@, grid.rrows() as int, grid.rcols() as int),
            grid.size() as int,
            region_flags(flag_rows(old(values_used_in_box)@)),
            index as nat,
            target_sum as int,
        ),
        flag_rows(final(values_used_in_box)@) == flag_rows(old(values_used_in_box)@),
        final(updated_candidates)@.len() == old(updated_candidates)@.len(),
        forall|j: int| 0 <= j < diagonal_positions@.len() ==> (#[trigger] final(updated_candidates)@[j])@.len() == grid.size(),
        forall|j: int, i: int|
            0 <= j < diagonal_positions@.len() && 0 <= i < grid.size() ==> (#[trigger] final(updated_candidates)@[j]@[i] == (
            old(updated_candidates)@[j]@[i] || (index <= j && sum_supports(
                cells_cands(grid, diagonal_positions@),
                region_groups(diagonal_positions@, grid.rrows() as int, grid.rcols() as int),
                grid.size() as int,
                region_flags(flag_rows(old(values_used_in_box)@)),
                index as nat,
                target_sum as int,
                j,
                i + 1,
            )))),
    decreases diagonal_positions@.len() - index,
{
    if index == diagonal_positions.len() {
        return target_sum == 0;
    }
    let ghost cands = cells_cands(grid, diagonal_positions@);
    let ghost groups = region_groups(diagonal_positions@, grid.rrows() as int, grid.rcols() as int);
    let ghost n = grid.size() as int;
    let ghost rows0 = flag_rows(values_used_in_box@);
    let ghost used = region_flags(rows0);
    let ghost upd0 = updated_candidates@;
    let ghost len = diagonal_positions@.len();
    let ghost rem = target_sum as int;
    let ghost idx = index as int;

    let pos = diagonal_positions[index];
    let region_rows = grid.region_rows();
    let region_cols = grid.region_cols();
    proof {
        assert(grid.in_bounds(diagonal_positions@[idx]));
        assert(region_rows > 0 && region_cols > 0) by (nonlinear_arith)
            requires grid.size() == region_rows * region_cols, pos.row < grid.size();
        lemma_region_bound(pos.row as int, pos.col as int, region_rows as int, region_cols as int);
        assert((pos.row / region_rows) * region_rows <= pos.row) by (nonlinear_arith)
            requires region_rows > 0;
    }
    let region = (pos.row / region_rows) * region_rows + pos.col / region_cols;
    assert(groups[idx] == region);

    let mut is_possible = false;
    let size = grid.grid_size();
    let mut i: usize = 0;
    while i < size && i + 1 <= target_sum as usize
        invariant
            grid.wf(),
            size == grid.size(),
            size <= 64,
            forall|k: int| 0 <= k < len ==> grid.in_bounds(#[trigger] diagonal_positions@[k]),
            index < diagonal_positions.len(),
            len == diagonal_positions@.len(),
            pos == diagonal_positions@[idx],
            idx == index,
            rem == target_sum,
            region < size,
            groups[idx] == region,
            cands == cells_cands(grid, diagonal_positions@),
            groups == region_groups(diagonal_positions@, grid.rrows() as int, grid.rcols() as int),
            n == size,
            used == region_flags(rows0),
            rows0.len() == size,
            forall|g: int| 0 <= g < size ==> (#[trigger] rows0[g]).len() == size,
            i <= size,
            flag_rows(values_used_in_box@) == rows0,
            values_used_in_box@.len() == size,
            upd0.len() == len,
            updated_candidates@.len() == len,
            forall|j: int| 0 <= j < len ==> (#[trigger] upd0[j])@.len() == size,
            forall|j: int| 0 <= j < len ==> (#[trigger] updated_candidates@[j])@.len() == size,
            is_possible == exists|v: int|
                1 <= v <= i && #[trigger] sum_step(cands, groups, n, used, idx, rem, v) && sum_completes(
                    cands,
                    groups,
                    n,
                    used.insert((groups[idx], v)),
                    (idx + 1) as nat,
                    rem - v,
                ),
            forall|j: int, k: int|
                0 <= j < len && 0 <= k < size ==> (#[trigger] updated_candidates@[j]@[k] == (upd0[j]@[k] || (idx <= j
                    && exists|v: int|
                    1 <= v <= i && #[trigger] sum_step(cands, groups, n, used, idx, rem, v) && ((j == idx && k + 1 == v
                        && sum_completes(cands, groups, n, used.insert((groups[idx], v)), (idx + 1) as nat, rem - v))
                        || (j > idx && sum_supports(
                        cands,
                        groups,
                        n,
                        used.insert((groups[idx], v)),
                        (idx + 1) as nat,
                        rem - v,
                        j,
                        k + 1,
                    )))))),
        decreases size - i,
    {
        let val = i + 1;
        let ghost v = val as int;
        let ghost next_used = used.insert((groups[idx], v));
        let ghost upd1 = updated_candidates@;
        proof {
            lemma_flag_rows(values_used_in_box@);
            assert(flag_rows(values_used_in_box@)[region as int] == values_used_in_box@[region as int]@);
            assert(values_used_in_box@[region as int]@ == rows0[region as int]);
            assert(rows0[region as int].len() == size);
        }
        if !values_used_in_box[region][i] && grid.get(pos).contains(val as u8) {
            values_used_in_box[region].set(i, true);
            proof {
                lemma_flag_rows(values_used_in_box@);
                assert(flag_rows(values_used_in_box@) =~= rows0.update(region as int, rows0[region as int].update(i as int, true)));
                assert(region_flags(flag_rows(values_used_in_box@)) =~= next_used);
                assert forall|g: int| 0 <= g < size implies (#[trigger] values_used_in_box@[g])@.len() == size by {
                    assert(flag_rows(values_used_in_box@)[g] == values_used_in_box@[g]@);
                    assert(rows0[g].len() == size);
                }
            }
            let ok = recursive_solve(grid, diagonal_positions, updated_candidates, values_used_in_box, index + 1, target_sum - val as u16);
            let ghost upd2 = updated_candidates@;
            if ok {
                updated_candidates[index].set(i, true);
                is_possible = true;
            }
            proof {
                lemma_flag_rows(values_used_in_box@);
                assert(flag_rows(values_used_in_box@)[region as int] == values_used_in_box@[region as int]@);
                assert(values_used_in_box@[region as int]@.len() == size);
            }
            let ghost mid = values_used_in_box@;
            values_used_in_box[region].set(i, false);
            proof {
                lemma_flag_rows(values_used_in_box@);
                assert(flag_rows(values_used_in_box@) =~= rows0) by {
                    lemma_flag_rows(mid);
                    assert forall|g: int| 0 <= g < size implies #[trigger] flag_rows(values_used_in_box@)[g] =~= rows0[g] by {
                        assert(flag_rows(mid)[g] == rows0.update(region as int, rows0[region as int].update(i as int, true))[g]);
                        if g == region {
                            assert(rows0[g][i as int] == false);
                            assert(values_used_in_box@[g]@ == mid[g]@.update(i as int, false));
                        } else {
                            assert(values_used_in_box@[g] == mid[g]);
                        }
                    }
                }
                assert(sum_step(cands, groups, n, used, idx, rem, v));
                assert forall|j: int, k: int| 0 <= j < len && 0 <= k < size implies (#[trigger] updated_candidates@[j]@[k]
                    == (upd0[j]@[k] || (idx <= j && exists|w: int|
                    1 <= w <= i + 1 && #[trigger] sum_step(cands, groups, n, used, idx, rem, w) && ((j == idx && k + 1 == w
                        && sum_completes(cands, groups, n, used.insert((groups[idx], w)), (idx + 1) as nat, rem - w))
                        || (j > idx && sum_supports(
                        cands,
                        groups,
                        n,
                        used.insert((groups[idx], w)),
                        (idx + 1) as nat,
                        rem - w,
                        j,
                        k + 1,
                    )))))) by {
                    assert(upd2[j]@[k] == (upd1[j]@[k] || (idx + 1 <= j && sum_supports(
                        cands,
                        groups,
                        n,
                        next_used,
                        (idx + 1) as nat,
                        rem - v,
                        j,
                        k + 1,
                    ))));
                }
            }
        } else {
            proof {
                assert(!sum_step(cands, groups, n, used, idx, rem, v)) by {
                    if rows0[region as int][i as int] {
                        assert(used.contains((region as int, v)));
                    }
                }
            }
        }
        i = i + 1;
    }
    proof {
        assert forall|v: int| #[trigger] sum_step(cands, groups, n, used, idx, rem, v) implies v <= i by {
        }
    }
    is_possible
}

impl LittleKillerConstraint {
    /// The diagonals, in the order they were given.
    pub closed spec fn diagonal_seq(&self) -> Seq<Diagonal> {
        self.diagonals@
    }

    /// The constraint is built for grids of `region_rows` x `region_cols` regions: its
    /// diagonals lie inside such a grid and, for every cell, it lists the diagonals that hold
    /// the cell, in order, once for each time one holds it.
    pub closed spec fn wf_for(&self, region_rows: nat, region_cols: nat) -> bool {
        &&& self.diagonal_indices.wf()
        &&& self.diagonal_indices.rrows() == region_rows
        &&& self.diagonal_indices.rcols() == region_cols
        &&& diagonals_in_bounds(self.diagonals@, region_rows * region_cols)
        &&& forall|p: Position, k: int|
            p.row < region_rows * region_cols && p.col < region_rows * region_cols && 0
                <= k < self.diagonal_indices.at(p)@.len() ==> (#[trigger] self.diagonal_indices.at(p)@[k]) < self.diagonals@.len()
                && self.diagonals@[self.diagonal_indices.at(p)@[k] as int].positions@.contains(p)
        &&& forall|c: int, k: int|
            0 <= c < self.diagonals@.len() && 0 <= k < self.diagonals@[c].positions@.len() ==> self.diagonal_indices.at(
                #[trigger] self.diagonals@[c].positions@[k],
            )@.contains(c as usize)
        &&& forall|p: Position|
            p.row < region_rows * region_cols && p.col < region_rows * region_cols ==> (#[trigger] self.diagonal_indices.at(p))@
                == index_list(self.diagonals@.map_values(|c: Diagonal| c.positions@), p, self.diagonals@.len())
    }

    /// The constraint of `diagonals`, for grids of `region_rows` x `region_cols` regions.
    pub fn new(diagonal: Vec<Diagonal>, region_rows: u8, region_cols: u8) -> (r: LittleKillerConstraint)
        requires
            diagonals_in_bounds(diagonal@, (region_rows * region_cols) as nat),
        ensures
            r.diagonal_seq() == diagonal@,
            r.wf_for(region_rows as nat, region_cols as nat),
    {
        let diagonals = diagonal;
        let region_rows = region_rows as usize;
        let region_cols = region_cols as usize;
        assert(region_rows * region_cols <= 255 * 255) by (nonlinear_arith)
            requires region_rows <= 255, region_cols <= 255;
        let ghost n = region_rows * region_cols;
        let ghost parts = diagonals@.map_values(|c: Diagonal| c.positions@);
        let empty: Vec<usize> = Vec::new();
        let mut diagonal_indices = Grid::from_default(region_rows, region_cols, empty);
        proof {
            assert forall|p: Position| p.row < n && p.col < n implies (#[trigger] diagonal_indices.at(p))@.len() == 0 by {
                assert(cloned(empty, diagonal_indices@[p.row as int][p.col as int]));
            }
            assert forall|p: Position| p.row < n && p.col < n implies (#[trigger] diagonal_indices.at(p))@ == index_list(parts, p, 0) by {
                assert(diagonal_indices.at(p)@ =~= index_list(parts, p, 0));
            }
        }
        let mut i: usize = 0;
        while i < diagonals.len()
            invariant
                n == region_rows * region_cols,
                diagonals_in_bounds(diagonals@, n as nat),
                diagonal_indices.wf(),
                diagonal_indices.rrows() == region_rows,
                diagonal_indices.rcols() == region_cols,
                i <= diagonals@.len(),
                forall|p: Position, k: int|
                    p.row < n && p.col < n && 0 <= k < diagonal_indices.at(p)@.len() ==> (#[trigger] diagonal_indices.at(p)@[k]) < i
                        && diagonals@[diagonal_indices.at(p)@[k] as int].positions@.contains(p),
                forall|c: int, k: int|
                    0 <= c < i && 0 <= k < diagonals@[c].positions@.len() ==> diagonal_indices.at(
                        #[trigger] diagonals@[c].positions@[k],
                    )@.contains(c as usize),
                parts == diagonals@.map_values(|c: Diagonal| c.positions@),
                forall|p: Position| p.row < n && p.col < n ==> (#[trigger] diagonal_indices.at(p))@ == index_list(parts, p, i as nat),
            decreases diagonals@.len() - i,
        {
            let positions = &diagonals[i].positions;
            let mut k: usize = 0;
            while k < positions.len()
                invariant
                    n == region_rows * region_cols,
                    diagonals_in_bounds(diagonals@, n as nat),
                    diagonal_indices.wf(),
                    diagonal_indices.rrows() == region_rows,
                    diagonal_indices.rcols() == region_cols,
                    i < diagonals@.len(),
                    positions == diagonals@[i as int].positions,
                    k <= positions@.len(),
                    forall|p: Position, m: int|
                        p.row < n && p.col < n && 0 <= m < diagonal_indices.at(p)@.len() ==> (#[trigger] diagonal_indices.at(p)@[m]) <= i
                            && diagonals@[diagonal_indices.at(p)@[m] as int].positions@.contains(p),
                    forall|c: int, k2: int|
                        0 <= c < i && 0 <= k2 < diagonals@[c].positions@.len() ==> diagonal_indices.at(
                            #[trigger] diagonals@[c].positions@[k2],
                        )@.contains(c as usize),
                    forall|k2: int| 0 <= k2 < k ==> diagonal_indices.at(#[trigger] positions@[k2])@.contains(i),
                    parts == diagonals@.map_values(|c: Diagonal| c.positions@),
                    forall|p: Position|
                        p.row < n && p.col < n ==> (#[trigger] diagonal_indices.at(p))@ == index_list(parts, p, i as nat)
                            + repeat_index(count_in(positions@.take(k as int), p), i as int),
                decreases positions@.len() - k,
            {
                let pos = positions[k];
                assert(diagonals@[i as int].positions@[k as int] == pos);
                let ghost before = diagonal_indices;
                let mut cell = diagonal_indices.replace(pos, Vec::new());
                cell.push(i);
                diagonal_indices.set(pos, cell);
                proof {
                    assert forall|p: Position, m: int|
                        p.row < n && p.col < n && 0 <= m < diagonal_indices.at(p)@.len() implies (#[trigger] diagonal_indices.at(p)@[m]) <= i
                            && diagonals@[diagonal_indices.at(p)@[m] as int].positions@.contains(p) by {
                        if p == pos {
                            if m < before.at(p)@.len() {
                                assert(diagonal_indices.at(p)@[m] == before.at(p)@[m]);
                            } else {
                                assert(diagonals@[i as int].positions@.contains(pos));
                            }
                        } else {
                            assert(diagonal_indices.at(p) == before.at(p));
                        }
                    }
                }
                proof {
                    assert forall|c: int, k2: int|
                        0 <= c < i && 0 <= k2 < diagonals@[c].positions@.len() implies diagonal_indices.at(
                            #[trigger] diagonals@[c].positions@[k2],
                        )@.contains(c as usize) by {
                        let q = diagonals@[c].positions@[k2];
                        assert(before.at(q)@.contains(c as usize));
                        let m = choose|m: int| 0 <= m < before.at(q)@.len() && before.at(q)@[m] == c as usize;
                        if q == pos {
                            assert(diagonal_indices.at(q)@[m] == c as usize);
                        } else {
                            assert(diagonal_indices.at(q) == before.at(q));
                        }
                    }
                    assert forall|p: Position|
                        p.row < n && p.col < n implies (#[trigger] diagonal_indices.at(p))@ == index_list(parts, p, i as nat)
                            + repeat_index(count_in(positions@.take(k + 1), p), i as int) by {
                        lemma_index_list_grow(index_list(parts, p, i as nat), positions@, k as int, p, i as int);
                        if p != pos {
                            assert(diagonal_indices.at(p) == before.at(p));
                        }
                    }
                    assert forall|k2: int| 0 <= k2 < k + 1 implies diagonal_indices.at(#[trigger] positions@[k2])@.contains(i) by {
                        let q = positions@[k2];
                        if q == pos {
                            assert(diagonal_indices.at(q)@[diagonal_indices.at(q)@.len() - 1] == i);
                        } else {
                            assert(before.at(q)@.contains(i));
                            let m = choose|m: int| 0 <= m < before.at(q)@.len() && before.at(q)@[m] == i;
                            assert(diagonal_indices.at(q) == before.at(q));
                        }
                    }
                }
                k = k + 1;
            }
            proof {
                assert(positions@.take(positions@.len() as int) =~= positions@);
                assert(parts[i as int] == positions@);
                assert forall|p: Position| p.row < n && p.col < n implies (#[trigger] diagonal_indices.at(p))@ == index_list(
                    parts,
                    p,
                    (i + 1) as nat,
                ) by {
                    assert(((i + 1) - 1) as nat == i as nat);
                }
            }
            i = i + 1;
        }
        LittleKillerConstraint { diagonals, diagonal_indices }
    }
}

impl LittleKillerConstraint {
    /// Every diagonal that covers no cell asks for a sum of zero.
    pub open spec fn empty_diagonals_zero(&self) -> bool {
        forall|c: int|
            0 <= c < self.diagonal_seq().len() && #[trigger] self.diagonal_seq()[c].positions@.len() == 0 ==> self.diagonal_seq()[c].sum == 0
    }

    /// With every cell unsettled, only the diagonals that cover no cell are asked to be settled.
    pub proof fn lemma_settled_everywhere(&self, g: &CandidateGrid)
        requires
            g.wf(),
            self.built_for(g.rrows(), g.rcols()),
            self.empty_diagonals_zero(),
        ensures
            self.settled(g, all_cells(g.size())),
    {
        assert forall|c: int|
            0 <= c < self.diagonal_seq().len() && !touches(self.diagonal_seq()[c].positions@, all_cells(g.size())) implies #[trigger] sum_completes(cells_cands(g, self.diagonal_seq()[c].positions@), region_groups(self.diagonal_seq()[c].positions@, (g).rrows() as int, (g).rcols() as int), (g).size() as int, Set::empty(), 0, self.diagonal_seq()[c].sum as int)
                && pruned(g, g, self.diagonal_seq()[c].positions@, region_groups(self.diagonal_seq()[c].positions@, (g).rrows() as int, (g).rcols() as int), self.diagonal_seq()[c].sum as int) by {
            let cells = self.diagonal_seq()[c].positions@;
            if cells.len() > 0 {
                assert(all_cells(g.size()).contains(cells[0]));
            }
            assert(cells_cands(g, cells).len() == 0);
        }
    }
}

/// Every candidate that `g0` has and `g` lacks lies in a cell of a flagged diagonal
/// whose other cells, with the candidates left in `g`, give it no filling, in a grid
/// of `rr` x `rc` regions.
/// The candidates of every cell, by row and column, after the first `c` diagonals of
/// `diagonals` that `flags` marks have each, in turn, taken from their cells the values
/// that no filling of the diagonal with its cells' candidates at that moment uses there,
/// from the grid `g0`.
pub open spec fn diagonal_state(diagonals: Seq<Diagonal>, flags: Seq<bool>, g0: &CandidateGrid, c: nat) -> Seq<Seq<Set<int>>>
    decreases c,
{
    let n = g0.size() as int;
    if c == 0 {
        Seq::new(g0.size(), |r: int| Seq::new(g0.size(), |k: int| g0@[r][k]@))
    } else {
        let prev = diagonal_state(diagonals, flags, g0, (c - 1) as nat);
        if !flags[c - 1] {
            prev
        } else {
            let cells = diagonals[c - 1].positions@;
            let cands = Seq::new(cells.len(), |i: int| prev[cells[i].row as int][cells[i].col as int]);
            Seq::new(
                g0.size(),
                |r: int|
                    Seq::new(
                        g0.size(),
                        |k: int|
                            pruned_upto(
                                prev[r][k],
                                cells,
                                cands,
                                region_groups(cells, g0.rrows() as int, g0.rcols() as int),
                                n,
                                diagonals[c - 1].sum as int,
                                Position { row: r as usize, col: k as usize },
                                cells.len() as int,
                            ),
                    ),
            )
        }
    }
}

/// The candidates of the cells of diagonal `c` in `diagonal_state` before that diagonal.
pub open spec fn diagonal_cands(diagonals: Seq<Diagonal>, flags: Seq<bool>, g0: &CandidateGrid, c: int) -> Seq<Set<int>> {
    let prev = diagonal_state(diagonals, flags, g0, c as nat);
    let cells = diagonals[c].positions@;
    Seq::new(cells.len(), |i: int| prev[cells[i].row as int][cells[i].col as int])
}

/// Diagonal `c` is marked and cannot be filled when its turn comes.
pub open spec fn diagonal_fails_at(diagonals: Seq<Diagonal>, flags: Seq<bool>, g0: &CandidateGrid, c: int) -> bool {
    &&& 0 <= c < diagonals.len()
    &&& flags[c]
    &&& !sum_completes(
        diagonal_cands(diagonals, flags, g0, c),
        region_groups(diagonals[c].positions@, g0.rrows() as int, g0.rcols() as int),
        g0.size() as int,
        Set::empty(),
        0,
        diagonals[c].sum as int,
    )
}

/// The diagonals of `diagonals` that hold a marked cell of `active`.
pub open spec fn touched_diagonals(diagonals: Seq<Diagonal>, active: &Grid<bool>) -> Seq<bool> {
    Seq::new(diagonals.len(), |c: int| touched(diagonals[c].positions@, active))
}

pub open spec fn diagonal_removals_unsupported(
    g: &CandidateGrid,
    g0: &CandidateGrid,
    diagonals: Seq<Diagonal>,
    flags: Seq<bool>,
    rr: int,
    rc: int,
) -> bool {
    forall|q: Position, v: int|
        g0.in_bounds(q) && g0.at(q)@.contains(v) && !(#[trigger] g.at(q)@.contains(v)) ==> exists|c: int, j: int|
            0 <= c < diagonals.len() && flags[c] && 0 <= j < diagonals[c].positions@.len() && diagonals[c].positions@[j] == q
                && #[trigger] unsupported_in(g, diagonals[c].positions@, region_groups(diagonals[c].positions@, rr, rc), diagonals[c].sum as int, j, v)
}

impl LittleKillerConstraint {
    proof fn lemma_unchanged_outside(&self, g0: &CandidateGrid, g: &CandidateGrid, active: &Grid<bool>, flags: Seq<bool>)
        requires
            flags.len() == self.diagonal_seq().len(),
            forall|c: int| 0 <= c < flags.len() && #[trigger] flags[c] ==> touched(self.diagonal_seq()[c].positions@, active),
            forall|q: Position|
                g0.in_bounds(q) && !in_flagged_diagonal(q, self.diagonal_seq(), flags) ==> #[trigger] g.at(q) == g0.at(q),
        ensures
            forall|q: Position|
                g0.in_bounds(q) && !(exists|c: int|
                    0 <= c < self.diagonal_seq().len() && #[trigger] touched(self.diagonal_seq()[c].positions@, active)
                        && self.diagonal_seq()[c].positions@.contains(q)) ==> #[trigger] g.at(q) == g0.at(q),
    {
        assert forall|q: Position|
            g0.in_bounds(q) && !(exists|c: int|
                0 <= c < self.diagonal_seq().len() && #[trigger] touched(self.diagonal_seq()[c].positions@, active)
                    && self.diagonal_seq()[c].positions@.contains(q)) implies #[trigger] g.at(q) == g0.at(q) by {
            if in_flagged_diagonal(q, self.diagonal_seq(), flags) {
                let c = choose|c: int| 0 <= c < self.diagonal_seq().len() && #[trigger] flags[c] && self.diagonal_seq()[c].positions@.contains(q);
                assert(touched(self.diagonal_seq()[c].positions@, active));
            }
        }
    }
}

impl Constraint for LittleKillerConstraint {
    open spec fn holds(&self, sol: Seq<Seq<int>>, region_rows: nat, region_cols: nat) -> bool {
        little_killer_rule(sol, self.diagonal_seq(), (region_rows * region_cols) as int, region_rows as int, region_cols as int)
    }

    open spec fn built_for(&self, region_rows: nat, region_cols: nat) -> bool {
        self.wf_for(region_rows, region_cols)
    }

    open spec fn settled(&self, grid: &CandidateGrid, unsettled: Set<Position>) -> bool {
        forall|c: int|
            0 <= c < self.diagonal_seq().len() && !touches(self.diagonal_seq()[c].positions@, unsettled) ==> #[trigger] sum_completes(cells_cands(grid, self.diagonal_seq()[c].positions@), region_groups(self.diagonal_seq()[c].positions@, (grid).rrows() as int, (grid).rcols() as int), (grid).size() as int, Set::empty(), 0, self.diagonal_seq()[c].sum as int)
                && pruned(grid, grid, self.diagonal_seq()[c].positions@, region_groups(self.diagonal_seq()[c].positions@, (grid).rrows() as int, (grid).rcols() as int), self.diagonal_seq()[c].sum as int)
    }

    proof fn lemma_settled_shrink(
        &self,
        g: &CandidateGrid,
        g2: &CandidateGrid,
        unsettled: Set<Position>,
        unsettled2: Set<Position>,
    ) {
        assert forall|c: int|
            0 <= c < self.diagonal_seq().len() && !touches(self.diagonal_seq()[c].positions@, unsettled2) implies #[trigger] sum_completes(cells_cands(g2, self.diagonal_seq()[c].positions@), region_groups(self.diagonal_seq()[c].positions@, (g2).rrows() as int, (g2).rcols() as int), (g2).size() as int, Set::empty(), 0, self.diagonal_seq()[c].sum as int)
                && pruned(g2, g2, self.diagonal_seq()[c].positions@, region_groups(self.diagonal_seq()[c].positions@, (g2).rrows() as int, (g2).rcols() as int), self.diagonal_seq()[c].sum as int) by {
            let cells = self.diagonal_seq()[c].positions@;
            if touches(cells, unsettled) {
                let k = choose|k: int| 0 <= k < cells.len() && unsettled.contains(#[trigger] cells[k]);
                assert(unsettled2.contains(cells[k]));
            }
            assert(sum_completes(cells_cands(g, self.diagonal_seq()[c].positions@), region_groups(self.diagonal_seq()[c].positions@, (g).rrows() as int, (g).rcols() as int), (g).size() as int, Set::empty(), 0, self.diagonal_seq()[c].sum as int));
            if touches(cells, changed_cells(g2, g)) {
                let k = choose|k: int| 0 <= k < cells.len() && changed_cells(g2, g).contains(#[trigger] cells[k]);
                assert(unsettled2.contains(cells[k]));
            }
            lemma_cells_kept(g, g, g2, cells);
            lemma_pruned_transfer(g, g, g2, g2, cells, region_groups(cells, g.rrows() as int, g.rcols() as int), self.diagonal_seq()[c].sum as int);
        }
    }

    proof fn lemma_settled_fixed(&self, g: &CandidateGrid, sol: Seq<Seq<int>>) {
        assert forall|c: int| 0 <= c < self.diagonal_seq().len() implies diagonal_ok(#[trigger] cells_values(sol, self.diagonal_seq()[c].positions@), region_groups(self.diagonal_seq()[c].positions@, g.rrows() as int, g.rcols() as int), (g.rrows() * g.rcols()) as int, self.diagonal_seq()[c].sum as int) by {
            let cells = self.diagonal_seq()[c].positions@;
            let vals = cells_values(sol, cells);
            let cands = cells_cands(g, cells);
            assert(!touches(cells, Set::<Position>::empty()));
            assert(sum_completes(cells_cands(g, self.diagonal_seq()[c].positions@), region_groups(self.diagonal_seq()[c].positions@, (g).rrows() as int, (g).rcols() as int), (g).size() as int, Set::empty(), 0, self.diagonal_seq()[c].sum as int));
            assert forall|i: int| 0 <= i < cands.len() implies #[trigger] cands[i] == set![vals[i]] by {
                assert(g.in_bounds(cells[i]));
                assert(g@[cells[i].row as int][cells[i].col as int]@ == set![sol[cells[i].row as int][cells[i].col as int]]);
            }
            lemma_completes_singletons(vals, cands, region_groups(cells, g.rrows() as int, g.rcols() as int), g.size() as int, self.diagonal_seq()[c].sum as int);
        }
    }

    #[verifier::loop_isolation(false)]
    fn update(&self, grid: &mut CandidateGrid, active_positions: Grid<bool>) -> (r: Option<Grid<bool>>)
        ensures
            r is Some ==> forall|q: Position, v: int|
                old(grid).in_bounds(q) && old(grid).at(q)@.contains(v) && !(#[trigger] final(grid).at(q)@.contains(v))
                    ==> exists|c: int, j: int|
                    0 <= c < self.diagonal_seq().len() && touched(self.diagonal_seq()[c].positions@, &active_positions) && 0 <= j
                        < self.diagonal_seq()[c].positions@.len() && self.diagonal_seq()[c].positions@[j] == q && #[trigger] unsupported_in(
                        final(grid),
                        self.diagonal_seq()[c].positions@,
                        region_groups(self.diagonal_seq()[c].positions@, old(grid).rrows() as int, old(grid).rcols() as int),
                        self.diagonal_seq()[c].sum as int,
                        j,
                        v,
                    ),
            forall|c: int|
                0 <= c < self.diagonal_seq().len() && #[trigger] touched(self.diagonal_seq()[c].positions@, &active_positions) && !sum_completes(cells_cands(old(grid), self.diagonal_seq()[c].positions@), region_groups(self.diagonal_seq()[c].positions@, old(grid).rrows() as int, old(grid).rcols() as int), old(grid).size() as int, Set::empty(), 0, self.diagonal_seq()[c].sum as int)
                    ==> r is None,
            r is Some ==> forall|c: int|
                0 <= c < self.diagonal_seq().len() && #[trigger] touched(self.diagonal_seq()[c].positions@, &active_positions) ==> pruned(
                    final(grid),
                    old(grid),
                    self.diagonal_seq()[c].positions@,
                    region_groups(self.diagonal_seq()[c].positions@, old(grid).rrows() as int, old(grid).rcols() as int),
                    self.diagonal_seq()[c].sum as int,
                ),
            forall|q: Position|
                old(grid).in_bounds(q) && !(exists|c: int|
                    0 <= c < self.diagonal_seq().len() && #[trigger] touched(self.diagonal_seq()[c].positions@, &active_positions)
                        && self.diagonal_seq()[c].positions@.contains(q)) ==> #[trigger] final(grid).at(q) == old(grid).at(q),
            r is None ==> exists|c: int|
                0 <= c < self.diagonal_seq().len() && #[trigger] touched(self.diagonal_seq()[c].positions@, &active_positions)
                    && !sum_completes(
                    cells_cands(final(grid), self.diagonal_seq()[c].positions@),
                    region_groups(self.diagonal_seq()[c].positions@, final(grid).rrows() as int, final(grid).rcols() as int),
                    final(grid).size() as int,
                    Set::empty(),
                    0,
                    self.diagonal_seq()[c].sum as int,
                ),
            // the touched diagonals prune the grid in index order, each with the
            // candidates that the diagonals before it left
            r is Some ==> forall|c: int|
                0 <= c < self.diagonal_seq().len() ==> !#[trigger] diagonal_fails_at(self.diagonal_seq(), touched_diagonals(self.diagonal_seq(), &active_positions), old(grid), c),
            r is Some ==> forall|q: Position|
                old(grid).in_bounds(q) ==> (#[trigger] final(grid).at(q))@ == diagonal_state(
                    self.diagonal_seq(),
                    touched_diagonals(self.diagonal_seq(), &active_positions),
                    old(grid),
                    self.diagonal_seq().len(),
                )[q.row as int][q.col as int],
            r is None ==> exists|c: int|
                #[trigger] diagonal_fails_at(self.diagonal_seq(), touched_diagonals(self.diagonal_seq(), &active_positions), old(grid), c) && (forall|c2: int|
                    0 <= c2 < c ==> !#[trigger] diagonal_fails_at(self.diagonal_seq(), touched_diagonals(self.diagonal_seq(), &active_positions), old(grid), c2)) && forall|q: Position|
                    old(grid).in_bounds(q) ==> (#[trigger] final(grid).at(q))@ == diagonal_state(
                        self.diagonal_seq(),
                        touched_diagonals(self.diagonal_seq(), &active_positions),
                        old(grid),
                        c as nat,
                    )[q.row as int][q.col as int],
    {
        let ghost g0 = *grid;
        let ghost diagonals = self.diagonals@;
        let ghost nn = g0.size() as int;
        let ghost rr = g0.rrows() as int;
        let ghost rc = g0.rcols() as int;
        let n = grid.grid_size();
        let ndiagonals = self.diagonals.len();

        let mut is_diagonal_active: Vec<bool> = Vec::new();
        while is_diagonal_active.len() < ndiagonals
            invariant
                is_diagonal_active@.len() <= ndiagonals,
                forall|c: int| 0 <= c < is_diagonal_active@.len() ==> !#[trigger] is_diagonal_active@[c],
            decreases ndiagonals - is_diagonal_active@.len(),
        {
            is_diagonal_active.push(false);
        }
        let mut row: usize = 0;
        while row < n
            invariant
                row <= n,
                is_diagonal_active@.len() == ndiagonals,
                forall|c: int| 0 <= c < ndiagonals && #[trigger] is_diagonal_active@[c] ==> touched(diagonals[c].positions@, &active_positions),
                forall|q: Position, m: int|
                    q.row < row && q.col < n && active_positions.at(q) && 0 <= m < self.diagonal_indices.at(q)@.len() ==> is_diagonal_active@[
                        #[trigger] self.diagonal_indices.at(q)@[m] as int],
            decreases n - row,
        {
            let mut col: usize = 0;
            while col < n
                invariant
                    row < n,
                    col <= n,
                    is_diagonal_active@.len() == ndiagonals,
                    forall|c: int| 0 <= c < ndiagonals && #[trigger] is_diagonal_active@[c] ==> touched(diagonals[c].positions@, &active_positions),
                    forall|q: Position, m: int|
                        (q.row < row || (q.row == row && q.col < col)) && q.col < n && active_positions.at(q) && 0 <= m
                            < self.diagonal_indices.at(q)@.len() ==> is_diagonal_active@[#[trigger] self.diagonal_indices.at(q)@[m] as int],
                decreases n - col,
            {
                let pos = Position { row, col };
                if *active_positions.get(pos) {
                    let indices = self.diagonal_indices.get(pos);
                    let mut k: usize = 0;
                    while k < indices.len()
                        invariant
                            k <= indices@.len(),
                            is_diagonal_active@.len() == ndiagonals,
                            forall|c: int| 0 <= c < ndiagonals && #[trigger] is_diagonal_active@[c] ==> touched(diagonals[c].positions@, &active_positions),
                            forall|q: Position, m: int|
                                (q.row < row || (q.row == row && q.col < col)) && q.col < n && active_positions.at(q) && 0 <= m
                                    < self.diagonal_indices.at(q)@.len() ==> is_diagonal_active@[#[trigger] self.diagonal_indices.at(q)@[m] as int],
                            forall|m: int| 0 <= m < k ==> is_diagonal_active@[#[trigger] indices@[m] as int],
                        decreases indices@.len() - k,
                    {
                        let c = indices[k];
                        assert(self.diagonal_indices.at(pos)@[k as int] == c);
                        proof {
                            let positions = diagonals[c as int].positions@;
                            assert(positions.contains(pos));
                            let m = choose|m: int| 0 <= m < positions.len() && positions[m] == pos;
                            assert(active_positions.at(positions[m]));
                        }
                        is_diagonal_active.set(c, true);
                        k = k + 1;
                    }
                }
                col = col + 1;
            }
            row = row + 1;
        }

        proof {
            assert forall|c: int| 0 <= c < ndiagonals && touched(diagonals[c].positions@, &active_positions) implies is_diagonal_active@[c] by {
                let k = choose|k: int| 0 <= k < diagonals[c].positions@.len() && #[trigger] active_positions.at(diagonals[c].positions@[k]);
                let q = diagonals[c].positions@[k];
                assert(self.diagonal_indices.at(q)@.contains(c as usize));
                let m = choose|m: int| 0 <= m < self.diagonal_indices.at(q)@.len() && self.diagonal_indices.at(q)@[m] == c as usize;
                assert(is_diagonal_active@[self.diagonal_indices.at(q)@[m] as int]);
            }
        }
        let ghost settled0 = self.settled(&g0, marked_set(&active_positions));
        let ghost tf = touched_diagonals(diagonals, &active_positions);
        let mut affected_positions = Grid::from_default(grid.region_rows(), grid.region_cols(), false);
        proof {
            assert(marks_changes(&affected_positions, grid, &g0));
            assert(is_diagonal_active@ =~= tf);
            assert forall|q: Position| g0.in_bounds(q) implies (#[trigger] grid.at(q))@ == diagonal_state(diagonals, tf, &g0, 0)[q.row as int][q.col as int] by {
            }
        }
        let mut c: usize = 0;
        while c < ndiagonals
            invariant
                c <= ndiagonals,
                is_diagonal_active@.len() == ndiagonals,
                forall|c: int| 0 <= c < ndiagonals && #[trigger] is_diagonal_active@[c] ==> touched(diagonals[c].positions@, &active_positions),
                shrinks(grid, &g0),
                marks_changes(&affected_positions, grid, &g0),
                forall|q: Position|
                    g0.in_bounds(q) && !in_flagged_diagonal(q, diagonals, is_diagonal_active@) ==> #[trigger] grid.at(q) == g0.at(q),
                forall|sol: Seq<Seq<int>>|
                    fits(sol, &g0) && #[trigger] little_killer_rule(sol, diagonals, nn, rr, rc) ==> fits(sol, grid),
                forall|c: int| 0 <= c < ndiagonals && touched(diagonals[c].positions@, &active_positions) ==> is_diagonal_active@[c],
                settled0 ==> forall|c2: int|
                    0 <= c2 < c && is_diagonal_active@[c2] && !touches(diagonals[c2].positions@, changed_cells(grid, &g0)) ==> #[trigger] sum_completes(cells_cands(grid, diagonals[c2].positions@), region_groups(diagonals[c2].positions@, (grid).rrows() as int, (grid).rcols() as int), (grid).size() as int, Set::empty(), 0, diagonals[c2].sum as int),
                forall|c2: int|
                    0 <= c2 < c && #[trigger] is_diagonal_active@[c2] ==> pruned(
                        grid,
                        &g0,
                        diagonals[c2].positions@,
                        region_groups(diagonals[c2].positions@, g0.rrows() as int, g0.rcols() as int),
                        diagonals[c2].sum as int,
                    ),
                forall|c2: int| 0 <= c2 < c && #[trigger] is_diagonal_active@[c2] ==> sum_completes(cells_cands(&g0, diagonals[c2].positions@), region_groups(diagonals[c2].positions@, g0.rrows() as int, g0.rcols() as int), g0.size() as int, Set::empty(), 0, diagonals[c2].sum as int),
                diagonal_removals_unsupported(grid, &g0, diagonals, is_diagonal_active@, rr, rc),
                is_diagonal_active@ == tf,
                tf == touched_diagonals(diagonals, &active_positions),
                g0.wf(),
                nn == g0.size(),
                rr == g0.rrows(),
                rc == g0.rcols(),
                forall|q: Position| g0.in_bounds(q) ==> (#[trigger] grid.at(q))@ == diagonal_state(diagonals, tf, &g0, c as nat)[q.row as int][q.col as int],
                forall|c2: int| 0 <= c2 < c ==> !#[trigger] diagonal_fails_at(diagonals, tf, &g0, c2),
            decreases ndiagonals - c,
        {
            if !is_diagonal_active[c] {
                proof {
                    assert(((c + 1) - 1) as nat == c as nat);
                    assert(diagonal_state(diagonals, tf, &g0, (c + 1) as nat) == diagonal_state(diagonals, tf, &g0, c as nat));
                    assert(!diagonal_fails_at(diagonals, tf, &g0, c as int));
                }
                c = c + 1;
                continue;
            }
            let diagonal = &self.diagonals[c];
            let diagonal_size = diagonal.positions.len();
            let ghost cells = diagonal.positions@;
            let mut values_used_in_box: Vec<Vec<bool>> = Vec::new();
            while values_used_in_box.len() < n
                invariant
                    values_used_in_box@.len() <= n,
                    forall|g: int| 0 <= g < values_used_in_box@.len() ==> (#[trigger] values_used_in_box@[g])@.len() == n,
                    forall|g: int, m: int|
                        0 <= g < values_used_in_box@.len() && 0 <= m < n ==> !#[trigger] values_used_in_box@[g]@[m],
                decreases n - values_used_in_box@.len(),
            {
                let mut flags: Vec<bool> = Vec::new();
                while flags.len() < n
                    invariant
                        flags@.len() <= n,
                        forall|m: int| 0 <= m < flags@.len() ==> !#[trigger] flags@[m],
                    decreases n - flags@.len(),
                {
                    flags.push(false);
                }
                values_used_in_box.push(flags);
            }
            let mut updated_candidates: Vec<Vec<bool>> = Vec::new();
            while updated_candidates.len() < diagonal_size
                invariant
                    updated_candidates@.len() <= diagonal_size,
                    forall|j: int| 0 <= j < updated_candidates@.len() ==> (#[trigger] updated_candidates@[j])@.len() == n,
                    forall|j: int, m: int|
                        0 <= j < updated_candidates@.len() && 0 <= m < n ==> !#[trigger] updated_candidates@[j]@[m],
                decreases diagonal_size - updated_candidates@.len(),
            {
                let mut flags: Vec<bool> = Vec::new();
                while flags.len() < n
                    invariant
                        flags@.len() <= n,
                        forall|m: int| 0 <= m < flags@.len() ==> !#[trigger] flags@[m],
                    decreases n - flags@.len(),
                {
                    flags.push(false);
                }
                updated_candidates.push(flags);
            }
            let ghost gk = *grid;
            let ghost cands = cells_cands(&gk, cells);
            proof {
                assert forall|k: int| 0 <= k < cells.len() implies g0.in_bounds(#[trigger] cells[k]) by {
                    assert(diagonals[c as int].positions@[k] == cells[k]);
                }
                assert(cands =~= diagonal_cands(diagonals, tf, &g0, c as int));
            }
            proof {
                lemma_flag_rows(values_used_in_box@);
                assert(region_flags(flag_rows(values_used_in_box@)) =~= Set::<(int, int)>::empty()) by {
                    assert forall|p: (int, int)| !region_flags(flag_rows(values_used_in_box@)).contains(p) by {
                        if 0 <= p.0 < n {
                            assert(flag_rows(values_used_in_box@)[p.0] == values_used_in_box@[p.0]@);
                        }
                    }
                }
                assert forall|k: int| 0 <= k < cells.len() implies grid.in_bounds(#[trigger] cells[k]) by {
                    assert(diagonals[c as int].positions@[k] == cells[k]);
                }
            }
            if !recursive_solve(grid, &diagonal.positions, &mut updated_candidates, &mut values_used_in_box, 0, diagonal.sum) {
                proof {
                    assert(is_diagonal_active@[c as int]);
                    assert(touched(diagonals[c as int].positions@, &active_positions));
                    assert forall|sol: Seq<Seq<int>>|
                        fits(sol, &g0) && #[trigger] self.holds(sol, g0.rrows(), g0.rcols()) implies false by {
                        assert(little_killer_rule(sol, diagonals, nn, rr, rc));
                        assert(fits(sol, &gk));
                        let vals = cells_values(sol, cells);
                        assert(diagonal_ok(cells_values(sol, diagonals[c as int].positions@), region_groups(diagonals[c as int].positions@, rr, rc), nn, diagonals[c as int].sum as int));
                        assert(sum_assignment(vals, cands, region_groups(cells, rr, rc), nn, diagonal.sum as int)) by {
                            assert forall|i: int| 0 <= i < vals.len() implies 1 <= #[trigger] vals[i] <= nn
                                && cands[i].contains(vals[i]) by {
                                assert(grid.in_bounds(cells[i]));
                            }
                        }
                        lemma_assignment_found(vals, cands, region_groups(cells, rr, rc), nn, diagonal.sum as int);
                    }
                }
                proof {
                    self.lemma_unchanged_outside(&g0, grid, &active_positions, is_diagonal_active@);
                    assert(self.diagonal_seq()[c as int].positions@ == cells);
                    assert(!sum_completes(
                        cells_cands(grid, cells),
                        region_groups(cells, rr, rc),
                        grid.size() as int,
                        Set::empty(),
                        0,
                        self.diagonal_seq()[c as int].sum as int,
                    ));
                    assert(touched(self.diagonal_seq()[c as int].positions@, &active_positions));
                    assert(diagonal_fails_at(diagonals, tf, &g0, c as int));
                }
                return None;
            }
            proof {
                assert forall|sol: Seq<Seq<int>>|
                    fits(sol, &g0) && #[trigger] little_killer_rule(sol, diagonals, nn, rr, rc) implies values_kept(updated_candidates@, sol, cells) by {
                    assert(fits(sol, &gk));
                    let vals = cells_values(sol, cells);
                    assert(diagonal_ok(cells_values(sol, diagonals[c as int].positions@), region_groups(diagonals[c as int].positions@, rr, rc), nn, diagonals[c as int].sum as int));
                    assert(sum_assignment(vals, cands, region_groups(cells, rr, rc), nn, diagonal.sum as int)) by {
                        assert forall|i: int| 0 <= i < vals.len() implies 1 <= #[trigger] vals[i] <= nn
                            && cands[i].contains(vals[i]) by {
                            assert(grid.in_bounds(cells[i]));
                        }
                    }
                    lemma_assignment_found(vals, cands, region_groups(cells, rr, rc), nn, diagonal.sum as int);
                    assert forall|j: int| 0 <= j < cells.len() implies #[trigger] updated_candidates@[j]@[
                        sol[cells[j].row as int][cells[j].col as int] - 1] by {
                        assert(sum_supports(cands, region_groups(cells, rr, rc), nn, Set::empty(), 0, diagonal.sum as int, j, vals[j]));
                    }
                }
            }
            proof {
                assert forall|q: Position| g0.in_bounds(q) implies (#[trigger] grid.at(q))@ == pruned_upto(diagonal_state(diagonals, tf, &g0, c as nat)[q.row as int][q.col as int], cells, cands, region_groups(cells, rr, rc), nn, diagonal.sum as int, q, 0) by {
                    lemma_pruned_upto_none(diagonal_state(diagonals, tf, &g0, c as nat)[q.row as int][q.col as int], cells, cands, region_groups(cells, rr, rc), nn, diagonal.sum as int, q);
                }
            }
            let mut j: usize = 0;
            while j < diagonal_size
                invariant
                    j <= diagonal_size,
                    diagonal_size == cells.len(),
                    is_diagonal_active@[c as int],
                    shrinks(grid, &g0),
                    marks_changes(&affected_positions, grid, &g0),
                    forall|q: Position|
                        g0.in_bounds(q) && !in_flagged_diagonal(q, diagonals, is_diagonal_active@) ==> #[trigger] grid.at(q) == g0.at(q),
                    forall|sol: Seq<Seq<int>>|
                        fits(sol, &g0) && #[trigger] little_killer_rule(sol, diagonals, nn, rr, rc) ==> fits(sol, grid),
                    forall|sol: Seq<Seq<int>>|
                        fits(sol, &g0) && #[trigger] little_killer_rule(sol, diagonals, nn, rr, rc) ==> values_kept(updated_candidates@, sol, cells),
                    shrinks(grid, &gk),
                    settled0 ==> forall|c2: int|
                        0 <= c2 < c && is_diagonal_active@[c2] && !touches(diagonals[c2].positions@, changed_cells(&gk, &g0)) ==> #[trigger] sum_completes(cells_cands(&gk, diagonals[c2].positions@), region_groups(diagonals[c2].positions@, (&gk).rrows() as int, (&gk).rcols() as int), (&gk).size() as int, Set::empty(), 0, diagonals[c2].sum as int),
                    forall|c2: int|
                        0 <= c2 < c && #[trigger] is_diagonal_active@[c2] ==> pruned(
                            &gk,
                            &g0,
                            diagonals[c2].positions@,
                            region_groups(diagonals[c2].positions@, g0.rrows() as int, g0.rcols() as int),
                            diagonals[c2].sum as int,
                        ),
                    updated_candidates@.len() == cells.len(),
                    forall|j2: int| 0 <= j2 < cells.len() ==> (#[trigger] updated_candidates@[j2])@.len() == nn,
                    forall|j2: int, i: int|
                        0 <= j2 < cells.len() && 0 <= i < nn && #[trigger] updated_candidates@[j2]@[i] ==> sum_supports(
                            cands,
                            region_groups(cells, rr, rc),
                            nn,
                            Set::empty(),
                            0,
                            diagonal.sum as int,
                            j2,
                            i + 1,
                        ),
                    forall|j2: int, v: int|
                        0 <= j2 < j && 1 <= v <= nn && #[trigger] grid.at(cells[j2])@.contains(v) ==> updated_candidates@[j2]@[v
                            - 1],
                    diagonal_removals_unsupported(grid, &g0, diagonals, is_diagonal_active@, rr, rc),
                    g0.wf(),
                    nn == g0.size(),
                    rr == g0.rrows(),
                    rc == g0.rcols(),
                    tf == touched_diagonals(diagonals, &active_positions),
                    diagonal.sum == diagonals[c as int].sum,
                    forall|q: Position| g0.in_bounds(q) ==> (#[trigger] gk.at(q))@ == diagonal_state(diagonals, tf, &g0, c as nat)[q.row as int][q.col as int],
                    forall|j2: int, i: int|
                        0 <= j2 < cells.len() && 0 <= i < nn ==> (#[trigger] updated_candidates@[j2]@[i] == sum_supports(
                            cands,
                            region_groups(cells, rr, rc),
                            nn,
                            Set::empty(),
                            0,
                            diagonal.sum as int,
                            j2,
                            i + 1,
                        )),
                    forall|q: Position| g0.in_bounds(q) ==> (#[trigger] grid.at(q))@ == pruned_upto(diagonal_state(diagonals, tf, &g0, c as nat)[q.row as int][q.col as int], cells, cands, region_groups(cells, rr, rc), nn, diagonal.sum as int, q, j as int),
                decreases diagonal_size - j,
            {
                let pos = diagonal.positions[j];
                assert(diagonals[c as int].positions@[j as int] == pos);
                assert(grid.in_bounds(pos));
                proof {
                    lemma_drop_unsupported_none(pruned_upto(diagonal_state(diagonals, tf, &g0, c as nat)[pos.row as int][pos.col as int], cells, cands, region_groups(cells, rr, rc), nn, diagonal.sum as int, pos, j as int), cands, region_groups(cells, rr, rc), nn, diagonal.sum as int, j as int);
                }
                let mut val: usize = 1;
                while val <= n
                    invariant
                        1 <= val <= n + 1,
                        j < diagonal_size,
                        pos == cells[j as int],
                        grid.in_bounds(pos),
                        shrinks(grid, &g0),
                        marks_changes(&affected_positions, grid, &g0),
                        forall|q: Position|
                            g0.in_bounds(q) && !in_flagged_diagonal(q, diagonals, is_diagonal_active@) ==> #[trigger] grid.at(q) == g0.at(q),
                        forall|sol: Seq<Seq<int>>|
                            fits(sol, &g0) && #[trigger] little_killer_rule(sol, diagonals, nn, rr, rc) ==> fits(sol, grid),
                        shrinks(grid, &gk),
                        forall|j2: int, v: int|
                            0 <= j2 < j && 1 <= v <= nn && #[trigger] grid.at(cells[j2])@.contains(v) ==> updated_candidates@[j2]@[v
                                - 1],
                        forall|v: int| 1 <= v < val && #[trigger] grid.at(pos)@.contains(v) ==> updated_candidates@[j as int]@[v - 1],
                        diagonal_removals_unsupported(grid, &g0, diagonals, is_diagonal_active@, rr, rc),
                        g0.wf(),
                        nn == g0.size(),
                        rr == g0.rrows(),
                        rc == g0.rcols(),
                        tf == touched_diagonals(diagonals, &active_positions),
                        diagonal.sum == diagonals[c as int].sum,
                        forall|q: Position| g0.in_bounds(q) ==> (#[trigger] gk.at(q))@ == diagonal_state(diagonals, tf, &g0, c as nat)[q.row as int][q.col as int],
                        forall|j2: int, i: int|
                            0 <= j2 < cells.len() && 0 <= i < nn ==> (#[trigger] updated_candidates@[j2]@[i] == sum_supports(
                                cands,
                                region_groups(cells, rr, rc),
                                nn,
                                Set::empty(),
                                0,
                                diagonal.sum as int,
                                j2,
                                i + 1,
                            )),
                        forall|q: Position| g0.in_bounds(q) && q != pos ==> (#[trigger] grid.at(q))@ == pruned_upto(diagonal_state(diagonals, tf, &g0, c as nat)[q.row as int][q.col as int], cells, cands, region_groups(cells, rr, rc), nn, diagonal.sum as int, q, j as int),
                        grid.at(pos)@ == drop_unsupported(pruned_upto(diagonal_state(diagonals, tf, &g0, c as nat)[pos.row as int][pos.col as int], cells, cands, region_groups(cells, rr, rc), nn, diagonal.sum as int, pos, j as int), cands, region_groups(cells, rr, rc), nn, diagonal.sum as int, j as int, val as int),
                    decreases n + 1 - val,
                {
                    if !updated_candidates[j][val - 1] && grid.get(pos).contains(val as u8) {
                        let ghost g2 = *grid;
                        let mut cell = *grid.get(pos);
                        cell.remove(val as u8);
                        grid.set(pos, cell);
                        affected_positions.set(pos, true);
                        proof {
                            assert(diagonals[c as int].positions@.contains(pos)) by {
                                assert(diagonals[c as int].positions@[j as int] == pos);
                            }
                            assert forall|q: Position, w: int|
                                g0.in_bounds(q) && g0.at(q)@.contains(w) && !(#[trigger] grid.at(q)@.contains(w)) implies exists|c2: int, j2: int|
                                0 <= c2 < diagonals.len() && is_diagonal_active@[c2] && 0 <= j2 < diagonals[c2].positions@.len()
                                    && diagonals[c2].positions@[j2] == q && #[trigger] unsupported_in(
                                    grid,
                                    diagonals[c2].positions@,
                                    region_groups(diagonals[c2].positions@, rr, rc),
                                    diagonals[c2].sum as int,
                                    j2,
                                    w,
                                ) by {
                                if g2.at(q)@.contains(w) {
                                    if q != pos {
                                        assert(grid.at(q) == g2.at(q));
                                    }
                                    assert(q == pos);
                                    assert(w == val as int) by {
                                        assert(grid.at(pos)@ == g2.at(pos)@.remove(val as int));
                                    }
                                    assert forall|k: int| 0 <= k < cells.len() implies gk.in_bounds(#[trigger] cells[k]) by {
                                        assert(diagonals[c as int].positions@[k] == cells[k]);
                                    }
                                    assert(g2@[pos.row as int][pos.col as int]@.subset_of(gk@[pos.row as int][pos.col as int]@));
                                    assert(!sum_supports(cands, region_groups(cells, rr, rc), nn, Set::empty(), 0, diagonal.sum as int, j as int, (val - 1) + 1));
                                    lemma_unsupported_from(grid, &gk, cells, region_groups(cells, rr, rc), diagonal.sum as int, j as int, w);
                                    assert(diagonals[c as int].positions@ == cells);
                                    assert(unsupported_in(grid, diagonals[c as int].positions@, region_groups(diagonals[c as int].positions@, rr, rc), diagonals[c as int].sum as int, j as int, w));
                                } else {
                                    let (c2, j2) = choose|c2: int, j2: int|
                                        0 <= c2 < diagonals.len() && is_diagonal_active@[c2] && 0 <= j2 < diagonals[c2].positions@.len()
                                            && diagonals[c2].positions@[j2] == q && #[trigger] unsupported_in(
                                            &g2,
                                            diagonals[c2].positions@,
                                            region_groups(diagonals[c2].positions@, rr, rc),
                                            diagonals[c2].sum as int,
                                            j2,
                                            w,
                                        );
                                    assert forall|k: int| 0 <= k < diagonals[c2].positions@.len() implies g2.in_bounds(#[trigger] diagonals[c2].positions@[k]) by {
                                    }
                                    lemma_unsupported_shrink(grid, &g2, diagonals[c2].positions@, region_groups(diagonals[c2].positions@, rr, rc), diagonals[c2].sum as int, j2, w);
                                }
                            }
                            assert(in_flagged_diagonal(pos, diagonals, is_diagonal_active@));
                            assert forall|q: Position| q.row < n && q.col < n implies (#[trigger] grid.at(q))@.subset_of(g2.at(q)@) by {
                                if q != pos {
                                    assert(grid.at(q) == g2.at(q));
                                }
                            }
                            assert(grid.at(pos)@ != g0.at(pos)@) by {
                                assert(!grid.at(pos)@.contains(val as int));
                                assert(g0.at(pos)@.contains(val as int));
                            }
                            assert forall|sol: Seq<Seq<int>>|
                                fits(sol, &g0) && #[trigger] little_killer_rule(sol, diagonals, nn, rr, rc) implies fits(sol, grid) by {
                                assert(fits(sol, &g2));
                                assert(values_kept(updated_candidates@, sol, cells));
                                assert(updated_candidates@[j as int]@[sol[cells[j as int].row as int][cells[j as int].col as int] - 1]);
                                assert forall|r: int, cc: int| 0 <= r < n && 0 <= cc < n implies (#[trigger] grid@[r][cc])@.contains(sol[r][cc]) by {
                                    assert(g2@[r][cc]@.contains(sol[r][cc]));
                                }
                            }
                        }
                    }
                    proof {
                        let pp = pruned_upto(diagonal_state(diagonals, tf, &g0, c as nat)[pos.row as int][pos.col as int], cells, cands, region_groups(cells, rr, rc), nn, diagonal.sum as int, pos, j as int);
                        lemma_drop_unsupported_next(pp, cands, region_groups(cells, rr, rc), nn, diagonal.sum as int, j as int, val as int);
                        assert(updated_candidates@[j as int]@[val - 1] == sum_supports(cands, region_groups(cells, rr, rc), nn, Set::empty(), 0, diagonal.sum as int, j as int, (val - 1) + 1));
                        let d = drop_unsupported(pp, cands, region_groups(cells, rr, rc), nn, diagonal.sum as int, j as int, val as int);
                        if !d.contains(val as int) {
                            assert(d.remove(val as int) =~= d);
                        }
                    }
                    val = val + 1;
                }
                proof {
                    assert forall|q: Position| g0.in_bounds(q) implies (#[trigger] grid.at(q))@ == pruned_upto(diagonal_state(diagonals, tf, &g0, c as nat)[q.row as int][q.col as int], cells, cands, region_groups(cells, rr, rc), nn, diagonal.sum as int, q, j + 1) by {
                        lemma_pruned_upto_next(diagonal_state(diagonals, tf, &g0, c as nat)[q.row as int][q.col as int], cells, cands, region_groups(cells, rr, rc), nn, diagonal.sum as int, q, j as int);
                    }
                }
                j = j + 1;
            }
            proof {
                assert(((c + 1) - 1) as nat == c as nat);
                assert(tf[c as int]);
                assert(cands == diagonal_cands(diagonals, tf, &g0, c as int));
                assert forall|q: Position| g0.in_bounds(q) implies (#[trigger] grid.at(q))@ == diagonal_state(diagonals, tf, &g0, (c + 1) as nat)[q.row as int][q.col as int] by {
                    assert((Position { row: (q.row as int) as usize, col: (q.col as int) as usize }) == q);
                }
                assert(!diagonal_fails_at(diagonals, tf, &g0, c as int));
                assert forall|c2: int| 0 <= c2 < c + 1 && #[trigger] is_diagonal_active@[c2] implies sum_completes(cells_cands(&g0, diagonals[c2].positions@), region_groups(diagonals[c2].positions@, g0.rrows() as int, g0.rcols() as int), g0.size() as int, Set::empty(), 0, diagonals[c2].sum as int) by {
                    if c2 == c {
                        let big = cells_cands(&g0, cells);
                        assert(cells == diagonals[c2].positions@);
                        assert forall|i: int| 0 <= i < cands.len() implies (#[trigger] cands[i]).subset_of(big[i]) by {
                            assert(diagonals[c2].positions@[i] == cells[i]);
                            assert(gk.in_bounds(cells[i]));
                            assert(gk@[cells[i].row as int][cells[i].col as int]@.subset_of(g0@[cells[i].row as int][cells[i].col as int]@));
                        }
                        lemma_completes_mono(cands, big, region_groups(cells, rr, rc), nn, Set::empty(), 0, diagonal.sum as int);
                    }
                }
                assert forall|c2: int| 0 <= c2 < c + 1 && #[trigger] is_diagonal_active@[c2] implies pruned(
                    grid,
                    &g0,
                    diagonals[c2].positions@,
                    region_groups(diagonals[c2].positions@, g0.rrows() as int, g0.rcols() as int),
                    diagonals[c2].sum as int,
                ) by {
                    let cs = diagonals[c2].positions@;
                    assert forall|k: int| 0 <= k < cs.len() implies gk.in_bounds(#[trigger] cs[k]) by {
                        assert(diagonals[c2].positions@[k] == cs[k]);
                    }
                    if c2 < c {
                        lemma_pruned_shrink(grid, &gk, &g0, cs, region_groups(cs, g0.rrows() as int, g0.rcols() as int), diagonals[c2].sum as int);
                    } else {
                        assert(cs == cells);
                        let big = cells_cands(&g0, cells);
                        assert forall|i: int| 0 <= i < cands.len() implies (#[trigger] cands[i]).subset_of(big[i]) by {
                            assert(gk.in_bounds(cells[i]));
                            assert(gk@[cells[i].row as int][cells[i].col as int]@.subset_of(g0@[cells[i].row as int][cells[i].col as int]@));
                        }
                        assert forall|j2: int, v: int|
                            0 <= j2 < cells.len() && 1 <= v <= g0.size() && #[trigger] grid.at(cells[j2])@.contains(v) implies sum_supports(
                            big,
                            region_groups(cells, rr, rc),
                            g0.size() as int,
                            Set::empty(),
                            0,
                            diagonal.sum as int,
                            j2,
                            v,
                        ) by {
                            assert(updated_candidates@[j2]@[v - 1]);
                            assert(sum_supports(cands, region_groups(cells, rr, rc), nn, Set::empty(), 0, diagonal.sum as int, j2, (v - 1) + 1));
                            lemma_supports_mono(cands, big, region_groups(cells, rr, rc), nn, Set::empty(), 0, diagonal.sum as int, j2, v);
                        }
                    }
                }
                if settled0 {
                    assert forall|c2: int|
                        0 <= c2 < c + 1 && is_diagonal_active@[c2] && !touches(diagonals[c2].positions@, changed_cells(grid, &g0)) implies #[trigger] sum_completes(cells_cands(grid, diagonals[c2].positions@), region_groups(diagonals[c2].positions@, (grid).rrows() as int, (grid).rcols() as int), (grid).size() as int, Set::empty(), 0, diagonals[c2].sum as int) by {
                        lemma_cells_kept(&g0, &gk, grid, diagonals[c2].positions@);
                        if c2 == c {
                            assert(diagonals[c2].positions@ == cells);
                        }
                    }
                }
            }
            c = c + 1;
        }
        proof {
            self.lemma_unchanged_outside(&g0, grid, &active_positions, is_diagonal_active@);
            if settled0 {
                assert forall|c: int|
                    0 <= c < self.diagonal_seq().len() && !touches(self.diagonal_seq()[c].positions@, marked_set(&affected_positions)) implies #[trigger] sum_completes(cells_cands(grid, self.diagonal_seq()[c].positions@), region_groups(self.diagonal_seq()[c].positions@, (grid).rrows() as int, (grid).rcols() as int), (grid).size() as int, Set::empty(), 0, self.diagonal_seq()[c].sum as int)
                && pruned(grid, grid, self.diagonal_seq()[c].positions@, region_groups(self.diagonal_seq()[c].positions@, (grid).rrows() as int, (grid).rcols() as int), self.diagonal_seq()[c].sum as int) by {
                    let cells = diagonals[c].positions@;
                    if touches(cells, changed_cells(grid, &g0)) {
                        let k = choose|k: int| 0 <= k < cells.len() && changed_cells(grid, &g0).contains(#[trigger] cells[k]);
                        assert(affected_positions@[cells[k].row as int][cells[k].col as int]);
                        assert(marked_set(&affected_positions).contains(cells[k]));
                    }
                    if !is_diagonal_active@[c] {
                        assert(!touches(cells, marked_set(&active_positions))) by {
                            if touches(cells, marked_set(&active_positions)) {
                                let k = choose|k: int| 0 <= k < cells.len() && marked_set(&active_positions).contains(#[trigger] cells[k]);
                                assert(active_positions.at(cells[k]));
                            }
                        }
                        lemma_cells_kept(&g0, &g0, grid, cells);
                        assert(sum_completes(cells_cands(&g0, self.diagonal_seq()[c].positions@), region_groups(self.diagonal_seq()[c].positions@, (g0).rrows() as int, (g0).rcols() as int), (g0).size() as int, Set::empty(), 0, self.diagonal_seq()[c].sum as int));
                        lemma_pruned_transfer(&g0, &g0, grid, grid, cells, region_groups(cells, rr, rc), diagonals[c].sum as int);
                    } else {
                        assert forall|k: int| 0 <= k < cells.len() implies g0.in_bounds(#[trigger] cells[k]) by {
                            assert(diagonals[c].positions@[k] == cells[k]);
                        }
                        lemma_cells_kept(&g0, &g0, grid, cells);
                        lemma_pruned_transfer(grid, &g0, grid, grid, cells, region_groups(cells, rr, rc), diagonals[c].sum as int);
                    }
                }
            }
        }
        Some(affected_positions)
    }
}

} // verus!

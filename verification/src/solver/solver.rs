use vstd::prelude::*;
use crate::constraints::constraint_set::{AnyConstraint, ConstraintSet};
use crate::constraints::variants::{AntiKnightConstraint, ClassicConstraint};
use crate::grid::candidate_cell::CandidateCell;
use crate::grid::candidate_grid::{fits, is_assignment, lemma_total_decreases, shrinks, total_candidates, CandidateGrid, SolutionGrid};
use crate::grid::grid::Grid;
use crate::grid::position::Position;
use crate::constraints::constraint::{all_cells, changed_cells, fixed_to, marked_set, Constraint};
use crate::constraints::variants::killer::{cages_in_bounds, cells_values, killer_cage_ok, Cage, KillerConstraint};
use crate::constraints::variants::little_killer::{
    diagonal_cells, diagonal_ok, diagonals_in_bounds, dir_dc, dir_dr, region_groups, starts_on_edge, step_from, Diagonal,
    LittleKillerConstraint,
};
use crate::constraints::variants::thermometer::{
    thermometer_ok, thermometers_in_bounds, Thermometer as ThermometerSpan, ThermometerConstraint,
};
use crate::model::clue::{Clue, ClueType};
use crate::model::puzzle::{
    cells_in_bounds, clue_seq, lemma_rules_bound, puzzle_holds, puzzle_size, puzzle_wf, respects_givens, rule_clues_ok,
    rule_holds, Puzzle, Rule,
};
use crate::model::solver_result::{SolverResult, SolverState};

verus! {

/// The candidates a cell starts with: the given value alone, or every value `1..=n`.
pub open spec fn initial_cell(given: Option<u8>, n: int) -> Set<int> {
    match given {
        Some(v) => set![v as int],
        None => Set::new(|v: int| 1 <= v <= n),
    }
}

/// Every killer cage of the puzzle that covers no cell has a target of zero, when the
/// puzzle plays the killer rule.
pub open spec fn empty_cages_sum_zero(puzzle: &Puzzle) -> bool {
    puzzle.rules@.contains(Rule::Killer) ==> forall|k: int|
        0 <= k < clue_seq(puzzle.clues@, ClueType::KillerCage).len() ==> match #[trigger] clue_seq(
            puzzle.clues@,
            ClueType::KillerCage,
        )[k] {
            Clue::KillerCage(kc) => kc.cage_cells@.len() == 0 ==> kc.target_sum == 0,
            _ => true,
        }
}

/// Every cell that holds more than one candidate holds only values `1..=n`, `n` the
/// side of the grid.
pub open spec fn open_cells_in_range(g: &CandidateGrid) -> bool {
    forall|r: int, c: int, v: int|
        0 <= r < g.size() && 0 <= c < g.size() && g@[r][c]@.len() > 1 && #[trigger] g@[r][c]@.contains(v)
            ==> 1 <= v <= g.size()
}

/// Every cell holds exactly one candidate.
pub open spec fn all_fixed(g: &CandidateGrid) -> bool {
    forall|r: int, c: int| 0 <= r < g.size() && 0 <= c < g.size() ==> (#[trigger] g@[r][c])@.len() == 1
}

/// A cell with `count` candidates is worth a guess in a grid of side `n`.
pub open spec fn guess_worthy(count: int, n: int) -> bool {
    1 < count <= n
}

/// `q` comes before `p` when the cells are read row by row.
pub open spec fn reads_before(q: Position, p: Position) -> bool {
    q.row < p.row || (q.row == p.row && q.col < p.col)
}

proof fn lemma_open_cells_shrink(new: &CandidateGrid, old: &CandidateGrid)
    requires
        shrinks(new, old),
        open_cells_in_range(old),
    ensures
        open_cells_in_range(new),
{
    assert forall|r: int, c: int, v: int|
        0 <= r < new.size() && 0 <= c < new.size() && new@[r][c]@.len() > 1 && #[trigger] new@[r][c]@.contains(v)
        implies 1 <= v <= new.size() by {
        old@[r][c].lemma_view_bounds();
        vstd::set_lib::lemma_len_subset(new@[r][c]@, old@[r][c]@);
        assert(old@[r][c]@.contains(v));
    }
}

/// The state whose candidates are the puzzle's givens, or every value in the empty
/// cells, after the constraints have ruled out what they can. `None` when they find
/// that nothing fits.
fn to_solver_state(puzzle: &Puzzle, constraint_set: &ConstraintSet) -> (r: Option<SolverState>)
    requires
        puzzle_wf(puzzle),
        constraint_set.built_for_all(puzzle.puzzle_grid.rrows(), puzzle.puzzle_grid.rcols()),
    ensures
        r matches Some(s) ==> {
            &&& s.candidate_grid.wf()
            &&& s.candidate_grid.same_shape(&puzzle.puzzle_grid)
            &&& open_cells_in_range(&s.candidate_grid)
            &&& forall|i: int, j: int|
                0 <= i < puzzle_size(puzzle) && 0 <= j < puzzle_size(puzzle) ==> (#[trigger] s.candidate_grid@[i][j])@.subset_of(
                    initial_cell(puzzle.puzzle_grid@[i][j], puzzle_size(puzzle)),
                )
        },
        r matches Some(s) ==> (constraint_set.empty_parts_zero_all() ==> constraint_set.settled_all(&s.candidate_grid, Set::empty())),
        forall|sol: Seq<Seq<int>>|
            respects_givens(puzzle, sol) && #[trigger] constraint_set.holds_all(
                sol,
                puzzle.puzzle_grid.rrows(),
                puzzle.puzzle_grid.rcols(),
            ) ==> (r matches Some(s) && fits(sol, &s.candidate_grid)),
{
    let size = puzzle.puzzle_grid.grid_size();
    let count = size as u8;
    let mut candidate_grid = puzzle.puzzle_grid.map(|cell: &Option<u8>| -> (r: CandidateCell)
        requires
            count < 64,
            *cell matches Some(v) ==> 1 <= v <= 64,
        ensures
            r@ == initial_cell(*cell, count as int),
        {
            match cell {
                Some(value) => CandidateCell::with_value(*value),
                None => CandidateCell::with_count(count),
            }
        });
    let ghost g0 = candidate_grid;
    let active_positions = Grid::from_default(puzzle.puzzle_grid.region_rows(), puzzle.puzzle_grid.region_cols(), true);
    proof {
        assert forall|i: int, j: int| 0 <= i < size && 0 <= j < size implies #[trigger] g0@[i][j]@ == initial_cell(
            puzzle.puzzle_grid@[i][j],
            size as int,
        ) by {
        }
        assert forall|sol: Seq<Seq<int>>| respects_givens(puzzle, sol) implies fits(sol, &g0) by {
            assert forall|i: int, j: int| 0 <= i < size && 0 <= j < size implies (#[trigger] g0@[i][j])@.contains(sol[i][j]) by {
                assert(g0@[i][j]@ == initial_cell(puzzle.puzzle_grid@[i][j], size as int));
            }
        }
        assert(open_cells_in_range(&g0)) by {
            assert forall|i: int, j: int, v: int|
                0 <= i < size && 0 <= j < size && g0@[i][j]@.len() > 1 && #[trigger] g0@[i][j]@.contains(v)
                implies 1 <= v <= size by {
                assert(g0@[i][j]@ == initial_cell(puzzle.puzzle_grid@[i][j], size as int));
                if let Some(w) = puzzle.puzzle_grid@[i][j] {
                    assert(set![w as int].len() == 1);
                }
            }
        }
    }
    proof {
        if constraint_set.empty_parts_zero_all() {
            assert(marked_set(&active_positions) =~= all_cells(g0.size())) by {
                assert forall|p: Position| #[trigger] all_cells(g0.size()).contains(p) implies marked_set(&active_positions).contains(p) by {
                    assert(cloned(true, active_positions@[p.row as int][p.col as int]));
                }
            }
            assert forall|k: int| 0 <= k < constraint_set.items().len() implies #[trigger] constraint_set.items()[k].settled(
                &g0,
                marked_set(&active_positions),
            ) by {
                assert(constraint_set.items()[k].empty_parts_zero());
                assert(constraint_set.items()[k].built_for(g0.rrows(), g0.rcols()));
                constraint_set.items()[k].lemma_settled_everywhere(&g0);
            }
        }
    }
    if !constraint_set.update(&mut candidate_grid, active_positions) {
        return None;
    }
    proof {
        lemma_open_cells_shrink(&candidate_grid, &g0);
    }
    Some(SolverState { candidate_grid })
}

proof fn lemma_fits_shrinks(sol: Seq<Seq<int>>, g2: &CandidateGrid, g1: &CandidateGrid, g: &CandidateGrid)
    requires
        fits(sol, g2),
        shrinks(g2, g1),
        shrinks(g1, g),
    ensures
        fits(sol, g),
{
    assert forall|r: int, c: int| 0 <= r < g.size() && 0 <= c < g.size() implies (#[trigger] g@[r][c])@.contains(sol[r][c]) by {
        assert(g2@[r][c]@.contains(sol[r][c]));
        assert(g1@[r][c]@.contains(sol[r][c]));
    }
}

proof fn lemma_fixed_fits(s: &CandidateGrid, g: &CandidateGrid, sol: Seq<Seq<int>>)
    requires
        fixed_to(s, sol),
        shrinks(s, g),
    ensures
        fits(sol, g),
{
    assert forall|r: int, c: int| 0 <= r < g.size() && 0 <= c < g.size() implies (#[trigger] g@[r][c])@.contains(sol[r][c]) by {
        assert(s@[r][c]@ == set![sol[r][c]]);
        assert(s@[r][c]@.contains(sol[r][c]));
    }
}

/// The values of a solved state: the single candidate of every cell.
fn to_solution_grid(solver_state: &SolverState) -> (r: SolutionGrid)
    requires
        solver_state.candidate_grid.wf(),
        all_fixed(&solver_state.candidate_grid),
    ensures
        r.wf(),
        r.same_shape(&solver_state.candidate_grid),
        forall|i: int, j: int|
            0 <= i < r.size() && 0 <= j < r.size() ==> (#[trigger] solver_state.candidate_grid@[i][j])@ == set![r@[i][j] as int],
{
    let solution_grid = solver_state.candidate_grid.map(|cell: &CandidateCell| -> (r: usize)
        requires
            cell@.len() == 1,
        ensures
            cell@ == set![r as int],
        {
            match cell.fixed_value() {
                Some(value) => value as usize,
                None => {
                    proof {
                        assert(false);
                    }
                    0
                },
            }
        });
    solution_grid
}

/// Whether every cell holds exactly one candidate.
fn all_cells_fixed(grid: &CandidateGrid) -> (r: bool)
    requires
        grid.wf(),
    ensures
        r == all_fixed(grid),
{
    let n = grid.grid_size();
    let mut row: usize = 0;
    while row < n
        invariant
            grid.wf(),
            n == grid.size(),
            row <= n,
            forall|r: int, c: int| 0 <= r < row && 0 <= c < n ==> (#[trigger] grid@[r][c])@.len() == 1,
        decreases n - row,
    {
        let mut col: usize = 0;
        while col < n
            invariant
                grid.wf(),
                n == grid.size(),
                row < n,
                col <= n,
                forall|r: int, c: int| 0 <= r < row && 0 <= c < n ==> (#[trigger] grid@[r][c])@.len() == 1,
                forall|c: int| 0 <= c < col ==> (#[trigger] grid@[row as int][c])@.len() == 1,
            decreases n - col,
        {
            if grid.get(Position { row, col }).len() != 1 {
                return false;
            }
            col = col + 1;
        }
        row = row + 1;
    }
    true
}

/// The cell with the fewest candidates among those with more than one (and no more
/// than the side of the grid), the first such cell row by row; `None` when there is
/// none.
fn find_best_candidate(grid: &CandidateGrid) -> (r: Option<Position>)
    requires
        grid.wf(),
        grid.size() < usize::MAX,
    ensures
        r is None <==> forall|i: int, j: int|
            0 <= i < grid.size() && 0 <= j < grid.size() ==> !guess_worthy((#[trigger] grid@[i][j])@.len() as int, grid.size() as int),
        r matches Some(p) ==> {
            &&& grid.in_bounds(p)
            &&& guess_worthy(grid.at(p)@.len() as int, grid.size() as int)
            &&& forall|q: Position|
                grid.in_bounds(q) && guess_worthy((#[trigger] grid.at(q))@.len() as int, grid.size() as int)
                    ==> grid.at(p)@.len() <= grid.at(q)@.len() && (reads_before(q, p) ==> grid.at(p)@.len() < grid.at(q)@.len())
        },
{
    let n = grid.grid_size();
    let mut best_position: Option<Position> = None;
    let mut best_count: usize = n + 1;
    let mut row: usize = 0;
    while row < n
        invariant
            grid.wf(),
            n == grid.size(),
            n < usize::MAX,
            row <= n,
            best_position is None <==> best_count == n + 1,
            best_position is None ==> forall|q: Position|
                q.row < row && q.col < n ==> !guess_worthy((#[trigger] grid.at(q))@.len() as int, n as int),
            best_position matches Some(p) ==> {
                &&& grid.in_bounds(p)
                &&& p.row < row
                &&& grid.at(p)@.len() == best_count
                &&& guess_worthy(best_count as int, n as int)
                &&& forall|q: Position|
                    q.row < row && q.col < n && guess_worthy((#[trigger] grid.at(q))@.len() as int, n as int)
                        ==> best_count <= grid.at(q)@.len() && (reads_before(q, p) ==> best_count < grid.at(q)@.len())
            },
        decreases n - row,
    {
        let mut col: usize = 0;
        while col < n
            invariant
                grid.wf(),
                n == grid.size(),
                n < usize::MAX,
                row < n,
                col <= n,
                best_position is None <==> best_count == n + 1,
                best_position is None ==> forall|q: Position|
                    (q.row < row || (q.row == row && q.col < col)) && q.col < n ==> !guess_worthy(
                        (#[trigger] grid.at(q))@.len() as int,
                        n as int,
                    ),
                best_position matches Some(p) ==> {
                    &&& grid.in_bounds(p)
                    &&& reads_before(p, Position { row, col })
                    &&& grid.at(p)@.len() == best_count
                    &&& guess_worthy(best_count as int, n as int)
                    &&& forall|q: Position|
                        (q.row < row || (q.row == row && q.col < col)) && q.col < n && guess_worthy(
                            (#[trigger] grid.at(q))@.len() as int,
                            n as int,
                        ) ==> best_count <= grid.at(q)@.len() && (reads_before(q, p) ==> best_count < grid.at(q)@.len())
                },
            decreases n - col,
        {
            let pos = Position { row, col };
            let count = grid.get(pos).len() as usize;
            if count < best_count && count > 1 {
                best_count = count;
                best_position = Some(pos);
            }
            col = col + 1;
        }
        row = row + 1;
    }
    proof {
        if best_position is None {
            assert forall|i: int, j: int| 0 <= i < n && 0 <= j < n implies !guess_worthy(
                (#[trigger] grid@[i][j])@.len() as int,
                n as int,
            ) by {
                let q = Position { row: i as usize, col: j as usize };
                assert(grid.at(q) == grid@[i][j]);
            }
        } else {
            let p = best_position->0;
            assert(grid@[p.row as int][p.col as int] == grid.at(p));
        }
    }
    best_position
}

/// The assignment that a grid holding one candidate in every cell fixes.
pub open spec fn fixed_assignment(g: &CandidateGrid) -> Seq<Seq<int>> {
    Seq::new(g.size(), |i: int| Seq::new(g.size(), |j: int| g@[i][j]@.choose()))
}

proof fn lemma_fixed_assignment(g: &CandidateGrid)
    requires
        g.wf(),
        all_fixed(g),
    ensures
        fixed_to(g, fixed_assignment(g)),
{
    assert forall|r: int, c: int| 0 <= r < g.size() && 0 <= c < g.size() implies (#[trigger] g@[r][c])@ == set![
        fixed_assignment(g)[r][c],
    ] by {
        let cell = g@[r][c]@;
        g@[r][c].lemma_view_bounds();
        Set::lemma_is_singleton(cell);
        assert(cell.contains(cell.choose()));
        assert(cell =~= set![cell.choose()]);
    }
}

/// Two different assignments fit `g` and obey every constraint of `cs`.
pub open spec fn two_solutions(g: &CandidateGrid, cs: &ConstraintSet) -> bool {
    exists|s1: Seq<Seq<int>>, s2: Seq<Seq<int>>|
        s1 != s2 && fits(s1, g) && fits(s2, g) && #[trigger] cs.holds_all(s1, g.rrows(), g.rcols()) && #[trigger] cs.holds_all(
            s2,
            g.rrows(),
            g.rcols(),
        )
}

/// Every assignment that fits `g` and obeys all the constraints gives `v` to `pos`.
pub open spec fn solutions_agree_at(
    g: &CandidateGrid,
    cs: &ConstraintSet,
    pos: Position,
    lo: int,
    hi: int,
) -> bool {
    forall|sol: Seq<Seq<int>>|
        fits(sol, g) && #[trigger] cs.holds_all(sol, g.rrows(), g.rcols()) ==> !(lo <= sol[pos.row as int][pos.col as int] < hi)
}

/// Guesses, cell after cell, each candidate of the cell with the fewest, and
/// propagates the constraints after each guess: the state of the only way found to
/// fix every cell, or none, or more than one.
fn solve_recursive(solver_state: &SolverState, constraint_set: &ConstraintSet) -> (r: SolverResult)
    requires
        solver_state.candidate_grid.wf(),
        solver_state.candidate_grid.size() < 64,
        open_cells_in_range(&solver_state.candidate_grid),
        constraint_set.built_for_all(solver_state.candidate_grid.rrows(), solver_state.candidate_grid.rcols()),
    ensures
        r is MultipleSolution ==> (constraint_set.settled_all(&solver_state.candidate_grid, Set::empty()) ==> two_solutions(
            &solver_state.candidate_grid,
            constraint_set,
        )),
        r is NoSolution ==> forall|sol: Seq<Seq<int>>|
            fits(sol, &solver_state.candidate_grid) ==> !#[trigger] constraint_set.holds_all(
                sol,
                solver_state.candidate_grid.rrows(),
                solver_state.candidate_grid.rcols(),
            ),
        r matches SolverResult::Solution(s) ==> {
            &&& s.candidate_grid.wf()
            &&& s.candidate_grid.same_shape(&solver_state.candidate_grid)
            &&& shrinks(&s.candidate_grid, &solver_state.candidate_grid)
            &&& all_fixed(&s.candidate_grid)
            &&& forall|sol: Seq<Seq<int>>|
                fits(sol, &solver_state.candidate_grid) && #[trigger] constraint_set.holds_all(
                    sol,
                    solver_state.candidate_grid.rrows(),
                    solver_state.candidate_grid.rcols(),
                ) ==> fits(sol, &s.candidate_grid)
            &&& constraint_set.settled_all(&solver_state.candidate_grid, Set::empty()) ==> forall|sol: Seq<Seq<int>>|
                fixed_to(&s.candidate_grid, sol) ==> #[trigger] constraint_set.holds_all(
                    sol,
                    solver_state.candidate_grid.rrows(),
                    solver_state.candidate_grid.rcols(),
                )
        },
    decreases total_candidates(&solver_state.candidate_grid),
{
    let grid = &solver_state.candidate_grid;
    let ghost g = *grid;
    let ghost rr = g.rrows();
    let ghost rc = g.rcols();
    let position = match find_best_candidate(grid) {
        Some(pos) => pos,
        None => {
            if all_cells_fixed(grid) {
                let candidate_grid = grid.clone_grid();
                proof {
                    assert(candidate_grid@ =~= g@) by {
                        assert forall|i: int| 0 <= i < g.size() implies #[trigger] candidate_grid@[i] =~= g@[i] by {
                            assert forall|j: int| 0 <= j < g.size() implies #[trigger] candidate_grid@[i][j] == g@[i][j] by {
                                assert(cloned(g@[i][j], candidate_grid@[i][j]));
                            }
                        }
                    }
                    if constraint_set.settled_all(&g, Set::empty()) {
                        assert forall|sol: Seq<Seq<int>>| fixed_to(&candidate_grid, sol) implies #[trigger] constraint_set.holds_all(sol, rr, rc) by {
                            assert(fixed_to(&g, sol));
                            assert forall|k: int| 0 <= k < constraint_set.items().len() implies #[trigger] constraint_set.items()[k].holds(sol, rr, rc) by {
                                assert(constraint_set.items()[k].built_for(rr, rc));
                                assert(constraint_set.items()[k].settled(&g, Set::empty()));
                                constraint_set.items()[k].lemma_settled_fixed(&g, sol);
                            }
                        }
                    }
                }
                return SolverResult::Solution(SolverState { candidate_grid });
            }
            proof {
                let (i, j) = choose|i: int, j: int| 0 <= i < g.size() && 0 <= j < g.size() && (#[trigger] g@[i][j])@.len() != 1;
                assert(!guess_worthy(g@[i][j]@.len() as int, g.size() as int));
                if g@[i][j]@.len() > 1 {
                    vstd::set_lib::lemma_int_range(1, g.size() + 1int);
                    assert(g@[i][j]@.subset_of(vstd::set_lib::set_int_range(1, g.size() + 1int)));
                    vstd::set_lib::lemma_len_subset(g@[i][j]@, vstd::set_lib::set_int_range(1, g.size() + 1int));
                }
                assert(g@[i][j]@.len() == 0);
                assert forall|sol: Seq<Seq<int>>| fits(sol, &g) implies false by {
                    assert(g@[i][j]@.contains(sol[i][j]));
                    g@[i][j].lemma_view_bounds();
                    vstd::set_lib::lemma_set_empty_equivalency_len(g@[i][j]@);
                }
            }
            return SolverResult::NoSolution;
        },
    };
    let ghost pos_row = position.row as int;
    let ghost pos_col = position.col as int;
    proof {
        g.at(position).lemma_view_bounds();
        g.lemma_size_bound();
    }
    let size = grid.grid_size();
    let mut solved_state: Option<SolverState> = None;
    let mut value: usize = 1;
    while value <= size
        invariant
            g == solver_state.candidate_grid,
            *grid == g,
            rr == g.rrows(),
            rc == g.rcols(),
            g.wf(),
            size == g.size(),
            size < 64,
            open_cells_in_range(&g),
            constraint_set.built_for_all(rr, rc),
            g.in_bounds(position),
            pos_row == position.row,
            pos_col == position.col,
            guess_worthy(g.at(position)@.len() as int, size as int),
            1 <= value <= size + 1,
            solved_state is None ==> solutions_agree_at(&g, constraint_set, position, 1, value as int),
            solved_state matches Some(s) ==> {
                &&& s.candidate_grid.wf()
                &&& s.candidate_grid.same_shape(&g)
                &&& all_fixed(&s.candidate_grid)
                &&& forall|sol: Seq<Seq<int>>|
                    fits(sol, &g) && #[trigger] constraint_set.holds_all(sol, rr, rc) && 1 <= sol[pos_row][pos_col] < value
                        ==> fits(sol, &s.candidate_grid)
                &&& shrinks(&s.candidate_grid, &g)
                &&& forall|w: int| #[trigger] s.candidate_grid@[pos_row][pos_col]@.contains(w) ==> w < value
                &&& constraint_set.settled_all(&g, Set::empty()) ==> forall|sol: Seq<Seq<int>>|
                    fixed_to(&s.candidate_grid, sol) ==> #[trigger] constraint_set.holds_all(sol, rr, rc)
            },
        decreases size + 1 - value,
    {
        if !grid.get(position).contains(value as u8) {
            proof {
                assert forall|sol: Seq<Seq<int>>|
                    fits(sol, &g) && #[trigger] constraint_set.holds_all(sol, rr, rc) implies sol[pos_row][pos_col] != value by {
                    assert(g@[pos_row][pos_col]@.contains(sol[pos_row][pos_col]));
                }
            }
            value = value + 1;
            continue;
        }
        let mut new_grid = grid.clone_grid();
        proof {
            assert(new_grid@ =~= g@) by {
                assert forall|i: int| 0 <= i < g.size() implies #[trigger] new_grid@[i] =~= g@[i] by {
                    assert forall|j: int| 0 <= j < g.size() implies #[trigger] new_grid@[i][j] == g@[i][j] by {
                        assert(cloned(g@[i][j], new_grid@[i][j]));
                    }
                }
            }
        }
        new_grid.set(position, CandidateCell::with_value(value as u8));
        let ghost g1 = new_grid;
        let mut active_positions = Grid::from_default(grid.region_rows(), grid.region_cols(), false);
        active_positions.set(position, true);
        proof {
            assert(shrinks(&g1, &g)) by {
                assert forall|i: int, j: int| 0 <= i < g.size() && 0 <= j < g.size() implies (#[trigger] g1@[i][j])@.subset_of(g@[i][j]@) by {
                    if i == pos_row && j == pos_col {
                        assert(g@[pos_row][pos_col]@.contains(value as int));
                    }
                }
            }
            assert(open_cells_in_range(&g1)) by {
                assert forall|i: int, j: int, v: int|
                    0 <= i < g1.size() && 0 <= j < g1.size() && g1@[i][j]@.len() > 1 && #[trigger] g1@[i][j]@.contains(v)
                    implies 1 <= v <= g1.size() by {
                    if i == pos_row && j == pos_col {
                        assert(set![value as int].len() == 1);
                    } else {
                        assert(g1@[i][j] == g@[i][j]);
                    }
                }
            }
            assert forall|sol: Seq<Seq<int>>|
                fits(sol, &g) && sol[pos_row][pos_col] == value implies #[trigger] fits(sol, &g1) by {
                assert forall|i: int, j: int| 0 <= i < g.size() && 0 <= j < g.size() implies (#[trigger] g1@[i][j])@.contains(sol[i][j]) by {
                    if !(i == pos_row && j == pos_col) {
                        assert(g1@[i][j] == g@[i][j]);
                    }
                }
            }
            lemma_total_decreases(&g1, &g);
            assert(g1@[pos_row][pos_col]@ != g@[pos_row][pos_col]@) by {
                assert(g1@[pos_row][pos_col]@.len() == 1);
            }
            if constraint_set.settled_all(&g, Set::empty()) {
                assert(changed_cells(&g1, &g).subset_of(marked_set(&active_positions))) by {
                    assert forall|p: Position| #[trigger] changed_cells(&g1, &g).contains(p) implies marked_set(&active_positions).contains(p) by {
                        if p != position {
                            assert(g1@[p.row as int][p.col as int] == g@[p.row as int][p.col as int]);
                        }
                    }
                }
                assert forall|k: int| 0 <= k < constraint_set.items().len() implies #[trigger] constraint_set.items()[k].settled(
                    &g1,
                    marked_set(&active_positions),
                ) by {
                    assert(constraint_set.items()[k].built_for(rr, rc));
                    assert(constraint_set.items()[k].settled(&g, Set::empty()));
                    constraint_set.items()[k].lemma_settled_shrink(&g, &g1, Set::empty(), marked_set(&active_positions));
                }
            }
        }
        if !constraint_set.update(&mut new_grid, active_positions) {
            proof {
                assert forall|sol: Seq<Seq<int>>|
                    fits(sol, &g) && #[trigger] constraint_set.holds_all(sol, rr, rc) implies sol[pos_row][pos_col] != value by {
                    if sol[pos_row][pos_col] == value {
                        assert(fits(sol, &g1));
                    }
                }
            }
            value = value + 1;
            continue;
        }
        proof {
            lemma_total_decreases(&new_grid, &g1);
            lemma_open_cells_shrink(&new_grid, &g1);
        }
        let new_solver_state = SolverState { candidate_grid: new_grid };
        match solve_recursive(&new_solver_state, constraint_set) {
            SolverResult::NoSolution => {
                proof {
                    assert forall|sol: Seq<Seq<int>>|
                        fits(sol, &g) && #[trigger] constraint_set.holds_all(sol, rr, rc) implies sol[pos_row][pos_col] != value by {
                        if sol[pos_row][pos_col] == value {
                            assert(fits(sol, &g1));
                            assert(constraint_set.holds_all(sol, g1.rrows(), g1.rcols()));
                            assert(fits(sol, &new_solver_state.candidate_grid));
                        }
                    }
                }
            },
            SolverResult::MultipleSolution => {
                proof {
                    if constraint_set.settled_all(&g, Set::empty()) {
                        let (s1, s2) = choose|s1: Seq<Seq<int>>, s2: Seq<Seq<int>>|
                            s1 != s2 && fits(s1, &new_solver_state.candidate_grid) && fits(s2, &new_solver_state.candidate_grid)
                                && #[trigger] constraint_set.holds_all(s1, rr, rc) && #[trigger] constraint_set.holds_all(s2, rr, rc);
                        lemma_fits_shrinks(s1, &new_solver_state.candidate_grid, &g1, &g);
                        lemma_fits_shrinks(s2, &new_solver_state.candidate_grid, &g1, &g);
                        assert(constraint_set.holds_all(s1, g.rrows(), g.rcols()) && constraint_set.holds_all(s2, g.rrows(), g.rcols()));
                    }
                }
                return SolverResult::MultipleSolution;
            },
            SolverResult::Solution(found) => {
                proof {
                    assert forall|w: int| #[trigger] found.candidate_grid@[pos_row][pos_col]@.contains(w) implies w == value by {
                        assert(new_solver_state.candidate_grid@[pos_row][pos_col]@.contains(w));
                        assert(g1@[pos_row][pos_col]@.contains(w));
                    }
                }
                if solved_state.is_some() {
                    proof {
                        if constraint_set.settled_all(&g, Set::empty()) {
                            let prev = solved_state->0;
                            lemma_fixed_assignment(&prev.candidate_grid);
                            lemma_fixed_assignment(&found.candidate_grid);
                            let s1 = fixed_assignment(&prev.candidate_grid);
                            let s2 = fixed_assignment(&found.candidate_grid);
                            assert(prev.candidate_grid@[pos_row][pos_col]@.contains(s1[pos_row][pos_col]));
                            assert(found.candidate_grid@[pos_row][pos_col]@.contains(s2[pos_row][pos_col]));
                            assert(s1[pos_row] != s2[pos_row]);
                            assert(s1 != s2);
                            lemma_fixed_fits(&prev.candidate_grid, &g, s1);
                            lemma_fixed_fits(&found.candidate_grid, &g, s2);
                            assert(found.candidate_grid.same_shape(&new_solver_state.candidate_grid));
                            assert(constraint_set.holds_all(s1, rr, rc));
                            assert(constraint_set.holds_all(s2, rr, rc));
                        }
                    }
                    return SolverResult::MultipleSolution;
                }
                proof {
                    assert(shrinks(&found.candidate_grid, &g)) by {
                        assert forall|i: int, j: int| 0 <= i < g.size() && 0 <= j < g.size() implies (#[trigger] found.candidate_grid@[i][j])@.subset_of(g@[i][j]@) by {
                            assert(found.candidate_grid@[i][j]@.subset_of(new_solver_state.candidate_grid@[i][j]@));
                            assert(new_solver_state.candidate_grid@[i][j]@.subset_of(g1@[i][j]@));
                            assert(g1@[i][j]@.subset_of(g@[i][j]@));
                        }
                    }
                    assert forall|sol: Seq<Seq<int>>|
                        fits(sol, &g) && #[trigger] constraint_set.holds_all(sol, rr, rc) && 1 <= sol[pos_row][pos_col] < value + 1
                        implies fits(sol, &found.candidate_grid) by {
                        assert(solutions_agree_at(&g, constraint_set, position, 1, value as int));
                        assert(sol[pos_row][pos_col] == value);
                        assert(fits(sol, &g1));
                        assert(constraint_set.holds_all(sol, g1.rrows(), g1.rcols()));
                        assert(fits(sol, &new_solver_state.candidate_grid));
                    }
                }
                solved_state = Some(found);
            },
        }
        value = value + 1;
    }
    proof {
        assert forall|sol: Seq<Seq<int>>| fits(sol, &g) implies 1 <= #[trigger] sol[pos_row][pos_col] <= size by {
            assert(g@[pos_row][pos_col]@.contains(sol[pos_row][pos_col]));
            assert(g.at(position) == g@[pos_row][pos_col]);
        }
    }
    match solved_state {
        Some(found) => SolverResult::Solution(found),
        None => SolverResult::NoSolution,
    }
}

fn copy_positions(cells: &Vec<Position>) -> (r: Vec<Position>)
    ensures
        r@ == cells@,
{
    let r = cells.clone();
    proof {
        assert forall|k: int| 0 <= k < cells@.len() implies #[trigger] r@[k] == cells@[k] by {
            assert(cloned(cells@[k], r@[k]));
        }
        assert(r@ =~= cells@);
    }
    r
}

/// The killer constraint of the puzzle's cages.
fn killer_constraint_of(puzzle: &Puzzle) -> (r: KillerConstraint)
    requires
        puzzle_wf(puzzle),
        rule_clues_ok(puzzle, Rule::Killer),
    ensures
        r.built_for(puzzle.puzzle_grid.rrows(), puzzle.puzzle_grid.rcols()),
        cages_of_clues(r.cage_seq(), clue_seq(puzzle.clues@, ClueType::KillerCage)),
        puzzle.rules@.contains(Rule::Killer) && empty_cages_sum_zero(puzzle) ==> r.empty_cages_zero(),
        forall|sol: Seq<Seq<int>>|
            #[trigger] r.holds(sol, puzzle.puzzle_grid.rrows(), puzzle.puzzle_grid.rcols()) <==> rule_holds(
                puzzle,
                Rule::Killer,
                sol,
            ),
{
    let ghost n = puzzle_size(puzzle);
    let clues = puzzle.clues_of(ClueType::KillerCage).unwrap();
    let ghost cs = clue_seq(puzzle.clues@, ClueType::KillerCage);
    proof {
        assert(forall|k: int| 0 <= k < cs.len() ==> match #[trigger] cs[k] {
            Clue::KillerCage(kc) => cells_in_bounds(kc.cage_cells@, n),
            _ => false,
        });
    }
    let mut cages: Vec<Cage> = Vec::new();
    let mut c: usize = 0;
    while c < clues.len()
        invariant
            clues@ == cs,
            puzzle_wf(puzzle),
            rule_clues_ok(puzzle, Rule::Killer),
            n == puzzle_size(puzzle),
            c <= cs.len(),
            forall|k: int| 0 <= k < cs.len() ==> match #[trigger] cs[k] {
                Clue::KillerCage(kc) => cells_in_bounds(kc.cage_cells@, n),
                _ => false,
            },
            cages@.len() == c,
            forall|k: int| 0 <= k < c ==> match #[trigger] cs[k] {
                Clue::KillerCage(kc) => cages@[k].sum == kc.target_sum && cages@[k].positions@ == kc.cage_cells@,
                _ => false,
            },
        decreases cs.len() - c,
    {
        assert(rule_clues_ok(puzzle, Rule::Killer));
        match &clues[c] {
            Clue::KillerCage(killer_cage) => {
                let positions = copy_positions(&killer_cage.cage_cells);
                cages.push(Cage { sum: killer_cage.target_sum as usize, positions });
            },
            _ => {
                proof {
                    assert(false);
                }
            },
        }
        c = c + 1;
    }
    let region_rows = puzzle.puzzle_grid.region_rows();
    let region_cols = puzzle.puzzle_grid.region_cols();
    proof {
        assert(cages_in_bounds(cages@, (region_rows * region_cols) as nat)) by {
            assert forall|c: int, k: int| 0 <= c < cages@.len() && 0 <= k < cages@[c].positions@.len() implies (
            #[trigger] cages@[c].positions@[k]).row < region_rows * region_cols && cages@[c].positions@[k].col < region_rows
                * region_cols by {
                match cs[c] {
                    Clue::KillerCage(kc) => {
                        assert(cells_in_bounds(kc.cage_cells@, n));
                        assert(kc.cage_cells@[k] == cages@[c].positions@[k]);
                    },
                    _ => {},
                }
            }
        }
    }
    let r = KillerConstraint::new(cages, region_rows, region_cols);
    proof {
        if puzzle.rules@.contains(Rule::Killer) && empty_cages_sum_zero(puzzle) {
            assert forall|c: int| 0 <= c < r.cage_seq().len() && #[trigger] r.cage_seq()[c].positions@.len() == 0 implies r.cage_seq()[c].sum == 0 by {
                match cs[c] {
                    Clue::KillerCage(kc) => {},
                    _ => {},
                }
            }
        }
        assert forall|sol: Seq<Seq<int>>|
            #[trigger] r.holds(sol, puzzle.puzzle_grid.rrows(), puzzle.puzzle_grid.rcols()) <==> rule_holds(
                puzzle,
                Rule::Killer,
                sol,
            ) by {
            if r.holds(sol, puzzle.puzzle_grid.rrows(), puzzle.puzzle_grid.rcols()) {
                assert forall|c: int| 0 <= c < cs.len() implies match #[trigger] cs[c] {
                    Clue::KillerCage(k) => killer_cage_ok(cells_values(sol, k.cage_cells@), n, k.target_sum as int),
                    _ => true,
                } by {
                    assert(killer_cage_ok(cells_values(sol, cages@[c].positions@), n, cages@[c].sum as int));
                }
            }
            if rule_holds(puzzle, Rule::Killer, sol) {
                assert forall|c: int| 0 <= c < cages@.len() implies killer_cage_ok(
                    #[trigger] cells_values(sol, cages@[c].positions@),
                    n,
                    cages@[c].sum as int,
                ) by {
                    match cs[c] {
                        Clue::KillerCage(k) => {},
                        _ => {},
                    }
                }
            }
        }
    }
    r
}

/// The little killer constraint of the puzzle's arrows.
fn little_killer_constraint_of(puzzle: &Puzzle) -> (r: LittleKillerConstraint)
    requires
        puzzle_wf(puzzle),
        rule_clues_ok(puzzle, Rule::LittleKiller),
    ensures
        r.built_for(puzzle.puzzle_grid.rrows(), puzzle.puzzle_grid.rcols()),
        r.empty_diagonals_zero(),
        diagonals_of_clues(r.diagonal_seq(), clue_seq(puzzle.clues@, ClueType::LittleKillerArrow), puzzle_size(puzzle)),
        forall|sol: Seq<Seq<int>>|
            #[trigger] r.holds(sol, puzzle.puzzle_grid.rrows(), puzzle.puzzle_grid.rcols()) <==> rule_holds(
                puzzle,
                Rule::LittleKiller,
                sol,
            ),
{
    let ghost n = puzzle_size(puzzle);
    let ghost rr = puzzle.puzzle_grid.rrows() as int;
    let ghost rc = puzzle.puzzle_grid.rcols() as int;
    let grid_size = puzzle.puzzle_grid.grid_size() as u8;
    let clues = puzzle.clues_of(ClueType::LittleKillerArrow).unwrap();
    let ghost cs = clue_seq(puzzle.clues@, ClueType::LittleKillerArrow);
    proof {
        assert(forall|k: int| 0 <= k < cs.len() ==> match #[trigger] cs[k] {
            Clue::LittleKillerArrow(a) => a.first_cell.row < n && a.first_cell.col < n && starts_on_edge(a.direction, a.first_cell, n),
            _ => false,
        });
    }
    let mut diagonals: Vec<Diagonal> = Vec::new();
    let mut c: usize = 0;
    while c < clues.len()
        invariant
            clues@ == cs,
            puzzle_wf(puzzle),
            rule_clues_ok(puzzle, Rule::LittleKiller),
            n == puzzle_size(puzzle),
            grid_size == n,
            c <= cs.len(),
            forall|k: int| 0 <= k < cs.len() ==> match #[trigger] cs[k] {
                Clue::LittleKillerArrow(a) => a.first_cell.row < n && a.first_cell.col < n && starts_on_edge(a.direction, a.first_cell, n),
                _ => false,
            },
            diagonals@.len() == c,
            forall|k: int| 0 <= k < c ==> match #[trigger] cs[k] {
                Clue::LittleKillerArrow(a) => diagonals@[k].sum == a.target_sum && diagonals@[k].positions@
                    == diagonal_cells(a.direction, a.first_cell, n),
                _ => false,
            },
        decreases cs.len() - c,
    {
        assert(rule_clues_ok(puzzle, Rule::LittleKiller));
        match &clues[c] {
            Clue::LittleKillerArrow(arrow) => {
                let diagonal = Diagonal::new(arrow.target_sum, arrow.direction, arrow.first_cell, grid_size);
                diagonals.push(diagonal);
            },
            _ => {
                proof {
                    assert(false);
                }
            },
        }
        c = c + 1;
    }
    let region_rows = puzzle.puzzle_grid.region_rows() as u8;
    let region_cols = puzzle.puzzle_grid.region_cols() as u8;
    proof {
        assert(diagonals_in_bounds(diagonals@, (region_rows * region_cols) as nat)) by {
            assert forall|c: int, k: int| 0 <= c < diagonals@.len() && 0 <= k < diagonals@[c].positions@.len() implies (
            #[trigger] diagonals@[c].positions@[k]).row < region_rows * region_cols && diagonals@[c].positions@[k].col
                < region_rows * region_cols by {
                match cs[c] {
                    Clue::LittleKillerArrow(a) => {
                        let first = a.first_cell;
                        let d = a.direction;
                        assert(diagonals@[c].positions@[k] == diagonal_cells(d, first, n)[k]);
                        assert(0 <= step_from(first.row as int, dir_dr(d), k) < n);
                        assert(0 <= step_from(first.col as int, dir_dc(d), k) < n);
                    },
                    _ => {},
                }
            }
        }
    }
    let r = LittleKillerConstraint::new(diagonals, region_rows, region_cols);
    proof {
        assert forall|c: int| 0 <= c < r.diagonal_seq().len() && #[trigger] r.diagonal_seq()[c].positions@.len() == 0 implies r.diagonal_seq()[c].sum == 0 by {
            match cs[c] {
                Clue::LittleKillerArrow(a) => {
                    assert(diagonal_cells(a.direction, a.first_cell, n).len() > 0);
                },
                _ => {},
            }
        }
        assert forall|sol: Seq<Seq<int>>|
            #[trigger] r.holds(sol, puzzle.puzzle_grid.rrows(), puzzle.puzzle_grid.rcols()) <==> rule_holds(
                puzzle,
                Rule::LittleKiller,
                sol,
            ) by {
            if r.holds(sol, puzzle.puzzle_grid.rrows(), puzzle.puzzle_grid.rcols()) {
                assert forall|c: int| 0 <= c < cs.len() implies match #[trigger] cs[c] {
                    Clue::LittleKillerArrow(a) => diagonal_ok(
                        cells_values(sol, diagonal_cells(a.direction, a.first_cell, n)),
                        region_groups(diagonal_cells(a.direction, a.first_cell, n), rr, rc),
                        n,
                        a.target_sum as int,
                    ),
                    _ => true,
                } by {
                    assert(diagonal_ok(
                        cells_values(sol, diagonals@[c].positions@),
                        region_groups(diagonals@[c].positions@, rr, rc),
                        n,
                        diagonals@[c].sum as int,
                    ));
                }
            }
            if rule_holds(puzzle, Rule::LittleKiller, sol) {
                assert forall|c: int| 0 <= c < diagonals@.len() implies diagonal_ok(
                    #[trigger] cells_values(sol, diagonals@[c].positions@),
                    region_groups(diagonals@[c].positions@, rr, rc),
                    n,
                    diagonals@[c].sum as int,
                ) by {
                    match cs[c] {
                        Clue::LittleKillerArrow(a) => {},
                        _ => {},
                    }
                }
            }
        }
    }
    r
}

/// The thermometer constraint of the puzzle's thermometers.
fn thermometer_constraint_of(puzzle: &Puzzle) -> (r: ThermometerConstraint)
    requires
        puzzle_wf(puzzle),
        rule_clues_ok(puzzle, Rule::Thermometer),
    ensures
        r.built_for(puzzle.puzzle_grid.rrows(), puzzle.puzzle_grid.rcols()),
        thermometers_of_clues(r.thermometer_seq(), clue_seq(puzzle.clues@, ClueType::Thermometer)),
        forall|sol: Seq<Seq<int>>|
            #[trigger] r.holds(sol, puzzle.puzzle_grid.rrows(), puzzle.puzzle_grid.rcols()) <==> rule_holds(
                puzzle,
                Rule::Thermometer,
                sol,
            ),
{
    let ghost n = puzzle_size(puzzle);
    let clues = puzzle.clues_of(ClueType::Thermometer).unwrap();
    let ghost cs = clue_seq(puzzle.clues@, ClueType::Thermometer);
    proof {
        assert(forall|k: int| 0 <= k < cs.len() ==> match #[trigger] cs[k] {
            Clue::Thermometer(t) => cells_in_bounds(t.thermometer_cells@, n),
            _ => false,
        });
    }
    let mut thermometers: Vec<ThermometerSpan> = Vec::new();
    let mut c: usize = 0;
    while c < clues.len()
        invariant
            clues@ == cs,
            puzzle_wf(puzzle),
            rule_clues_ok(puzzle, Rule::Thermometer),
            n == puzzle_size(puzzle),
            c <= cs.len(),
            forall|k: int| 0 <= k < cs.len() ==> match #[trigger] cs[k] {
                Clue::Thermometer(t) => cells_in_bounds(t.thermometer_cells@, n),
                _ => false,
            },
            thermometers@.len() == c,
            forall|k: int| 0 <= k < c ==> match #[trigger] cs[k] {
                Clue::Thermometer(t) => thermometers@[k].positions@ == t.thermometer_cells@,
                _ => false,
            },
        decreases cs.len() - c,
    {
        assert(rule_clues_ok(puzzle, Rule::Thermometer));
        match &clues[c] {
            Clue::Thermometer(thermometer) => {
                let positions = copy_positions(&thermometer.thermometer_cells);
                thermometers.push(ThermometerSpan { positions });
            },
            _ => {
                proof {
                    assert(false);
                }
            },
        }
        c = c + 1;
    }
    let region_rows = puzzle.puzzle_grid.region_rows() as u8;
    let region_cols = puzzle.puzzle_grid.region_cols() as u8;
    proof {
        assert(thermometers_in_bounds(thermometers@, (region_rows * region_cols) as nat)) by {
            assert forall|c: int, k: int| 0 <= c < thermometers@.len() && 0 <= k < thermometers@[c].positions@.len() implies (
            #[trigger] thermometers@[c].positions@[k]).row < region_rows * region_cols && thermometers@[c].positions@[k].col
                < region_rows * region_cols by {
                match cs[c] {
                    Clue::Thermometer(t) => {
                        assert(cells_in_bounds(t.thermometer_cells@, n));
                        assert(t.thermometer_cells@[k] == thermometers@[c].positions@[k]);
                    },
                    _ => {},
                }
            }
        }
    }
    let r = ThermometerConstraint::new(thermometers, region_rows, region_cols);
    proof {
        assert forall|sol: Seq<Seq<int>>|
            #[trigger] r.holds(sol, puzzle.puzzle_grid.rrows(), puzzle.puzzle_grid.rcols()) <==> rule_holds(
                puzzle,
                Rule::Thermometer,
                sol,
            ) by {
            if r.holds(sol, puzzle.puzzle_grid.rrows(), puzzle.puzzle_grid.rcols()) {
                assert forall|c: int| 0 <= c < cs.len() implies match #[trigger] cs[c] {
                    Clue::Thermometer(t) => thermometer_ok(cells_values(sol, t.thermometer_cells@), n),
                    _ => true,
                } by {
                    assert(thermometer_ok(cells_values(sol, thermometers@[c].positions@), n));
                }
            }
            if rule_holds(puzzle, Rule::Thermometer, sol) {
                assert forall|c: int| 0 <= c < thermometers@.len() implies thermometer_ok(
                    #[trigger] cells_values(sol, thermometers@[c].positions@),
                    n,
                ) by {
                    match cs[c] {
                        Clue::Thermometer(t) => {},
                        _ => {},
                    }
                }
            }
        }
    }
    r
}

/// The cages of `cages` are those of the killer clues `clues`, in order.
pub open spec fn cages_of_clues(cages: Seq<Cage>, clues: Seq<Clue>) -> bool {
    &&& cages.len() == clues.len()
    &&& forall|k: int| 0 <= k < clues.len() ==> match #[trigger] clues[k] {
        Clue::KillerCage(kc) => cages[k].sum == kc.target_sum && cages[k].positions@ == kc.cage_cells@,
        _ => false,
    }
}

/// The diagonals of `diagonals` are those that the little killer clues `clues` point
/// along in a grid of side `n`, in order.
pub open spec fn diagonals_of_clues(diagonals: Seq<Diagonal>, clues: Seq<Clue>, n: int) -> bool {
    &&& diagonals.len() == clues.len()
    &&& forall|k: int| 0 <= k < clues.len() ==> match #[trigger] clues[k] {
        Clue::LittleKillerArrow(a) => diagonals[k].sum == a.target_sum && diagonals[k].positions@ == diagonal_cells(
            a.direction,
            a.first_cell,
            n,
        ),
        _ => false,
    }
}

/// The thermometers of `thermometers` are those of the thermometer clues `clues`, in
/// order.
pub open spec fn thermometers_of_clues(thermometers: Seq<ThermometerSpan>, clues: Seq<Clue>) -> bool {
    &&& thermometers.len() == clues.len()
    &&& forall|k: int| 0 <= k < clues.len() ==> match #[trigger] clues[k] {
        Clue::Thermometer(t) => thermometers[k].positions@ == t.thermometer_cells@,
        _ => false,
    }
}

/// `c` is the constraint of `rule`, built from every clue of the puzzle for that rule
/// in list order.
pub open spec fn built_from(c: AnyConstraint, puzzle: &Puzzle, rule: Rule) -> bool {
    match rule {
        Rule::AntiKnight => c == AnyConstraint::AntiKnight(AntiKnightConstraint),
        Rule::Killer => c matches AnyConstraint::Killer(k) && cages_of_clues(
            k.cage_seq(),
            clue_seq(puzzle.clues@, ClueType::KillerCage),
        ),
        Rule::LittleKiller => c matches AnyConstraint::LittleKiller(l) && diagonals_of_clues(
            l.diagonal_seq(),
            clue_seq(puzzle.clues@, ClueType::LittleKillerArrow),
            puzzle_size(puzzle),
        ),
        Rule::Thermometer => c matches AnyConstraint::Thermometer(t) && thermometers_of_clues(
            t.thermometer_seq(),
            clue_seq(puzzle.clues@, ClueType::Thermometer),
        ),
    }
}

/// `c` was built for the puzzle's shape and holds of exactly the assignments that obey
/// `rule` with the puzzle's clues.
pub open spec fn stands_for(c: AnyConstraint, puzzle: &Puzzle, rule: Rule) -> bool {
    &&& c.built_for(puzzle.puzzle_grid.rrows(), puzzle.puzzle_grid.rcols())
    &&& forall|sol: Seq<Seq<int>>|
        #[trigger] c.holds(sol, puzzle.puzzle_grid.rrows(), puzzle.puzzle_grid.rcols()) <==> rule_holds(puzzle, rule, sol)
}

/// The constraints of the puzzle: the classic ones, then one for each extra rule.
fn to_constraint_set(puzzle: &Puzzle) -> (r: ConstraintSet)
    requires
        puzzle_wf(puzzle),
    ensures
        r.items().len() == puzzle.rules@.len() + 1,
        r.built_for_all(puzzle.puzzle_grid.rrows(), puzzle.puzzle_grid.rcols()),
        forall|sol: Seq<Seq<int>>|
            #[trigger] r.holds_all(sol, puzzle.puzzle_grid.rrows(), puzzle.puzzle_grid.rcols()) <==> puzzle_holds(puzzle, sol),
        empty_cages_sum_zero(puzzle) ==> r.empty_parts_zero_all(),
        r.items()[0] == AnyConstraint::Classic(ClassicConstraint),
        forall|k: int| 0 <= k < puzzle.rules@.len() ==> #[trigger] built_from(r.items()[k + 1], puzzle, puzzle.rules@[k]),
{
    let ghost rr = puzzle.puzzle_grid.rrows();
    let ghost rc = puzzle.puzzle_grid.rcols();
    let mut constraints: Vec<AnyConstraint> = Vec::new();
    constraints.push(AnyConstraint::Classic(ClassicConstraint));
    let mut i: usize = 0;
    while i < puzzle.rules.len()
        invariant
            puzzle_wf(puzzle),
            rr == puzzle.puzzle_grid.rrows(),
            rc == puzzle.puzzle_grid.rcols(),
            i <= puzzle.rules@.len(),
            constraints@.len() == i + 1,
            constraints@[0] == AnyConstraint::Classic(ClassicConstraint),
            forall|k: int| 0 <= k < i ==> #[trigger] stands_for(constraints@[k + 1], puzzle, puzzle.rules@[k]),
            forall|k: int| 0 <= k < i ==> #[trigger] built_from(constraints@[k + 1], puzzle, puzzle.rules@[k]),
            empty_cages_sum_zero(puzzle) ==> forall|k: int| 0 <= k < constraints@.len() ==> (#[trigger] constraints@[k]).empty_parts_zero(),
        decreases puzzle.rules@.len() - i,
    {
        assert(rule_clues_ok(puzzle, puzzle.rules@[i as int]));
        let constraint = match puzzle.rules[i] {
            Rule::AntiKnight => AnyConstraint::AntiKnight(AntiKnightConstraint),
            Rule::Killer => AnyConstraint::Killer(killer_constraint_of(puzzle)),
            Rule::LittleKiller => AnyConstraint::LittleKiller(little_killer_constraint_of(puzzle)),
            Rule::Thermometer => AnyConstraint::Thermometer(thermometer_constraint_of(puzzle)),
        };
        assert(stands_for(constraint, puzzle, puzzle.rules@[i as int]));
        proof {
            if puzzle.rules@[i as int] == Rule::Killer {
                assert(puzzle.rules@.contains(Rule::Killer));
            }
        }
        assert(empty_cages_sum_zero(puzzle) ==> constraint.empty_parts_zero());
        assert(built_from(constraint, puzzle, puzzle.rules@[i as int]));
        constraints.push(constraint);
        proof {
            assert forall|k: int| 0 <= k < i + 1 implies #[trigger] stands_for(constraints@[k + 1], puzzle, puzzle.rules@[k]) by {
                if k < i {
                    assert(stands_for(constraints@[k + 1], puzzle, puzzle.rules@[k]));
                }
            }
            assert forall|k: int| 0 <= k < i + 1 implies #[trigger] built_from(constraints@[k + 1], puzzle, puzzle.rules@[k]) by {
                if k < i {
                    assert(built_from(constraints@[k + 1], puzzle, puzzle.rules@[k]));
                }
            }
        }
        i = i + 1;
    }
    let r = ConstraintSet::new(constraints);
    proof {
        if empty_cages_sum_zero(puzzle) {
            assert forall|k: int| 0 <= k < r.items().len() implies #[trigger] r.items()[k].empty_parts_zero() by {
                assert(constraints@[k].empty_parts_zero());
            }
        }
        assert forall|sol: Seq<Seq<int>>|
            #[trigger] r.holds_all(sol, rr, rc) <==> puzzle_holds(puzzle, sol) by {
            if r.holds_all(sol, rr, rc) {
                assert(r.items()[0].holds(sol, rr, rc));
                assert forall|k: int| 0 <= k < puzzle.rules@.len() implies #[trigger] rule_holds(puzzle, puzzle.rules@[k], sol) by {
                    assert(stands_for(constraints@[k + 1], puzzle, puzzle.rules@[k]));
                    assert(r.items()[k + 1].holds(sol, rr, rc));
                }
            }
            if puzzle_holds(puzzle, sol) {
                assert forall|k: int| 0 <= k < r.items().len() implies #[trigger] r.items()[k].holds(sol, rr, rc) by {
                    if k > 0 {
                        assert(stands_for(constraints@[(k - 1) + 1], puzzle, puzzle.rules@[k - 1]));
                        assert(rule_holds(puzzle, puzzle.rules@[k - 1], sol));
                    }
                }
            }
        }
        assert forall|k: int| 0 <= k < r.items().len() implies #[trigger] r.items()[k].built_for(rr, rc) by {
            if k > 0 {
                assert(stands_for(constraints@[(k - 1) + 1], puzzle, puzzle.rules@[k - 1]));
            }
        }
    }
    r
}

/// An assignment that fits the starting candidates of the puzzle respects its givens.
proof fn lemma_fits_respects(puzzle: &Puzzle, g: &CandidateGrid, sol: Seq<Seq<int>>)
    requires
        g.same_shape(&puzzle.puzzle_grid),
        forall|i: int, j: int|
            0 <= i < puzzle_size(puzzle) && 0 <= j < puzzle_size(puzzle) ==> (#[trigger] g@[i][j])@.subset_of(
                initial_cell(puzzle.puzzle_grid@[i][j], puzzle_size(puzzle)),
            ),
        fits(sol, g),
    ensures
        respects_givens(puzzle, sol),
{
    let n = puzzle_size(puzzle);
    assert forall|i: int, j: int| 0 <= i < n && 0 <= j < n implies match #[trigger] puzzle.puzzle_grid@[i][j] {
        Some(v) => sol[i][j] == v,
        None => 1 <= sol[i][j] <= n,
    } by {
        assert(g@[i][j]@.contains(sol[i][j]));
        assert(initial_cell(puzzle.puzzle_grid@[i][j], n).contains(sol[i][j]));
    }
}

/// The values of a solution grid, as an assignment.
pub open spec fn grid_values(g: &SolutionGrid) -> Seq<Seq<int>> {
    Seq::new(g.size(), |i: int| Seq::new(g.size(), |j: int| g@[i][j] as int))
}

/// The puzzle has exactly one solution: `sol` respects its givens and obeys its rules,
/// and no other assignment does.
pub open spec fn only_solution(puzzle: &Puzzle, sol: Seq<Seq<int>>) -> bool {
    &&& respects_givens(puzzle, sol)
    &&& puzzle_holds(puzzle, sol)
    &&& forall|other: Seq<Seq<int>>| respects_givens(puzzle, other) && #[trigger] puzzle_holds(puzzle, other) ==> other == sol
}

/// Solves the puzzle. Gives the grid of its values when the search fixes every cell in
/// exactly one way: the one assignment that respects the givens and obeys the rules.
/// Else gives "Contradiction found" or "No solution found" when no assignment does,
/// and "Multiple solution found" when two do. A puzzle with exactly one solution is
/// always solved. Killer cages that cover no cell are never checked, so these last
/// facts are stated for puzzles whose empty cages ask for a sum of zero.
pub fn solve(puzzle: &Puzzle) -> (r: Result<SolutionGrid, String>)
    requires
        puzzle_wf(puzzle),
    ensures
        empty_cages_sum_zero(puzzle) && (exists|sol: Seq<Seq<int>>| #[trigger] only_solution(puzzle, sol)) ==> r is Ok,
        r matches Ok(g) ==> {
            &&& g.wf()
            &&& g.same_shape(&puzzle.puzzle_grid)
            &&& forall|sol: Seq<Seq<int>>|
                respects_givens(puzzle, sol) && #[trigger] puzzle_holds(puzzle, sol) ==> forall|i: int, j: int|
                    0 <= i < g.size() && 0 <= j < g.size() ==> sol[i][j] == #[trigger] g@[i][j]
            &&& respects_givens(puzzle, grid_values(&g))
            &&& empty_cages_sum_zero(puzzle) ==> puzzle_holds(puzzle, grid_values(&g))
        },
        r matches Err(e) ==> e@ == "Contradiction found"@ || e@ == "No solution found"@ || e@ == "Multiple solution found"@,
        r matches Err(e) ==> (e@ == "Multiple solution found"@ && empty_cages_sum_zero(puzzle) ==> exists|
            s1: Seq<Seq<int>>,
            s2: Seq<Seq<int>>,
        |
            s1 != s2 && respects_givens(puzzle, s1) && respects_givens(puzzle, s2) && #[trigger] puzzle_holds(puzzle, s1)
                && #[trigger] puzzle_holds(puzzle, s2)),
        r matches Err(e) ==> (e@ == "Contradiction found"@ || e@ == "No solution found"@) ==> forall|sol: Seq<Seq<int>>|
            respects_givens(puzzle, sol) ==> !#[trigger] puzzle_holds(puzzle, sol),
{
    let ghost rr = puzzle.puzzle_grid.rrows();
    let ghost rc = puzzle.puzzle_grid.rcols();
    proof {
        lemma_rules_bound(puzzle.rules@);
    }
    let constraint_set = to_constraint_set(puzzle);
    let solver_state = match to_solver_state(puzzle, &constraint_set) {
        Some(state) => state,
        None => {
            proof {
                assert forall|sol: Seq<Seq<int>>| respects_givens(puzzle, sol) implies !#[trigger] puzzle_holds(puzzle, sol) by {
                    if puzzle_holds(puzzle, sol) {
                        assert(constraint_set.holds_all(sol, rr, rc));
                    }
                }
            }
            proof {
                reveal_strlit("Multiple solution found");
                reveal_strlit("Contradiction found");
                assert("Multiple solution found"@.len() != "Contradiction found"@.len());
            }
            return Err("Contradiction found".to_string());
        },
    };
    proof {
        puzzle.puzzle_grid.lemma_size_bound();
    }
    match solve_recursive(&solver_state, &constraint_set) {
        SolverResult::NoSolution => {
            proof {
                assert forall|sol: Seq<Seq<int>>| respects_givens(puzzle, sol) implies !#[trigger] puzzle_holds(puzzle, sol) by {
                    if puzzle_holds(puzzle, sol) {
                        assert(constraint_set.holds_all(sol, rr, rc));
                        assert(fits(sol, &solver_state.candidate_grid));
                    }
                }
            }
            proof {
                reveal_strlit("Multiple solution found");
                reveal_strlit("No solution found");
                assert("Multiple solution found"@.len() != "No solution found"@.len());
            }
            Err("No solution found".to_string())
        },
        SolverResult::MultipleSolution => {
            proof {
                reveal_strlit("Multiple solution found");
                reveal_strlit("Contradiction found");
                reveal_strlit("No solution found");
                assert("Multiple solution found"@.len() == 23);
                assert("Contradiction found"@.len() == 19);
                assert("No solution found"@.len() == 17);
                if empty_cages_sum_zero(puzzle) {
                    let g = solver_state.candidate_grid;
                    let (s1, s2) = choose|s1: Seq<Seq<int>>, s2: Seq<Seq<int>>|
                        s1 != s2 && fits(s1, &g) && fits(s2, &g) && #[trigger] constraint_set.holds_all(s1, g.rrows(), g.rcols())
                            && #[trigger] constraint_set.holds_all(s2, g.rrows(), g.rcols());
                    lemma_fits_respects(puzzle, &g, s1);
                    lemma_fits_respects(puzzle, &g, s2);
                    assert(puzzle_holds(puzzle, s1) && puzzle_holds(puzzle, s2));
                }
            }
            let e = "Multiple solution found".to_string();
            assert(e@ == "Multiple solution found"@);
            Err(e)
        },
        SolverResult::Solution(found) => {
            let g = to_solution_grid(&found);
            proof {
                assert forall|sol: Seq<Seq<int>>|
                    respects_givens(puzzle, sol) && #[trigger] puzzle_holds(puzzle, sol) implies forall|i: int, j: int|
                        0 <= i < g.size() && 0 <= j < g.size() ==> sol[i][j] == #[trigger] g@[i][j] by {
                    assert(constraint_set.holds_all(sol, rr, rc));
                    assert(fits(sol, &solver_state.candidate_grid));
                    assert(fits(sol, &found.candidate_grid));
                    assert forall|i: int, j: int| 0 <= i < g.size() && 0 <= j < g.size() implies sol[i][j] == #[trigger] g@[i][j] by {
                        assert(found.candidate_grid@[i][j]@ == set![g@[i][j] as int]);
                        assert(found.candidate_grid@[i][j]@.contains(sol[i][j]));
                    }
                }
                let vals = grid_values(&g);
                let n = puzzle_size(puzzle);
                assert(is_assignment(vals, g.size()));
                assert forall|i: int, j: int| 0 <= i < n && 0 <= j < n implies match #[trigger] puzzle.puzzle_grid@[i][j] {
                    Some(v) => vals[i][j] == v,
                    None => 1 <= vals[i][j] <= n,
                } by {
                    assert(found.candidate_grid@[i][j]@ == set![g@[i][j] as int]);
                    assert(found.candidate_grid@[i][j]@.subset_of(solver_state.candidate_grid@[i][j]@));
                    assert(solver_state.candidate_grid@[i][j]@.subset_of(initial_cell(puzzle.puzzle_grid@[i][j], n)));
                    assert(initial_cell(puzzle.puzzle_grid@[i][j], n).contains(g@[i][j] as int));
                }
                assert(respects_givens(puzzle, vals));
                if empty_cages_sum_zero(puzzle) {
                    assert(fixed_to(&found.candidate_grid, vals)) by {
                        assert forall|i: int, j: int| 0 <= i < g.size() && 0 <= j < g.size() implies (#[trigger] found.candidate_grid@[i][j])@
                            == set![vals[i][j]] by {
                            assert(found.candidate_grid@[i][j]@ == set![g@[i][j] as int]);
                        }
                    }
                    assert(constraint_set.holds_all(vals, rr, rc));
                }
            }
            Ok(g)
        },
    }
}

} // verus!

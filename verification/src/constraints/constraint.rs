use vstd::prelude::*;
use crate::constraints::helpers;
use crate::grid::candidate_grid::{
    any_marked, fits, lemma_total_decreases, marks_changes, shrinks, total_candidates,
    CandidateGrid,
};
use crate::grid::grid::Grid;
use crate::grid::candidate_grid::is_assignment;
use crate::grid::position::Position;

verus! {

/// The cells that `a` marks.
pub open spec fn marked_set(a: &Grid<bool>) -> Set<Position> {
    Set::new(|p: Position| a.in_bounds(p) && a.at(p))
}

/// Every cell of a grid of side `n`.
pub open spec fn all_cells(n: nat) -> Set<Position> {
    Set::new(|p: Position| p.row < n && p.col < n)
}

/// The cells whose candidates differ between `g2` and `g`.
pub open spec fn changed_cells(g2: &CandidateGrid, g: &CandidateGrid) -> Set<Position> {
    Set::new(|p: Position| g.in_bounds(p) && g2.at(p)@ != g.at(p)@)
}

/// Every cell of `g` holds just the value that `sol` gives it.
pub open spec fn fixed_to(g: &CandidateGrid, sol: Seq<Seq<int>>) -> bool {
    &&& is_assignment(sol, g.size())
    &&& forall|r: int, c: int| 0 <= r < g.size() && 0 <= c < g.size() ==> (#[trigger] g@[r][c])@ == set![sol[r][c]]
}

/// A rule of the puzzle that can rule candidates out of a grid.
pub trait Constraint {
    /// Whether the full assignment `sol`, on a grid of `region_rows` x `region_cols`
    /// regions, obeys the rule.
    spec fn holds(&self, sol: Seq<Seq<int>>, region_rows: nat, region_cols: nat) -> bool;

    /// Whether the constraint was built for grids whose regions have `region_rows` rows
    /// and `region_cols` columns.
    spec fn built_for(&self, region_rows: nat, region_cols: nat) -> bool;

    /// The parts of the rule that touch no cell of `unsettled` are settled in `grid`:
    /// applying the rule to them again would rule nothing out, and once every cell
    /// holds a single value, they hold of it.
    spec fn settled(&self, grid: &CandidateGrid, unsettled: Set<Position>) -> bool;

    /// Losing candidates unsettles only the parts that touch the cells that lost them.
    proof fn lemma_settled_shrink(
        &self,
        g: &CandidateGrid,
        g2: &CandidateGrid,
        unsettled: Set<Position>,
        unsettled2: Set<Position>,
    )
        requires
            g.wf(),
            self.built_for(g.rrows(), g.rcols()),
            shrinks(g2, g),
            self.settled(g, unsettled),
            unsettled.subset_of(unsettled2),
            changed_cells(g2, g).subset_of(unsettled2),
        ensures
            self.settled(g2, unsettled2),
    ;

    /// A grid that is settled everywhere and holds a single value in every cell obeys
    /// the rule.
    proof fn lemma_settled_fixed(&self, g: &CandidateGrid, sol: Seq<Seq<int>>)
        requires
            g.wf(),
            self.built_for(g.rrows(), g.rcols()),
            self.settled(g, Set::empty()),
            fixed_to(g, sol),
        ensures
            self.holds(sol, g.rrows(), g.rcols()),
    ;

    /// Rules out candidates, starting from the marked cells. Gives `None` when it finds
    /// that no assignment obeying the rule fits the grid; else the cells that changed.
    fn update(&self, grid: &mut CandidateGrid, active_positions: Grid<bool>) -> (r: Option<Grid<bool>>)
        requires
            old(grid).wf(),
            old(grid).size() <= 64,
            active_positions.wf(),
            active_positions.size() == old(grid).size(),
            self.built_for(old(grid).rrows(), old(grid).rcols()),
        ensures
            shrinks(final(grid), old(grid)),
            r matches Some(a) ==> marks_changes(&a, final(grid), old(grid)),
            forall|sol: Seq<Seq<int>>|
                fits(sol, old(grid)) && #[trigger] self.holds(sol, old(grid).rrows(), old(grid).rcols()) ==> r is Some && fits(sol, final(grid)),
            r matches Some(a) ==> (self.settled(old(grid), marked_set(&active_positions)) ==> self.settled(
                final(grid),
                marked_set(&a),
            )),
    ;

    /// Applies `update` again and again, each time from the cells that the previous
    /// round changed, until a round changes nothing. Gives `None` as soon as a round
    /// does; else all the cells that changed.
    fn update_recursive(&self, grid: &mut CandidateGrid, active_positions: Grid<bool>) -> (r: Option<Grid<bool>>)
        requires
            old(grid).wf(),
            old(grid).size() <= 64,
            active_positions.wf(),
            active_positions.size() == old(grid).size(),
            self.built_for(old(grid).rrows(), old(grid).rcols()),
        ensures
            shrinks(final(grid), old(grid)),
            r matches Some(a) ==> marks_changes(&a, final(grid), old(grid)),
            forall|sol: Seq<Seq<int>>|
                fits(sol, old(grid)) && #[trigger] self.holds(sol, old(grid).rrows(), old(grid).rcols()) ==> r is Some && fits(sol, final(grid)),
            r is Some && self.settled(old(grid), marked_set(&active_positions)) ==> self.settled(final(grid), Set::empty()),
            !any_marked(&active_positions) ==> *final(grid) == *old(grid) && (r matches Some(a) && !any_marked(&a)),
    {
        let ghost a0 = active_positions;
        let ghost g0 = *grid;
        let mut current = active_positions;
        let mut affected_positions = Grid::from_default(grid.region_rows(), grid.region_cols(), false);
        proof {
            assert(marks_changes(&affected_positions, grid, &g0));
            assert(!any_marked(&affected_positions)) by {
                assert forall|r: int, c: int| 0 <= r < affected_positions.size() && 0 <= c < affected_positions.size()
                    implies !affected_positions@[r][c] by {
                    assert(cloned(false, affected_positions@[r][c]));
                }
            }
        }
        while helpers::is_any_true(&current)
            invariant
                g0 == *old(grid),
                a0 == active_positions,
                g0.wf(),
                g0.size() <= 64,
                self.built_for(g0.rrows(), g0.rcols()),
                current.wf(),
                current.size() == g0.size(),
                shrinks(grid, &g0),
                grid.size() <= 64,
                marks_changes(&affected_positions, grid, &g0),
                forall|sol: Seq<Seq<int>>| fits(sol, &g0) && #[trigger] self.holds(sol, g0.rrows(), g0.rcols()) ==> fits(sol, grid),
                self.settled(&g0, marked_set(&a0)) ==> self.settled(grid, marked_set(&current)),
                !any_marked(&a0) ==> current == a0 && *grid == g0 && !any_marked(&affected_positions),
            decreases total_candidates(grid) + (if any_marked(&current) { 1int } else { 0int }),
        {
            let ghost g1 = *grid;
            let newly_affected_positions = match self.update(grid, current) {
                Some(a) => a,
                None => return None,
            };
            proof {
                lemma_total_decreases(grid, &g1);
                if any_marked(&newly_affected_positions) {
                    let (r, c) = choose|r: int, c: int|
                        0 <= r < newly_affected_positions.size() && 0 <= c < newly_affected_positions.size()
                            && #[trigger] newly_affected_positions@[r][c];
                    assert(grid@[r][c]@ != g1@[r][c]@);
                }
            }
            helpers::accumulate(&newly_affected_positions, &mut affected_positions);
            proof {
                assert forall|r: int, c: int|
                    0 <= r < g0.size() && 0 <= c < g0.size() implies (#[trigger] affected_positions@[r][c]
                        <==> grid@[r][c]@ != g0@[r][c]@) by {
                    if g1@[r][c]@ != g0@[r][c]@ && grid@[r][c]@ == g0@[r][c]@ {
                        assert(g1@[r][c]@ =~= g0@[r][c]@);
                    }
                }
            }
            current = newly_affected_positions;
        }
        proof {
            assert(marked_set(&current) =~= Set::<Position>::empty()) by {
                assert forall|p: Position| !marked_set(&current).contains(p) by {
                    if current.in_bounds(p) && current.at(p) {
                        assert(current@[p.row as int][p.col as int]);
                    }
                }
            }
        }
        Some(affected_positions)
    }
}

} // verus!

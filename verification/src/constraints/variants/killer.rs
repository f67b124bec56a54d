use vstd::prelude::*;
use crate::constraints::constraint::{all_cells, changed_cells, marked_set, Constraint};
use crate::constraints::helpers::{count_in, index_list, lemma_index_list_grow, repeat_index};
use crate::constraints::sum_search::{
    lemma_assignment_found, lemma_completes_mono, lemma_completes_singletons, lemma_supports_mono, seq_sum, sum_assignment, sum_completes,
    sum_step, sum_supports,
};
use crate::grid::candidate_grid::{fits, marks_changes, shrinks, CandidateGrid};
use crate::grid::grid::Grid;
use crate::grid::position::Position;

verus! {

/// A cage of a killer puzzle: its cells hold distinct values that add up to `sum`.
pub struct Cage {
    pub sum: usize,
    pub positions: Vec<Position>,
}

/// The cells of a killer puzzle split into cages, with, for each cell, the indices of
/// the cages that hold it.
pub struct KillerConstraint {
    cages: Vec<Cage>,
    cage_indices: Grid<Vec<usize>>,
}

/// `vals`, the values of a cage in a grid of side `n`, lie in `1..=n`, are pairwise
/// distinct and add up to `sum`.
pub open spec fn killer_cage_ok(vals: Seq<int>, n: int, sum: int) -> bool {
    &&& forall|i: int| 0 <= i < vals.len() ==> 1 <= #[trigger] vals[i] <= n
    &&& forall|i: int, k: int| 0 <= i < k < vals.len() ==> #[trigger] vals[i] != #[trigger] vals[k]
    &&& seq_sum(vals) == sum
}

/// The killer rule: every cage of `cages` is filled as `killer_cage_ok` demands.
pub open spec fn killer_rule(sol: Seq<Seq<int>>, cages: Seq<Cage>, n: int) -> bool {
    forall|c: int|
        0 <= c < cages.len() ==> killer_cage_ok(#[trigger] cells_values(sol, cages[c].positions@), n, cages[c].sum as int)
}

/// Every cell of every cage lies inside a grid of side `n`.
pub open spec fn cages_in_bounds(cages: Seq<Cage>, n: nat) -> bool {
    forall|c: int, k: int|
        0 <= c < cages.len() && 0 <= k < cages[c].positions@.len() ==> (#[trigger] cages[c].positions@[k]).row < n
            && cages[c].positions@[k].col < n
}

/// Some cell of `cells` is marked in `active`.
pub open spec fn touched(cells: Seq<Position>, active: &Grid<bool>) -> bool {
    exists|k: int| 0 <= k < cells.len() && #[trigger] active.at(cells[k])
}

/// Some cell of `cells` lies in `u`.
pub open spec fn touches(cells: Seq<Position>, u: Set<Position>) -> bool {
    exists|k: int| 0 <= k < cells.len() && u.contains(#[trigger] cells[k])
}

/// The candidates of the cells at `cells`, in order.
pub open spec fn cells_cands(g: &CandidateGrid, cells: Seq<Position>) -> Seq<Set<int>> {
    Seq::new(cells.len(), |i: int| g.at(cells[i])@)
}

/// The values that `sol` gives the cells at `cells`, in order.
pub open spec fn cells_values(sol: Seq<Seq<int>>, cells: Seq<Position>) -> Seq<int> {
    Seq::new(cells.len(), |i: int| sol[cells[i].row as int][cells[i].col as int])
}

/// One group for all `len` cells of a cage: no value repeats anywhere in it.
pub open spec fn one_group(len: nat) -> Seq<int> {
    Seq::new(len, |i: int| 0int)
}

/// The pairs (group, value) that the flags `used` mark as taken, flag `i` standing
/// for value `i + 1` of the single group.
pub open spec fn flagged_values(used: Seq<bool>) -> Set<(int, int)> {
    Set::new(|p: (int, int)| p.0 == 0 && 1 <= p.1 <= used.len() && used[p.1 - 1])
}

/// Every candidate in `1..=n` left in `g` at a cell of `cells` is put there by some
/// filling of the cells' candidates in `g0`, with values distinct within `groups` and
/// adding up to `sum`.
pub open spec fn pruned(g: &CandidateGrid, g0: &CandidateGrid, cells: Seq<Position>, groups: Seq<int>, sum: int) -> bool {
    forall|j: int, v: int|
        0 <= j < cells.len() && 1 <= v <= g0.size() && #[trigger] g.at(cells[j])@.contains(v) ==> sum_supports(
            cells_cands(g0, cells),
            groups,
            g0.size() as int,
            Set::empty(),
            0,
            sum,
            j,
            v,
        )
}

/// Losing more candidates keeps the cells pruned.
pub proof fn lemma_pruned_shrink(
    g2: &CandidateGrid,
    g: &CandidateGrid,
    g0: &CandidateGrid,
    cells: Seq<Position>,
    groups: Seq<int>,
    sum: int,
)
    requires
        shrinks(g2, g),
        forall|k: int| 0 <= k < cells.len() ==> g.in_bounds(#[trigger] cells[k]),
        pruned(g, g0, cells, groups, sum),
    ensures
        pruned(g2, g0, cells, groups, sum),
{
    assert forall|j: int, v: int| 0 <= j < cells.len() && 1 <= v <= g0.size() && #[trigger] g2.at(cells[j])@.contains(v) implies sum_supports(
        cells_cands(g0, cells),
        groups,
        g0.size() as int,
        Set::empty(),
        0,
        sum,
        j,
        v,
    ) by {
        assert(g.in_bounds(cells[j]));
        assert(g2@[cells[j].row as int][cells[j].col as int]@.subset_of(g@[cells[j].row as int][cells[j].col as int]@));
        assert(g.at(cells[j])@.contains(v));
    }
}

/// With the candidates that `g` leaves in the other cells of `cells`, and those of its
/// cell `j` together with `v`, no filling that adds up to `sum`, with values distinct
/// within `groups`, puts `v` in cell `j`.
pub open spec fn unsupported_in(g: &CandidateGrid, cells: Seq<Position>, groups: Seq<int>, sum: int, j: int, v: int) -> bool {
    !sum_supports(
        cells_cands(g, cells).update(j, g.at(cells[j])@.insert(v)),
        groups,
        g.size() as int,
        Set::empty(),
        0,
        sum,
        j,
        v,
    )
}

/// A value with no filling stays without one when the cells lose candidates.
pub proof fn lemma_unsupported_shrink(
    g2: &CandidateGrid,
    g: &CandidateGrid,
    cells: Seq<Position>,
    groups: Seq<int>,
    sum: int,
    j: int,
    v: int,
)
    requires
        shrinks(g2, g),
        0 <= j < cells.len(),
        forall|k: int| 0 <= k < cells.len() ==> g.in_bounds(#[trigger] cells[k]),
        unsupported_in(g, cells, groups, sum, j, v),
    ensures
        unsupported_in(g2, cells, groups, sum, j, v),
{
    let small = cells_cands(g2, cells).update(j, g2.at(cells[j])@.insert(v));
    let big = cells_cands(g, cells).update(j, g.at(cells[j])@.insert(v));
    assert forall|i: int| 0 <= i < small.len() implies (#[trigger] small[i]).subset_of(big[i]) by {
        assert(g.in_bounds(cells[i]));
        assert(g2@[cells[i].row as int][cells[i].col as int]@.subset_of(g@[cells[i].row as int][cells[i].col as int]@));
    }
    if sum_supports(small, groups, g2.size() as int, Set::empty(), 0, sum, j, v) {
        lemma_supports_mono(small, big, groups, g2.size() as int, Set::empty(), 0, sum, j, v);
    }
}

/// A value that no filling of the candidates in `gk` puts in cell `j` has none in a grid
/// `g` with fewer candidates either, even with the value put back in cell `j`.
pub proof fn lemma_unsupported_from(
    g: &CandidateGrid,
    gk: &CandidateGrid,
    cells: Seq<Position>,
    groups: Seq<int>,
    sum: int,
    j: int,
    v: int,
)
    requires
        shrinks(g, gk),
        0 <= j < cells.len(),
        forall|k: int| 0 <= k < cells.len() ==> gk.in_bounds(#[trigger] cells[k]),
        gk.at(cells[j])@.contains(v),
        !sum_supports(cells_cands(gk, cells), groups, gk.size() as int, Set::empty(), 0, sum, j, v),
    ensures
        unsupported_in(g, cells, groups, sum, j, v),
{
    let small = cells_cands(g, cells).update(j, g.at(cells[j])@.insert(v));
    let big = cells_cands(gk, cells);
    assert forall|i: int| 0 <= i < small.len() implies (#[trigger] small[i]).subset_of(big[i]) by {
        assert(gk.in_bounds(cells[i]));
        assert(g@[cells[i].row as int][cells[i].col as int]@.subset_of(gk@[cells[i].row as int][cells[i].col as int]@));
    }
    if sum_supports(small, groups, g.size() as int, Set::empty(), 0, sum, j, v) {
        lemma_supports_mono(small, big, groups, g.size() as int, Set::empty(), 0, sum, j, v);
    }
}

/// Every candidate that `g0` has and `g` lacks lies in a cell of a flagged cage whose
/// other cells, with the candidates left in `g`, give it no filling.
pub open spec fn removals_unsupported(g: &CandidateGrid, g0: &CandidateGrid, cages: Seq<Cage>, flags: Seq<bool>) -> bool {
    forall|q: Position, v: int|
        g0.in_bounds(q) && g0.at(q)@.contains(v) && !(#[trigger] g.at(q)@.contains(v)) ==> exists|c: int, j: int|
            0 <= c < cages.len() && flags[c] && 0 <= j < cages[c].positions@.len() && cages[c].positions@[j] == q
                && #[trigger] unsupported_in(g, cages[c].positions@, one_group(cages[c].positions@.len()), cages[c].sum as int, j, v)
}

/// The candidates of the cell `q`, from `prev`, left once the first `j` cells of `cells`
/// have lost the values in `1..=n` that no filling of `cands` within `groups` adding up
/// to `sum` puts at them.
pub open spec fn pruned_upto(
    prev: Set<int>,
    cells: Seq<Position>,
    cands: Seq<Set<int>>,
    groups: Seq<int>,
    n: int,
    sum: int,
    q: Position,
    j: int,
) -> Set<int> {
    prev.filter(
        |v: int|
            !(1 <= v <= n && exists|j2: int|
                0 <= j2 < j && #[trigger] cells[j2] == q && !sum_supports(cands, groups, n, Set::empty(), 0, sum, j2, v)),
    )
}

/// `p` without the values in `1..hi` that no filling of `cands` within `groups` adding
/// up to `sum` puts at slot `j`.
pub open spec fn drop_unsupported(
    p: Set<int>,
    cands: Seq<Set<int>>,
    groups: Seq<int>,
    n: int,
    sum: int,
    j: int,
    hi: int,
) -> Set<int> {
    p.filter(|v: int| !(1 <= v < hi && !sum_supports(cands, groups, n, Set::empty(), 0, sum, j, v)))
}

/// Dropping nothing below `1` leaves the set as it is.
pub proof fn lemma_drop_unsupported_none(p: Set<int>, cands: Seq<Set<int>>, groups: Seq<int>, n: int, sum: int, j: int)
    ensures
        drop_unsupported(p, cands, groups, n, sum, j, 1) == p,
{
    assert(drop_unsupported(p, cands, groups, n, sum, j, 1) =~= p);
}

/// Taking one more value into account drops it when no filling puts it at slot `j`.
pub proof fn lemma_drop_unsupported_next(
    p: Set<int>,
    cands: Seq<Set<int>>,
    groups: Seq<int>,
    n: int,
    sum: int,
    j: int,
    hi: int,
)
    requires
        1 <= hi,
    ensures
        drop_unsupported(p, cands, groups, n, sum, j, hi + 1) == (if sum_supports(cands, groups, n, Set::empty(), 0, sum, j, hi) {
            drop_unsupported(p, cands, groups, n, sum, j, hi)
        } else {
            drop_unsupported(p, cands, groups, n, sum, j, hi).remove(hi)
        }),
{
    if sum_supports(cands, groups, n, Set::empty(), 0, sum, j, hi) {
        assert(drop_unsupported(p, cands, groups, n, sum, j, hi + 1) =~= drop_unsupported(p, cands, groups, n, sum, j, hi));
    } else {
        assert(drop_unsupported(p, cands, groups, n, sum, j, hi + 1) =~= drop_unsupported(p, cands, groups, n, sum, j, hi).remove(
            hi,
        ));
    }
}

/// One more cell of `cages` pruned changes only that cell's candidates.
pub proof fn lemma_pruned_upto_next(
    prev: Set<int>,
    cells: Seq<Position>,
    cands: Seq<Set<int>>,
    groups: Seq<int>,
    n: int,
    sum: int,
    q: Position,
    j: int,
)
    requires
        0 <= j < cells.len(),
    ensures
        pruned_upto(prev, cells, cands, groups, n, sum, q, j + 1) == (if cells[j] == q {
            drop_unsupported(pruned_upto(prev, cells, cands, groups, n, sum, q, j), cands, groups, n, sum, j, n + 1)
        } else {
            pruned_upto(prev, cells, cands, groups, n, sum, q, j)
        }),
{
    let a = pruned_upto(prev, cells, cands, groups, n, sum, q, j + 1);
    let b = pruned_upto(prev, cells, cands, groups, n, sum, q, j);
    if cells[j] == q {
        let d = drop_unsupported(b, cands, groups, n, sum, j, n + 1);
        assert forall|v: int| a.contains(v) <==> d.contains(v) by {
            if d.contains(v) && !a.contains(v) {
                let j2 = choose|j2: int|
                    0 <= j2 < j + 1 && #[trigger] cells[j2] == q && !sum_supports(cands, groups, n, Set::empty(), 0, sum, j2, v);
                if j2 < j {
                    assert(!b.contains(v));
                }
            }
        }
        assert(a =~= d);
    } else {
        assert forall|v: int| a.contains(v) <==> b.contains(v) by {
            if b.contains(v) && !a.contains(v) {
                let j2 = choose|j2: int|
                    0 <= j2 < j + 1 && #[trigger] cells[j2] == q && !sum_supports(cands, groups, n, Set::empty(), 0, sum, j2, v);
                assert(j2 < j);
            }
        }
        assert(a =~= b);
    }
}

/// Pruning no cell leaves the candidates as they are.
pub proof fn lemma_pruned_upto_none(
    prev: Set<int>,
    cells: Seq<Position>,
    cands: Seq<Set<int>>,
    groups: Seq<int>,
    n: int,
    sum: int,
    q: Position,
)
    ensures
        pruned_upto(prev, cells, cands, groups, n, sum, q, 0) == prev,
{
    assert(pruned_upto(prev, cells, cands, groups, n, sum, q, 0) =~= prev);
}

/// The candidates of every cell, by row and column, after the first `c` cages of
/// `cages` that `flags` marks have each, in turn, taken from their cells the values that
/// no filling of the cage with its cells' candidates at that moment uses there, from
/// the grid `g0`.
pub open spec fn killer_state(cages: Seq<Cage>, flags: Seq<bool>, g0: &CandidateGrid, c: nat) -> Seq<Seq<Set<int>>>
    decreases c,
{
    let n = g0.size() as int;
    if c == 0 {
        Seq::new(g0.size(), |r: int| Seq::new(g0.size(), |k: int| g0@[r][k]@))
    } else {
        let prev = killer_state(cages, flags, g0, (c - 1) as nat);
        if !flags[c - 1] {
            prev
        } else {
            let cells = cages[c - 1].positions@;
            let cands = Seq::new(cells.len(), |i: int| prev[cells[i].row as int][cells[i].col as int]);
            Seq::new(
                g0.size(),
                |r: int|
                    Seq::new(
                        g0.size(),
                        |k: int|
                            pruned_upto(
                                prev[r][k],
                                cells,
                                cands,
                                one_group(cells.len()),
                                n,
                                cages[c - 1].sum as int,
                                Position { row: r as usize, col: k as usize },
                                cells.len() as int,
                            ),
                    ),
            )
        }
    }
}

/// The candidates of the cells of cage `c` in `killer_state` before that cage.
pub open spec fn killer_cands(cages: Seq<Cage>, flags: Seq<bool>, g0: &CandidateGrid, c: int) -> Seq<Set<int>> {
    let prev = killer_state(cages, flags, g0, c as nat);
    let cells = cages[c].positions@;
    Seq::new(cells.len(), |i: int| prev[cells[i].row as int][cells[i].col as int])
}

/// Cage `c` is marked and cannot be filled when its turn comes.
pub open spec fn killer_fails_at(cages: Seq<Cage>, flags: Seq<bool>, g0: &CandidateGrid, c: int) -> bool {
    &&& 0 <= c < cages.len()
    &&& flags[c]
    &&& !sum_completes(
        killer_cands(cages, flags, g0, c),
        one_group(cages[c].positions@.len()),
        g0.size() as int,
        Set::empty(),
        0,
        cages[c].sum as int,
    )
}

/// The cages of `cages` that hold a marked cell of `active`.
pub open spec fn touched_flags(cages: Seq<Cage>, active: &Grid<bool>) -> Seq<bool> {
    Seq::new(cages.len(), |c: int| touched(cages[c].positions@, active))
}

/// Being pruned depends only on the candidates of the cells.
pub proof fn lemma_pruned_transfer(
    g: &CandidateGrid,
    g0: &CandidateGrid,
    g2: &CandidateGrid,
    g02: &CandidateGrid,
    cells: Seq<Position>,
    groups: Seq<int>,
    sum: int,
)
    requires
        cells_cands(g2, cells) == cells_cands(g, cells),
        cells_cands(g02, cells) == cells_cands(g0, cells),
        g02.size() == g0.size(),
        pruned(g, g0, cells, groups, sum),
    ensures
        pruned(g2, g02, cells, groups, sum),
{
    assert forall|j: int, v: int| 0 <= j < cells.len() && 1 <= v <= g02.size() && #[trigger] g2.at(cells[j])@.contains(v) implies sum_supports(
        cells_cands(g02, cells),
        groups,
        g02.size() as int,
        Set::empty(),
        0,
        sum,
        j,
        v,
    ) by {
        assert(cells_cands(g2, cells)[j] == g2.at(cells[j])@);
        assert(cells_cands(g, cells)[j] == g.at(cells[j])@);
    }
}

/// Cells that did not change from `g0` to `g2` did not change at any grid `gk` between
/// them either.
pub proof fn lemma_cells_kept(g0: &CandidateGrid, gk: &CandidateGrid, g2: &CandidateGrid, cells: Seq<Position>)
    requires
        g0.wf(),
        shrinks(gk, g0),
        shrinks(g2, gk),
        forall|k: int| 0 <= k < cells.len() ==> g0.in_bounds(#[trigger] cells[k]),
        !touches(cells, changed_cells(g2, g0)),
    ensures
        cells_cands(g2, cells) == cells_cands(gk, cells),
        cells_cands(g2, cells) == cells_cands(g0, cells),
        !touches(cells, changed_cells(gk, g0)),
        g2.size() == g0.size(),
        g2.rrows() == g0.rrows(),
        g2.rcols() == g0.rcols(),
{
    assert forall|k: int| 0 <= k < cells.len() implies g2.at(#[trigger] cells[k])@ == gk.at(cells[k])@ && gk.at(cells[k])@
        == g0.at(cells[k])@ by {
        let p = cells[k];
        assert(!changed_cells(g2, g0).contains(p));
        let a = g2@[p.row as int][p.col as int]@;
        let b = gk@[p.row as int][p.col as int]@;
        let c = g0@[p.row as int][p.col as int]@;
        assert(a.subset_of(b));
        assert(b.subset_of(c));
        assert(a == c);
        assert(b =~= c);
    }
    assert(cells_cands(g2, cells) =~= cells_cands(gk, cells));
    assert(cells_cands(g2, cells) =~= cells_cands(g0, cells));
    if touches(cells, changed_cells(gk, g0)) {
        let k = choose|k: int| 0 <= k < cells.len() && changed_cells(gk, g0).contains(#[trigger] cells[k]);
        assert(gk.at(cells[k])@ == g0.at(cells[k])@);
    }
}

/// Searches the fillings of the cage cells from `index` on that use values not yet
/// flagged in `values_used` and add up to `target_sum`; flags in
/// `updated_candidates` each value that some filling puts in its slot.
fn recursive_solve(
    grid: &CandidateGrid,
    cage_positions: &Vec<Position>,
    updated_candidates: &mut Vec<Vec<bool>>,
    values_used: &mut Vec<bool>,
    index: usize,
    target_sum: usize,
) -> (r: bool)
    requires
        grid.wf(),
        grid.size() <= 64,
        forall|k: int| 0 <= k < cage_positions@.len() ==> grid.in_bounds(#[trigger] cage_positions@[k]),
        index <= cage_positions@.len(),
        old(values_used)@.len() == grid.size(),
        old(updated_candidates)@.len() == cage_positions@.len(),
        forall|j: int| 0 <= j < cage_positions@.len() ==> (#[trigger] old(updated_candidates)@[j])@.len() == grid.size(),
    ensures
        r == sum_completes(
            cells_cands(grid, cage_positions@),
            one_group(cage_positions@.len()),
            grid.size() as int,
            flagged_values(old(values_used)@),
            index as nat,
            target_sum as int,
        ),
        final(values_used)@ == old(values_used)@,
        final(updated_candidates)@.len() == old(updated_candidates)@.len(),
        forall|j: int| 0 <= j < cage_positions@.len() ==> (#[trigger] final(updated_candidates)@[j])@.len() == grid.size(),
        forall|j: int, i: int|
            0 <= j < cage_positions@.len() && 0 <= i < grid.size() ==> (#[trigger] final(updated_candidates)@[j]@[i] == (
            old(updated_candidates)@[j]@[i] || (index <= j && sum_supports(
                cells_cands(grid, cage_positions@),
                one_group(cage_positions@.len()),
                grid.size() as int,
                flagged_values(old(values_used)@),
                index as nat,
                target_sum as int,
                j,
                i + 1,
            )))),
    decreases cage_positions@.len() - index,
{
    if index == cage_positions.len() {
        return target_sum == 0;
    }
    let ghost cands = cells_cands(grid, cage_positions@);
    let ghost groups = one_group(cage_positions@.len());
    let ghost n = grid.size() as int;
    let ghost used = flagged_values(values_used@);
    let ghost used0 = values_used@;
    let ghost upd0 = updated_candidates@;
    let ghost len = cage_positions@.len();
    let ghost rem = target_sum as int;
    let ghost idx = index as int;

    let mut is_possible = false;
    let pos = cage_positions[index];
    let size = grid.grid_size();
    let mut i: usize = 0;
    while i < size && i + 1 <= target_sum
        invariant
            grid.wf(),
            size == grid.size(),
            size <= 64,
            forall|k: int| 0 <= k < len ==> grid.in_bounds(#[trigger] cage_positions@[k]),
            index < cage_positions.len(),
            len == cage_positions@.len(),
            pos == cage_positions@[idx],
            idx == index,
            rem == target_sum,
            cands == cells_cands(grid, cage_positions@),
            groups == one_group(len),
            n == size,
            used == flagged_values(used0),
            used0.len() == size,
            i <= size,
            values_used@ == used0,
            upd0.len() == len,
            updated_candidates@.len() == len,
            forall|j: int| 0 <= j < len ==> (#[trigger] upd0[j])@.len() == size,
            forall|j: int| 0 <= j < len ==> (#[trigger] updated_candidates@[j])@.len() == size,
            is_possible == exists|v: int|
                1 <= v <= i && #[trigger] sum_step(cands, groups, n, used, idx, rem, v) && sum_completes(
                    cands,
                    groups,
                    n,
                    used.insert((groups[idx], v)),
                    (idx + 1) as nat,
                    rem - v,
                ),
            forall|j: int, k: int|
                0 <= j < len && 0 <= k < size ==> (#[trigger] updated_candidates@[j]@[k] == (upd0[j]@[k] || (idx <= j
                    && exists|v: int|
                    1 <= v <= i && #[trigger] sum_step(cands, groups, n, used, idx, rem, v) && ((j == idx && k + 1 == v
                        && sum_completes(cands, groups, n, used.insert((groups[idx], v)), (idx + 1) as nat, rem - v))
                        || (j > idx && sum_supports(
                        cands,
                        groups,
                        n,
                        used.insert((groups[idx], v)),
                        (idx + 1) as nat,
                        rem - v,
                        j,
                        k + 1,
                    )))))),
        decreases size - i,
    {
        let val = i + 1;
        let ghost v = val as int;
        let ghost next_used = used.insert((groups[idx], v));
        let ghost upd1 = updated_candidates@;
        let ghost poss1 = is_possible;
        if !values_used[i] && grid.get(pos).contains(val as u8) {
            values_used.set(i, true);
            proof {
                assert(flagged_values(values_used@) =~= next_used);
            }
            let ok = recursive_solve(grid, cage_positions, updated_candidates, values_used, index + 1, target_sum - val);
            let ghost upd2 = updated_candidates@;
            if ok {
                updated_candidates[index].set(i, true);
                is_possible = true;
            }
            values_used.set(i, false);
            proof {
                assert(values_used@ =~= used0);
                assert(sum_step(cands, groups, n, used, idx, rem, v));
                assert forall|j: int, k: int| 0 <= j < len && 0 <= k < size implies (#[trigger] updated_candidates@[j]@[k]
                    == (upd0[j]@[k] || (idx <= j && exists|w: int|
                    1 <= w <= i + 1 && #[trigger] sum_step(cands, groups, n, used, idx, rem, w) && ((j == idx && k + 1 == w
                        && sum_completes(cands, groups, n, used.insert((groups[idx], w)), (idx + 1) as nat, rem - w))
                        || (j > idx && sum_supports(
                        cands,
                        groups,
                        n,
                        used.insert((groups[idx], w)),
                        (idx + 1) as nat,
                        rem - w,
                        j,
                        k + 1,
                    )))))) by {
                    assert(upd2[j]@[k] == (upd1[j]@[k] || (idx + 1 <= j && sum_supports(
                        cands,
                        groups,
                        n,
                        next_used,
                        (idx + 1) as nat,
                        rem - v,
                        j,
                        k + 1,
                    ))));
                }
            }
        } else {
            proof {
                assert(!sum_step(cands, groups, n, used, idx, rem, v)) by {
                    if values_used@[i as int] {
                        assert(used.contains((0int, v)));
                    }
                }
            }
        }
        i = i + 1;
    }
    proof {
        assert forall|v: int| #[trigger] sum_step(cands, groups, n, used, idx, rem, v) implies v <= i by {
        }
    }
    is_possible
}

impl KillerConstraint {
    /// The cages, in the order they were given.
    pub closed spec fn cage_seq(&self) -> Seq<Cage> {
        self.cages@
    }

    /// The constraint is built for grids of `region_rows` x `region_cols` regions: its
    /// cages lie inside such a grid and, for every cell, it lists the cages that hold
    /// the cell, in order, once for each time the cage holds it.
    pub closed spec fn wf_for(&self, region_rows: nat, region_cols: nat) -> bool {
        &&& self.cage_indices.wf()
        &&& self.cage_indices.rrows() == region_rows
        &&& self.cage_indices.rcols() == region_cols
        &&& cages_in_bounds(self.cages@, region_rows * region_cols)
        &&& forall|p: Position, k: int|
            p.row < region_rows * region_cols && p.col < region_rows * region_cols && 0
                <= k < self.cage_indices.at(p)@.len() ==> (#[trigger] self.cage_indices.at(p)@[k]) < self.cages@.len()
                && self.cages@[self.cage_indices.at(p)@[k] as int].positions@.contains(p)
        &&& forall|c: int, k: int|
            0 <= c < self.cages@.len() && 0 <= k < self.cages@[c].positions@.len() ==> self.cage_indices.at(
                #[trigger] self.cages@[c].positions@[k],
            )@.contains(c as usize)
        &&& forall|p: Position|
            p.row < region_rows * region_cols && p.col < region_rows * region_cols ==> (#[trigger] self.cage_indices.at(p))@
                == index_list(self.cages@.map_values(|c: Cage| c.positions@), p, self.cages@.len())
    }

    /// The constraint of `cages`, for grids of `region_rows` x `region_cols` regions.
    pub fn new(cages: Vec<Cage>, region_rows: usize, region_cols: usize) -> (r: KillerConstraint)
        requires
            region_rows * region_cols <= usize::MAX,
            cages_in_bounds(cages@, (region_rows * region_cols) as nat),
        ensures
            r.cage_seq() == cages@,
            r.wf_for(region_rows as nat, region_cols as nat),
    {
        let ghost n = region_rows * region_cols;
        let ghost parts = cages@.map_values(|c: Cage| c.positions@);
        let empty: Vec<usize> = Vec::new();
        let mut cage_indices = Grid::from_default(region_rows, region_cols, empty);
        proof {
            assert forall|p: Position| p.row < n && p.col < n implies (#[trigger] cage_indices.at(p))@.len() == 0 by {
                assert(cloned(empty, cage_indices@[p.row as int][p.col as int]));
            }
            assert forall|p: Position| p.row < n && p.col < n implies (#[trigger] cage_indices.at(p))@ == index_list(parts, p, 0) by {
                assert(cage_indices.at(p)@ =~= index_list(parts, p, 0));
            }
        }
        let mut i: usize = 0;
        while i < cages.len()
            invariant
                n == region_rows * region_cols,
                cages_in_bounds(cages@, n as nat),
                cage_indices.wf(),
                cage_indices.rrows() == region_rows,
                cage_indices.rcols() == region_cols,
                i <= cages@.len(),
                forall|p: Position, k: int|
                    p.row < n && p.col < n && 0 <= k < cage_indices.at(p)@.len() ==> (#[trigger] cage_indices.at(p)@[k]) < i
                        && cages@[cage_indices.at(p)@[k] as int].positions@.contains(p),
                forall|c: int, k: int|
                    0 <= c < i && 0 <= k < cages@[c].positions@.len() ==> cage_indices.at(
                        #[trigger] cages@[c].positions@[k],
                    )@.contains(c as usize),
                parts == cages@.map_values(|c: Cage| c.positions@),
                forall|p: Position| p.row < n && p.col < n ==> (#[trigger] cage_indices.at(p))@ == index_list(parts, p, i as nat),
            decreases cages@.len() - i,
        {
            let positions = &cages[i].positions;
            let mut k: usize = 0;
            while k < positions.len()
                invariant
                    n == region_rows * region_cols,
                    cages_in_bounds(cages@, n as nat),
                    cage_indices.wf(),
                    cage_indices.rrows() == region_rows,
                    cage_indices.rcols() == region_cols,
                    i < cages@.len(),
                    positions == cages@[i as int].positions,
                    k <= positions@.len(),
                    forall|p: Position, m: int|
                        p.row < n && p.col < n && 0 <= m < cage_indices.at(p)@.len() ==> (#[trigger] cage_indices.at(p)@[m]) <= i
                            && cages@[cage_indices.at(p)@[m] as int].positions@.contains(p),
                    forall|c: int, k2: int|
                        0 <= c < i && 0 <= k2 < cages@[c].positions@.len() ==> cage_indices.at(
                            #[trigger] cages@[c].positions@[k2],
                        )@.contains(c as usize),
                    forall|k2: int| 0 <= k2 < k ==> cage_indices.at(#[trigger] positions@[k2])@.contains(i),
                    parts == cages@.map_values(|c: Cage| c.positions@),
                    forall|p: Position|
                        p.row < n && p.col < n ==> (#[trigger] cage_indices.at(p))@ == index_list(parts, p, i as nat)
                            + repeat_index(count_in(positions@.take(k as int), p), i as int),
                decreases positions@.len() - k,
            {
                let pos = positions[k];
                assert(cages@[i as int].positions@[k as int] == pos);
                let ghost before = cage_indices;
                let mut cell = cage_indices.replace(pos, Vec::new());
                cell.push(i);
                cage_indices.set(pos, cell);
                proof {
                    assert forall|p: Position, m: int|
                        p.row < n && p.col < n && 0 <= m < cage_indices.at(p)@.len() implies (#[trigger] cage_indices.at(p)@[m]) <= i
                            && cages@[cage_indices.at(p)@[m] as int].positions@.contains(p) by {
                        if p == pos {
                            if m < before.at(p)@.len() {
                                assert(cage_indices.at(p)@[m] == before.at(p)@[m]);
                            } else {
                                assert(cages@[i as int].positions@.contains(pos));
                            }
                        } else {
                            assert(cage_indices.at(p) == before.at(p));
                        }
                    }
                }
                proof {
                    assert forall|c: int, k2: int|
                        0 <= c < i && 0 <= k2 < cages@[c].positions@.len() implies cage_indices.at(
                            #[trigger] cages@[c].positions@[k2],
                        )@.contains(c as usize) by {
                        let q = cages@[c].positions@[k2];
                        assert(before.at(q)@.contains(c as usize));
                        let m = choose|m: int| 0 <= m < before.at(q)@.len() && before.at(q)@[m] == c as usize;
                        if q == pos {
                            assert(cage_indices.at(q)@[m] == c as usize);
                        } else {
                            assert(cage_indices.at(q) == before.at(q));
                        }
                    }
                    assert forall|p: Position|
                        p.row < n && p.col < n implies (#[trigger] cage_indices.at(p))@ == index_list(parts, p, i as nat)
                            + repeat_index(count_in(positions@.take(k + 1), p), i as int) by {
                        lemma_index_list_grow(index_list(parts, p, i as nat), positions@, k as int, p, i as int);
                        if p != pos {
                            assert(cage_indices.at(p) == before.at(p));
                        }
                    }
                    assert forall|k2: int| 0 <= k2 < k + 1 implies cage_indices.at(#[trigger] positions@[k2])@.contains(i) by {
                        let q = positions@[k2];
                        if q == pos {
                            assert(cage_indices.at(q)@[cage_indices.at(q)@.len() - 1] == i);
                        } else {
                            assert(before.at(q)@.contains(i));
                            let m = choose|m: int| 0 <= m < before.at(q)@.len() && before.at(q)@[m] == i;
                            assert(cage_indices.at(q) == before.at(q));
                        }
                    }
                }
                k = k + 1;
            }
            proof {
                assert(positions@.take(positions@.len() as int) =~= positions@);
                assert(parts[i as int] == positions@);
                assert forall|p: Position| p.row < n && p.col < n implies (#[trigger] cage_indices.at(p))@ == index_list(
                    parts,
                    p,
                    (i + 1) as nat,
                ) by {
                    assert(((i + 1) - 1) as nat == i as nat);
                }
            }
            i = i + 1;
        }
        KillerConstraint { cages, cage_indices }
    }
}

/// Whether `q` is a cell of one of the cages that `flags` marks.
pub open spec fn in_flagged_cage(q: Position, cages: Seq<Cage>, flags: Seq<bool>) -> bool {
    exists|c: int| 0 <= c < cages.len() && #[trigger] flags[c] && cages[c].positions@.contains(q)
}

/// Every value that `sol` gives a cell of `cells` is still flagged in `updated`.
pub open spec fn values_kept(updated: Seq<Vec<bool>>, sol: Seq<Seq<int>>, cells: Seq<Position>) -> bool {
    forall|j: int|
        0 <= j < cells.len() ==> #[trigger] updated[j]@[sol[cells[j].row as int][cells[j].col as int] - 1]
}

impl KillerConstraint {
    /// Every cage that covers no cell asks for a sum of zero.
    pub open spec fn empty_cages_zero(&self) -> bool {
        forall|c: int|
            0 <= c < self.cage_seq().len() && #[trigger] self.cage_seq()[c].positions@.len() == 0 ==> self.cage_seq()[c].sum == 0
    }

    /// With every cell unsettled, only the cages that cover no cell are asked to be settled.
    pub proof fn lemma_settled_everywhere(&self, g: &CandidateGrid)
        requires
            g.wf(),
            self.built_for(g.rrows(), g.rcols()),
            self.empty_cages_zero(),
        ensures
            self.settled(g, all_cells(g.size())),
    {
        assert forall|c: int|
            0 <= c < self.cage_seq().len() && !touches(self.cage_seq()[c].positions@, all_cells(g.size())) implies #[trigger] sum_completes(cells_cands(g, self.cage_seq()[c].positions@), one_group(self.cage_seq()[c].positions@.len()), (g).size() as int, Set::empty(), 0, self.cage_seq()[c].sum as int)
                && pruned(g, g, self.cage_seq()[c].positions@, one_group(self.cage_seq()[c].positions@.len()), self.cage_seq()[c].sum as int) by {
            let cells = self.cage_seq()[c].positions@;
            if cells.len() > 0 {
                assert(all_cells(g.size()).contains(cells[0]));
            }
            assert(cells_cands(g, cells).len() == 0);
        }
    }
}

impl KillerConstraint {
    proof fn lemma_unchanged_outside(&self, g0: &CandidateGrid, g: &CandidateGrid, active: &Grid<bool>, flags: Seq<bool>)
        requires
            flags.len() == self.cage_seq().len(),
            forall|c: int| 0 <= c < flags.len() && #[trigger] flags[c] ==> touched(self.cage_seq()[c].positions@, active),
            forall|q: Position|
                g0.in_bounds(q) && !in_flagged_cage(q, self.cage_seq(), flags) ==> #[trigger] g.at(q) == g0.at(q),
        ensures
            forall|q: Position|
                g0.in_bounds(q) && !(exists|c: int|
                    0 <= c < self.cage_seq().len() && #[trigger] touched(self.cage_seq()[c].positions@, active)
                        && self.cage_seq()[c].positions@.contains(q)) ==> #[trigger] g.at(q) == g0.at(q),
    {
        assert forall|q: Position|
            g0.in_bounds(q) && !(exists|c: int|
                0 <= c < self.cage_seq().len() && #[trigger] touched(self.cage_seq()[c].positions@, active)
                    && self.cage_seq()[c].positions@.contains(q)) implies #[trigger] g.at(q) == g0.at(q) by {
            if in_flagged_cage(q, self.cage_seq(), flags) {
                let c = choose|c: int| 0 <= c < self.cage_seq().len() && #[trigger] flags[c] && self.cage_seq()[c].positions@.contains(q);
                assert(touched(self.cage_seq()[c].positions@, active));
            }
        }
    }
}

impl Constraint for KillerConstraint {
    open spec fn holds(&self, sol: Seq<Seq<int>>, region_rows: nat, region_cols: nat) -> bool {
        killer_rule(sol, self.cage_seq(), (region_rows * region_cols) as int)
    }

    open spec fn built_for(&self, region_rows: nat, region_cols: nat) -> bool {
        self.wf_for(region_rows, region_cols)
    }

    open spec fn settled(&self, grid: &CandidateGrid, unsettled: Set<Position>) -> bool {
        forall|c: int|
            0 <= c < self.cage_seq().len() && !touches(self.cage_seq()[c].positions@, unsettled) ==> #[trigger] sum_completes(cells_cands(grid, self.cage_seq()[c].positions@), one_group(self.cage_seq()[c].positions@.len()), (grid).size() as int, Set::empty(), 0, self.cage_seq()[c].sum as int)
                && pruned(grid, grid, self.cage_seq()[c].positions@, one_group(self.cage_seq()[c].positions@.len()), self.cage_seq()[c].sum as int)
    }

    proof fn lemma_settled_shrink(
        &self,
        g: &CandidateGrid,
        g2: &CandidateGrid,
        unsettled: Set<Position>,
        unsettled2: Set<Position>,
    ) {
        assert forall|c: int|
            0 <= c < self.cage_seq().len() && !touches(self.cage_seq()[c].positions@, unsettled2) implies #[trigger] sum_completes(cells_cands(g2, self.cage_seq()[c].positions@), one_group(self.cage_seq()[c].positions@.len()), (g2).size() as int, Set::empty(), 0, self.cage_seq()[c].sum as int)
                && pruned(g2, g2, self.cage_seq()[c].positions@, one_group(self.cage_seq()[c].positions@.len()), self.cage_seq()[c].sum as int) by {
            let cells = self.cage_seq()[c].positions@;
            if touches(cells, unsettled) {
                let k = choose|k: int| 0 <= k < cells.len() && unsettled.contains(#[trigger] cells[k]);
                assert(unsettled2.contains(cells[k]));
            }
            assert(sum_completes(cells_cands(g, self.cage_seq()[c].positions@), one_group(self.cage_seq()[c].positions@.len()), (g).size() as int, Set::empty(), 0, self.cage_seq()[c].sum as int));
            if touches(cells, changed_cells(g2, g)) {
                let k = choose|k: int| 0 <= k < cells.len() && changed_cells(g2, g).contains(#[trigger] cells[k]);
                assert(unsettled2.contains(cells[k]));
            }
            lemma_cells_kept(g, g, g2, cells);
            lemma_pruned_transfer(g, g, g2, g2, cells, one_group(cells.len()), self.cage_seq()[c].sum as int);
        }
    }

    proof fn lemma_settled_fixed(&self, g: &CandidateGrid, sol: Seq<Seq<int>>) {
        assert forall|c: int| 0 <= c < self.cage_seq().len() implies killer_cage_ok(#[trigger] cells_values(sol, self.cage_seq()[c].positions@), (g.rrows() * g.rcols()) as int, self.cage_seq()[c].sum as int) by {
            let cells = self.cage_seq()[c].positions@;
            let vals = cells_values(sol, cells);
            let cands = cells_cands(g, cells);
            assert(!touches(cells, Set::<Position>::empty()));
            assert(sum_completes(cells_cands(g, self.cage_seq()[c].positions@), one_group(self.cage_seq()[c].positions@.len()), (g).size() as int, Set::empty(), 0, self.cage_seq()[c].sum as int));
            assert forall|i: int| 0 <= i < cands.len() implies #[trigger] cands[i] == set![vals[i]] by {
                assert(g.in_bounds(cells[i]));
                assert(g@[cells[i].row as int][cells[i].col as int]@ == set![sol[cells[i].row as int][cells[i].col as int]]);
            }
            lemma_completes_singletons(vals, cands, one_group(cells.len()), g.size() as int, self.cage_seq()[c].sum as int);
        }
    }

    #[verifier::loop_isolation(false)]
    fn update(&self, grid: &mut CandidateGrid, active_positions: Grid<bool>) -> (r: Option<Grid<bool>>)
        ensures
            r is Some ==> forall|q: Position, v: int|
                old(grid).in_bounds(q) && old(grid).at(q)@.contains(v) && !(#[trigger] final(grid).at(q)@.contains(v))
                    ==> exists|c: int, j: int|
                    0 <= c < self.cage_seq().len() && touched(self.cage_seq()[c].positions@, &active_positions) && 0 <= j
                        < self.cage_seq()[c].positions@.len() && self.cage_seq()[c].positions@[j] == q && #[trigger] unsupported_in(
                        final(grid),
                        self.cage_seq()[c].positions@,
                        one_group(self.cage_seq()[c].positions@.len()),
                        self.cage_seq()[c].sum as int,
                        j,
                        v,
                    ),
            forall|c: int|
                0 <= c < self.cage_seq().len() && #[trigger] touched(self.cage_seq()[c].positions@, &active_positions) && !sum_completes(cells_cands(old(grid), self.cage_seq()[c].positions@), one_group(self.cage_seq()[c].positions@.len()), old(grid).size() as int, Set::empty(), 0, self.cage_seq()[c].sum as int)
                    ==> r is None,
            r is Some ==> forall|c: int|
                0 <= c < self.cage_seq().len() && #[trigger] touched(self.cage_seq()[c].positions@, &active_positions) ==> pruned(
                    final(grid),
                    old(grid),
                    self.cage_seq()[c].positions@,
                    one_group(self.cage_seq()[c].positions@.len()),
                    self.cage_seq()[c].sum as int,
                ),
            forall|q: Position|
                old(grid).in_bounds(q) && !(exists|c: int|
                    0 <= c < self.cage_seq().len() && #[trigger] touched(self.cage_seq()[c].positions@, &active_positions)
                        && self.cage_seq()[c].positions@.contains(q)) ==> #[trigger] final(grid).at(q) == old(grid).at(q),
            r is None ==> exists|c: int|
                0 <= c < self.cage_seq().len() && #[trigger] touched(self.cage_seq()[c].positions@, &active_positions)
                    && !sum_completes(
                    cells_cands(final(grid), self.cage_seq()[c].positions@),
                    one_group(self.cage_seq()[c].positions@.len()),
                    final(grid).size() as int,
                    Set::empty(),
                    0,
                    self.cage_seq()[c].sum as int,
                ),
            // the touched cages prune the grid in index order, each with the candidates
            // that the cages before it left
            r is Some ==> forall|c: int|
                0 <= c < self.cage_seq().len() ==> !#[trigger] killer_fails_at(
                    self.cage_seq(),
                    touched_flags(self.cage_seq(), &active_positions),
                    old(grid),
                    c,
                ),
            r is Some ==> forall|q: Position|
                old(grid).in_bounds(q) ==> (#[trigger] final(grid).at(q))@ == killer_state(
                    self.cage_seq(),
                    touched_flags(self.cage_seq(), &active_positions),
                    old(grid),
                    self.cage_seq().len(),
                )[q.row as int][q.col as int],
            r is None ==> exists|c: int|
                #[trigger] killer_fails_at(self.cage_seq(), touched_flags(self.cage_seq(), &active_positions), old(grid), c)
                    && (forall|c2: int|
                    0 <= c2 < c ==> !#[trigger] killer_fails_at(
                        self.cage_seq(),
                        touched_flags(self.cage_seq(), &active_positions),
                        old(grid),
                        c2,
                    )) && forall|q: Position|
                    old(grid).in_bounds(q) ==> (#[trigger] final(grid).at(q))@ == killer_state(
                        self.cage_seq(),
                        touched_flags(self.cage_seq(), &active_positions),
                        old(grid),
                        c as nat,
                    )[q.row as int][q.col as int],
    {
        let ghost g0 = *grid;
        let ghost cages = self.cages@;
        let ghost nn = g0.size() as int;
        let n = grid.grid_size();
        let ncages = self.cages.len();

        let mut is_cage_active: Vec<bool> = Vec::new();
        while is_cage_active.len() < ncages
            invariant
                is_cage_active@.len() <= ncages,
                forall|c: int| 0 <= c < is_cage_active@.len() ==> !#[trigger] is_cage_active@[c],
            decreases ncages - is_cage_active@.len(),
        {
            is_cage_active.push(false);
        }
        let mut row: usize = 0;
        while row < n
            invariant
                row <= n,
                is_cage_active@.len() == ncages,
                forall|c: int| 0 <= c < ncages && #[trigger] is_cage_active@[c] ==> touched(cages[c].positions@, &active_positions),
                forall|q: Position, m: int|
                    q.row < row && q.col < n && active_positions.at(q) && 0 <= m < self.cage_indices.at(q)@.len() ==> is_cage_active@[
                        #[trigger] self.cage_indices.at(q)@[m] as int],
            decreases n - row,
        {
            let mut col: usize = 0;
            while col < n
                invariant
                    row < n,
                    col <= n,
                    is_cage_active@.len() == ncages,
                    forall|c: int| 0 <= c < ncages && #[trigger] is_cage_active@[c] ==> touched(cages[c].positions@, &active_positions),
                    forall|q: Position, m: int|
                        (q.row < row || (q.row == row && q.col < col)) && q.col < n && active_positions.at(q) && 0 <= m
                            < self.cage_indices.at(q)@.len() ==> is_cage_active@[#[trigger] self.cage_indices.at(q)@[m] as int],
                decreases n - col,
            {
                let pos = Position { row, col };
                if *active_positions.get(pos) {
                    let indices = self.cage_indices.get(pos);
                    let mut k: usize = 0;
                    while k < indices.len()
                        invariant
                            k <= indices@.len(),
                            is_cage_active@.len() == ncages,
                            forall|c: int| 0 <= c < ncages && #[trigger] is_cage_active@[c] ==> touched(cages[c].positions@, &active_positions),
                            forall|q: Position, m: int|
                                (q.row < row || (q.row == row && q.col < col)) && q.col < n && active_positions.at(q) && 0 <= m
                                    < self.cage_indices.at(q)@.len() ==> is_cage_active@[#[trigger] self.cage_indices.at(q)@[m] as int],
                            forall|m: int| 0 <= m < k ==> is_cage_active@[#[trigger] indices@[m] as int],
                        decreases indices@.len() - k,
                    {
                        let c = indices[k];
                        assert(self.cage_indices.at(pos)@[k as int] == c);
                        proof {
                            let positions = cages[c as int].positions@;
                            assert(positions.contains(pos));
                            let m = choose|m: int| 0 <= m < positions.len() && positions[m] == pos;
                            assert(active_positions.at(positions[m]));
                        }
                        is_cage_active.set(c, true);
                        k = k + 1;
                    }
                }
                col = col + 1;
            }
            row = row + 1;
        }

        proof {
            assert forall|c: int| 0 <= c < ncages && touched(cages[c].positions@, &active_positions) implies is_cage_active@[c] by {
                let k = choose|k: int| 0 <= k < cages[c].positions@.len() && #[trigger] active_positions.at(cages[c].positions@[k]);
                let q = cages[c].positions@[k];
                assert(self.cage_indices.at(q)@.contains(c as usize));
                let m = choose|m: int| 0 <= m < self.cage_indices.at(q)@.len() && self.cage_indices.at(q)@[m] == c as usize;
                assert(is_cage_active@[self.cage_indices.at(q)@[m] as int]);
            }
        }
        let ghost settled0 = self.settled(&g0, marked_set(&active_positions));
        let ghost tf = touched_flags(cages, &active_positions);
        let mut affected_positions = Grid::from_default(grid.region_rows(), grid.region_cols(), false);
        proof {
            assert(marks_changes(&affected_positions, grid, &g0));
            assert(is_cage_active@ =~= tf);
            assert forall|q: Position| g0.in_bounds(q) implies (#[trigger] grid.at(q))@ == killer_state(cages, tf, &g0, 0)[q.row as int][q.col as int] by {
            }
        }
        let mut c: usize = 0;
        while c < ncages
            invariant
                c <= ncages,
                is_cage_active@.len() == ncages,
                forall|c: int| 0 <= c < ncages && #[trigger] is_cage_active@[c] ==> touched(cages[c].positions@, &active_positions),
                shrinks(grid, &g0),
                marks_changes(&affected_positions, grid, &g0),
                forall|q: Position|
                    g0.in_bounds(q) && !in_flagged_cage(q, cages, is_cage_active@) ==> #[trigger] grid.at(q) == g0.at(q),
                forall|sol: Seq<Seq<int>>|
                    fits(sol, &g0) && #[trigger] killer_rule(sol, cages, nn) ==> fits(sol, grid),
                forall|c: int| 0 <= c < ncages && touched(cages[c].positions@, &active_positions) ==> is_cage_active@[c],
                settled0 ==> forall|c2: int|
                    0 <= c2 < c && is_cage_active@[c2] && !touches(cages[c2].positions@, changed_cells(grid, &g0)) ==> #[trigger] sum_completes(cells_cands(grid, cages[c2].positions@), one_group(cages[c2].positions@.len()), (grid).size() as int, Set::empty(), 0, cages[c2].sum as int),
                forall|c2: int|
                    0 <= c2 < c && #[trigger] is_cage_active@[c2] ==> pruned(
                        grid,
                        &g0,
                        cages[c2].positions@,
                        one_group(cages[c2].positions@.len()),
                        cages[c2].sum as int,
                    ),
                forall|c2: int| 0 <= c2 < c && #[trigger] is_cage_active@[c2] ==> sum_completes(cells_cands(&g0, cages[c2].positions@), one_group(cages[c2].positions@.len()), g0.size() as int, Set::empty(), 0, cages[c2].sum as int),
                removals_unsupported(grid, &g0, cages, is_cage_active@),
                is_cage_active@ == tf,
                tf == touched_flags(cages, &active_positions),
                g0.wf(),
                nn == g0.size(),
                forall|q: Position| g0.in_bounds(q) ==> (#[trigger] grid.at(q))@ == killer_state(cages, tf, &g0, c as nat)[q.row as int][q.col as int],
                forall|c2: int| 0 <= c2 < c ==> !#[trigger] killer_fails_at(cages, tf, &g0, c2),
            decreases ncages - c,
        {
            if !is_cage_active[c] {
                proof {
                    assert(((c + 1) - 1) as nat == c as nat);
                    assert(killer_state(cages, tf, &g0, (c + 1) as nat) == killer_state(cages, tf, &g0, c as nat));
                    assert(!killer_fails_at(cages, tf, &g0, c as int));
                }
                c = c + 1;
                continue;
            }
            let cage = &self.cages[c];
            let cage_size = cage.positions.len();
            let ghost cells = cage.positions@;
            let mut values_used: Vec<bool> = Vec::new();
            while values_used.len() < n
                invariant
                    values_used@.len() <= n,
                    forall|m: int| 0 <= m < values_used@.len() ==> !#[trigger] values_used@[m],
                decreases n - values_used@.len(),
            {
                values_used.push(false);
            }
            let mut updated_candidates: Vec<Vec<bool>> = Vec::new();
            while updated_candidates.len() < cage_size
                invariant
                    updated_candidates@.len() <= cage_size,
                    forall|j: int| 0 <= j < updated_candidates@.len() ==> (#[trigger] updated_candidates@[j])@.len() == n,
                    forall|j: int, m: int|
                        0 <= j < updated_candidates@.len() && 0 <= m < n ==> !#[trigger] updated_candidates@[j]@[m],
                decreases cage_size - updated_candidates@.len(),
            {
                let mut flags: Vec<bool> = Vec::new();
                while flags.len() < n
                    invariant
                        flags@.len() <= n,
                        forall|m: int| 0 <= m < flags@.len() ==> !#[trigger] flags@[m],
                    decreases n - flags@.len(),
                {
                    flags.push(false);
                }
                updated_candidates.push(flags);
            }
            let ghost gk = *grid;
            let ghost cands = cells_cands(&gk, cells);
            proof {
                assert forall|k: int| 0 <= k < cells.len() implies g0.in_bounds(#[trigger] cells[k]) by {
                    assert(cages[c as int].positions@[k] == cells[k]);
                }
                assert(cands =~= killer_cands(cages, tf, &g0, c as int));
            }
            proof {
                assert(flagged_values(values_used@) =~= Set::<(int, int)>::empty());
                assert forall|k: int| 0 <= k < cells.len() implies grid.in_bounds(#[trigger] cells[k]) by {
                    assert(cages[c as int].positions@[k] == cells[k]);
                }
            }
            if !recursive_solve(grid, &cage.positions, &mut updated_candidates, &mut values_used, 0, cage.sum) {
                proof {
                    assert(is_cage_active@[c as int]);
                    assert(touched(cages[c as int].positions@, &active_positions));
                    assert forall|sol: Seq<Seq<int>>|
                        fits(sol, &g0) && #[trigger] self.holds(sol, g0.rrows(), g0.rcols()) implies false by {
                        assert(killer_rule(sol, cages, nn));
                        assert(fits(sol, &gk));
                        let vals = cells_values(sol, cells);
                        assert(killer_cage_ok(cells_values(sol, cages[c as int].positions@), nn, cages[c as int].sum as int));
                        assert(sum_assignment(vals, cands, one_group(cells.len()), nn, cage.sum as int)) by {
                            assert forall|i: int| 0 <= i < vals.len() implies 1 <= #[trigger] vals[i] <= nn
                                && cands[i].contains(vals[i]) by {
                                assert(grid.in_bounds(cells[i]));
                            }
                        }
                        lemma_assignment_found(vals, cands, one_group(cells.len()), nn, cage.sum as int);
                    }
                }
                proof {
                    self.lemma_unchanged_outside(&g0, grid, &active_positions, is_cage_active@);
                    assert(self.cage_seq()[c as int].positions@ == cells);
                    assert(!sum_completes(
                        cells_cands(grid, cells),
                        one_group(cells.len()),
                        grid.size() as int,
                        Set::empty(),
                        0,
                        self.cage_seq()[c as int].sum as int,
                    ));
                    assert(touched(self.cage_seq()[c as int].positions@, &active_positions));
                    assert(killer_fails_at(cages, tf, &g0, c as int));
                }
                return None;
            }
            proof {
                assert forall|sol: Seq<Seq<int>>|
                    fits(sol, &g0) && #[trigger] killer_rule(sol, cages, nn) implies values_kept(updated_candidates@, sol, cells) by {
                    assert(fits(sol, &gk));
                    let vals = cells_values(sol, cells);
                    assert(killer_cage_ok(cells_values(sol, cages[c as int].positions@), nn, cages[c as int].sum as int));
                    assert(sum_assignment(vals, cands, one_group(cells.len()), nn, cage.sum as int)) by {
                        assert forall|i: int| 0 <= i < vals.len() implies 1 <= #[trigger] vals[i] <= nn
                            && cands[i].contains(vals[i]) by {
                            assert(grid.in_bounds(cells[i]));
                        }
                    }
                    lemma_assignment_found(vals, cands, one_group(cells.len()), nn, cage.sum as int);
                    assert forall|j: int| 0 <= j < cells.len() implies #[trigger] updated_candidates@[j]@[
                        sol[cells[j].row as int][cells[j].col as int] - 1] by {
                        assert(sum_supports(cands, one_group(cells.len()), nn, Set::empty(), 0, cage.sum as int, j, vals[j]));
                    }
                }
            }
            proof {
                assert forall|q: Position| g0.in_bounds(q) implies (#[trigger] grid.at(q))@ == pruned_upto(killer_state(cages, tf, &g0, c as nat)[q.row as int][q.col as int], cells, cands, one_group(cells.len()), nn, cage.sum as int, q, 0) by {
                    lemma_pruned_upto_none(killer_state(cages, tf, &g0, c as nat)[q.row as int][q.col as int], cells, cands, one_group(cells.len()), nn, cage.sum as int, q);
                }
            }
            let mut j: usize = 0;
            while j < cage_size
                invariant
                    j <= cage_size,
                    cage_size == cells.len(),
                    is_cage_active@[c as int],
                    shrinks(grid, &g0),
                    marks_changes(&affected_positions, grid, &g0),
                    forall|q: Position|
                        g0.in_bounds(q) && !in_flagged_cage(q, cages, is_cage_active@) ==> #[trigger] grid.at(q) == g0.at(q),
                    forall|sol: Seq<Seq<int>>|
                        fits(sol, &g0) && #[trigger] killer_rule(sol, cages, nn) ==> fits(sol, grid),
                    forall|sol: Seq<Seq<int>>|
                        fits(sol, &g0) && #[trigger] killer_rule(sol, cages, nn) ==> values_kept(updated_candidates@, sol, cells),
                    shrinks(grid, &gk),
                    settled0 ==> forall|c2: int|
                        0 <= c2 < c && is_cage_active@[c2] && !touches(cages[c2].positions@, changed_cells(&gk, &g0)) ==> #[trigger] sum_completes(cells_cands(&gk, cages[c2].positions@), one_group(cages[c2].positions@.len()), (&gk).size() as int, Set::empty(), 0, cages[c2].sum as int),
                    forall|c2: int|
                        0 <= c2 < c && #[trigger] is_cage_active@[c2] ==> pruned(
                            &gk,
                            &g0,
                            cages[c2].positions@,
                            one_group(cages[c2].positions@.len()),
                            cages[c2].sum as int,
                        ),
                    updated_candidates@.len() == cells.len(),
                    forall|j2: int| 0 <= j2 < cells.len() ==> (#[trigger] updated_candidates@[j2])@.len() == nn,
                    forall|j2: int, i: int|
                        0 <= j2 < cells.len() && 0 <= i < nn && #[trigger] updated_candidates@[j2]@[i] ==> sum_supports(
                            cands,
                            one_group(cells.len()),
                            nn,
                            Set::empty(),
                            0,
                            cage.sum as int,
                            j2,
                            i + 1,
                        ),
                    forall|j2: int, v: int|
                        0 <= j2 < j && 1 <= v <= nn && #[trigger] grid.at(cells[j2])@.contains(v) ==> updated_candidates@[j2]@[v
                            - 1],
                    removals_unsupported(grid, &g0, cages, is_cage_active@),
                    g0.wf(),
                    nn == g0.size(),
                    tf == touched_flags(cages, &active_positions),
                    cage.sum == cages[c as int].sum,
                    forall|q: Position| g0.in_bounds(q) ==> (#[trigger] gk.at(q))@ == killer_state(cages, tf, &g0, c as nat)[q.row as int][q.col as int],
                    forall|j2: int, i: int|
                        0 <= j2 < cells.len() && 0 <= i < nn ==> (#[trigger] updated_candidates@[j2]@[i] == sum_supports(
                            cands,
                            one_group(cells.len()),
                            nn,
                            Set::empty(),
                            0,
                            cage.sum as int,
                            j2,
                            i + 1,
                        )),
                    forall|q: Position| g0.in_bounds(q) ==> (#[trigger] grid.at(q))@ == pruned_upto(killer_state(cages, tf, &g0, c as nat)[q.row as int][q.col as int], cells, cands, one_group(cells.len()), nn, cage.sum as int, q, j as int),
                decreases cage_size - j,
            {
                let pos = cage.positions[j];
                assert(cages[c as int].positions@[j as int] == pos);
                assert(grid.in_bounds(pos));
                proof {
                    lemma_drop_unsupported_none(pruned_upto(killer_state(cages, tf, &g0, c as nat)[pos.row as int][pos.col as int], cells, cands, one_group(cells.len()), nn, cage.sum as int, pos, j as int), cands, one_group(cells.len()), nn, cage.sum as int, j as int);
                }
                let mut val: usize = 1;
                while val <= n
                    invariant
                        1 <= val <= n + 1,
                        j < cage_size,
                        pos == cells[j as int],
                        grid.in_bounds(pos),
                        shrinks(grid, &g0),
                        marks_changes(&affected_positions, grid, &g0),
                        forall|q: Position|
                            g0.in_bounds(q) && !in_flagged_cage(q, cages, is_cage_active@) ==> #[trigger] grid.at(q) == g0.at(q),
                        forall|sol: Seq<Seq<int>>|
                            fits(sol, &g0) && #[trigger] killer_rule(sol, cages, nn) ==> fits(sol, grid),
                        shrinks(grid, &gk),
                        forall|j2: int, v: int|
                            0 <= j2 < j && 1 <= v <= nn && #[trigger] grid.at(cells[j2])@.contains(v) ==> updated_candidates@[j2]@[v
                                - 1],
                        forall|v: int| 1 <= v < val && #[trigger] grid.at(pos)@.contains(v) ==> updated_candidates@[j as int]@[v - 1],
                        removals_unsupported(grid, &g0, cages, is_cage_active@),
                        g0.wf(),
                        nn == g0.size(),
                        tf == touched_flags(cages, &active_positions),
                        cage.sum == cages[c as int].sum,
                        forall|q: Position| g0.in_bounds(q) ==> (#[trigger] gk.at(q))@ == killer_state(cages, tf, &g0, c as nat)[q.row as int][q.col as int],
                        forall|j2: int, i: int|
                            0 <= j2 < cells.len() && 0 <= i < nn ==> (#[trigger] updated_candidates@[j2]@[i] == sum_supports(
                                cands,
                                one_group(cells.len()),
                                nn,
                                Set::empty(),
                                0,
                                cage.sum as int,
                                j2,
                                i + 1,
                            )),
                        forall|q: Position| g0.in_bounds(q) && q != pos ==> (#[trigger] grid.at(q))@ == pruned_upto(killer_state(cages, tf, &g0, c as nat)[q.row as int][q.col as int], cells, cands, one_group(cells.len()), nn, cage.sum as int, q, j as int),
                        grid.at(pos)@ == drop_unsupported(pruned_upto(killer_state(cages, tf, &g0, c as nat)[pos.row as int][pos.col as int], cells, cands, one_group(cells.len()), nn, cage.sum as int, pos, j as int), cands, one_group(cells.len()), nn, cage.sum as int, j as int, val as int),
                    decreases n + 1 - val,
                {
                    if !updated_candidates[j][val - 1] && grid.get(pos).contains(val as u8) {
                        let ghost g2 = *grid;
                        let mut cell = *grid.get(pos);
                        cell.remove(val as u8);
                        grid.set(pos, cell);
                        affected_positions.set(pos, true);
                        proof {
                            assert(cages[c as int].positions@.contains(pos)) by {
                                assert(cages[c as int].positions@[j as int] == pos);
                            }
                            assert forall|q: Position, w: int|
                                g0.in_bounds(q) && g0.at(q)@.contains(w) && !(#[trigger] grid.at(q)@.contains(w)) implies exists|c2: int, j2: int|
                                0 <= c2 < cages.len() && is_cage_active@[c2] && 0 <= j2 < cages[c2].positions@.len()
                                    && cages[c2].positions@[j2] == q && #[trigger] unsupported_in(
                                    grid,
                                    cages[c2].positions@,
                                    one_group(cages[c2].positions@.len()),
                                    cages[c2].sum as int,
                                    j2,
                                    w,
                                ) by {
                                if g2.at(q)@.contains(w) {
                                    if q != pos {
                                        assert(grid.at(q) == g2.at(q));
                                    }
                                    assert(q == pos);
                                    assert(w == val as int) by {
                                        assert(grid.at(pos)@ == g2.at(pos)@.remove(val as int));
                                    }
                                    assert forall|k: int| 0 <= k < cells.len() implies gk.in_bounds(#[trigger] cells[k]) by {
                                        assert(cages[c as int].positions@[k] == cells[k]);
                                    }
                                    assert(g2@[pos.row as int][pos.col as int]@.subset_of(gk@[pos.row as int][pos.col as int]@));
                                    assert(!sum_supports(cands, one_group(cells.len()), nn, Set::empty(), 0, cage.sum as int, j as int, (val - 1) + 1));
                                    lemma_unsupported_from(grid, &gk, cells, one_group(cells.len()), cage.sum as int, j as int, w);
                                    assert(cages[c as int].positions@ == cells);
                                    assert(unsupported_in(grid, cages[c as int].positions@, one_group(cages[c as int].positions@.len()), cages[c as int].sum as int, j as int, w));
                                } else {
                                    let (c2, j2) = choose|c2: int, j2: int|
                                        0 <= c2 < cages.len() && is_cage_active@[c2] && 0 <= j2 < cages[c2].positions@.len()
                                            && cages[c2].positions@[j2] == q && #[trigger] unsupported_in(
                                            &g2,
                                            cages[c2].positions@,
                                            one_group(cages[c2].positions@.len()),
                                            cages[c2].sum as int,
                                            j2,
                                            w,
                                        );
                                    assert forall|k: int| 0 <= k < cages[c2].positions@.len() implies g2.in_bounds(#[trigger] cages[c2].positions@[k]) by {
                                    }
                                    lemma_unsupported_shrink(grid, &g2, cages[c2].positions@, one_group(cages[c2].positions@.len()), cages[c2].sum as int, j2, w);
                                }
                            }
                            assert(in_flagged_cage(pos, cages, is_cage_active@));
                            assert forall|q: Position| q.row < n && q.col < n implies (#[trigger] grid.at(q))@.subset_of(g2.at(q)@) by {
                                if q != pos {
                                    assert(grid.at(q) == g2.at(q));
                                }
                            }
                            assert(grid.at(pos)@ != g0.at(pos)@) by {
                                assert(!grid.at(pos)@.contains(val as int));
                                assert(g0.at(pos)@.contains(val as int));
                            }
                            assert forall|sol: Seq<Seq<int>>|
                                fits(sol, &g0) && #[trigger] killer_rule(sol, cages, nn) implies fits(sol, grid) by {
                                assert(fits(sol, &g2));
                                assert(values_kept(updated_candidates@, sol, cells));
                                assert(updated_candidates@[j as int]@[sol[cells[j as int].row as int][cells[j as int].col as int] - 1]);
                                assert forall|r: int, cc: int| 0 <= r < n && 0 <= cc < n implies (#[trigger] grid@[r][cc])@.contains(sol[r][cc]) by {
                                    assert(g2@[r][cc]@.contains(sol[r][cc]));
                                }
                            }
                        }
                    }
                    proof {
                        let pp = pruned_upto(killer_state(cages, tf, &g0, c as nat)[pos.row as int][pos.col as int], cells, cands, one_group(cells.len()), nn, cage.sum as int, pos, j as int);
                        lemma_drop_unsupported_next(pp, cands, one_group(cells.len()), nn, cage.sum as int, j as int, val as int);
                        assert(updated_candidates@[j as int]@[val - 1] == sum_supports(cands, one_group(cells.len()), nn, Set::empty(), 0, cage.sum as int, j as int, (val - 1) + 1));
                        let d = drop_unsupported(pp, cands, one_group(cells.len()), nn, cage.sum as int, j as int, val as int);
                        if !d.contains(val as int) {
                            assert(d.remove(val as int) =~= d);
                        }
                    }
                    val = val + 1;
                }
                proof {
                    assert forall|q: Position| g0.in_bounds(q) implies (#[trigger] grid.at(q))@ == pruned_upto(killer_state(cages, tf, &g0, c as nat)[q.row as int][q.col as int], cells, cands, one_group(cells.len()), nn, cage.sum as int, q, j + 1) by {
                        lemma_pruned_upto_next(killer_state(cages, tf, &g0, c as nat)[q.row as int][q.col as int], cells, cands, one_group(cells.len()), nn, cage.sum as int, q, j as int);
                    }
                }
                j = j + 1;
            }
            proof {
                assert(((c + 1) - 1) as nat == c as nat);
                assert(tf[c as int]);
                assert(cands == killer_cands(cages, tf, &g0, c as int));
                assert forall|q: Position| g0.in_bounds(q) implies (#[trigger] grid.at(q))@ == killer_state(cages, tf, &g0, (c + 1) as nat)[q.row as int][q.col as int] by {
                    assert((Position { row: (q.row as int) as usize, col: (q.col as int) as usize }) == q);
                }
                assert(!killer_fails_at(cages, tf, &g0, c as int));
                assert forall|c2: int| 0 <= c2 < c + 1 && #[trigger] is_cage_active@[c2] implies sum_completes(cells_cands(&g0, cages[c2].positions@), one_group(cages[c2].positions@.len()), g0.size() as int, Set::empty(), 0, cages[c2].sum as int) by {
                    if c2 == c {
                        let big = cells_cands(&g0, cells);
                        assert(cells == cages[c2].positions@);
                        assert forall|i: int| 0 <= i < cands.len() implies (#[trigger] cands[i]).subset_of(big[i]) by {
                            assert(cages[c2].positions@[i] == cells[i]);
                            assert(gk.in_bounds(cells[i]));
                            assert(gk@[cells[i].row as int][cells[i].col as int]@.subset_of(g0@[cells[i].row as int][cells[i].col as int]@));
                        }
                        lemma_completes_mono(cands, big, one_group(cells.len()), nn, Set::empty(), 0, cage.sum as int);
                    }
                }
                assert forall|c2: int| 0 <= c2 < c + 1 && #[trigger] is_cage_active@[c2] implies pruned(
                    grid,
                    &g0,
                    cages[c2].positions@,
                    one_group(cages[c2].positions@.len()),
                    cages[c2].sum as int,
                ) by {
                    let cs = cages[c2].positions@;
                    assert forall|k: int| 0 <= k < cs.len() implies gk.in_bounds(#[trigger] cs[k]) by {
                        assert(cages[c2].positions@[k] == cs[k]);
                    }
                    if c2 < c {
                        lemma_pruned_shrink(grid, &gk, &g0, cs, one_group(cs.len()), cages[c2].sum as int);
                    } else {
                        assert(cs == cells);
                        let big = cells_cands(&g0, cells);
                        assert forall|i: int| 0 <= i < cands.len() implies (#[trigger] cands[i]).subset_of(big[i]) by {
                            assert(gk.in_bounds(cells[i]));
                            assert(gk@[cells[i].row as int][cells[i].col as int]@.subset_of(g0@[cells[i].row as int][cells[i].col as int]@));
                        }
                        assert forall|j2: int, v: int|
                            0 <= j2 < cells.len() && 1 <= v <= g0.size() && #[trigger] grid.at(cells[j2])@.contains(v) implies sum_supports(
                            big,
                            one_group(cells.len()),
                            g0.size() as int,
                            Set::empty(),
                            0,
                            cage.sum as int,
                            j2,
                            v,
                        ) by {
                            assert(updated_candidates@[j2]@[v - 1]);
                            assert(sum_supports(cands, one_group(cells.len()), nn, Set::empty(), 0, cage.sum as int, j2, (v - 1) + 1));
                            lemma_supports_mono(cands, big, one_group(cells.len()), nn, Set::empty(), 0, cage.sum as int, j2, v);
                        }
                    }
                }
                if settled0 {
                    assert forall|c2: int|
                        0 <= c2 < c + 1 && is_cage_active@[c2] && !touches(cages[c2].positions@, changed_cells(grid, &g0)) implies #[trigger] sum_completes(cells_cands(grid, cages[c2].positions@), one_group(cages[c2].positions@.len()), (grid).size() as int, Set::empty(), 0, cages[c2].sum as int) by {
                        lemma_cells_kept(&g0, &gk, grid, cages[c2].positions@);
                        if c2 == c {
                            assert(cages[c2].positions@ == cells);
                        }
                    }
                }
            }
            c = c + 1;
        }
        proof {
            self.lemma_unchanged_outside(&g0, grid, &active_positions, is_cage_active@);
            if settled0 {
                assert forall|c: int|
                    0 <= c < self.cage_seq().len() && !touches(self.cage_seq()[c].positions@, marked_set(&affected_positions)) implies #[trigger] sum_completes(cells_cands(grid, self.cage_seq()[c].positions@), one_group(self.cage_seq()[c].positions@.len()), (grid).size() as int, Set::empty(), 0, self.cage_seq()[c].sum as int)
                        && pruned(grid, grid, self.cage_seq()[c].positions@, one_group(self.cage_seq()[c].positions@.len()), self.cage_seq()[c].sum as int) by {
                    let cells = cages[c].positions@;
                    if touches(cells, changed_cells(grid, &g0)) {
                        let k = choose|k: int| 0 <= k < cells.len() && changed_cells(grid, &g0).contains(#[trigger] cells[k]);
                        assert(affected_positions@[cells[k].row as int][cells[k].col as int]);
                        assert(marked_set(&affected_positions).contains(cells[k]));
                    }
                    if !is_cage_active@[c] {
                        assert(!touches(cells, marked_set(&active_positions))) by {
                            if touches(cells, marked_set(&active_positions)) {
                                let k = choose|k: int| 0 <= k < cells.len() && marked_set(&active_positions).contains(#[trigger] cells[k]);
                                assert(active_positions.at(cells[k]));
                            }
                        }
                        lemma_cells_kept(&g0, &g0, grid, cells);
                        assert(sum_completes(cells_cands(&g0, self.cage_seq()[c].positions@), one_group(self.cage_seq()[c].positions@.len()), (g0).size() as int, Set::empty(), 0, self.cage_seq()[c].sum as int));
                        lemma_pruned_transfer(&g0, &g0, grid, grid, cells, one_group(cells.len()), cages[c].sum as int);
                    } else {
                        assert forall|k: int| 0 <= k < cells.len() implies g0.in_bounds(#[trigger] cells[k]) by {
                            assert(cages[c].positions@[k] == cells[k]);
                        }
                        lemma_cells_kept(&g0, &g0, grid, cells);
                        lemma_pruned_transfer(grid, &g0, grid, grid, cells, one_group(cells.len()), cages[c].sum as int);
                    }
                }
            }
        }
        Some(affected_positions)
    }
}

} // verus!

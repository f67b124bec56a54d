use vstd::prelude::*;
use crate::constraints::helpers::{count_in, index_list, lemma_index_list_grow, repeat_index};
use crate::constraints::constraint::{all_cells, changed_cells, marked_set, Constraint};
use crate::constraints::variants::killer::{
    cells_cands, cells_values, lemma_cells_kept, touched, touches, values_kept,
};
use crate::grid::candidate_grid::{fits, marks_changes, shrinks, CandidateGrid};
use crate::grid::grid::Grid;
use crate::grid::position::Position;

verus! {

/// A thermometer: the values of its cells rise strictly from its bulb, the first cell.
pub struct Thermometer {
    pub positions: Vec<Position>,
}

/// The thermometers of a puzzle, with, for each cell, the indices of the thermometers
/// that pass through it.
pub struct ThermometerConstraint {
    thermometers: Vec<Thermometer>,
    thermometer_indices: Grid<Vec<usize>>,
}

/// The thermometer rule: along every thermometer of `thermometers` the values are as
/// `thermometer_ok` demands.
pub open spec fn thermometer_rule(sol: Seq<Seq<int>>, thermometers: Seq<Thermometer>, n: int) -> bool {
    forall|c: int|
        0 <= c < thermometers.len() ==> thermometer_ok(#[trigger] cells_values(sol, thermometers[c].positions@), n)
}

/// Every cell of every thermometer lies inside a grid of side `n`.
pub open spec fn thermometers_in_bounds(thermometers: Seq<Thermometer>, n: nat) -> bool {
    forall|c: int, k: int|
        0 <= c < thermometers.len() && 0 <= k < thermometers[c].positions@.len() ==> (
        #[trigger] thermometers[c].positions@[k]).row < n && thermometers[c].positions@[k].col < n
}

/// Whether `q` is a cell of one of the thermometers that `flags` marks.
pub open spec fn in_flagged_thermometer(q: Position, thermometers: Seq<Thermometer>, flags: Seq<bool>) -> bool {
    exists|c: int| 0 <= c < thermometers.len() && #[trigger] flags[c] && thermometers[c].positions@.contains(q)
}

/// `vals`, the values along a thermometer in a grid of side `n`, lie in `1..=n` and
/// rise strictly.
pub open spec fn thermometer_ok(vals: Seq<int>, n: int) -> bool {
    &&& forall|i: int| 0 <= i < vals.len() ==> 1 <= #[trigger] vals[i] <= n
    &&& forall|i: int, k: int| 0 <= i < k < vals.len() ==> #[trigger] vals[i] < #[trigger] vals[k]
}

/// Whether `v` may go in slot `idx` of a thermometer whose earlier slot forces values
/// of at least `lo`: a candidate of the slot in `lo..=n`.
pub open spec fn rise_step(cands: Seq<Set<int>>, n: int, idx: int, lo: int, v: int) -> bool {
    &&& lo <= v <= n
    &&& cands[idx].contains(v)
}

/// Whether the slots from `idx` on can hold strictly rising candidates, the first of
/// them at least `lo`.
pub open spec fn rise_completes(cands: Seq<Set<int>>, n: int, idx: nat, lo: int) -> bool
    decreases cands.len() - idx,
{
    if idx >= cands.len() {
        true
    } else {
        exists|v: int| #[trigger] rise_step(cands, n, idx as int, lo, v) && rise_completes(cands, n, idx + 1, v + 1)
    }
}

/// Whether some strictly rising filling of the slots from `idx` on, the first value at
/// least `lo`, puts `w` in slot `j`.
pub open spec fn rise_supports(cands: Seq<Set<int>>, n: int, idx: nat, lo: int, j: int, w: int) -> bool
    decreases cands.len() - idx,
{
    if idx >= cands.len() {
        false
    } else {
        exists|v: int|
            #[trigger] rise_step(cands, n, idx as int, lo, v) && ((j == idx && w == v && rise_completes(
                cands,
                n,
                idx + 1,
                v + 1,
            )) || (j > idx && rise_supports(cands, n, idx + 1, v + 1, j, w)))
    }
}

/// Slots that hold more candidates can still be filled in every rising way they could
/// be.
pub proof fn lemma_rise_completes_mono(small: Seq<Set<int>>, big: Seq<Set<int>>, n: int, idx: nat, lo: int)
    requires
        small.len() == big.len(),
        forall|i: int| 0 <= i < small.len() ==> (#[trigger] small[i]).subset_of(big[i]),
        rise_completes(small, n, idx, lo),
    ensures
        rise_completes(big, n, idx, lo),
    decreases small.len() - idx,
{
    if idx < small.len() {
        let v = choose|v: int| #[trigger] rise_step(small, n, idx as int, lo, v) && rise_completes(small, n, idx + 1, v + 1);
        lemma_rise_completes_mono(small, big, n, idx + 1, v + 1);
        assert(small[idx as int].subset_of(big[idx as int]));
        assert(rise_step(big, n, idx as int, lo, v));
    }
}

/// A value that some rising filling puts in slot `j` is still put there by one when the
/// slots hold more candidates.
pub proof fn lemma_rise_supports_mono(small: Seq<Set<int>>, big: Seq<Set<int>>, n: int, idx: nat, lo: int, j: int, w: int)
    requires
        small.len() == big.len(),
        forall|i: int| 0 <= i < small.len() ==> (#[trigger] small[i]).subset_of(big[i]),
        rise_supports(small, n, idx, lo, j, w),
    ensures
        rise_supports(big, n, idx, lo, j, w),
    decreases small.len() - idx,
{
    if idx < small.len() {
        let v = choose|v: int|
            #[trigger] rise_step(small, n, idx as int, lo, v) && ((j == idx && w == v && rise_completes(
                small,
                n,
                idx + 1,
                v + 1,
            )) || (j > idx && rise_supports(small, n, idx + 1, v + 1, j, w)));
        assert(small[idx as int].subset_of(big[idx as int]));
        assert(rise_step(big, n, idx as int, lo, v));
        if j == idx && w == v && rise_completes(small, n, idx + 1, v + 1) {
            lemma_rise_completes_mono(small, big, n, idx + 1, v + 1);
        } else {
            lemma_rise_supports_mono(small, big, n, idx + 1, v + 1, j, w);
        }
    }
}

/// Every candidate in `1..=n` left in `g` at a cell of `cells` is put there by some
/// strictly rising filling of the cells' candidates in `g0`.
pub open spec fn rise_pruned(g: &CandidateGrid, g0: &CandidateGrid, cells: Seq<Position>) -> bool {
    forall|j: int, v: int|
        0 <= j < cells.len() && 1 <= v <= g0.size() && #[trigger] g.at(cells[j])@.contains(v) ==> rise_supports(
            cells_cands(g0, cells),
            g0.size() as int,
            0,
            1,
            j,
            v,
        )
}

/// Losing more candidates keeps the cells pruned.
pub proof fn lemma_rise_pruned_shrink(g2: &CandidateGrid, g: &CandidateGrid, g0: &CandidateGrid, cells: Seq<Position>)
    requires
        shrinks(g2, g),
        forall|k: int| 0 <= k < cells.len() ==> g.in_bounds(#[trigger] cells[k]),
        rise_pruned(g, g0, cells),
    ensures
        rise_pruned(g2, g0, cells),
{
    assert forall|j: int, v: int| 0 <= j < cells.len() && 1 <= v <= g0.size() && #[trigger] g2.at(cells[j])@.contains(v) implies rise_supports(
        cells_cands(g0, cells),
        g0.size() as int,
        0,
        1,
        j,
        v,
    ) by {
        assert(g.in_bounds(cells[j]));
        assert(g2@[cells[j].row as int][cells[j].col as int]@.subset_of(g@[cells[j].row as int][cells[j].col as int]@));
        assert(g.at(cells[j])@.contains(v));
    }
}

/// With the candidates that `g` leaves in the other cells of `cells`, and those of its
/// cell `j` together with `v`, no strictly rising filling puts `v` in cell `j`.
pub open spec fn rise_unsupported_in(g: &CandidateGrid, cells: Seq<Position>, j: int, v: int) -> bool {
    !rise_supports(cells_cands(g, cells).update(j, g.at(cells[j])@.insert(v)), g.size() as int, 0, 1, j, v)
}

/// A value with no rising filling stays without one when the cells lose candidates.
pub proof fn lemma_rise_unsupported_shrink(g2: &CandidateGrid, g: &CandidateGrid, cells: Seq<Position>, j: int, v: int)
    requires
        shrinks(g2, g),
        0 <= j < cells.len(),
        forall|k: int| 0 <= k < cells.len() ==> g.in_bounds(#[trigger] cells[k]),
        rise_unsupported_in(g, cells, j, v),
    ensures
        rise_unsupported_in(g2, cells, j, v),
{
    let small = cells_cands(g2, cells).update(j, g2.at(cells[j])@.insert(v));
    let big = cells_cands(g, cells).update(j, g.at(cells[j])@.insert(v));
    assert forall|i: int| 0 <= i < small.len() implies (#[trigger] small[i]).subset_of(big[i]) by {
        assert(g.in_bounds(cells[i]));
        assert(g2@[cells[i].row as int][cells[i].col as int]@.subset_of(g@[cells[i].row as int][cells[i].col as int]@));
    }
    if rise_supports(small, g2.size() as int, 0, 1, j, v) {
        lemma_rise_supports_mono(small, big, g2.size() as int, 0, 1, j, v);
    }
}

/// A value that no rising filling of the candidates in `gk` puts in cell `j` has none
/// in a grid `g` with fewer candidates either, even with the value put back.
pub proof fn lemma_rise_unsupported_from(g: &CandidateGrid, gk: &CandidateGrid, cells: Seq<Position>, j: int, v: int)
    requires
        shrinks(g, gk),
        0 <= j < cells.len(),
        forall|k: int| 0 <= k < cells.len() ==> gk.in_bounds(#[trigger] cells[k]),
        gk.at(cells[j])@.contains(v),
        !rise_supports(cells_cands(gk, cells), gk.size() as int, 0, 1, j, v),
    ensures
        rise_unsupported_in(g, cells, j, v),
{
    let small = cells_cands(g, cells).update(j, g.at(cells[j])@.insert(v));
    let big = cells_cands(gk, cells);
    assert forall|i: int| 0 <= i < small.len() implies (#[trigger] small[i]).subset_of(big[i]) by {
        assert(gk.in_bounds(cells[i]));
        assert(g@[cells[i].row as int][cells[i].col as int]@.subset_of(gk@[cells[i].row as int][cells[i].col as int]@));
    }
    if rise_supports(small, g.size() as int, 0, 1, j, v) {
        lemma_rise_supports_mono(small, big, g.size() as int, 0, 1, j, v);
    }
}

/// Every candidate that `g0` has and `g` lacks lies in a cell of a flagged thermometer
/// whose other cells, with the candidates left in `g`, give it no rising filling.
pub open spec fn thermometer_removals_unsupported(
    g: &CandidateGrid,
    g0: &CandidateGrid,
    thermometers: Seq<Thermometer>,
    flags: Seq<bool>,
) -> bool {
    forall|q: Position, v: int|
        g0.in_bounds(q) && g0.at(q)@.contains(v) && !(#[trigger] g.at(q)@.contains(v)) ==> exists|c: int, j: int|
            0 <= c < thermometers.len() && flags[c] && 0 <= j < thermometers[c].positions@.len() && thermometers[c].positions@[j]
                == q && #[trigger] rise_unsupported_in(g, thermometers[c].positions@, j, v)
}

/// Being pruned depends only on the candidates of the cells.
pub proof fn lemma_rise_pruned_transfer(
    g: &CandidateGrid,
    g0: &CandidateGrid,
    g2: &CandidateGrid,
    g02: &CandidateGrid,
    cells: Seq<Position>,
)
    requires
        cells_cands(g2, cells) == cells_cands(g, cells),
        cells_cands(g02, cells) == cells_cands(g0, cells),
        g02.size() == g0.size(),
        rise_pruned(g, g0, cells),
    ensures
        rise_pruned(g2, g02, cells),
{
    assert forall|j: int, v: int| 0 <= j < cells.len() && 1 <= v <= g02.size() && #[trigger] g2.at(cells[j])@.contains(v) implies rise_supports(
        cells_cands(g02, cells),
        g02.size() as int,
        0,
        1,
        j,
        v,
    ) by {
        assert(cells_cands(g2, cells)[j] == g2.at(cells[j])@);
        assert(cells_cands(g, cells)[j] == g.at(cells[j])@);
    }
}

/// The remaining slots of a thermometer fit below `n`: a filling from slot `idx` with
/// values of at least `lo` needs `lo + (len - idx) - 1 <= n`.
proof fn lemma_rise_room(cands: Seq<Set<int>>, n: int, idx: nat, lo: int)
    requires
        idx < cands.len(),
        rise_completes(cands, n, idx, lo),
    ensures
        lo + cands.len() - idx - 1 <= n,
    decreases cands.len() - idx,
{
    let v = choose|v: int| #[trigger] rise_step(cands, n, idx as int, lo, v) && rise_completes(cands, n, idx + 1, v + 1);
    if idx + 1 < cands.len() {
        lemma_rise_room(cands, n, idx + 1, v + 1);
    }
}

/// The least value slot `idx` may hold after the values of `vals` before it.
pub open spec fn rise_floor(vals: Seq<int>, idx: int) -> int {
    if idx == 0 { 1 } else { vals[idx - 1] + 1 }
}

proof fn lemma_supports_completes(cands: Seq<Set<int>>, n: int, idx: nat, lo: int, j: int, w: int)
    requires
        rise_supports(cands, n, idx, lo, j, w),
    ensures
        rise_completes(cands, n, idx, lo),
    decreases cands.len() - idx,
{
    let v = choose|v: int|
        #[trigger] rise_step(cands, n, idx as int, lo, v) && ((j == idx && w == v && rise_completes(
            cands,
            n,
            idx + 1,
            v + 1,
        )) || (j > idx && rise_supports(cands, n, idx + 1, v + 1, j, w)));
    if !(j == idx && w == v && rise_completes(cands, n, idx + 1, v + 1)) {
        lemma_supports_completes(cands, n, idx + 1, v + 1, j, w);
    }
}

proof fn lemma_rising_from(vals: Seq<int>, cands: Seq<Set<int>>, n: int, idx: nat)
    requires
        thermometer_ok(vals, n),
        vals.len() == cands.len(),
        forall|i: int| 0 <= i < vals.len() ==> (#[trigger] cands[i]).contains(vals[i]),
        idx <= cands.len(),
    ensures
        rise_completes(cands, n, idx, rise_floor(vals, idx as int)),
        forall|j: int|
            idx <= j < cands.len() ==> #[trigger] rise_supports(
                cands,
                n,
                idx,
                rise_floor(vals, idx as int),
                j,
                vals[j],
            ),
    decreases cands.len() - idx,
{
    if idx < cands.len() {
        lemma_rising_from(vals, cands, n, idx + 1);
        let lo = rise_floor(vals, idx as int);
        let v = vals[idx as int];
        assert(cands[idx as int].contains(v));
        if idx > 0 {
            assert(vals[idx - 1] < vals[idx as int]);
        }
        assert(rise_step(cands, n, idx as int, lo, v));
        assert forall|j: int| idx <= j < cands.len() implies #[trigger] rise_supports(cands, n, idx, lo, j, vals[j]) by {
            assert(rise_step(cands, n, idx as int, lo, v));
            if j > idx {
                assert(rise_supports(cands, n, idx + 1, v + 1, j, vals[j]));
            }
        }
    }
}

/// Every strictly rising filling of a thermometer is found by the search: the search
/// from the bulb completes, and supports each value of the filling in its slot.
pub proof fn lemma_rising_found(vals: Seq<int>, cands: Seq<Set<int>>, n: int)
    requires
        thermometer_ok(vals, n),
        vals.len() == cands.len(),
        forall|i: int| 0 <= i < vals.len() ==> (#[trigger] cands[i]).contains(vals[i]),
    ensures
        rise_completes(cands, n, 0, 1),
        forall|j: int| 0 <= j < cands.len() ==> #[trigger] rise_supports(cands, n, 0, 1, j, vals[j]),
{
    lemma_rising_from(vals, cands, n, 0);
}

proof fn lemma_rise_singletons_from(vals: Seq<int>, cands: Seq<Set<int>>, n: int, idx: nat, lo: int)
    requires
        vals.len() == cands.len(),
        forall|i: int| 0 <= i < cands.len() ==> #[trigger] cands[i] == set![vals[i]],
        idx <= cands.len(),
        rise_completes(cands, n, idx, lo),
    ensures
        forall|i: int| idx <= i < vals.len() ==> lo <= #[trigger] vals[i] <= n,
        forall|i: int, k: int| idx <= i < k < vals.len() ==> #[trigger] vals[i] < #[trigger] vals[k],
    decreases cands.len() - idx,
{
    if idx < cands.len() {
        let v = choose|v: int| #[trigger] rise_step(cands, n, idx as int, lo, v) && rise_completes(cands, n, idx + 1, v + 1);
        assert(cands[idx as int] == set![vals[idx as int]]);
        assert(v == vals[idx as int]);
        lemma_rise_singletons_from(vals, cands, n, idx + 1, v + 1);
    }
}

/// When every slot has a single candidate, a search that completes reads off a
/// strictly rising filling.
pub proof fn lemma_rise_singletons(vals: Seq<int>, cands: Seq<Set<int>>, n: int)
    requires
        vals.len() == cands.len(),
        forall|i: int| 0 <= i < cands.len() ==> #[trigger] cands[i] == set![vals[i]],
        rise_completes(cands, n, 0, 1),
    ensures
        thermometer_ok(vals, n),
{
    lemma_rise_singletons_from(vals, cands, n, 0, 1);
}

/// Searches the strictly rising fillings of the thermometer cells from `index` on,
/// with values of at least `lower_limit`; flags in `updated_candidates` each value
/// that some filling puts in its slot.
/// The candidates of the cell `q`, from `prev`, left once the first `j` cells of `cells`
/// have lost the values in `1..=n` that no strictly rising filling of `cands` puts at them.
pub open spec fn rise_pruned_upto(prev: Set<int>, cells: Seq<Position>, cands: Seq<Set<int>>, n: int, q: Position, j: int) -> Set<int> {
    prev.filter(
        |v: int|
            !(1 <= v <= n && exists|j2: int| 0 <= j2 < j && #[trigger] cells[j2] == q && !rise_supports(cands, n, 0, 1, j2, v)),
    )
}

/// `p` without the values in `1..hi` that no strictly rising filling of `cands` puts at
/// slot `j`.
pub open spec fn rise_drop_unsupported(p: Set<int>, cands: Seq<Set<int>>, n: int, j: int, hi: int) -> Set<int> {
    p.filter(|v: int| !(1 <= v < hi && !rise_supports(cands, n, 0, 1, j, v)))
}

/// Dropping nothing below `1` leaves the set as it is.
proof fn lemma_rise_drop_none(p: Set<int>, cands: Seq<Set<int>>, n: int, j: int)
    ensures
        rise_drop_unsupported(p, cands, n, j, 1) == p,
{
    assert(rise_drop_unsupported(p, cands, n, j, 1) =~= p);
}

/// Taking one more value into account drops it when no rising filling puts it at slot
/// `j`.
proof fn lemma_rise_drop_next(p: Set<int>, cands: Seq<Set<int>>, n: int, j: int, hi: int)
    requires
        1 <= hi,
    ensures
        rise_drop_unsupported(p, cands, n, j, hi + 1) == (if rise_supports(cands, n, 0, 1, j, hi) {
            rise_drop_unsupported(p, cands, n, j, hi)
        } else {
            rise_drop_unsupported(p, cands, n, j, hi).remove(hi)
        }),
{
    if rise_supports(cands, n, 0, 1, j, hi) {
        assert(rise_drop_unsupported(p, cands, n, j, hi + 1) =~= rise_drop_unsupported(p, cands, n, j, hi));
    } else {
        assert(rise_drop_unsupported(p, cands, n, j, hi + 1) =~= rise_drop_unsupported(p, cands, n, j, hi).remove(hi));
    }
}

/// One more cell pruned changes only that cell's candidates.
proof fn lemma_rise_pruned_upto_next(prev: Set<int>, cells: Seq<Position>, cands: Seq<Set<int>>, n: int, q: Position, j: int)
    requires
        0 <= j < cells.len(),
    ensures
        rise_pruned_upto(prev, cells, cands, n, q, j + 1) == (if cells[j] == q {
            rise_drop_unsupported(rise_pruned_upto(prev, cells, cands, n, q, j), cands, n, j, n + 1)
        } else {
            rise_pruned_upto(prev, cells, cands, n, q, j)
        }),
{
    let a = rise_pruned_upto(prev, cells, cands, n, q, j + 1);
    let b = rise_pruned_upto(prev, cells, cands, n, q, j);
    if cells[j] == q {
        let d = rise_drop_unsupported(b, cands, n, j, n + 1);
        assert forall|v: int| a.contains(v) <==> d.contains(v) by {
            if d.contains(v) && !a.contains(v) {
                let j2 = choose|j2: int| 0 <= j2 < j + 1 && #[trigger] cells[j2] == q && !rise_supports(cands, n, 0, 1, j2, v);
                if j2 < j {
                    assert(!b.contains(v));
                }
            }
        }
        assert(a =~= d);
    } else {
        assert forall|v: int| a.contains(v) <==> b.contains(v) by {
            if b.contains(v) && !a.contains(v) {
                let j2 = choose|j2: int| 0 <= j2 < j + 1 && #[trigger] cells[j2] == q && !rise_supports(cands, n, 0, 1, j2, v);
                assert(j2 < j);
            }
        }
        assert(a =~= b);
    }
}

/// Pruning no cell leaves the candidates as they are.
proof fn lemma_rise_pruned_upto_none(prev: Set<int>, cells: Seq<Position>, cands: Seq<Set<int>>, n: int, q: Position)
    ensures
        rise_pruned_upto(prev, cells, cands, n, q, 0) == prev,
{
    assert(rise_pruned_upto(prev, cells, cands, n, q, 0) =~= prev);
}

/// The candidates of every cell, by row and column, after the first `c` thermometers of
/// `thermometers` that `flags` marks have each, in turn, taken from their cells the
/// values that no strictly rising filling of the thermometer with its cells' candidates
/// at that moment uses there, from the grid `g0`.
pub open spec fn thermometer_state(thermometers: Seq<Thermometer>, flags: Seq<bool>, g0: &CandidateGrid, c: nat) -> Seq<
    Seq<Set<int>>,
>
    decreases c,
{
    let n = g0.size() as int;
    if c == 0 {
        Seq::new(g0.size(), |r: int| Seq::new(g0.size(), |k: int| g0@[r][k]@))
    } else {
        let prev = thermometer_state(thermometers, flags, g0, (c - 1) as nat);
        if !flags[c - 1] {
            prev
        } else {
            let cells = thermometers[c - 1].positions@;
            let cands = Seq::new(cells.len(), |i: int| prev[cells[i].row as int][cells[i].col as int]);
            Seq::new(
                g0.size(),
                |r: int|
                    Seq::new(
                        g0.size(),
                        |k: int| rise_pruned_upto(prev[r][k], cells, cands, n, Position { row: r as usize, col: k as usize }, cells.len() as int),
                    ),
            )
        }
    }
}

/// The candidates of the cells of thermometer `c` in `thermometer_state` before it.
pub open spec fn thermometer_cands(thermometers: Seq<Thermometer>, flags: Seq<bool>, g0: &CandidateGrid, c: int) -> Seq<Set<int>> {
    let prev = thermometer_state(thermometers, flags, g0, c as nat);
    let cells = thermometers[c].positions@;
    Seq::new(cells.len(), |i: int| prev[cells[i].row as int][cells[i].col as int])
}

/// Thermometer `c` is marked and cannot be filled when its turn comes.
pub open spec fn thermometer_fails_at(thermometers: Seq<Thermometer>, flags: Seq<bool>, g0: &CandidateGrid, c: int) -> bool {
    &&& 0 <= c < thermometers.len()
    &&& flags[c]
    &&& !rise_completes(thermometer_cands(thermometers, flags, g0, c), g0.size() as int, 0, 1)
}

/// The thermometers of `thermometers` that hold a marked cell of `active`.
pub open spec fn touched_thermometers(thermometers: Seq<Thermometer>, active: &Grid<bool>) -> Seq<bool> {
    Seq::new(thermometers.len(), |c: int| touched(thermometers[c].positions@, active))
}

fn recursive_solve(
    grid: &CandidateGrid,
    thermometer_positions: &Vec<Position>,
    updated_candidates: &mut Vec<Vec<bool>>,
    index: usize,
    lower_limit: u8,
) -> (r: bool)
    requires
        grid.wf(),
        grid.size() <= 64,
        forall|k: int| 0 <= k < thermometer_positions@.len() ==> grid.in_bounds(#[trigger] thermometer_positions@[k]),
        index <= thermometer_positions@.len(),
        1 <= lower_limit <= grid.size() + 1,
        old(updated_candidates)@.len() == thermometer_positions@.len(),
        forall|j: int| 0 <= j < thermometer_positions@.len() ==> (#[trigger] old(updated_candidates)@[j])@.len() == grid.size(),
    ensures
        r == rise_completes(cells_cands(grid, thermometer_positions@), grid.size() as int, index as nat, lower_limit as int),
        final(updated_candidates)@.len() == old(updated_candidates)@.len(),
        forall|j: int| 0 <= j < thermometer_positions@.len() ==> (#[trigger] final(updated_candidates)@[j])@.len() == grid.size(),
        forall|j: int, i: int|
            0 <= j < thermometer_positions@.len() && 0 <= i < grid.size() ==> (#[trigger] final(updated_candidates)@[j]@[i] == (
            old(updated_candidates)@[j]@[i] || (index <= j && rise_supports(
                cells_cands(grid, thermometer_positions@),
                grid.size() as int,
                index as nat,
                lower_limit as int,
                j,
                i + 1,
            )))),
    decreases thermometer_positions@.len() - index,
{
    if index == thermometer_positions.len() {
        return true;
    }
    let ghost cands = cells_cands(grid, thermometer_positions@);
    let ghost n = grid.size() as int;
    let ghost upd0 = updated_candidates@;
    let ghost len = thermometer_positions@.len();
    let ghost lo = lower_limit as int;
    let ghost idx = index as int;

    let mut is_possible = false;
    let pos = thermometer_positions[index];
    let size = grid.grid_size();
    let len_exec = thermometer_positions.len();
    let mut val: usize = lower_limit as usize;
    let mut pruned = false;
    while val <= size && !pruned
        invariant
            grid.wf(),
            size == grid.size(),
            size <= 64,
            forall|k: int| 0 <= k < len ==> grid.in_bounds(#[trigger] thermometer_positions@[k]),
            index < thermometer_positions.len(),
            len_exec == len,
            len == thermometer_positions@.len(),
            pos == thermometer_positions@[idx],
            idx == index,
            lo == lower_limit,
            cands == cells_cands(grid, thermometer_positions@),
            n == size,
            1 <= lo <= val <= size + 1,
            pruned ==> val <= size && val - 1 + len - idx > size,
            upd0.len() == len,
            updated_candidates@.len() == len,
            forall|j: int| 0 <= j < len ==> (#[trigger] upd0[j])@.len() == size,
            forall|j: int| 0 <= j < len ==> (#[trigger] updated_candidates@[j])@.len() == size,
            is_possible == exists|v: int|
                v < val && #[trigger] rise_step(cands, n, idx, lo, v) && rise_completes(cands, n, (idx + 1) as nat, v + 1),
            forall|j: int, k: int|
                0 <= j < len && 0 <= k < size ==> (#[trigger] updated_candidates@[j]@[k] == (upd0[j]@[k] || (idx <= j
                    && exists|v: int|
                    v < val && #[trigger] rise_step(cands, n, idx, lo, v) && ((j == idx && k + 1 == v && rise_completes(
                        cands,
                        n,
                        (idx + 1) as nat,
                        v + 1,
                    )) || (j > idx && rise_supports(cands, n, (idx + 1) as nat, v + 1, j, k + 1)))))),
        decreases size + 1 - val + (if pruned { 0int } else { 1int }),
    {
        let i = val - 1;
        if len_exec - index > size - i {
            pruned = true;
        } else {
            let ghost v = val as int;
            let ghost upd1 = updated_candidates@;
            if grid.get(pos).contains(val as u8) {
                let ok = recursive_solve(grid, thermometer_positions, updated_candidates, index + 1, (val + 1) as u8);
                let ghost upd2 = updated_candidates@;
                if ok {
                    updated_candidates[index].set(i, true);
                    is_possible = true;
                }
                proof {
                    assert(rise_step(cands, n, idx, lo, v));
                    assert forall|j: int, k: int| 0 <= j < len && 0 <= k < size implies (#[trigger] updated_candidates@[j]@[k]
                        == (upd0[j]@[k] || (idx <= j && exists|w: int|
                        w < val + 1 && #[trigger] rise_step(cands, n, idx, lo, w) && ((j == idx && k + 1 == w
                            && rise_completes(cands, n, (idx + 1) as nat, w + 1)) || (j > idx && rise_supports(
                            cands,
                            n,
                            (idx + 1) as nat,
                            w + 1,
                            j,
                            k + 1,
                        )))))) by {
                        assert(upd2[j]@[k] == (upd1[j]@[k] || (idx + 1 <= j && rise_supports(
                            cands,
                            n,
                            (idx + 1) as nat,
                            v + 1,
                            j,
                            k + 1,
                        ))));
                    }
                }
            } else {
                assert(!rise_step(cands, n, idx, lo, v));
            }
            val = val + 1;
        }
    }
    proof {
        assert forall|v: int| #[trigger] rise_step(cands, n, idx, lo, v) && v >= val implies !rise_completes(
            cands,
            n,
            (idx + 1) as nat,
            v + 1,
        ) by {
            if rise_completes(cands, n, (idx + 1) as nat, v + 1) {
                assert(pruned);
                assert(idx + 1 < len);
                lemma_rise_room(cands, n, (idx + 1) as nat, v + 1);
            }
        }
        assert forall|v: int, j: int, w: int|
            rise_step(cands, n, idx, lo, v) && v >= val && j > idx implies !#[trigger] rise_supports(
            cands,
            n,
            (idx + 1) as nat,
            v + 1,
            j,
            w,
        ) by {
            if rise_supports(cands, n, (idx + 1) as nat, v + 1, j, w) {
                lemma_supports_completes(cands, n, (idx + 1) as nat, v + 1, j, w);
                assert(!rise_completes(cands, n, (idx + 1) as nat, v + 1));
            }
        }
        assert forall|j: int, k: int| 0 <= j < len && 0 <= k < size implies (#[trigger] updated_candidates@[j]@[k] == (
            upd0[j]@[k] || (idx <= j && rise_supports(cands, n, idx as nat, lo, j, k + 1)))) by {
            if idx <= j && rise_supports(cands, n, idx as nat, lo, j, k + 1) {
                let v = choose|v: int|
                    #[trigger] rise_step(cands, n, idx, lo, v) && ((j == idx && k + 1 == v && rise_completes(
                        cands,
                        n,
                        (idx + 1) as nat,
                        v + 1,
                    )) || (j > idx && rise_supports(cands, n, (idx + 1) as nat, v + 1, j, k + 1)));
                if v >= val {
                    if j > idx {
                        assert(!rise_supports(cands, n, (idx + 1) as nat, v + 1, j, k + 1));
                    }
                }
                assert(v < val);
            }
        }
    }
    is_possible
}

impl ThermometerConstraint {
    /// The thermometers, in the order they were given.
    pub closed spec fn thermometer_seq(&self) -> Seq<Thermometer> {
        self.thermometers@
    }

    /// The constraint is built for grids of `region_rows` x `region_cols` regions: its
    /// thermometers lie inside such a grid and, for every cell, it lists the thermometers that hold
    /// the cell, in order, once for each time one holds it.
    pub closed spec fn wf_for(&self, region_rows: nat, region_cols: nat) -> bool {
        &&& self.thermometer_indices.wf()
        &&& self.thermometer_indices.rrows() == region_rows
        &&& self.thermometer_indices.rcols() == region_cols
        &&& thermometers_in_bounds(self.thermometers@, region_rows * region_cols)
        &&& forall|p: Position, k: int|
            p.row < region_rows * region_cols && p.col < region_rows * region_cols && 0
                <= k < self.thermometer_indices.at(p)@.len() ==> (#[trigger] self.thermometer_indices.at(p)@[k]) < self.thermometers@.len()
                && self.thermometers@[self.thermometer_indices.at(p)@[k] as int].positions@.contains(p)
        &&& forall|c: int, k: int|
            0 <= c < self.thermometers@.len() && 0 <= k < self.thermometers@[c].positions@.len() ==> self.thermometer_indices.at(
                #[trigger] self.thermometers@[c].positions@[k],
            )@.contains(c as usize)
        &&& forall|p: Position|
            p.row < region_rows * region_cols && p.col < region_rows * region_cols ==> (#[trigger] self.thermometer_indices.at(p))@
                == index_list(self.thermometers@.map_values(|c: Thermometer| c.positions@), p, self.thermometers@.len())
    }

    /// The constraint of `thermometers`, for grids of `region_rows` x `region_cols` regions.
    pub fn new(thermometers: Vec<Thermometer>, region_rows: u8, region_cols: u8) -> (r: ThermometerConstraint)
        requires
            thermometers_in_bounds(thermometers@, (region_rows * region_cols) as nat),
        ensures
            r.thermometer_seq() == thermometers@,
            r.wf_for(region_rows as nat, region_cols as nat),
    {
        let region_rows = region_rows as usize;
        let region_cols = region_cols as usize;
        assert(region_rows * region_cols <= 255 * 255) by (nonlinear_arith)
            requires region_rows <= 255, region_cols <= 255;
        let ghost n = region_rows * region_cols;
        let ghost parts = thermometers@.map_values(|c: Thermometer| c.positions@);
        let empty: Vec<usize> = Vec::new();
        let mut thermometer_indices = Grid::from_default(region_rows, region_cols, empty);
        proof {
            assert forall|p: Position| p.row < n && p.col < n implies (#[trigger] thermometer_indices.at(p))@.len() == 0 by {
                assert(cloned(empty, thermometer_indices@[p.row as int][p.col as int]));
            }
            assert forall|p: Position| p.row < n && p.col < n implies (#[trigger] thermometer_indices.at(p))@ == index_list(parts, p, 0) by {
                assert(thermometer_indices.at(p)@ =~= index_list(parts, p, 0));
            }
        }
        let mut i: usize = 0;
        while i < thermometers.len()
            invariant
                n == region_rows * region_cols,
                thermometers_in_bounds(thermometers@, n as nat),
                thermometer_indices.wf(),
                thermometer_indices.rrows() == region_rows,
                thermometer_indices.rcols() == region_cols,
                i <= thermometers@.len(),
                forall|p: Position, k: int|
                    p.row < n && p.col < n && 0 <= k < thermometer_indices.at(p)@.len() ==> (#[trigger] thermometer_indices.at(p)@[k]) < i
                        && thermometers@[thermometer_indices.at(p)@[k] as int].positions@.contains(p),
                forall|c: int, k: int|
                    0 <= c < i && 0 <= k < thermometers@[c].positions@.len() ==> thermometer_indices.at(
                        #[trigger] thermometers@[c].positions@[k],
                    )@.contains(c as usize),
                parts == thermometers@.map_values(|c: Thermometer| c.positions@),
                forall|p: Position| p.row < n && p.col < n ==> (#[trigger] thermometer_indices.at(p))@ == index_list(parts, p, i as nat),
            decreases thermometers@.len() - i,
        {
            let positions = &thermometers[i].positions;
            let mut k: usize = 0;
            while k < positions.len()
                invariant
                    n == region_rows * region_cols,
                    thermometers_in_bounds(thermometers@, n as nat),
                    thermometer_indices.wf(),
                    thermometer_indices.rrows() == region_rows,
                    thermometer_indices.rcols() == region_cols,
                    i < thermometers@.len(),
                    positions == thermometers@[i as int].positions,
                    k <= positions@.len(),
                    forall|p: Position, m: int|
                        p.row < n && p.col < n && 0 <= m < thermometer_indices.at(p)@.len() ==> (#[trigger] thermometer_indices.at(p)@[m]) <= i
                            && thermometers@[thermometer_indices.at(p)@[m] as int].positions@.contains(p),
                    forall|c: int, k2: int|
                        0 <= c < i && 0 <= k2 < thermometers@[c].positions@.len() ==> thermometer_indices.at(
                            #[trigger] thermometers@[c].positions@[k2],
                        )@.contains(c as usize),
                    forall|k2: int| 0 <= k2 < k ==> thermometer_indices.at(#[trigger] positions@[k2])@.contains(i),
                    parts == thermometers@.map_values(|c: Thermometer| c.positions@),
                    forall|p: Position|
                        p.row < n && p.col < n ==> (#[trigger] thermometer_indices.at(p))@ == index_list(parts, p, i as nat)
                            + repeat_index(count_in(positions@.take(k as int), p), i as int),
                decreases positions@.len() - k,
            {
                let pos = positions[k];
                assert(thermometers@[i as int].positions@[k as int] == pos);
                let ghost before = thermometer_indices;
                let mut cell = thermometer_indices.replace(pos, Vec::new());
                cell.push(i);
                thermometer_indices.set(pos, cell);
                proof {
                    assert forall|p: Position, m: int|
                        p.row < n && p.col < n && 0 <= m < thermometer_indices.at(p)@.len() implies (#[trigger] thermometer_indices.at(p)@[m]) <= i
                            && thermometers@[thermometer_indices.at(p)@[m] as int].positions@.contains(p) by {
                        if p == pos {
                            if m < before.at(p)@.len() {
                                assert(thermometer_indices.at(p)@[m] == before.at(p)@[m]);
                            } else {
                                assert(thermometers@[i as int].positions@.contains(pos));
                            }
                        } else {
                            assert(thermometer_indices.at(p) == before.at(p));
                        }
                    }
                }
                proof {
                    assert forall|c: int, k2: int|
                        0 <= c < i && 0 <= k2 < thermometers@[c].positions@.len() implies thermometer_indices.at(
                            #[trigger] thermometers@[c].positions@[k2],
                        )@.contains(c as usize) by {
                        let q = thermometers@[c].positions@[k2];
                        assert(before.at(q)@.contains(c as usize));
                        let m = choose|m: int| 0 <= m < before.at(q)@.len() && before.at(q)@[m] == c as usize;
                        if q == pos {
                            assert(thermometer_indices.at(q)@[m] == c as usize);
                        } else {
                            assert(thermometer_indices.at(q) == before.at(q));
                        }
                    }
                    assert forall|p: Position|
                        p.row < n && p.col < n implies (#[trigger] thermometer_indices.at(p))@ == index_list(parts, p, i as nat)
                            + repeat_index(count_in(positions@.take(k + 1), p), i as int) by {
                        lemma_index_list_grow(index_list(parts, p, i as nat), positions@, k as int, p, i as int);
                        if p != pos {
                            assert(thermometer_indices.at(p) == before.at(p));
                        }
                    }
                    assert forall|k2: int| 0 <= k2 < k + 1 implies thermometer_indices.at(#[trigger] positions@[k2])@.contains(i) by {
                        let q = positions@[k2];
                        if q == pos {
                            assert(thermometer_indices.at(q)@[thermometer_indices.at(q)@.len() - 1] == i);
                        } else {
                            assert(before.at(q)@.contains(i));
                            let m = choose|m: int| 0 <= m < before.at(q)@.len() && before.at(q)@[m] == i;
                            assert(thermometer_indices.at(q) == before.at(q));
                        }
                    }
                }
                k = k + 1;
            }
            proof {
                assert(positions@.take(positions@.len() as int) =~= positions@);
                assert(parts[i as int] == positions@);
                assert forall|p: Position| p.row < n && p.col < n implies (#[trigger] thermometer_indices.at(p))@ == index_list(
                    parts,
                    p,
                    (i + 1) as nat,
                ) by {
                    assert(((i + 1) - 1) as nat == i as nat);
                }
            }
            i = i + 1;
        }
        ThermometerConstraint { thermometers, thermometer_indices }
    }
}

impl ThermometerConstraint {
    /// With every cell unsettled, only the thermometers that cover no cell are asked to be settled.
    pub proof fn lemma_settled_everywhere(&self, g: &CandidateGrid)
        requires
            g.wf(),
            self.built_for(g.rrows(), g.rcols()),
        ensures
            self.settled(g, all_cells(g.size())),
    {
        assert forall|c: int|
            0 <= c < self.thermometer_seq().len() && !touches(self.thermometer_seq()[c].positions@, all_cells(g.size())) implies #[trigger] rise_completes(cells_cands(g, self.thermometer_seq()[c].positions@), (g).size() as int, 0, 1)
                && rise_pruned(g, g, self.thermometer_seq()[c].positions@) by {
            let cells = self.thermometer_seq()[c].positions@;
            if cells.len() > 0 {
                assert(all_cells(g.size()).contains(cells[0]));
            }
            assert(cells_cands(g, cells).len() == 0);
        }
    }
}

impl ThermometerConstraint {
    proof fn lemma_unchanged_outside(&self, g0: &CandidateGrid, g: &CandidateGrid, active: &Grid<bool>, flags: Seq<bool>)
        requires
            flags.len() == self.thermometer_seq().len(),
            forall|c: int| 0 <= c < flags.len() && #[trigger] flags[c] ==> touched(self.thermometer_seq()[c].positions@, active),
            forall|q: Position|
                g0.in_bounds(q) && !in_flagged_thermometer(q, self.thermometer_seq(), flags) ==> #[trigger] g.at(q) == g0.at(q),
        ensures
            forall|q: Position|
                g0.in_bounds(q) && !(exists|c: int|
                    0 <= c < self.thermometer_seq().len() && #[trigger] touched(self.thermometer_seq()[c].positions@, active)
                        && self.thermometer_seq()[c].positions@.contains(q)) ==> #[trigger] g.at(q) == g0.at(q),
    {
        assert forall|q: Position|
            g0.in_bounds(q) && !(exists|c: int|
                0 <= c < self.thermometer_seq().len() && #[trigger] touched(self.thermometer_seq()[c].positions@, active)
                    && self.thermometer_seq()[c].positions@.contains(q)) implies #[trigger] g.at(q) == g0.at(q) by {
            if in_flagged_thermometer(q, self.thermometer_seq(), flags) {
                let c = choose|c: int| 0 <= c < self.thermometer_seq().len() && #[trigger] flags[c] && self.thermometer_seq()[c].positions@.contains(q);
                assert(touched(self.thermometer_seq()[c].positions@, active));
            }
        }
    }
}

impl Constraint for ThermometerConstraint {
    open spec fn holds(&self, sol: Seq<Seq<int>>, region_rows: nat, region_cols: nat) -> bool {
        thermometer_rule(sol, self.thermometer_seq(), (region_rows * region_cols) as int)
    }

    open spec fn built_for(&self, region_rows: nat, region_cols: nat) -> bool {
        self.wf_for(region_rows, region_cols)
    }

    open spec fn settled(&self, grid: &CandidateGrid, unsettled: Set<Position>) -> bool {
        forall|c: int|
            0 <= c < self.thermometer_seq().len() && !touches(self.thermometer_seq()[c].positions@, unsettled) ==> #[trigger] rise_completes(cells_cands(grid, self.thermometer_seq()[c].positions@), (grid).size() as int, 0, 1)
                && rise_pruned(grid, grid, self.thermometer_seq()[c].positions@)
    }

    #[verifier::spinoff_prover]
    proof fn lemma_settled_shrink(
        &self,
        g: &CandidateGrid,
        g2: &CandidateGrid,
        unsettled: Set<Position>,
        unsettled2: Set<Position>,
    ) {
        assert forall|c: int|
            0 <= c < self.thermometer_seq().len() && !touches(self.thermometer_seq()[c].positions@, unsettled2) implies #[trigger] rise_completes(cells_cands(g2, self.thermometer_seq()[c].positions@), (g2).size() as int, 0, 1)
                && rise_pruned(g2, g2, self.thermometer_seq()[c].positions@) by {
            let cells = self.thermometer_seq()[c].positions@;
            if touches(cells, unsettled) {
                let k = choose|k: int| 0 <= k < cells.len() && unsettled.contains(#[trigger] cells[k]);
                assert(unsettled2.contains(cells[k]));
            }
            assert(rise_completes(cells_cands(g, self.thermometer_seq()[c].positions@), (g).size() as int, 0, 1));
            if touches(cells, changed_cells(g2, g)) {
                let k = choose|k: int| 0 <= k < cells.len() && changed_cells(g2, g).contains(#[trigger] cells[k]);
                assert(unsettled2.contains(cells[k]));
            }
            lemma_cells_kept(g, g, g2, cells);
            lemma_rise_pruned_transfer(g, g, g2, g2, cells);
        }
    }

    proof fn lemma_settled_fixed(&self, g: &CandidateGrid, sol: Seq<Seq<int>>) {
        assert forall|c: int| 0 <= c < self.thermometer_seq().len() implies thermometer_ok(#[trigger] cells_values(sol, self.thermometer_seq()[c].positions@), (g.rrows() * g.rcols()) as int) by {
            let cells = self.thermometer_seq()[c].positions@;
            let vals = cells_values(sol, cells);
            let cands = cells_cands(g, cells);
            assert(!touches(cells, Set::<Position>::empty()));
            assert(rise_completes(cells_cands(g, self.thermometer_seq()[c].positions@), (g).size() as int, 0, 1));
            assert forall|i: int| 0 <= i < cands.len() implies #[trigger] cands[i] == set![vals[i]] by {
                assert(g.in_bounds(cells[i]));
                assert(g@[cells[i].row as int][cells[i].col as int]@ == set![sol[cells[i].row as int][cells[i].col as int]]);
            }
            lemma_rise_singletons(vals, cands, g.size() as int);
        }
    }

    #[verifier::loop_isolation(false)]
    fn update(&self, grid: &mut CandidateGrid, active_positions: Grid<bool>) -> (r: Option<Grid<bool>>)
        ensures
            r is Some ==> forall|q: Position, v: int|
                old(grid).in_bounds(q) && old(grid).at(q)@.contains(v) && !(#[trigger] final(grid).at(q)@.contains(v))
                    ==> exists|c: int, j: int|
                    0 <= c < self.thermometer_seq().len() && touched(self.thermometer_seq()[c].positions@, &active_positions)
                        && 0 <= j < self.thermometer_seq()[c].positions@.len() && self.thermometer_seq()[c].positions@[j] == q
                        && #[trigger] rise_unsupported_in(final(grid), self.thermometer_seq()[c].positions@, j, v),
            forall|c: int|
                0 <= c < self.thermometer_seq().len() && #[trigger] touched(self.thermometer_seq()[c].positions@, &active_positions) && !rise_completes(cells_cands(old(grid), self.thermometer_seq()[c].positions@), old(grid).size() as int, 0, 1)
                    ==> r is None,
            r is Some ==> forall|c: int|
                0 <= c < self.thermometer_seq().len() && #[trigger] touched(self.thermometer_seq()[c].positions@, &active_positions)
                    ==> rise_pruned(final(grid), old(grid), self.thermometer_seq()[c].positions@),
            forall|q: Position|
                old(grid).in_bounds(q) && !(exists|c: int|
                    0 <= c < self.thermometer_seq().len() && #[trigger] touched(self.thermometer_seq()[c].positions@, &active_positions)
                        && self.thermometer_seq()[c].positions@.contains(q)) ==> #[trigger] final(grid).at(q) == old(grid).at(q),
            r is None ==> exists|c: int|
                0 <= c < self.thermometer_seq().len() && #[trigger] touched(self.thermometer_seq()[c].positions@, &active_positions)
                    && !rise_completes(cells_cands(final(grid), self.thermometer_seq()[c].positions@), final(grid).size() as int, 0, 1),
            // the touched thermometers prune the grid in index order, each with the
            // candidates that the thermometers before it left
            r is Some ==> forall|c: int|
                0 <= c < self.thermometer_seq().len() ==> !#[trigger] thermometer_fails_at(self.thermometer_seq(), touched_thermometers(self.thermometer_seq(), &active_positions), old(grid), c),
            r is Some ==> forall|q: Position|
                old(grid).in_bounds(q) ==> (#[trigger] final(grid).at(q))@ == thermometer_state(
                    self.thermometer_seq(),
                    touched_thermometers(self.thermometer_seq(), &active_positions),
                    old(grid),
                    self.thermometer_seq().len(),
                )[q.row as int][q.col as int],
            r is None ==> exists|c: int|
                #[trigger] thermometer_fails_at(self.thermometer_seq(), touched_thermometers(self.thermometer_seq(), &active_positions), old(grid), c) && (forall|c2: int|
                    0 <= c2 < c ==> !#[trigger] thermometer_fails_at(self.thermometer_seq(), touched_thermometers(self.thermometer_seq(), &active_positions), old(grid), c2)) && forall|q: Position|
                    old(grid).in_bounds(q) ==> (#[trigger] final(grid).at(q))@ == thermometer_state(
                        self.thermometer_seq(),
                        touched_thermometers(self.thermometer_seq(), &active_positions),
                        old(grid),
                        c as nat,
                    )[q.row as int][q.col as int],
    {
        let ghost g0 = *grid;
        let ghost thermometers = self.thermometers@;
        let ghost nn = g0.size() as int;
        let n = grid.grid_size();
        let nthermometers = self.thermometers.len();

        let mut is_thermometer_active: Vec<bool> = Vec::new();
        while is_thermometer_active.len() < nthermometers
            invariant
                is_thermometer_active@.len() <= nthermometers,
                forall|c: int| 0 <= c < is_thermometer_active@.len() ==> !#[trigger] is_thermometer_active@[c],
            decreases nthermometers - is_thermometer_active@.len(),
        {
            is_thermometer_active.push(false);
        }
        let mut row: usize = 0;
        while row < n
            invariant
                row <= n,
                is_thermometer_active@.len() == nthermometers,
                forall|c: int| 0 <= c < nthermometers && #[trigger] is_thermometer_active@[c] ==> touched(thermometers[c].positions@, &active_positions),
                forall|q: Position, m: int|
                    q.row < row && q.col < n && active_positions.at(q) && 0 <= m < self.thermometer_indices.at(q)@.len() ==> is_thermometer_active@[
                        #[trigger] self.thermometer_indices.at(q)@[m] as int],
            decreases n - row,
        {
            let mut col: usize = 0;
            while col < n
                invariant
                    row < n,
                    col <= n,
                    is_thermometer_active@.len() == nthermometers,
                    forall|c: int| 0 <= c < nthermometers && #[trigger] is_thermometer_active@[c] ==> touched(thermometers[c].positions@, &active_positions),
                    forall|q: Position, m: int|
                        (q.row < row || (q.row == row && q.col < col)) && q.col < n && active_positions.at(q) && 0 <= m
                            < self.thermometer_indices.at(q)@.len() ==> is_thermometer_active@[#[trigger] self.thermometer_indices.at(q)@[m] as int],
                decreases n - col,
            {
                let pos = Position { row, col };
                if *active_positions.get(pos) {
                    let indices = self.thermometer_indices.get(pos);
                    let mut k: usize = 0;
                    while k < indices.len()
                        invariant
                            k <= indices@.len(),
                            is_thermometer_active@.len() == nthermometers,
                            forall|c: int| 0 <= c < nthermometers && #[trigger] is_thermometer_active@[c] ==> touched(thermometers[c].positions@, &active_positions),
                            forall|q: Position, m: int|
                                (q.row < row || (q.row == row && q.col < col)) && q.col < n && active_positions.at(q) && 0 <= m
                                    < self.thermometer_indices.at(q)@.len() ==> is_thermometer_active@[#[trigger] self.thermometer_indices.at(q)@[m] as int],
                            forall|m: int| 0 <= m < k ==> is_thermometer_active@[#[trigger] indices@[m] as int],
                        decreases indices@.len() - k,
                    {
                        let c = indices[k];
                        assert(self.thermometer_indices.at(pos)@[k as int] == c);
                        proof {
                            let positions = thermometers[c as int].positions@;
                            assert(positions.contains(pos));
                            let m = choose|m: int| 0 <= m < positions.len() && positions[m] == pos;
                            assert(active_positions.at(positions[m]));
                        }
                        is_thermometer_active.set(c, true);
                        k = k + 1;
                    }
                }
                col = col + 1;
            }
            row = row + 1;
        }

        proof {
            assert forall|c: int| 0 <= c < nthermometers && touched(thermometers[c].positions@, &active_positions) implies is_thermometer_active@[c] by {
                let k = choose|k: int| 0 <= k < thermometers[c].positions@.len() && #[trigger] active_positions.at(thermometers[c].positions@[k]);
                let q = thermometers[c].positions@[k];
                assert(self.thermometer_indices.at(q)@.contains(c as usize));
                let m = choose|m: int| 0 <= m < self.thermometer_indices.at(q)@.len() && self.thermometer_indices.at(q)@[m] == c as usize;
                assert(is_thermometer_active@[self.thermometer_indices.at(q)@[m] as int]);
            }
        }
        let ghost settled0 = self.settled(&g0, marked_set(&active_positions));
        let ghost tf = touched_thermometers(thermometers, &active_positions);
        let mut affected_positions = Grid::from_default(grid.region_rows(), grid.region_cols(), false);
        proof {
            assert(marks_changes(&affected_positions, grid, &g0));
            assert(is_thermometer_active@ =~= tf);
            assert forall|q: Position| g0.in_bounds(q) implies (#[trigger] grid.at(q))@ == thermometer_state(thermometers, tf, &g0, 0)[q.row as int][q.col as int] by {
            }
        }
        let mut c: usize = 0;
        while c < nthermometers
            invariant
                c <= nthermometers,
                is_thermometer_active@.len() == nthermometers,
                forall|c: int| 0 <= c < nthermometers && #[trigger] is_thermometer_active@[c] ==> touched(thermometers[c].positions@, &active_positions),
                shrinks(grid, &g0),
                marks_changes(&affected_positions, grid, &g0),
                forall|q: Position|
                    g0.in_bounds(q) && !in_flagged_thermometer(q, thermometers, is_thermometer_active@) ==> #[trigger] grid.at(q) == g0.at(q),
                forall|sol: Seq<Seq<int>>|
                    fits(sol, &g0) && #[trigger] thermometer_rule(sol, thermometers, nn) ==> fits(sol, grid),
                forall|c: int| 0 <= c < nthermometers && touched(thermometers[c].positions@, &active_positions) ==> is_thermometer_active@[c],
                settled0 ==> forall|c2: int|
                    0 <= c2 < c && is_thermometer_active@[c2] && !touches(thermometers[c2].positions@, changed_cells(grid, &g0)) ==> #[trigger] rise_completes(cells_cands(grid, thermometers[c2].positions@), (grid).size() as int, 0, 1),
                forall|c2: int| 0 <= c2 < c && #[trigger] is_thermometer_active@[c2] ==> rise_pruned(grid, &g0, thermometers[c2].positions@),
                forall|c2: int| 0 <= c2 < c && #[trigger] is_thermometer_active@[c2] ==> rise_completes(cells_cands(&g0, thermometers[c2].positions@), g0.size() as int, 0, 1),
                thermometer_removals_unsupported(grid, &g0, thermometers, is_thermometer_active@),
                is_thermometer_active@ == tf,
                tf == touched_thermometers(thermometers, &active_positions),
                g0.wf(),
                nn == g0.size(),
                forall|q: Position| g0.in_bounds(q) ==> (#[trigger] grid.at(q))@ == thermometer_state(thermometers, tf, &g0, c as nat)[q.row as int][q.col as int],
                forall|c2: int| 0 <= c2 < c ==> !#[trigger] thermometer_fails_at(thermometers, tf, &g0, c2),
            decreases nthermometers - c,
        {
            if !is_thermometer_active[c] {
                proof {
                    assert(((c + 1) - 1) as nat == c as nat);
                    assert(thermometer_state(thermometers, tf, &g0, (c + 1) as nat) == thermometer_state(thermometers, tf, &g0, c as nat));
                    assert(!thermometer_fails_at(thermometers, tf, &g0, c as int));
                }
                c = c + 1;
                continue;
            }
            let thermometer = &self.thermometers[c];
            let thermometer_size = thermometer.positions.len();
            let ghost cells = thermometer.positions@;
            let mut updated_candidates: Vec<Vec<bool>> = Vec::new();
            while updated_candidates.len() < thermometer_size
                invariant
                    updated_candidates@.len() <= thermometer_size,
                    forall|j: int| 0 <= j < updated_candidates@.len() ==> (#[trigger] updated_candidates@[j])@.len() == n,
                    forall|j: int, m: int|
                        0 <= j < updated_candidates@.len() && 0 <= m < n ==> !#[trigger] updated_candidates@[j]@[m],
                decreases thermometer_size - updated_candidates@.len(),
            {
                let mut flags: Vec<bool> = Vec::new();
                while flags.len() < n
                    invariant
                        flags@.len() <= n,
                        forall|m: int| 0 <= m < flags@.len() ==> !#[trigger] flags@[m],
                    decreases n - flags@.len(),
                {
                    flags.push(false);
                }
                updated_candidates.push(flags);
            }
            let ghost gk = *grid;
            let ghost cands = cells_cands(&gk, cells);
            proof {
                assert forall|k: int| 0 <= k < cells.len() implies g0.in_bounds(#[trigger] cells[k]) by {
                    assert(thermometers[c as int].positions@[k] == cells[k]);
                }
                assert(cands =~= thermometer_cands(thermometers, tf, &g0, c as int));
            }
            proof {
                assert forall|k: int| 0 <= k < cells.len() implies grid.in_bounds(#[trigger] cells[k]) by {
                    assert(thermometers[c as int].positions@[k] == cells[k]);
                }
            }
            if !recursive_solve(grid, &thermometer.positions, &mut updated_candidates, 0, 1) {
                proof {
                    assert(is_thermometer_active@[c as int]);
                    assert(touched(thermometers[c as int].positions@, &active_positions));
                    assert forall|sol: Seq<Seq<int>>|
                        fits(sol, &g0) && #[trigger] self.holds(sol, g0.rrows(), g0.rcols()) implies false by {
                        assert(thermometer_rule(sol, thermometers, nn));
                        assert(fits(sol, &gk));
                        let vals = cells_values(sol, cells);
                        assert(thermometer_ok(cells_values(sol, thermometers[c as int].positions@), nn));
                        assert forall|i: int| 0 <= i < vals.len() implies (#[trigger] cands[i]).contains(vals[i]) by {
                            assert(grid.in_bounds(cells[i]));
                        }
                        lemma_rising_found(vals, cands, nn);
                    }
                }
                proof {
                    self.lemma_unchanged_outside(&g0, grid, &active_positions, is_thermometer_active@);
                    assert(self.thermometer_seq()[c as int].positions@ == cells);
                    assert(!rise_completes(cells_cands(grid, cells), grid.size() as int, 0, 1));
                    assert(touched(self.thermometer_seq()[c as int].positions@, &active_positions));
                    assert(thermometer_fails_at(thermometers, tf, &g0, c as int));
                }
                return None;
            }
            proof {
                assert forall|sol: Seq<Seq<int>>|
                    fits(sol, &g0) && #[trigger] thermometer_rule(sol, thermometers, nn) implies values_kept(updated_candidates@, sol, cells) by {
                    assert(fits(sol, &gk));
                    let vals = cells_values(sol, cells);
                    assert(thermometer_ok(cells_values(sol, thermometers[c as int].positions@), nn));
                    assert forall|i: int| 0 <= i < vals.len() implies (#[trigger] cands[i]).contains(vals[i]) by {
                        assert(grid.in_bounds(cells[i]));
                    }
                    lemma_rising_found(vals, cands, nn);
                    assert forall|j: int| 0 <= j < cells.len() implies #[trigger] updated_candidates@[j]@[
                        sol[cells[j].row as int][cells[j].col as int] - 1] by {
                        assert(rise_supports(cands, nn, 0, 1, j, vals[j]));
                    }
                }
            }
            proof {
                assert forall|q: Position| g0.in_bounds(q) implies (#[trigger] grid.at(q))@ == rise_pruned_upto(thermometer_state(thermometers, tf, &g0, c as nat)[q.row as int][q.col as int], cells, cands, nn, q, 0) by {
                    lemma_rise_pruned_upto_none(thermometer_state(thermometers, tf, &g0, c as nat)[q.row as int][q.col as int], cells, cands, nn, q);
                }
            }
            let mut j: usize = 0;
            while j < thermometer_size
                invariant
                    j <= thermometer_size,
                    thermometer_size == cells.len(),
                    is_thermometer_active@[c as int],
                    shrinks(grid, &g0),
                    marks_changes(&affected_positions, grid, &g0),
                    forall|q: Position|
                        g0.in_bounds(q) && !in_flagged_thermometer(q, thermometers, is_thermometer_active@) ==> #[trigger] grid.at(q) == g0.at(q),
                    forall|sol: Seq<Seq<int>>|
                        fits(sol, &g0) && #[trigger] thermometer_rule(sol, thermometers, nn) ==> fits(sol, grid),
                    forall|sol: Seq<Seq<int>>|
                        fits(sol, &g0) && #[trigger] thermometer_rule(sol, thermometers, nn) ==> values_kept(updated_candidates@, sol, cells),
                    shrinks(grid, &gk),
                    settled0 ==> forall|c2: int|
                        0 <= c2 < c && is_thermometer_active@[c2] && !touches(thermometers[c2].positions@, changed_cells(&gk, &g0)) ==> #[trigger] rise_completes(cells_cands(&gk, thermometers[c2].positions@), (&gk).size() as int, 0, 1),
                    forall|c2: int| 0 <= c2 < c && #[trigger] is_thermometer_active@[c2] ==> rise_pruned(&gk, &g0, thermometers[c2].positions@),
                    updated_candidates@.len() == cells.len(),
                    forall|j2: int| 0 <= j2 < cells.len() ==> (#[trigger] updated_candidates@[j2])@.len() == nn,
                    forall|j2: int, i: int|
                        0 <= j2 < cells.len() && 0 <= i < nn && #[trigger] updated_candidates@[j2]@[i] ==> rise_supports(cands, nn, 0, 1, j2, i + 1),
                    forall|j2: int, v: int|
                        0 <= j2 < j && 1 <= v <= nn && #[trigger] grid.at(cells[j2])@.contains(v) ==> updated_candidates@[j2]@[v
                            - 1],
                    thermometer_removals_unsupported(grid, &g0, thermometers, is_thermometer_active@),
                    g0.wf(),
                    nn == g0.size(),
                    tf == touched_thermometers(thermometers, &active_positions),
                    forall|q: Position| g0.in_bounds(q) ==> (#[trigger] gk.at(q))@ == thermometer_state(thermometers, tf, &g0, c as nat)[q.row as int][q.col as int],
                    forall|j2: int, i: int|
                        0 <= j2 < cells.len() && 0 <= i < nn ==> (#[trigger] updated_candidates@[j2]@[i] == rise_supports(
                            cands,
                            nn,
                            0,
                            1,
                            j2,
                            i + 1,
                        )),
                    forall|q: Position| g0.in_bounds(q) ==> (#[trigger] grid.at(q))@ == rise_pruned_upto(thermometer_state(thermometers, tf, &g0, c as nat)[q.row as int][q.col as int], cells, cands, nn, q, j as int),
                decreases thermometer_size - j,
            {
                let pos = thermometer.positions[j];
                assert(thermometers[c as int].positions@[j as int] == pos);
                assert(grid.in_bounds(pos));
                proof {
                    lemma_rise_drop_none(rise_pruned_upto(thermometer_state(thermometers, tf, &g0, c as nat)[pos.row as int][pos.col as int], cells, cands, nn, pos, j as int), cands, nn, j as int);
                }
                let mut val: usize = 1;
                while val <= n
                    invariant
                        1 <= val <= n + 1,
                        j < thermometer_size,
                        pos == cells[j as int],
                        grid.in_bounds(pos),
                        shrinks(grid, &g0),
                        marks_changes(&affected_positions, grid, &g0),
                        forall|q: Position|
                            g0.in_bounds(q) && !in_flagged_thermometer(q, thermometers, is_thermometer_active@) ==> #[trigger] grid.at(q) == g0.at(q),
                        forall|sol: Seq<Seq<int>>|
                            fits(sol, &g0) && #[trigger] thermometer_rule(sol, thermometers, nn) ==> fits(sol, grid),
                        shrinks(grid, &gk),
                        forall|j2: int, v: int|
                            0 <= j2 < j && 1 <= v <= nn && #[trigger] grid.at(cells[j2])@.contains(v) ==> updated_candidates@[j2]@[v
                                - 1],
                        forall|v: int| 1 <= v < val && #[trigger] grid.at(pos)@.contains(v) ==> updated_candidates@[j as int]@[v - 1],
                        thermometer_removals_unsupported(grid, &g0, thermometers, is_thermometer_active@),
                        g0.wf(),
                        nn == g0.size(),
                        tf == touched_thermometers(thermometers, &active_positions),
                        forall|q: Position| g0.in_bounds(q) ==> (#[trigger] gk.at(q))@ == thermometer_state(thermometers, tf, &g0, c as nat)[q.row as int][q.col as int],
                        forall|j2: int, i: int|
                            0 <= j2 < cells.len() && 0 <= i < nn ==> (#[trigger] updated_candidates@[j2]@[i] == rise_supports(
                                cands,
                                nn,
                                0,
                                1,
                                j2,
                                i + 1,
                            )),
                        forall|q: Position| g0.in_bounds(q) && q != pos ==> (#[trigger] grid.at(q))@ == rise_pruned_upto(thermometer_state(thermometers, tf, &g0, c as nat)[q.row as int][q.col as int], cells, cands, nn, q, j as int),
                        grid.at(pos)@ == rise_drop_unsupported(rise_pruned_upto(thermometer_state(thermometers, tf, &g0, c as nat)[pos.row as int][pos.col as int], cells, cands, nn, pos, j as int), cands, nn, j as int, val as int),
                    decreases n + 1 - val,
                {
                    if !updated_candidates[j][val - 1] && grid.get(pos).contains(val as u8) {
                        let ghost g2 = *grid;
                        let mut cell = *grid.get(pos);
                        cell.remove(val as u8);
                        grid.set(pos, cell);
                        affected_positions.set(pos, true);
                        proof {
                            assert(thermometers[c as int].positions@.contains(pos)) by {
                                assert(thermometers[c as int].positions@[j as int] == pos);
                            }
                            assert forall|q: Position, w: int|
                                g0.in_bounds(q) && g0.at(q)@.contains(w) && !(#[trigger] grid.at(q)@.contains(w)) implies exists|c2: int, j2: int|
                                0 <= c2 < thermometers.len() && is_thermometer_active@[c2] && 0 <= j2 < thermometers[c2].positions@.len()
                                    && thermometers[c2].positions@[j2] == q && #[trigger] rise_unsupported_in(grid, thermometers[c2].positions@, j2, w) by {
                                if g2.at(q)@.contains(w) {
                                    if q != pos {
                                        assert(grid.at(q) == g2.at(q));
                                    }
                                    assert(q == pos);
                                    assert(w == val as int) by {
                                        assert(grid.at(pos)@ == g2.at(pos)@.remove(val as int));
                                    }
                                    assert forall|k: int| 0 <= k < cells.len() implies gk.in_bounds(#[trigger] cells[k]) by {
                                        assert(thermometers[c as int].positions@[k] == cells[k]);
                                    }
                                    assert(g2@[pos.row as int][pos.col as int]@.subset_of(gk@[pos.row as int][pos.col as int]@));
                                    assert(!rise_supports(cands, nn, 0, 1, j as int, (val - 1) + 1));
                                    lemma_rise_unsupported_from(grid, &gk, cells, j as int, w);
                                    assert(thermometers[c as int].positions@ == cells);
                                    assert(rise_unsupported_in(grid, thermometers[c as int].positions@, j as int, w));
                                } else {
                                    let (c2, j2) = choose|c2: int, j2: int|
                                        0 <= c2 < thermometers.len() && is_thermometer_active@[c2] && 0 <= j2 < thermometers[c2].positions@.len()
                                            && thermometers[c2].positions@[j2] == q && #[trigger] rise_unsupported_in(&g2, thermometers[c2].positions@, j2, w);
                                    assert forall|k: int| 0 <= k < thermometers[c2].positions@.len() implies g2.in_bounds(#[trigger] thermometers[c2].positions@[k]) by {
                                    }
                                    lemma_rise_unsupported_shrink(grid, &g2, thermometers[c2].positions@, j2, w);
                                }
                            }
                            assert(in_flagged_thermometer(pos, thermometers, is_thermometer_active@));
                            assert forall|q: Position| q.row < n && q.col < n implies (#[trigger] grid.at(q))@.subset_of(g2.at(q)@) by {
                                if q != pos {
                                    assert(grid.at(q) == g2.at(q));
                                }
                            }
                            assert(grid.at(pos)@ != g0.at(pos)@) by {
                                assert(!grid.at(pos)@.contains(val as int));
                                assert(g0.at(pos)@.contains(val as int));
                            }
                            assert forall|sol: Seq<Seq<int>>|
                                fits(sol, &g0) && #[trigger] thermometer_rule(sol, thermometers, nn) implies fits(sol, grid) by {
                                assert(fits(sol, &g2));
                                assert(values_kept(updated_candidates@, sol, cells));
                                assert(updated_candidates@[j as int]@[sol[cells[j as int].row as int][cells[j as int].col as int] - 1]);
                                assert forall|r: int, cc: int| 0 <= r < n && 0 <= cc < n implies (#[trigger] grid@[r][cc])@.contains(sol[r][cc]) by {
                                    assert(g2@[r][cc]@.contains(sol[r][cc]));
                                }
                            }
                        }
                    }
                    proof {
                        let pp = rise_pruned_upto(thermometer_state(thermometers, tf, &g0, c as nat)[pos.row as int][pos.col as int], cells, cands, nn, pos, j as int);
                        lemma_rise_drop_next(pp, cands, nn, j as int, val as int);
                        assert(updated_candidates@[j as int]@[val - 1] == rise_supports(cands, nn, 0, 1, j as int, (val - 1) + 1));
                        let d = rise_drop_unsupported(pp, cands, nn, j as int, val as int);
                        if !d.contains(val as int) {
                            assert(d.remove(val as int) =~= d);
                        }
                    }
                    val = val + 1;
                }
                proof {
                    assert forall|q: Position| g0.in_bounds(q) implies (#[trigger] grid.at(q))@ == rise_pruned_upto(thermometer_state(thermometers, tf, &g0, c as nat)[q.row as int][q.col as int], cells, cands, nn, q, j + 1) by {
                        lemma_rise_pruned_upto_next(thermometer_state(thermometers, tf, &g0, c as nat)[q.row as int][q.col as int], cells, cands, nn, q, j as int);
                    }
                }
                j = j + 1;
            }
            proof {
                assert(((c + 1) - 1) as nat == c as nat);
                assert(tf[c as int]);
                assert(cands == thermometer_cands(thermometers, tf, &g0, c as int));
                assert forall|q: Position| g0.in_bounds(q) implies (#[trigger] grid.at(q))@ == thermometer_state(thermometers, tf, &g0, (c + 1) as nat)[q.row as int][q.col as int] by {
                    assert((Position { row: (q.row as int) as usize, col: (q.col as int) as usize }) == q);
                }
                assert(!thermometer_fails_at(thermometers, tf, &g0, c as int));
                assert forall|c2: int| 0 <= c2 < c + 1 && #[trigger] is_thermometer_active@[c2] implies rise_completes(cells_cands(&g0, thermometers[c2].positions@), g0.size() as int, 0, 1) by {
                    if c2 == c {
                        let big = cells_cands(&g0, cells);
                        assert(cells == thermometers[c2].positions@);
                        assert forall|i: int| 0 <= i < cands.len() implies (#[trigger] cands[i]).subset_of(big[i]) by {
                            assert(thermometers[c2].positions@[i] == cells[i]);
                            assert(gk.in_bounds(cells[i]));
                            assert(gk@[cells[i].row as int][cells[i].col as int]@.subset_of(g0@[cells[i].row as int][cells[i].col as int]@));
                        }
                        lemma_rise_completes_mono(cands, big, nn, 0, 1);
                    }
                }
                assert forall|c2: int| 0 <= c2 < c + 1 && #[trigger] is_thermometer_active@[c2] implies rise_pruned(
                    grid,
                    &g0,
                    thermometers[c2].positions@,
                ) by {
                    let cs = thermometers[c2].positions@;
                    assert forall|k: int| 0 <= k < cs.len() implies gk.in_bounds(#[trigger] cs[k]) by {
                        assert(thermometers[c2].positions@[k] == cs[k]);
                    }
                    if c2 < c {
                        lemma_rise_pruned_shrink(grid, &gk, &g0, cs);
                    } else {
                        assert(cs == cells);
                        let big = cells_cands(&g0, cells);
                        assert forall|i: int| 0 <= i < cands.len() implies (#[trigger] cands[i]).subset_of(big[i]) by {
                            assert(gk.in_bounds(cells[i]));
                            assert(gk@[cells[i].row as int][cells[i].col as int]@.subset_of(g0@[cells[i].row as int][cells[i].col as int]@));
                        }
                        assert forall|j2: int, v: int|
                            0 <= j2 < cells.len() && 1 <= v <= g0.size() && #[trigger] grid.at(cells[j2])@.contains(v) implies rise_supports(
                            big,
                            g0.size() as int,
                            0,
                            1,
                            j2,
                            v,
                        ) by {
                            assert(updated_candidates@[j2]@[v - 1]);
                            assert(rise_supports(cands, nn, 0, 1, j2, (v - 1) + 1));
                            lemma_rise_supports_mono(cands, big, nn, 0, 1, j2, v);
                        }
                    }
                }
                if settled0 {
                    assert forall|c2: int|
                        0 <= c2 < c + 1 && is_thermometer_active@[c2] && !touches(thermometers[c2].positions@, changed_cells(grid, &g0)) implies #[trigger] rise_completes(cells_cands(grid, thermometers[c2].positions@), (grid).size() as int, 0, 1) by {
                        lemma_cells_kept(&g0, &gk, grid, thermometers[c2].positions@);
                        if c2 == c {
                            assert(thermometers[c2].positions@ == cells);
                        }
                    }
                }
            }
            c = c + 1;
        }
        proof {
            self.lemma_unchanged_outside(&g0, grid, &active_positions, is_thermometer_active@);
            if settled0 {
                assert forall|c: int|
                    0 <= c < self.thermometer_seq().len() && !touches(self.thermometer_seq()[c].positions@, marked_set(&affected_positions)) implies #[trigger] rise_completes(cells_cands(grid, self.thermometer_seq()[c].positions@), (grid).size() as int, 0, 1)
                && rise_pruned(grid, grid, self.thermometer_seq()[c].positions@) by {
                    let cells = thermometers[c].positions@;
                    if touches(cells, changed_cells(grid, &g0)) {
                        let k = choose|k: int| 0 <= k < cells.len() && changed_cells(grid, &g0).contains(#[trigger] cells[k]);
                        assert(affected_positions@[cells[k].row as int][cells[k].col as int]);
                        assert(marked_set(&affected_positions).contains(cells[k]));
                    }
                    if !is_thermometer_active@[c] {
                        assert(!touches(cells, marked_set(&active_positions))) by {
                            if touches(cells, marked_set(&active_positions)) {
                                let k = choose|k: int| 0 <= k < cells.len() && marked_set(&active_positions).contains(#[trigger] cells[k]);
                                assert(active_positions.at(cells[k]));
                            }
                        }
                        lemma_cells_kept(&g0, &g0, grid, cells);
                        assert(rise_completes(cells_cands(&g0, self.thermometer_seq()[c].positions@), (g0).size() as int, 0, 1));
                        lemma_rise_pruned_transfer(&g0, &g0, grid, grid, cells);
                    } else {
                        assert forall|k: int| 0 <= k < cells.len() implies g0.in_bounds(#[trigger] cells[k]) by {
                            assert(thermometers[c].positions@[k] == cells[k]);
                        }
                        lemma_cells_kept(&g0, &g0, grid, cells);
                        lemma_rise_pruned_transfer(grid, &g0, grid, grid, cells);
                    }
                }
            }
        }
        Some(affected_positions)
    }
}

} // verus!

use vstd::prelude::*;
use crate::grid::candidate_cell::CandidateCell;
use crate::grid::candidate_grid::{any_marked, fits, marks_changes, no_empty_cell, shrinks, CandidateGrid};
use crate::grid::grid::Grid;
use crate::grid::position::Position;
use crate::constraints::constraint::{changed_cells, fixed_to, marked_set};

verus! {

/// Whether any cell of `grid` is marked.
pub fn is_any_true(grid: &Grid<bool>) -> (r: bool)
    requires
        grid.wf(),
    ensures
        r == any_marked(grid),
{
    let n = grid.grid_size();
    let mut row: usize = 0;
    while row < n
        invariant
            grid.wf(),
            n == grid.size(),
            row <= n,
            forall|r: int, c: int| 0 <= r < row && 0 <= c < n ==> !#[trigger] grid@[r][c],
        decreases n - row,
    {
        let mut col: usize = 0;
        while col < n
            invariant
                grid.wf(),
                n == grid.size(),
                row < n,
                col <= n,
                forall|r: int, c: int| 0 <= r < row && 0 <= c < n ==> !#[trigger] grid@[r][c],
                forall|c: int| 0 <= c < col ==> !#[trigger] grid@[row as int][c],
            decreases n - col,
        {
            let pos = Position { row, col };
            if *grid.get(pos) {
                assert(grid@[row as int][col as int]);
                return true;
            }
            col = col + 1;
        }
        row = row + 1;
    }
    false
}

/// Adds one to the count of every marked cell.
pub fn increment_count(counter: &mut Grid<u8>, active_positions: &Grid<bool>)
    requires
        old(counter).wf(),
        active_positions.wf(),
        active_positions.size() == old(counter).size(),
        forall|r: int, c: int|
            0 <= r < old(counter).size() && 0 <= c < old(counter).size() && #[trigger] active_positions@[r][c]
                ==> old(counter)@[r][c] < 255,
    ensures
        final(counter).wf(),
        final(counter).same_shape(old(counter)),
        forall|r: int, c: int|
            0 <= r < old(counter).size() && 0 <= c < old(counter).size() ==> #[trigger] final(counter)@[r][c]
                == old(counter)@[r][c] + (if active_positions@[r][c] { 1int } else { 0int }),
{
    let n = counter.grid_size();
    let ghost start = counter@;
    let mut row: usize = 0;
    while row < n
        invariant
            counter.wf(),
            counter.same_shape(old(counter)),
            start == old(counter)@,
            active_positions.wf(),
            n == counter.size(),
            active_positions.size() == n,
            row <= n,
            forall|r: int, c: int|
                0 <= r < n && 0 <= c < n && #[trigger] active_positions@[r][c] ==> start[r][c] < 255,
            forall|r: int, c: int| 0 <= r < row && 0 <= c < n ==> #[trigger] counter@[r][c]
                == start[r][c] + (if active_positions@[r][c] { 1int } else { 0int }),
            forall|r: int, c: int| row <= r < n && 0 <= c < n ==> #[trigger] counter@[r][c] == start[r][c],
        decreases n - row,
    {
        let mut col: usize = 0;
        while col < n
            invariant
                counter.wf(),
                counter.same_shape(old(counter)),
                start == old(counter)@,
                active_positions.wf(),
                n == counter.size(),
                active_positions.size() == n,
                row < n,
                col <= n,
                forall|r: int, c: int|
                    0 <= r < n && 0 <= c < n && #[trigger] active_positions@[r][c] ==> start[r][c] < 255,
                forall|r: int, c: int| 0 <= r < row && 0 <= c < n ==> #[trigger] counter@[r][c]
                    == start[r][c] + (if active_positions@[r][c] { 1int } else { 0int }),
                forall|c: int| 0 <= c < col ==> #[trigger] counter@[row as int][c]
                    == start[row as int][c] + (if active_positions@[row as int][c] { 1int } else { 0int }),
                forall|r: int, c: int| row < r < n && 0 <= c < n ==> #[trigger] counter@[r][c] == start[r][c],
                forall|c: int| col <= c < n ==> #[trigger] counter@[row as int][c] == start[row as int][c],
            decreases n - col,
        {
            let pos = Position { row, col };
            if *active_positions.get(pos) {
                let v = *counter.get(pos);
                counter.set(pos, v + 1);
            }
            col = col + 1;
        }
        row = row + 1;
    }
}

/// Takes one from the count of every marked cell.
pub fn decrement_count(counter: &mut Grid<u8>, active_positions: &Grid<bool>)
    requires
        old(counter).wf(),
        active_positions.wf(),
        active_positions.size() == old(counter).size(),
        forall|r: int, c: int|
            0 <= r < old(counter).size() && 0 <= c < old(counter).size() && #[trigger] active_positions@[r][c]
                ==> old(counter)@[r][c] > 0,
    ensures
        final(counter).wf(),
        final(counter).same_shape(old(counter)),
        forall|r: int, c: int|
            0 <= r < old(counter).size() && 0 <= c < old(counter).size() ==> #[trigger] final(counter)@[r][c]
                == old(counter)@[r][c] - (if active_positions@[r][c] { 1int } else { 0int }),
{
    let n = counter.grid_size();
    let ghost start = counter@;
    let mut row: usize = 0;
    while row < n
        invariant
            counter.wf(),
            counter.same_shape(old(counter)),
            start == old(counter)@,
            active_positions.wf(),
            n == counter.size(),
            active_positions.size() == n,
            row <= n,
            forall|r: int, c: int|
                0 <= r < n && 0 <= c < n && #[trigger] active_positions@[r][c] ==> start[r][c] > 0,
            forall|r: int, c: int| 0 <= r < row && 0 <= c < n ==> #[trigger] counter@[r][c]
                == start[r][c] - (if active_positions@[r][c] { 1int } else { 0int }),
            forall|r: int, c: int| row <= r < n && 0 <= c < n ==> #[trigger] counter@[r][c] == start[r][c],
        decreases n - row,
    {
        let mut col: usize = 0;
        while col < n
            invariant
                counter.wf(),
                counter.same_shape(old(counter)),
                start == old(counter)@,
                active_positions.wf(),
                n == counter.size(),
                active_positions.size() == n,
                row < n,
                col <= n,
                forall|r: int, c: int|
                    0 <= r < n && 0 <= c < n && #[trigger] active_positions@[r][c] ==> start[r][c] > 0,
                forall|r: int, c: int| 0 <= r < row && 0 <= c < n ==> #[trigger] counter@[r][c]
                    == start[r][c] - (if active_positions@[r][c] { 1int } else { 0int }),
                forall|c: int| 0 <= c < col ==> #[trigger] counter@[row as int][c]
                    == start[row as int][c] - (if active_positions@[row as int][c] { 1int } else { 0int }),
                forall|r: int, c: int| row < r < n && 0 <= c < n ==> #[trigger] counter@[r][c] == start[r][c],
                forall|c: int| col <= c < n ==> #[trigger] counter@[row as int][c] == start[row as int][c],
            decreases n - col,
        {
            let pos = Position { row, col };
            if *active_positions.get(pos) {
                let v = *counter.get(pos);
                counter.set(pos, v - 1);
            }
            col = col + 1;
        }
        row = row + 1;
    }
}

/// The grid that marks every cell whose count is above zero.
pub fn aggregate(counter: &Grid<u8>) -> (r: Grid<bool>)
    requires
        counter.wf(),
    ensures
        r.wf(),
        r.same_shape(counter),
        forall|i: int, j: int|
            0 <= i < counter.size() && 0 <= j < counter.size() ==> (#[trigger] r@[i][j] <==> counter@[i][j] > 0),
{
    let n = counter.grid_size();
    let mut result = Grid::from_default(counter.region_rows(), counter.region_cols(), false);
    let mut row: usize = 0;
    while row < n
        invariant
            counter.wf(),
            result.wf(),
            result.same_shape(counter),
            n == counter.size(),
            row <= n,
            forall|r: int, c: int| 0 <= r < row && 0 <= c < n ==> (#[trigger] result@[r][c] <==> counter@[r][c] > 0),
            forall|r: int, c: int| row <= r < n && 0 <= c < n ==> !#[trigger] result@[r][c],
        decreases n - row,
    {
        let mut col: usize = 0;
        while col < n
            invariant
                counter.wf(),
                result.wf(),
                result.same_shape(counter),
                n == counter.size(),
                row < n,
                col <= n,
                forall|r: int, c: int| 0 <= r < row && 0 <= c < n ==> (#[trigger] result@[r][c] <==> counter@[r][c] > 0),
                forall|c: int| 0 <= c < col ==> (#[trigger] result@[row as int][c] <==> counter@[row as int][c] > 0),
                forall|r: int, c: int| row < r < n && 0 <= c < n ==> !#[trigger] result@[r][c],
                forall|c: int| col <= c < n ==> !#[trigger] result@[row as int][c],
            decreases n - col,
        {
            let pos = Position { row, col };
            if *counter.get(pos) > 0 {
                result.set(pos, true);
            }
            col = col + 1;
        }
        row = row + 1;
    }
    result
}

/// Marks in `accumulated` every cell that `active_positions` marks. `accumulated` may be
/// larger; its other cells stay as they are.
pub fn accumulate(active_positions: &Grid<bool>, accumulated: &mut Grid<bool>)
    requires
        active_positions.wf(),
        old(accumulated).wf(),
        active_positions.size() <= old(accumulated).size(),
    ensures
        final(accumulated).wf(),
        final(accumulated).same_shape(old(accumulated)),
        forall|r: int, c: int|
            0 <= r < active_positions.size() && 0 <= c < active_positions.size() ==> (#[trigger] final(accumulated)@[r][c]
                <==> old(accumulated)@[r][c] || active_positions@[r][c]),
        forall|r: int, c: int|
            0 <= r < old(accumulated).size() && 0 <= c < old(accumulated).size() && !(r < active_positions.size()
                && c < active_positions.size()) ==> #[trigger] final(accumulated)@[r][c] == old(accumulated)@[r][c],
{
    let n = active_positions.grid_size();
    let ghost m = accumulated.size();
    let ghost start = accumulated@;
    let mut row: usize = 0;
    while row < n
        invariant
            accumulated.wf(),
            accumulated.same_shape(old(accumulated)),
            start == old(accumulated)@,
            active_positions.wf(),
            m == accumulated.size(),
            n == active_positions.size(),
            n <= m,
            row <= n,
            forall|r: int, c: int| 0 <= r < row && 0 <= c < n ==> (#[trigger] accumulated@[r][c]
                <==> start[r][c] || active_positions@[r][c]),
            forall|r: int, c: int|
                0 <= r < m && 0 <= c < m && !(r < row && c < n) ==> #[trigger] accumulated@[r][c] == start[r][c],
        decreases n - row,
    {
        let mut col: usize = 0;
        while col < n
            invariant
                accumulated.wf(),
                accumulated.same_shape(old(accumulated)),
                start == old(accumulated)@,
                active_positions.wf(),
                m == accumulated.size(),
                n == active_positions.size(),
                n <= m,
                row < n,
                col <= n,
                forall|r: int, c: int| 0 <= r < row && 0 <= c < n ==> (#[trigger] accumulated@[r][c]
                    <==> start[r][c] || active_positions@[r][c]),
                forall|c: int| 0 <= c < col ==> (#[trigger] accumulated@[row as int][c]
                    <==> start[row as int][c] || active_positions@[row as int][c]),
                forall|r: int, c: int|
                    0 <= r < m && 0 <= c < m && !(r < row && c < n) && !(r == row && c < col) ==> #[trigger] accumulated@[r][c]
                        == start[r][c],
            decreases n - col,
        {
            let pos = Position { row, col };
            if *active_positions.get(pos) {
                accumulated.set(pos, true);
            }
            col = col + 1;
        }
        row = row + 1;
    }
}

/// `q` is among the positions that `f` gives for `p`.
pub open spec fn peer_of<F: Fn(Position) -> Vec<Position>>(f: F, p: Position, q: Position) -> bool {
    exists|out: Vec<Position>| #[trigger] call_ensures(f, (p,), out) && out@.contains(q)
}

/// `f` has given some positions for `p`.
pub open spec fn has_output<F: Fn(Position) -> Vec<Position>>(f: F, p: Position) -> bool {
    exists|out: Vec<Position>| #[trigger] call_ensures(f, (p,), out)
}

/// What `f` gives for `p` lacks the candidate `v` everywhere in `g`.
pub open spec fn cleared<F: Fn(Position) -> Vec<Position>>(f: F, g: &CandidateGrid, p: Position, v: int) -> bool {
    exists|out: Vec<Position>|
        #[trigger] call_ensures(f, (p,), out) && forall|j: int| 0 <= j < out@.len() ==> !(#[trigger] g.at(out@[j]))@.contains(v)
}

/// `f` can be called on every position of a grid of side `n`, gives the same positions
/// for the same argument, and gives only positions inside the grid.
pub open spec fn peer_fn_ok<F: Fn(Position) -> Vec<Position>>(f: F, n: nat) -> bool {
    &&& forall|p: Position| p.row < n && p.col < n ==> #[trigger] call_requires(f, (p,))
    &&& forall|p: Position, o1: Vec<Position>, o2: Vec<Position>, q: Position|
        #![trigger call_ensures(f, (p,), o1), call_ensures(f, (p,), o2), o1@.contains(q)]
        call_ensures(f, (p,), o1) && call_ensures(f, (p,), o2) ==> (o1@.contains(q) <==> o2@.contains(q))
    &&& forall|p: Position, out: Vec<Position>, k: int|
        #![trigger call_ensures(f, (p,), out), out@[k]]
        p.row < n && p.col < n && call_ensures(f, (p,), out) && 0 <= k < out@.len()
            ==> out@[k].row < n && out@[k].col < n
}

/// In the assignment `sol`, every cell holds a value that differs from the values of
/// the cells that `f` gives for it.
pub open spec fn peers_differ<F: Fn(Position) -> Vec<Position>>(f: F, sol: Seq<Seq<int>>, n: nat) -> bool {
    forall|p: Position, q: Position|
        p.row < n && p.col < n && #[trigger] peer_of(f, p, q)
            ==> sol[p.row as int][p.col as int] != sol[q.row as int][q.col as int]
}

/// The cell that a row-major walk over a grid of side `n` visits at step `i`.
pub open spec fn walk_pos(i: int, n: nat) -> Position {
    Position { row: (i / (n as int)) as usize, col: (i % (n as int)) as usize }
}

/// The candidates of cell `q` after the first `i` steps of a row-major walk from `g0`,
/// in which the visited cell, when marked in `active` and holding a single candidate at
/// that moment, takes that candidate from every cell that `f` gives for it.
pub open spec fn cands_after<F: Fn(Position) -> Vec<Position>>(
    f: F,
    active: &Grid<bool>,
    g0: &CandidateGrid,
    i: nat,
    q: Position,
) -> Set<int>
    decreases i,
{
    if i == 0 {
        g0.at(q)@
    } else {
        let p = walk_pos(i - 1, g0.size());
        let here = cands_after(f, active, g0, (i - 1) as nat, p);
        let s = cands_after(f, active, g0, (i - 1) as nat, q);
        if active.at(p) && here.len() == 1 && peer_of(f, p, q) {
            s.difference(here)
        } else {
            s
        }
    }
}

/// A walk only takes candidates away.
pub proof fn lemma_cands_after_mono<F: Fn(Position) -> Vec<Position>>(
    f: F,
    active: &Grid<bool>,
    g0: &CandidateGrid,
    i: nat,
    j: nat,
    q: Position,
)
    requires
        i <= j,
    ensures
        cands_after(f, active, g0, j, q).subset_of(cands_after(f, active, g0, i, q)),
    decreases j - i,
{
    if i < j {
        lemma_cands_after_mono(f, active, g0, i, (j - 1) as nat, q);
    }
}

/// Step `row * n + col` of the walk visits `(row, col)`.
proof fn lemma_walk_pos(row: usize, col: usize, n: nat)
    requires
        col < n,
    ensures
        walk_pos(row * n + col, n) == (Position { row, col }),
{
    vstd::arithmetic::div_mod::lemma_fundamental_div_mod_converse(row * n + col, n as int, row as int, col as int);
}

/// A step whose visited cell is unmarked or does not hold a single candidate changes nothing.
proof fn lemma_walk_step_skip<F: Fn(Position) -> Vec<Position>>(
    f: F,
    active: &Grid<bool>,
    g0: &CandidateGrid,
    i: nat,
    p: Position,
)
    requires
        walk_pos(i as int, g0.size()) == p,
        !active.at(p) || cands_after(f, active, g0, i, p).len() != 1,
    ensures
        forall|q: Position| #[trigger] cands_after(f, active, g0, i + 1, q) == cands_after(f, active, g0, i, q),
{
    assert forall|q: Position| #[trigger] cands_after(f, active, g0, i + 1, q) == cands_after(f, active, g0, i, q) by {
        assert(((i + 1) - 1) as nat == i);
    }
}

/// A step whose visited cell is marked and holds the single candidate `v` takes `v`
/// from exactly the cells that `f` gives for it.
proof fn lemma_walk_step_fixed<F: Fn(Position) -> Vec<Position>>(
    f: F,
    active: &Grid<bool>,
    g0: &CandidateGrid,
    i: nat,
    p: Position,
    v: int,
    out: Vec<Position>,
)
    requires
        walk_pos(i as int, g0.size()) == p,
        peer_fn_ok(f, g0.size()),
        active.at(p),
        cands_after(f, active, g0, i, p) == set![v],
        call_ensures(f, (p,), out),
    ensures
        forall|q: Position| #[trigger] cands_after(f, active, g0, i + 1, q) == (if out@.contains(q) {
            cands_after(f, active, g0, i, q).remove(v)
        } else {
            cands_after(f, active, g0, i, q)
        }),
{
    assert(set![v].len() == 1);
    assert forall|q: Position| #[trigger] cands_after(f, active, g0, i + 1, q) == (if out@.contains(q) {
        cands_after(f, active, g0, i, q).remove(v)
    } else {
        cands_after(f, active, g0, i, q)
    }) by {
        assert(((i + 1) - 1) as nat == i);
        if out@.contains(q) {
            assert(peer_of(f, p, q));
            assert(cands_after(f, active, g0, i, q).difference(set![v]) =~= cands_after(f, active, g0, i, q).remove(v));
        }
        if peer_of(f, p, q) {
            let o = choose|o: Vec<Position>| #[trigger] call_ensures(f, (p,), o) && o@.contains(q);
            assert(out@.contains(q));
        }
    }
}

/// The candidates of `q` partway through step `i` of the walk, once the single
/// candidate `v` of the visited cell has been taken from the first `k` cells of `out`.
pub open spec fn cands_partway<F: Fn(Position) -> Vec<Position>>(
    f: F,
    active: &Grid<bool>,
    g0: &CandidateGrid,
    i: nat,
    out: Seq<Position>,
    v: int,
    k: int,
    q: Position,
) -> Set<int> {
    if out.take(k).contains(q) {
        cands_after(f, active, g0, i, q).remove(v)
    } else {
        cands_after(f, active, g0, i, q)
    }
}

/// Removal `k` of step `i` takes `v` from the cell `out[k]` and leaves it empty.
pub open spec fn empties_at<F: Fn(Position) -> Vec<Position>>(
    f: F,
    active: &Grid<bool>,
    g0: &CandidateGrid,
    i: nat,
    out: Seq<Position>,
    v: int,
    k: int,
) -> bool {
    &&& cands_partway(f, active, g0, i, out, v, k, out[k]).contains(v)
    &&& cands_partway(f, active, g0, i, out, v, k + 1, out[k]) == Set::<int>::empty()
}

/// The walk from `g0` first empties a cell at removal `k` of step `i`: the cell visited
/// at that step is marked and holds the single candidate `v`, `out` is what `f` gives for
/// it, no earlier step emptied a cell and no earlier removal of this step did.
pub open spec fn walk_stops_at<F: Fn(Position) -> Vec<Position>>(
    f: F,
    active: &Grid<bool>,
    g0: &CandidateGrid,
    i: nat,
    out: Vec<Position>,
    v: int,
    k: int,
) -> bool {
    let n = g0.size();
    let p = walk_pos(i as int, n);
    &&& i < n * n
    &&& active.at(p)
    &&& cands_after(f, active, g0, i, p) == set![v]
    &&& call_ensures(f, (p,), out)
    &&& 0 <= k < out@.len()
    &&& forall|q: Position|
        q.row < n && q.col < n && #[trigger] cands_after(f, active, g0, i, q) == Set::<int>::empty()
            ==> g0.at(q)@ == Set::<int>::empty()
    &&& forall|k2: int| 0 <= k2 < k ==> !#[trigger] empties_at(f, active, g0, i, out@, v, k2)
    &&& empties_at(f, active, g0, i, out@, v, k)
}

/// Visits the cells in row-major order; for every marked cell of `active_positions`
/// that holds a single candidate when it is visited, removes that candidate from the
/// cells that `f` gives for it. Gives `None` as soon as a cell loses its last candidate;
/// else the grid of the cells that lost a candidate.
pub fn update_grid_for_position<F>(
    grid: &mut CandidateGrid,
    active_positions: Grid<bool>,
    peers_of: F,
) -> (r: Option<Grid<bool>>)
    where
        F: Fn(Position) -> Vec<Position>,
    requires
        old(grid).wf(),
        old(grid).size() <= 64,
        active_positions.wf(),
        active_positions.size() == old(grid).size(),
        peer_fn_ok(peers_of, old(grid).size()),
    ensures
        shrinks(final(grid), old(grid)),
        r matches Some(a) ==> marks_changes(&a, final(grid), old(grid)),
        r is Some && no_empty_cell(old(grid)) ==> no_empty_cell(final(grid)),
        r is None ==> exists|q: Position| #[trigger] final(grid).in_bounds(q) && final(grid).at(q)@.len() == 0,
        // every candidate that went was the single candidate of a marked cell that has
        // the cell that lost it as a peer
        forall|q: Position, v: int|
            q.row < old(grid).size() && q.col < old(grid).size() && old(grid).at(q)@.contains(v)
                && !(#[trigger] final(grid).at(q)@.contains(v))
                ==> exists|p: Position|
                    p.row < old(grid).size() && p.col < old(grid).size() && #[trigger] active_positions.at(p)
                        && old(grid).at(p)@.contains(v) && peer_of(peers_of, p, q),
        // the single candidate of a marked cell is gone from all its peers
        r is Some ==> forall|p: Position, q: Position, v: int|
            p.row < old(grid).size() && p.col < old(grid).size() && active_positions.at(p)
                && old(grid).at(p)@ == set![v] && #[trigger] peer_of(peers_of, p, q)
                ==> !(#[trigger] final(grid).at(q)@.contains(v)),
        r is Some ==> forall|p: Position, v: int|
            p.row < old(grid).size() && p.col < old(grid).size() && active_positions.at(p)
                && old(grid).at(p)@ == set![v] ==> #[trigger] cleared(peers_of, final(grid), p, v),
        // the cells are walked in row-major order, and the result is that of the walk
        r is Some ==> forall|q: Position|
            q.row < old(grid).size() && q.col < old(grid).size() ==> (#[trigger] final(grid).at(q))@
                == cands_after(peers_of, &active_positions, old(grid), old(grid).size() * old(grid).size(), q),
        r is Some ==> forall|q: Position|
            q.row < old(grid).size() && q.col < old(grid).size() && (#[trigger] final(grid).at(q))@.len() == 0
                ==> old(grid).at(q)@.len() == 0,
        // on `None`, the grid is the walk stopped right after the removal that emptied a cell
        r is None ==> exists|i: nat, out: Vec<Position>, v: int, k: int|
            #[trigger] walk_stops_at(peers_of, &active_positions, old(grid), i, out, v, k) && forall|q: Position|
                q.row < old(grid).size() && q.col < old(grid).size() ==> (#[trigger] final(grid).at(q))@
                    == cands_partway(peers_of, &active_positions, old(grid), i, out@, v, k + 1, q),
        r is None <==> exists|q: Position|
            q.row < old(grid).size() && q.col < old(grid).size() && (#[trigger] old(grid).at(q))@.len() > 0
                && cands_after(peers_of, &active_positions, old(grid), old(grid).size() * old(grid).size(), q)
                == Set::<int>::empty(),
        // no assignment that keeps peers apart is lost
        forall|sol: Seq<Seq<int>>|
            fits(sol, old(grid)) && peers_differ(peers_of, sol, old(grid).size())
                ==> r is Some && #[trigger] fits(sol, final(grid)),
{
    let n = grid.grid_size();
    let ghost g0 = *grid;
    let mut affected_positions = Grid::from_default(grid.region_rows(), grid.region_cols(), false);
    let mut row: usize = 0;
    while row < n
        invariant
            n == g0.size(),
            g0 == *old(grid),
            g0.wf(),
            n <= 64,
            active_positions.wf(),
            active_positions.size() == n,
            peer_fn_ok(peers_of, n as nat),
            row <= n,
            shrinks(grid, &g0),
            forall|q: Position|
                q.row < n && q.col < n ==> (#[trigger] grid.at(q))@ == cands_after(peers_of, &active_positions, &g0, (row * n) as nat, q),
            marks_changes(&affected_positions, grid, &g0),
            forall|r: int, c: int|
                0 <= r < n && 0 <= c < n && (#[trigger] grid@[r][c])@.len() == 0 ==> g0@[r][c]@.len() == 0,
            forall|q: Position, v: int|
                q.row < n && q.col < n && g0.at(q)@.contains(v) && !(#[trigger] grid.at(q)@.contains(v))
                    ==> exists|p: Position|
                        p.row < n && p.col < n && #[trigger] active_positions.at(p) && g0.at(p)@.contains(v)
                            && peer_of(peers_of, p, q),
            forall|p: Position, q: Position, v: int|
                p.row < row && p.col < n && active_positions.at(p) && g0.at(p)@ == set![v]
                    && #[trigger] peer_of(peers_of, p, q) ==> !(#[trigger] grid.at(q)@.contains(v)),
            forall|p: Position|
                p.row < row && p.col < n && active_positions.at(p) && (exists|w: int| g0.at(p)@ == set![w])
                    ==> #[trigger] has_output(peers_of, p),
            forall|sol: Seq<Seq<int>>|
                fits(sol, &g0) && peers_differ(peers_of, sol, n as nat) ==> #[trigger] fits(sol, grid),
        decreases n - row,
    {
        let mut col: usize = 0;
        while col < n
            invariant
                n == g0.size(),
                g0 == *old(grid),
                g0.wf(),
                n <= 64,
                active_positions.wf(),
                active_positions.size() == n,
                peer_fn_ok(peers_of, n as nat),
                row < n,
                col <= n,
                shrinks(grid, &g0),
                forall|q: Position|
                    q.row < n && q.col < n ==> (#[trigger] grid.at(q))@ == cands_after(peers_of, &active_positions, &g0, (row * n + col) as nat, q),
                marks_changes(&affected_positions, grid, &g0),
                forall|r: int, c: int|
                    0 <= r < n && 0 <= c < n && (#[trigger] grid@[r][c])@.len() == 0 ==> g0@[r][c]@.len() == 0,
                forall|q: Position, v: int|
                    q.row < n && q.col < n && g0.at(q)@.contains(v) && !(#[trigger] grid.at(q)@.contains(v))
                        ==> exists|p: Position|
                            p.row < n && p.col < n && #[trigger] active_positions.at(p) && g0.at(p)@.contains(v)
                                && peer_of(peers_of, p, q),
                forall|p: Position, q: Position, v: int|
                    (p.row < row || (p.row == row && p.col < col)) && p.col < n && active_positions.at(p)
                        && g0.at(p)@ == set![v] && #[trigger] peer_of(peers_of, p, q) ==> !(#[trigger] grid.at(q)@.contains(v)),
                forall|p: Position|
                    (p.row < row || (p.row == row && p.col < col)) && p.col < n && active_positions.at(p)
                        && (exists|w: int| g0.at(p)@ == set![w]) ==> #[trigger] has_output(peers_of, p),
                forall|sol: Seq<Seq<int>>|
                    fits(sol, &g0) && peers_differ(peers_of, sol, n as nat) ==> #[trigger] fits(sol, grid),
            decreases n - col,
        {
            let pos = Position { row, col };
            if !*active_positions.get(pos) {
                proof {
                    lemma_walk_pos(row, col, n as nat);
                    grid.at(pos).lemma_view_bounds();
                    lemma_walk_step_skip(peers_of, &active_positions, &g0, (row * n + col) as nat, pos);
                }
                col = col + 1;
                continue;
            }
            let value = match grid.get(pos).fixed_value() {
                Some(val) => val,
                None => {
                    proof {
                        grid.at(pos).lemma_view_bounds();
                        g0.at(pos).lemma_view_bounds();
                        if g0.at(pos)@.len() == 1 {
                            vstd::set_lib::lemma_len_subset(grid.at(pos)@, g0.at(pos)@);
                            assert(grid@[row as int][col as int]@.len() == 0);
                            assert(false);
                        }
                        assert forall|w: int| g0.at(pos)@ != set![w] by {
                            assert(set![w].len() == 1);
                        }
                        lemma_walk_pos(row, col, n as nat);
                        lemma_walk_step_skip(peers_of, &active_positions, &g0, (row * n + col) as nat, pos);
                    }
                    col = col + 1;
                    continue;
                },
            };
            let ghost v = value as int;
            let ghost g1 = *grid;
            proof {
                grid.at(pos).lemma_view_bounds();
                assert(grid.at(pos)@.contains(v));
            }
            let positions_to_update = peers_of(pos);
            let mut k: usize = 0;
            while k < positions_to_update.len()
                invariant
                    n == g0.size(),
                    g0 == *old(grid),
                    g0.wf(),
                    n <= 64,
                    active_positions.wf(),
                    active_positions.size() == n,
                    peer_fn_ok(peers_of, n as nat),
                    row < n,
                    col < n,
                    pos == (Position { row, col }),
                    active_positions.at(pos),
                    call_ensures(peers_of, (pos,), positions_to_update),
                    1 <= v <= 64,
                    v == value,
                    g1.at(pos)@ == set![v],
                    shrinks(&g1, &g0),
                    shrinks(grid, &g1),
                    k <= positions_to_update@.len(),
                    forall|q: Position| q.row < n && q.col < n ==> (#[trigger] g1.at(q))@ == cands_after(peers_of, &active_positions, &g0, (row * n + col) as nat, q),
                    forall|q: Position|
                        q.row < n && q.col < n ==> (#[trigger] grid.at(q))@ == (if positions_to_update@.take(k as int).contains(q) {
                            cands_after(peers_of, &active_positions, &g0, (row * n + col) as nat, q).remove(v)
                        } else {
                            cands_after(peers_of, &active_positions, &g0, (row * n + col) as nat, q)
                        }),
                    shrinks(grid, &g0),
                    marks_changes(&affected_positions, grid, &g0),
                    forall|r: int, c: int|
                        0 <= r < n && 0 <= c < n && (#[trigger] grid@[r][c])@.len() == 0 ==> g0@[r][c]@.len() == 0,
                    forall|q: Position, w: int|
                        q.row < n && q.col < n && g0.at(q)@.contains(w) && !(#[trigger] grid.at(q)@.contains(w))
                            ==> exists|p: Position|
                                p.row < n && p.col < n && #[trigger] active_positions.at(p) && g0.at(p)@.contains(w)
                                    && peer_of(peers_of, p, q),
                    forall|p: Position, q: Position, w: int|
                        (p.row < row || (p.row == row && p.col < col)) && p.col < n && active_positions.at(p)
                            && g0.at(p)@ == set![w] && #[trigger] peer_of(peers_of, p, q) ==> !(#[trigger] grid.at(q)@.contains(w)),
                    forall|p: Position|
                        (p.row < row || (p.row == row && p.col < col)) && p.col < n && active_positions.at(p)
                            && (exists|w: int| g0.at(p)@ == set![w]) ==> #[trigger] has_output(peers_of, p),
                    forall|j: int| 0 <= j < k ==> !(#[trigger] grid.at(positions_to_update@[j]))@.contains(v),
                    forall|r: int, c: int|
                        0 <= r < n && 0 <= c < n && (#[trigger] g1@[r][c])@.len() == 0 ==> g0@[r][c]@.len() == 0,
                    forall|k2: int|
                        0 <= k2 < k ==> !#[trigger] empties_at(peers_of, &active_positions, &g0, (row * n + col) as nat, positions_to_update@, v, k2),
                    forall|sol: Seq<Seq<int>>|
                        fits(sol, &g0) && peers_differ(peers_of, sol, n as nat) ==> #[trigger] fits(sol, grid),
                decreases positions_to_update@.len() - k,
            {
                let position = positions_to_update[k];
                assert(position.row < n && position.col < n);
                if !grid.get(position).contains(value) {
                    proof {
                        assert(positions_to_update@.take(k + 1) =~= positions_to_update@.take(k as int).push(position));
                        assert(!empties_at(peers_of, &active_positions, &g0, (row * n + col) as nat, positions_to_update@, v, k as int)) by {
                            assert(grid.at(position)@ == cands_partway(peers_of, &active_positions, &g0, (row * n + col) as nat, positions_to_update@, v, k as int, position));
                        }
                    }
                    k = k + 1;
                    continue;
                }
                let ghost g2 = *grid;
                let mut cell = *grid.get(position);
                cell.remove(value);
                grid.set(position, cell);
                proof {
                    assert(positions_to_update@.take(k + 1) =~= positions_to_update@.take(k as int).push(position));
                    assert forall|q: Position| q.row < n && q.col < n implies (#[trigger] grid.at(q))@ == (if positions_to_update@.take(k + 1).contains(q) {
                        cands_after(peers_of, &active_positions, &g0, (row * n + col) as nat, q).remove(v)
                    } else {
                        cands_after(peers_of, &active_positions, &g0, (row * n + col) as nat, q)
                    }) by {
                        if q != position {
                            assert(grid.at(q) == g2.at(q));
                            assert(positions_to_update@.take(k + 1).contains(q) == positions_to_update@.take(k as int).contains(q));
                        } else {
                            assert(positions_to_update@.take(k + 1)[k as int] == q);
                            assert(positions_to_update@.take(k + 1).contains(q));
                            if positions_to_update@.take(k as int).contains(q) {
                                assert(g2.at(q)@.remove(v) =~= g2.at(q)@);
                            }
                        }
                    }
                    assert forall|q: Position| q.row < n && q.col < n implies (#[trigger] grid.at(q))@.subset_of(g2.at(q)@) by {
                        if q != position {
                            assert(grid.at(q) == g2.at(q));
                        }
                    }
                    assert forall|j: int| 0 <= j < k + 1 implies !(#[trigger] grid.at(positions_to_update@[j]))@.contains(v) by {
                        let q = positions_to_update@[j];
                        assert(q.row < n && q.col < n);
                        if j < k {
                            assert(!g2.at(q)@.contains(v));
                            assert(grid.at(q)@.subset_of(g2.at(q)@));
                        }
                    }
                    assert forall|p: Position, q: Position, w: int|
                        (p.row < row || (p.row == row && p.col < col)) && p.col < n && active_positions.at(p)
                            && g0.at(p)@ == set![w] && #[trigger] peer_of(peers_of, p, q) implies !(#[trigger] grid.at(q)@.contains(w)) by {
                        let out = choose|out: Vec<Position>| #[trigger] call_ensures(peers_of, (p,), out) && out@.contains(q);
                        let j = choose|j: int| 0 <= j < out@.len() && out@[j] == q;
                        assert(q.row < n && q.col < n);
                        assert(!g2.at(q)@.contains(w));
                        assert(grid.at(q)@.subset_of(g2.at(q)@));
                    }
                    assert(peer_of(peers_of, pos, position)) by {
                        assert(call_ensures(peers_of, (pos,), positions_to_update) && positions_to_update@[k as int] == position);
                        assert(positions_to_update@.contains(position));
                    }
                    assert forall|q: Position, w: int|
                        q.row < n && q.col < n && g0.at(q)@.contains(w) && !(#[trigger] grid.at(q)@.contains(w))
                        implies exists|p: Position|
                            p.row < n && p.col < n && #[trigger] active_positions.at(p) && g0.at(p)@.contains(w)
                                && peer_of(peers_of, p, q) by {
                        if q == position && w == v && g2.at(q)@.contains(w) {
                            assert(g1.at(pos)@.contains(v));
                            assert(g0.at(pos)@.contains(v));
                            assert(active_positions.at(pos) && peer_of(peers_of, pos, q));
                        } else {
                            assert(!g2.at(q)@.contains(w));
                        }
                    }
                    assert forall|sol: Seq<Seq<int>>|
                        fits(sol, &g0) && peers_differ(peers_of, sol, n as nat) implies #[trigger] fits(sol, grid) by {
                        assert(fits(sol, &g2));
                        assert(g2.at(pos)@.contains(sol[row as int][col as int]));
                        assert(g1.at(pos)@.contains(sol[row as int][col as int]));
                        assert(sol[row as int][col as int] == v);
                        assert(sol[position.row as int][position.col as int] != v);
                        assert forall|r: int, c: int| 0 <= r < n && 0 <= c < n implies (#[trigger] grid@[r][c])@.contains(sol[r][c]) by {
                            assert(g2@[r][c]@.contains(sol[r][c]));
                        }
                    }
                }
                if grid.get(position).len() == 0 {
                    proof {
                        assert(grid.in_bounds(position) && grid.at(position)@.len() == 0);
                        lemma_walk_pos(row, col, n as nat);
                        lemma_walk_step_fixed(peers_of, &active_positions, &g0, (row * n + col) as nat, pos, v, positions_to_update);
                        assert(row * n + col + 1 <= n * n) by (nonlinear_arith)
                            requires
                                row < n,
                                col < n,
                        ;
                        lemma_cands_after_mono(peers_of, &active_positions, &g0, (row * n + col + 1) as nat, (n * n) as nat, position);
                        assert(positions_to_update@.take(k + 1).contains(position));
                        assert(positions_to_update@.contains(position));
                        grid.at(position).lemma_view_bounds();
                        vstd::set_lib::lemma_set_empty_equivalency_len(grid.at(position)@);
                        assert(cands_after(peers_of, &active_positions, &g0, (n * n) as nat, position) =~= Set::<int>::empty());
                        g0.at(position).lemma_view_bounds();
                        if g0.at(position)@.len() == 0 {
                            vstd::set_lib::lemma_set_empty_equivalency_len(g0.at(position)@);
                            assert(g0.at(position)@.contains(v));
                        }
                        assert(g0.at(position)@.len() > 0);
                        assert forall|sol: Seq<Seq<int>>|
                            fits(sol, &g0) && peers_differ(peers_of, sol, n as nat) implies false by {
                            assert(fits(sol, grid));
                            assert(grid.at(position)@.contains(sol[position.row as int][position.col as int]));
                            grid.at(position).lemma_view_bounds();
                            vstd::set_lib::lemma_set_empty_equivalency_len(grid.at(position)@);
                        }
                        assert(forall|sol: Seq<Seq<int>>|
                            fits(sol, old(grid)) && peers_differ(peers_of, sol, old(grid).size()) ==> false);
                        assert(forall|q: Position, w: int|
                            q.row < old(grid).size() && q.col < old(grid).size() && old(grid).at(q)@.contains(w)
                                && !(#[trigger] grid.at(q)@.contains(w))
                                ==> exists|p: Position|
                                    p.row < old(grid).size() && p.col < old(grid).size() && #[trigger] active_positions.at(p)
                                        && old(grid).at(p)@.contains(w) && peer_of(peers_of, p, q));
                    }
                    proof {
                        let i = (row * n + col) as nat;
                        assert(row * n + col < n * n) by (nonlinear_arith)
                            requires
                                row < n,
                                col < n,
                        ;
                        assert(cands_after(peers_of, &active_positions, &g0, i, pos) == set![v]) by {
                            assert(g1.at(pos)@ == cands_after(peers_of, &active_positions, &g0, i, pos));
                        }
                        assert forall|q: Position|
                            q.row < n && q.col < n && #[trigger] cands_after(peers_of, &active_positions, &g0, i, q) == Set::<int>::empty()
                            implies g0.at(q)@ == Set::<int>::empty() by {
                            assert(g1.at(q)@ == cands_after(peers_of, &active_positions, &g0, i, q));
                            assert(g1@[q.row as int][q.col as int]@.len() == 0);
                            g0.at(q).lemma_view_bounds();
                            vstd::set_lib::lemma_set_empty_equivalency_len(g0.at(q)@);
                        }
                        assert(positions_to_update@[k as int] == position);
                        assert(cands_partway(peers_of, &active_positions, &g0, i, positions_to_update@, v, k as int, position)
                            == g2.at(position)@);
                        assert(cands_partway(peers_of, &active_positions, &g0, i, positions_to_update@, v, k + 1, position)
                            == grid.at(position)@);
                        assert(grid.at(position)@ == Set::<int>::empty());
                        assert(empties_at(peers_of, &active_positions, &g0, i, positions_to_update@, v, k as int));
                        assert(walk_stops_at(peers_of, &active_positions, &g0, i, positions_to_update, v, k as int));
                        assert forall|q: Position| q.row < n && q.col < n implies (#[trigger] grid.at(q))@
                            == cands_partway(peers_of, &active_positions, &g0, i, positions_to_update@, v, k + 1, q) by {
                        }
                    }
                    return None;
                }
                affected_positions.set(position, true);
                proof {
                    assert(!empties_at(peers_of, &active_positions, &g0, (row * n + col) as nat, positions_to_update@, v, k as int)) by {
                        assert(positions_to_update@[k as int] == position);
                        assert(cands_partway(peers_of, &active_positions, &g0, (row * n + col) as nat, positions_to_update@, v, k + 1, position)
                            == grid.at(position)@);
                        if grid.at(position)@ == Set::<int>::empty() {
                            assert(grid.at(position)@.len() == 0);
                        }
                    }
                    assert(grid.at(position)@ != g0.at(position)@) by {
                        assert(!grid.at(position)@.contains(v));
                        assert(g2.at(position)@.contains(v));
                        assert(g0.at(position)@.contains(v));
                    }
                }
                k = k + 1;
            }
            proof {
                assert forall|p: Position, q: Position, w: int|
                    (p.row < row || (p.row == row && p.col < col + 1)) && p.col < n && active_positions.at(p)
                        && g0.at(p)@ == set![w] && #[trigger] peer_of(peers_of, p, q) implies !(#[trigger] grid.at(q)@.contains(w)) by {
                    if p == pos {
                        let out = choose|out: Vec<Position>| #[trigger] call_ensures(peers_of, (p,), out) && out@.contains(q);
                        assert(positions_to_update@.contains(q));
                        let j = choose|j: int| 0 <= j < positions_to_update@.len() && positions_to_update@[j] == q;
                        assert(g0.at(pos)@.contains(v));
                        assert(w == v);
                    }
                }
                assert(has_output(peers_of, pos));
                lemma_walk_pos(row, col, n as nat);
                lemma_walk_step_fixed(peers_of, &active_positions, &g0, (row * n + col) as nat, pos, v, positions_to_update);
                assert(positions_to_update@.take(positions_to_update@.len() as int) =~= positions_to_update@);
            }
            col = col + 1;
        }
        assert((row + 1) * n == row * n + n) by (nonlinear_arith);
        row = row + 1;
    }
    proof {
        assert forall|q: Position|
            q.row < n && q.col < n && (#[trigger] g0.at(q))@.len() > 0
            implies cands_after(peers_of, &active_positions, &g0, (n * n) as nat, q) != Set::<int>::empty() by {
            if cands_after(peers_of, &active_positions, &g0, (n * n) as nat, q) == Set::<int>::empty() {
                assert(grid.at(q)@ == Set::<int>::empty());
                assert(grid@[q.row as int][q.col as int]@.len() == 0);
            }
        }
        assert forall|p: Position, v: int|
            p.row < n && p.col < n && active_positions.at(p) && g0.at(p)@ == set![v] implies #[trigger] cleared(
            peers_of,
            grid,
            p,
            v,
        ) by {
            assert(has_output(peers_of, p));
            let out = choose|out: Vec<Position>| #[trigger] call_ensures(peers_of, (p,), out);
            assert forall|j: int| 0 <= j < out@.len() implies !(#[trigger] grid.at(out@[j]))@.contains(v) by {
                assert(out@.contains(out@[j]));
                assert(peer_of(peers_of, p, out@[j]));
            }
        }
    }
    Some(affected_positions)
}

/// How many times `p` occurs in `s`.
pub open spec fn count_in(s: Seq<Position>, p: Position) -> nat
    decreases s.len(),
{
    if s.len() == 0 {
        0
    } else {
        count_in(s.drop_last(), p) + if s.last() == p { 1nat } else { 0nat }
    }
}

/// `c` copies of the index `i`.
pub open spec fn repeat_index(c: nat, i: int) -> Seq<usize> {
    Seq::new(c, |_k: int| i as usize)
}

/// The indices of the parts among the first `upto` of `parts` that hold `p`, in
/// ascending order, each as many times as the part holds `p`.
pub open spec fn index_list(parts: Seq<Seq<Position>>, p: Position, upto: nat) -> Seq<usize>
    decreases upto,
{
    if upto == 0 {
        Seq::empty()
    } else {
        index_list(parts, p, (upto - 1) as nat) + repeat_index(count_in(parts[upto - 1], p), upto - 1)
    }
}

/// Taking one more cell of `s` adds the index `i` once if the cell is `p`.
pub proof fn lemma_index_list_grow(base: Seq<usize>, s: Seq<Position>, k: int, p: Position, i: int)
    requires
        0 <= k < s.len(),
    ensures
        base + repeat_index(count_in(s.take(k + 1), p), i) == (if s[k] == p {
            (base + repeat_index(count_in(s.take(k), p), i)).push(i as usize)
        } else {
            base + repeat_index(count_in(s.take(k), p), i)
        }),
{
    assert(s.take(k + 1).drop_last() =~= s.take(k));
    if s[k] == p {
        assert(base + repeat_index(count_in(s.take(k + 1), p), i) =~= (base + repeat_index(count_in(s.take(k), p), i)).push(
            i as usize,
        ));
    } else {
        assert(base + repeat_index(count_in(s.take(k + 1), p), i) =~= base + repeat_index(count_in(s.take(k), p), i));
    }
}

/// In `g`, every cell outside `unsettled` that holds a single value has it ruled out of
/// all its cells in relation `peer`.
pub open spec fn peers_settled(g: &CandidateGrid, unsettled: Set<Position>, peer: spec_fn(Position, Position) -> bool) -> bool {
    forall|p: Position, q: Position, v: int|
        #![trigger peer(p, q), g.at(q)@.contains(v)]
        g.in_bounds(p) && !unsettled.contains(p) && g.at(p)@ == set![v] && peer(p, q) ==> !g.at(q)@.contains(v)
}

/// Losing candidates keeps a cell settled unless it is the cell that lost them.
pub proof fn lemma_peers_settled_shrink(
    g: &CandidateGrid,
    g2: &CandidateGrid,
    unsettled: Set<Position>,
    unsettled2: Set<Position>,
    peer: spec_fn(Position, Position) -> bool,
)
    requires
        g.wf(),
        shrinks(g2, g),
        peers_settled(g, unsettled, peer),
        unsettled.subset_of(unsettled2),
        changed_cells(g2, g).subset_of(unsettled2),
        forall|p: Position, q: Position| #[trigger] peer(p, q) ==> g.in_bounds(q),
    ensures
        peers_settled(g2, unsettled2, peer),
{
    assert forall|p: Position, q: Position, v: int|
        #![trigger peer(p, q), g2.at(q)@.contains(v)]
        g2.in_bounds(p) && !unsettled2.contains(p) && g2.at(p)@ == set![v] && peer(p, q) implies !g2.at(q)@.contains(v) by {
        assert(!changed_cells(g2, g).contains(p));
        assert(g.at(p)@ == set![v]);
        assert(g.in_bounds(q));
        assert(g2@[q.row as int][q.col as int]@.subset_of(g@[q.row as int][q.col as int]@));
        if g2.at(q)@.contains(v) {
            assert(g.at(q)@.contains(v));
            assert(!unsettled.contains(p));
            assert(peer(p, q));
        }
    }
}

/// A grid settled everywhere and holding single values keeps related cells apart.
pub proof fn lemma_peers_settled_fixed(g: &CandidateGrid, sol: Seq<Seq<int>>, peer: spec_fn(Position, Position) -> bool)
    requires
        g.wf(),
        peers_settled(g, Set::empty(), peer),
        fixed_to(g, sol),
        forall|p: Position, q: Position| #[trigger] peer(p, q) ==> g.in_bounds(q),
    ensures
        forall|p: Position, q: Position|
            g.in_bounds(p) && #[trigger] peer(p, q) ==> sol[p.row as int][p.col as int] != sol[q.row as int][q.col as int],
{
    assert forall|p: Position, q: Position|
        g.in_bounds(p) && #[trigger] peer(p, q) implies sol[p.row as int][p.col as int] != sol[q.row as int][q.col as int] by {
        let v = sol[p.row as int][p.col as int];
        assert(g.at(p)@ == set![v]);
        assert(!g.at(q)@.contains(v));
        assert(g.at(q)@ == set![sol[q.row as int][q.col as int]]);
    }
}

/// After `update_grid_for_position`, with `peers_of` giving at least the cells in
/// relation `peer`, the cells that did not change are settled.
pub proof fn lemma_peers_settled_update<F: Fn(Position) -> Vec<Position>>(
    old_grid: &CandidateGrid,
    new_grid: &CandidateGrid,
    active: &Grid<bool>,
    changed: &Grid<bool>,
    peers_of: F,
    peer: spec_fn(Position, Position) -> bool,
)
    requires
        old_grid.wf(),
        active.wf(),
        active.size() == old_grid.size(),
        shrinks(new_grid, old_grid),
        marks_changes(changed, new_grid, old_grid),
        peers_settled(old_grid, marked_set(active), peer),
        forall|p: Position, v: int|
            old_grid.in_bounds(p) && active.at(p) && old_grid.at(p)@ == set![v] ==> #[trigger] cleared(
                peers_of,
                new_grid,
                p,
                v,
            ),
        forall|p: Position, out: Vec<Position>, q: Position|
            old_grid.in_bounds(p) && #[trigger] call_ensures(peers_of, (p,), out) && #[trigger] peer(p, q) ==> out@.contains(q),
        forall|p: Position, q: Position| #[trigger] peer(p, q) ==> old_grid.in_bounds(q),
    ensures
        peers_settled(new_grid, marked_set(changed), peer),
{
    assert forall|p: Position, q: Position, v: int|
        #![trigger peer(p, q), new_grid.at(q)@.contains(v)]
        new_grid.in_bounds(p) && !marked_set(changed).contains(p) && new_grid.at(p)@ == set![v] && peer(p, q)
        implies !new_grid.at(q)@.contains(v) by {
        assert(!changed@[p.row as int][p.col as int]);
        assert(new_grid.at(p)@ == old_grid.at(p)@);
        if active.at(p) {
            assert(cleared(peers_of, new_grid, p, v));
            let out = choose|out: Vec<Position>|
                #[trigger] call_ensures(peers_of, (p,), out) && forall|j: int| 0 <= j < out@.len() ==> !(#[trigger] new_grid.at(out@[j]))@.contains(v);
            assert(out@.contains(q));
            let j = choose|j: int| 0 <= j < out@.len() && out@[j] == q;
            assert(!new_grid.at(out@[j])@.contains(v));
        } else {
            assert(!marked_set(active).contains(p));
            assert(!old_grid.at(q)@.contains(v));
            if new_grid.at(q)@.contains(v) {
                if old_grid.in_bounds(q) {
                    assert(new_grid@[q.row as int][q.col as int]@.subset_of(old_grid@[q.row as int][q.col as int]@));
                }
            }
        }
    }
}

} // verus!

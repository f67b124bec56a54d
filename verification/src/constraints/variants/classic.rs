use vstd::prelude::*;
use crate::constraints::constraint::Constraint;
use crate::constraints::constraint::marked_set;
use crate::constraints::helpers::{
    self, cleared, lemma_peers_settled_fixed, lemma_peers_settled_shrink, lemma_peers_settled_update, peer_of, peers_differ,
    peers_settled,
};
use crate::grid::candidate_grid::{fits, CandidateGrid};
use crate::grid::grid::Grid;
use crate::grid::position::Position;

verus! {

/// `q` shares a row, a column or a region with `p`, and is another cell, in a grid of
/// side `n` made of `region_rows` x `region_cols` regions.
pub open spec fn classic_peer(p: Position, q: Position, n: nat, region_rows: nat, region_cols: nat) -> bool {
    &&& q.row < n
    &&& q.col < n
    &&& q != p
    &&& (q.row == p.row || q.col == p.col
        || ((q.row as nat) / region_rows == (p.row as nat) / region_rows
            && (q.col as nat) / region_cols == (p.col as nat) / region_cols))
}

/// The classic rule: no two cells of a row, a column or a region hold the same value.
pub open spec fn classic_rule(sol: Seq<Seq<int>>, n: nat, region_rows: nat, region_cols: nat) -> bool {
    forall|p: Position, q: Position|
        p.row < n && p.col < n && #[trigger] classic_peer(p, q, n, region_rows, region_cols)
            ==> sol[p.row as int][p.col as int] != sol[q.row as int][q.col as int]
}

/// The classic rules: rows, columns and regions each hold distinct values.
pub struct ClassicConstraint;

proof fn lemma_region_range(x: int, y: int, k: int)
    requires
        k > 0,
        x >= 0,
        y >= 0,
    ensures
        (y / k == x / k) <==> ((x / k) * k <= y < (x / k) * k + k),
{
    assert((x / k) * k <= x) by (nonlinear_arith) requires k > 0, x >= 0;
    assert(y / k == x / k ==> (x / k) * k <= y < (x / k) * k + k) by (nonlinear_arith) requires k > 0, y >= 0;
    assert((x / k) * k <= y < (x / k) * k + k ==> y / k == x / k) by (nonlinear_arith) requires k > 0, y >= 0;
}

proof fn lemma_region_fits(x: int, k: int, m: int)
    requires
        k > 0,
        m > 0,
        0 <= x < k * m,
    ensures
        (x / k) * k + k <= k * m,
{
    assert((x / k) < m) by (nonlinear_arith) requires k > 0, m > 0, 0 <= x < k * m;
    assert((x / k) * k + k <= k * m) by (nonlinear_arith) requires k > 0, m > 0, x / k < m, x / k >= 0;
}

proof fn lemma_push_contains(s: Seq<Position>, x: Position)
    ensures
        forall|q: Position| #[trigger] s.push(x).contains(q) <==> (s.contains(q) || q == x),
{
    assert forall|q: Position| s.push(x).contains(q) implies (s.contains(q) || q == x) by {
        let i = choose|i: int| 0 <= i < s.push(x).len() && s.push(x)[i] == q;
        if i < s.len() {
            assert(s[i] == q);
        }
    }
    assert forall|q: Position| s.contains(q) implies s.push(x).contains(q) by {
        let i = choose|i: int| 0 <= i < s.len() && s[i] == q;
        assert(s.push(x)[i] == q);
    }
    assert(s.push(x)[s.len() as int] == x);
}

/// The cells that share a row, a column or a region with `pos`, other than `pos`.
fn classic_peers(pos: Position, grid_size: usize, region_rows: usize, region_cols: usize) -> (r: Vec<Position>)
    requires
        grid_size == region_rows * region_cols,
        pos.row < grid_size,
        pos.col < grid_size,
    ensures
        forall|q: Position| r@.contains(q) <==> classic_peer(pos, q, grid_size as nat, region_rows as nat, region_cols as nat),
        forall|k: int| 0 <= k < r@.len() ==> (#[trigger] r@[k]).row < grid_size && r@[k].col < grid_size,
{
    let n = grid_size;
    let ghost rr = region_rows as nat;
    let ghost rc = region_cols as nat;
    let mut positions_to_update: Vec<Position> = Vec::new();
    let active_row = pos.row;
    let active_col = pos.col;
    proof {
        assert(region_rows > 0 && region_cols > 0) by (nonlinear_arith)
            requires grid_size == region_rows * region_cols, pos.row < grid_size;
    }

    let mut row: usize = 0;
    while row < n
        invariant
            row <= n,
            forall|q: Position| #[trigger] positions_to_update@.contains(q) <==>
                (q.col == active_col && q.row < row && q.row != active_row),
        decreases n - row,
    {
        let q = Position { row, col: active_col };
        let ghost before = positions_to_update@;
        if row != active_row {
            positions_to_update.push(q);
            proof { lemma_push_contains(before, q); }
        }
        proof {
            assert forall|x: Position| #[trigger] positions_to_update@.contains(x) <==>
                (x.col == active_col && x.row < row + 1 && x.row != active_row) by {
                if x.row == row && x.col == active_col {
                    assert(x == q);
                }
                if row != active_row {
                    assert(positions_to_update@ == before.push(q));
                    assert(positions_to_update@.contains(x) == (before.contains(x) || x == q));
                } else {
                    assert(positions_to_update@ == before);
                }
                assert(before.contains(x) <==> (x.col == active_col && x.row < row && x.row != active_row));
            }
        }
        row = row + 1;
    }
    let ghost part1 = positions_to_update@;

    let mut col: usize = 0;
    while col < n
        invariant
            col <= n,
            forall|q: Position| #[trigger] positions_to_update@.contains(q) <==>
                (part1.contains(q) || (q.row == active_row && q.col < col && q.col != active_col)),
        decreases n - col,
    {
        let q = Position { row: active_row, col };
        let ghost before = positions_to_update@;
        if col != active_col {
            positions_to_update.push(q);
            proof { lemma_push_contains(before, q); }
        }
        proof {
            assert forall|x: Position| #[trigger] positions_to_update@.contains(x) <==>
                (part1.contains(x) || (x.row == active_row && x.col < col + 1 && x.col != active_col)) by {
                if x.col == col && x.row == active_row {
                    assert(x == q);
                }
                assert(before.contains(x) <==> (part1.contains(x) || (x.row == active_row && x.col < col && x.col != active_col)));
            }
        }
        col = col + 1;
    }
    let ghost part2 = positions_to_update@;

    proof {
        assert((active_row / region_rows) * region_rows <= active_row) by (nonlinear_arith)
            requires region_rows > 0;
        assert((active_col / region_cols) * region_cols <= active_col) by (nonlinear_arith)
            requires region_cols > 0;
    }
    let region_row = (active_row / region_rows) * region_rows;
    let region_col = (active_col / region_cols) * region_cols;
    proof {
        lemma_region_fits(active_row as int, region_rows as int, region_cols as int);
        lemma_region_fits(active_col as int, region_cols as int, region_rows as int);
        assert(region_cols * region_rows == region_rows * region_cols) by (nonlinear_arith);
    }
    let mut r = region_row;
    while r < region_row + region_rows
        invariant
            region_row == (active_row / region_rows) * region_rows,
            region_col == (active_col / region_cols) * region_cols,
            region_row + region_rows <= n,
            region_col + region_cols <= n,
            region_row <= r <= region_row + region_rows,
            forall|q: Position| #[trigger] positions_to_update@.contains(q) <==>
                (part2.contains(q) || (region_row <= q.row < r && region_col <= q.col < region_col + region_cols
                    && q.row != active_row && q.col != active_col)),
        decreases region_row + region_rows - r,
    {
        let mut c = region_col;
        proof {
            assert forall|x: Position| #[trigger] positions_to_update@.contains(x) <==>
                (part2.contains(x) || (region_row <= x.row < r && region_col <= x.col < region_col + region_cols
                    && x.row != active_row && x.col != active_col)
                    || (x.row == r && region_col <= x.col < c && x.row != active_row && x.col != active_col)) by {
            }
        }
        while c < region_col + region_cols
            invariant
                region_row == (active_row / region_rows) * region_rows,
                region_col == (active_col / region_cols) * region_cols,
                region_row + region_rows <= n,
                region_col + region_cols <= n,
                region_row <= r < region_row + region_rows,
                region_col <= c <= region_col + region_cols,
                forall|q: Position| #[trigger] positions_to_update@.contains(q) <==>
                    (part2.contains(q) || (region_row <= q.row < r && region_col <= q.col < region_col + region_cols
                        && q.row != active_row && q.col != active_col)
                        || (q.row == r && region_col <= q.col < c && q.row != active_row && q.col != active_col)),
            decreases region_col + region_cols - c,
        {
            let q = Position { row: r, col: c };
            let ghost before = positions_to_update@;
            if r != active_row && c != active_col {
                positions_to_update.push(q);
                proof { lemma_push_contains(before, q); }
            }
            proof {
                assert forall|x: Position| #[trigger] positions_to_update@.contains(x) <==>
                    (part2.contains(x) || (region_row <= x.row < r && region_col <= x.col < region_col + region_cols
                        && x.row != active_row && x.col != active_col)
                        || (x.row == r && region_col <= x.col < c + 1 && x.row != active_row && x.col != active_col)) by {
                    if x.row == r && x.col == c {
                        assert(x == q);
                    }
                    assert(before.contains(x) <==> (part2.contains(x) || (region_row <= x.row < r && region_col <= x.col < region_col + region_cols
                        && x.row != active_row && x.col != active_col)
                        || (x.row == r && region_col <= x.col < c && x.row != active_row && x.col != active_col)));
                }
            }
            c = c + 1;
        }
        r = r + 1;
    }
    proof {
        assert forall|q: Position| #[trigger] positions_to_update@.contains(q) <==> classic_peer(pos, q, n as nat, rr, rc) by {
            if q.row < n && q.col < n {
                lemma_region_range(active_row as int, q.row as int, region_rows as int);
                lemma_region_range(active_col as int, q.col as int, region_cols as int);
            }
        }
        assert forall|k: int| 0 <= k < positions_to_update@.len() implies (#[trigger] positions_to_update@[k]).row < n
            && positions_to_update@[k].col < n by {
            assert(positions_to_update@.contains(positions_to_update@[k]));
        }
    }
    positions_to_update
}

impl Constraint for ClassicConstraint {
    open spec fn holds(&self, sol: Seq<Seq<int>>, region_rows: nat, region_cols: nat) -> bool {
        classic_rule(sol, region_rows * region_cols, region_rows, region_cols)
    }

    open spec fn built_for(&self, region_rows: nat, region_cols: nat) -> bool {
        true
    }

    open spec fn settled(&self, grid: &CandidateGrid, unsettled: Set<Position>) -> bool {
        peers_settled(grid, unsettled, |p: Position, q: Position| classic_peer(p, q, grid.size(), grid.rrows(), grid.rcols()))
    }

    proof fn lemma_settled_shrink(
        &self,
        g: &CandidateGrid,
        g2: &CandidateGrid,
        unsettled: Set<Position>,
        unsettled2: Set<Position>,
    ) {
        let peer = |p: Position, q: Position| classic_peer(p, q, g.size(), g.rrows(), g.rcols());
        assert(peer =~= (|p: Position, q: Position| classic_peer(p, q, g2.size(), g2.rrows(), g2.rcols())));
        lemma_peers_settled_shrink(g, g2, unsettled, unsettled2, peer);
    }

    proof fn lemma_settled_fixed(&self, g: &CandidateGrid, sol: Seq<Seq<int>>) {
        let peer = |p: Position, q: Position| classic_peer(p, q, g.size(), g.rrows(), g.rcols());
        lemma_peers_settled_fixed(g, sol, peer);
        assert forall|p: Position, q: Position|
            p.row < g.size() && p.col < g.size() && #[trigger] classic_peer(p, q, g.size(), g.rrows(), g.rcols())
            implies sol[p.row as int][p.col as int] != sol[q.row as int][q.col as int] by {
            assert(peer(p, q));
        }
    }

    fn update(&self, grid: &mut CandidateGrid, active_positions: Grid<bool>) -> (r: Option<Grid<bool>>)
        ensures
            forall|q: Position, v: int|
                old(grid).in_bounds(q) && old(grid).at(q)@.contains(v) && !(#[trigger] final(grid).at(q)@.contains(v))
                    ==> exists|p: Position|
                    old(grid).in_bounds(p) && #[trigger] active_positions.at(p) && old(grid).at(p)@.contains(v)
                        && classic_peer(p, q, old(grid).size(), old(grid).rrows(), old(grid).rcols()),
            r is None ==> exists|q: Position| #[trigger] final(grid).in_bounds(q) && final(grid).at(q)@.len() == 0,
            r is Some ==> forall|p: Position, q: Position, v: int|
                old(grid).in_bounds(p) && active_positions.at(p) && old(grid).at(p)@ == set![v] && #[trigger] classic_peer(p, q, old(grid).size(), old(grid).rrows(), old(grid).rcols())
                    ==> !(#[trigger] final(grid).at(q)@.contains(v)),
    {
        let grid_size = grid.grid_size();
        let region_rows = grid.region_rows();
        let region_cols = grid.region_cols();
        let peers_of = |pos: Position| -> (r: Vec<Position>)
            requires
                grid_size == region_rows * region_cols,
                pos.row < grid_size,
                pos.col < grid_size,
            ensures
                forall|q: Position| r@.contains(q) <==> classic_peer(pos, q, grid_size as nat, region_rows as nat, region_cols as nat),
                forall|k: int| 0 <= k < r@.len() ==> (#[trigger] r@[k]).row < grid_size && r@[k].col < grid_size,
            { classic_peers(pos, grid_size, region_rows, region_cols) };
        let ghost g0 = *grid;
        let ghost pf = peers_of;
        let ghost act = active_positions;
        let r = helpers::update_grid_for_position(grid, active_positions, peers_of);
        proof {
            if r is Some {
                let a = r.unwrap();
                let peer = |p: Position, q: Position| classic_peer(p, q, g0.size(), g0.rrows(), g0.rcols());
                if self.settled(&g0, marked_set(&act)) {
                    assert forall|p: Position, out: Vec<Position>, q: Position|
                        g0.in_bounds(p) && #[trigger] call_ensures(pf, (p,), out) && #[trigger] peer(p, q) implies out@.contains(q) by {
                    }
                    lemma_peers_settled_update(&g0, grid, &act, &a, pf, peer);
                    assert(peer =~= (|p: Position, q: Position| classic_peer(p, q, grid.size(), grid.rrows(), grid.rcols())));
                }
            }
        }
        proof {
            assert forall|q: Position, v: int|
                g0.in_bounds(q) && g0.at(q)@.contains(v) && !(#[trigger] grid.at(q)@.contains(v)) implies exists|p: Position|
                g0.in_bounds(p) && #[trigger] act.at(p) && g0.at(p)@.contains(v) && classic_peer(p, q, g0.size(), g0.rrows(), g0.rcols()) by {
                let p = choose|p: Position|
                    p.row < g0.size() && p.col < g0.size() && #[trigger] act.at(p) && g0.at(p)@.contains(v) && peer_of(pf, p, q);
                let out = choose|out: Vec<Position>| #[trigger] call_ensures(pf, (p,), out) && out@.contains(q);
                assert(classic_peer(p, q, g0.size(), g0.rrows(), g0.rcols()));
            }
            if r is Some {
                assert forall|p: Position, q: Position, v: int|
                    g0.in_bounds(p) && act.at(p) && g0.at(p)@ == set![v] && #[trigger] classic_peer(p, q, g0.size(), g0.rrows(), g0.rcols())
                    implies !(#[trigger] grid.at(q)@.contains(v)) by {
                    assert(cleared(pf, grid, p, v));
                    let out = choose|out: Vec<Position>|
                        #[trigger] call_ensures(pf, (p,), out) && forall|j: int| 0 <= j < out@.len() ==> !(#[trigger] grid.at(out@[j]))@.contains(v);
                    assert(out@.contains(q));
                    let j = choose|j: int| 0 <= j < out@.len() && out@[j] == q;
                    assert(!grid.at(out@[j])@.contains(v));
                }
            }
        }
        proof {
            assert forall|sol: Seq<Seq<int>>|
                fits(sol, &g0) && #[trigger] self.holds(sol, g0.rrows(), g0.rcols())
                implies r is Some && fits(sol, grid) by {
                assert forall|p: Position, q: Position|
                    p.row < g0.size() && p.col < g0.size() && #[trigger] peer_of(pf, p, q)
                    implies sol[p.row as int][p.col as int] != sol[q.row as int][q.col as int] by {
                    let out = choose|out: Vec<Position>| #[trigger] call_ensures(pf, (p,), out) && out@.contains(q);
                    assert(classic_peer(p, q, g0.size(), g0.rrows(), g0.rcols()));
                }
                assert(peers_differ(pf, sol, g0.size()));
                assert(fits(sol, &g0));
                assert(fits(sol, grid));
            }
        }
        r
    }
}

} // verus!

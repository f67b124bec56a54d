use vstd::prelude::*;
use crate::constraints::constraint::Constraint;
use crate::constraints::constraint::marked_set;
use crate::constraints::helpers::{
    self, cleared, lemma_peers_settled_fixed, lemma_peers_settled_shrink, lemma_peers_settled_update, peer_of, peers_differ,
    peers_settled,
};
use crate::grid::candidate_grid::{fits, CandidateGrid};
use crate::grid::grid::Grid;
use crate::grid::position::Position;

verus! {

/// The row offset of the `k`-th knight move.
pub open spec fn knight_dr(k: int) -> int {
    if k == 0 || k == 1 { -2 } else if k == 2 || k == 3 { -1 } else if k == 4 || k == 5 { 1 } else { 2 }
}

/// The column offset of the `k`-th knight move.
pub open spec fn knight_dc(k: int) -> int {
    if k == 0 || k == 6 { -1 } else if k == 1 || k == 7 { 1 } else if k == 2 || k == 4 { -2 } else { 2 }
}

/// `q` lies inside a grid of side `n`, a knight's move away from `p`.
pub open spec fn knight_peer(p: Position, q: Position, n: nat) -> bool {
    let dr = q.row - p.row;
    let dc = q.col - p.col;
    &&& q.row < n
    &&& q.col < n
    &&& (((dr == 1 || dr == -1) && (dc == 2 || dc == -2)) || ((dr == 2 || dr == -2) && (dc == 1 || dc == -1)))
}

/// The anti-knight rule: two cells a knight's move apart never hold the same value.
pub open spec fn anti_knight_rule(sol: Seq<Seq<int>>, n: nat) -> bool {
    forall|p: Position, q: Position|
        p.row < n && p.col < n && #[trigger] knight_peer(p, q, n)
            ==> sol[p.row as int][p.col as int] != sol[q.row as int][q.col as int]
}

/// Two cells a knight's move apart hold different values.
pub struct AntiKnightConstraint;

fn knight_offset(k: usize) -> (r: (i64, i64))
    requires
        k < 8,
    ensures
        r.0 == knight_dr(k as int),
        r.1 == knight_dc(k as int),
{
    match k {
        0 => (-2, -1),
        1 => (-2, 1),
        2 => (-1, -2),
        3 => (-1, 2),
        4 => (1, -2),
        5 => (1, 2),
        6 => (2, -1),
        _ => (2, 1),
    }
}

proof fn lemma_push_contains(s: Seq<Position>, x: Position)
    ensures
        forall|q: Position| #[trigger] s.push(x).contains(q) <==> (s.contains(q) || q == x),
{
    assert forall|q: Position| s.push(x).contains(q) implies (s.contains(q) || q == x) by {
        let i = choose|i: int| 0 <= i < s.push(x).len() && s.push(x)[i] == q;
        if i < s.len() {
            assert(s[i] == q);
        }
    }
    assert forall|q: Position| s.contains(q) implies s.push(x).contains(q) by {
        let i = choose|i: int| 0 <= i < s.len() && s[i] == q;
        assert(s.push(x)[i] == q);
    }
    assert(s.push(x)[s.len() as int] == x);
}

/// The cells of a grid of side `grid_size` that lie a knight's move away from `pos`.
fn knight_peers(pos: Position, grid_size: usize) -> (r: Vec<Position>)
    requires
        grid_size <= 64,
        pos.row < grid_size,
        pos.col < grid_size,
    ensures
        forall|q: Position| #[trigger] r@.contains(q) <==> knight_peer(pos, q, grid_size as nat),
        forall|k: int| 0 <= k < r@.len() ==> (#[trigger] r@[k]).row < grid_size && r@[k].col < grid_size,
{
    let mut positions_to_update: Vec<Position> = Vec::new();
    let mut k: usize = 0;
    while k < 8
        invariant
            grid_size <= 64,
            pos.row < grid_size,
            pos.col < grid_size,
            k <= 8,
            forall|q: Position| #[trigger] positions_to_update@.contains(q) <==>
                (q.row < grid_size && q.col < grid_size && exists|j: int| 0 <= j < k
                    && q.row == pos.row + knight_dr(j) && q.col == pos.col + knight_dc(j)),
        decreases 8 - k,
    {
        let (dr, dc) = knight_offset(k);
        let row = pos.row as i64 + dr;
        let col = pos.col as i64 + dc;
        let ghost before = positions_to_update@;
        if row >= 0 && col >= 0 && row < grid_size as i64 && col < grid_size as i64 {
            let q = Position { row: row as usize, col: col as usize };
            positions_to_update.push(q);
            proof { lemma_push_contains(before, q); }
        }
        proof {
            assert forall|q: Position| #[trigger] positions_to_update@.contains(q) <==>
                (q.row < grid_size && q.col < grid_size && exists|j: int| 0 <= j < k + 1
                    && q.row == pos.row + knight_dr(j) && q.col == pos.col + knight_dc(j)) by {
                if q.row < grid_size && q.col < grid_size && q.row == pos.row + knight_dr(k as int)
                    && q.col == pos.col + knight_dc(k as int) {
                    assert(q == Position { row: row as usize, col: col as usize });
                }
                assert(before.contains(q) <==> (q.row < grid_size && q.col < grid_size && exists|j: int| 0 <= j < k
                    && q.row == pos.row + knight_dr(j) && q.col == pos.col + knight_dc(j)));
            }
        }
        k = k + 1;
    }
    proof {
        assert forall|q: Position| #[trigger] positions_to_update@.contains(q) <==> knight_peer(pos, q, grid_size as nat) by {
            let dr = q.row - pos.row;
            let dc = q.col - pos.col;
            if knight_peer(pos, q, grid_size as nat) {
                let j = if dr == -2 && dc == -1 { 0int } else if dr == -2 && dc == 1 { 1int }
                    else if dr == -1 && dc == -2 { 2int } else if dr == -1 && dc == 2 { 3int }
                    else if dr == 1 && dc == -2 { 4int } else if dr == 1 && dc == 2 { 5int }
                    else if dr == 2 && dc == -1 { 6int } else { 7int };
                assert(q.row == pos.row + knight_dr(j) && q.col == pos.col + knight_dc(j));
            }
        }
        assert forall|k: int| 0 <= k < positions_to_update@.len() implies (#[trigger] positions_to_update@[k]).row < grid_size
            && positions_to_update@[k].col < grid_size by {
            assert(positions_to_update@.contains(positions_to_update@[k]));
        }
    }
    positions_to_update
}

impl Constraint for AntiKnightConstraint {
    open spec fn holds(&self, sol: Seq<Seq<int>>, region_rows: nat, region_cols: nat) -> bool {
        anti_knight_rule(sol, region_rows * region_cols)
    }

    open spec fn built_for(&self, region_rows: nat, region_cols: nat) -> bool {
        true
    }

    open spec fn settled(&self, grid: &CandidateGrid, unsettled: Set<Position>) -> bool {
        peers_settled(grid, unsettled, |p: Position, q: Position| knight_peer(p, q, grid.size()))
    }

    proof fn lemma_settled_shrink(
        &self,
        g: &CandidateGrid,
        g2: &CandidateGrid,
        unsettled: Set<Position>,
        unsettled2: Set<Position>,
    ) {
        let peer = |p: Position, q: Position| knight_peer(p, q, g.size());
        assert(peer =~= (|p: Position, q: Position| knight_peer(p, q, g2.size())));
        lemma_peers_settled_shrink(g, g2, unsettled, unsettled2, peer);
    }

    proof fn lemma_settled_fixed(&self, g: &CandidateGrid, sol: Seq<Seq<int>>) {
        let peer = |p: Position, q: Position| knight_peer(p, q, g.size());
        lemma_peers_settled_fixed(g, sol, peer);
        assert forall|p: Position, q: Position|
            p.row < g.size() && p.col < g.size() && #[trigger] knight_peer(p, q, g.size())
            implies sol[p.row as int][p.col as int] != sol[q.row as int][q.col as int] by {
            assert(peer(p, q));
        }
    }

    fn update(&self, grid: &mut CandidateGrid, active_positions: Grid<bool>) -> (r: Option<Grid<bool>>)
        ensures
            forall|q: Position, v: int|
                old(grid).in_bounds(q) && old(grid).at(q)@.contains(v) && !(#[trigger] final(grid).at(q)@.contains(v))
                    ==> exists|p: Position|
                    old(grid).in_bounds(p) && #[trigger] active_positions.at(p) && old(grid).at(p)@.contains(v)
                        && knight_peer(p, q, old(grid).size()),
            r is None ==> exists|q: Position| #[trigger] final(grid).in_bounds(q) && final(grid).at(q)@.len() == 0,
            r is Some ==> forall|p: Position, q: Position, v: int|
                old(grid).in_bounds(p) && active_positions.at(p) && old(grid).at(p)@ == set![v] && #[trigger] knight_peer(p, q, old(grid).size())
                    ==> !(#[trigger] final(grid).at(q)@.contains(v)),
    {
        let grid_size = grid.grid_size();
        let peers_of = |pos: Position| -> (r: Vec<Position>)
            requires
                grid_size <= 64,
                pos.row < grid_size,
                pos.col < grid_size,
            ensures
                forall|q: Position| #[trigger] r@.contains(q) <==> knight_peer(pos, q, grid_size as nat),
                forall|k: int| 0 <= k < r@.len() ==> (#[trigger] r@[k]).row < grid_size && r@[k].col < grid_size,
            { knight_peers(pos, grid_size) };
        let ghost g0 = *grid;
        let ghost pf = peers_of;
        let ghost act = active_positions;
        let r = helpers::update_grid_for_position(grid, active_positions, peers_of);
        proof {
            if r is Some {
                let a = r.unwrap();
                let peer = |p: Position, q: Position| knight_peer(p, q, g0.size());
                if self.settled(&g0, marked_set(&act)) {
                    assert forall|p: Position, out: Vec<Position>, q: Position|
                        g0.in_bounds(p) && #[trigger] call_ensures(pf, (p,), out) && #[trigger] peer(p, q) implies out@.contains(q) by {
                    }
                    lemma_peers_settled_update(&g0, grid, &act, &a, pf, peer);
                    assert(peer =~= (|p: Position, q: Position| knight_peer(p, q, grid.size())));
                }
            }
        }
        proof {
            assert forall|q: Position, v: int|
                g0.in_bounds(q) && g0.at(q)@.contains(v) && !(#[trigger] grid.at(q)@.contains(v)) implies exists|p: Position|
                g0.in_bounds(p) && #[trigger] act.at(p) && g0.at(p)@.contains(v) && knight_peer(p, q, g0.size()) by {
                let p = choose|p: Position|
                    p.row < g0.size() && p.col < g0.size() && #[trigger] act.at(p) && g0.at(p)@.contains(v) && peer_of(pf, p, q);
                let out = choose|out: Vec<Position>| #[trigger] call_ensures(pf, (p,), out) && out@.contains(q);
                assert(knight_peer(p, q, g0.size()));
            }
            if r is Some {
                assert forall|p: Position, q: Position, v: int|
                    g0.in_bounds(p) && act.at(p) && g0.at(p)@ == set![v] && #[trigger] knight_peer(p, q, g0.size())
                    implies !(#[trigger] grid.at(q)@.contains(v)) by {
                    assert(cleared(pf, grid, p, v));
                    let out = choose|out: Vec<Position>|
                        #[trigger] call_ensures(pf, (p,), out) && forall|j: int| 0 <= j < out@.len() ==> !(#[trigger] grid.at(out@[j]))@.contains(v);
                    assert(out@.contains(q));
                    let j = choose|j: int| 0 <= j < out@.len() && out@[j] == q;
                    assert(!grid.at(out@[j])@.contains(v));
                }
            }
        }
        proof {
            assert forall|sol: Seq<Seq<int>>|
                fits(sol, &g0) && #[trigger] self.holds(sol, g0.rrows(), g0.rcols())
                implies r is Some && fits(sol, grid) by {
                assert forall|p: Position, q: Position|
                    p.row < g0.size() && p.col < g0.size() && #[trigger] peer_of(pf, p, q)
                    implies sol[p.row as int][p.col as int] != sol[q.row as int][q.col as int] by {
                    let out = choose|out: Vec<Position>| #[trigger] call_ensures(pf, (p,), out) && out@.contains(q);
                    assert(knight_peer(p, q, g0.size()));
                }
                assert(peers_differ(pf, sol, g0.size()));
                assert(fits(sol, &g0));
                assert(fits(sol, grid));
            }
        }
        r
    }
}

} // verus!

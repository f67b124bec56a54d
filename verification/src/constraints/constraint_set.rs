use vstd::prelude::*;
use crate::constraints::active_positions_set::{
    marked_in_some, trailing_unmarked, ActivePositionsSet,
};
use crate::constraints::constraint::{all_cells, changed_cells, marked_set, Constraint};
use crate::constraints::helpers;
use crate::grid::candidate_grid::{
    any_marked, fits, lemma_total_decreases, marks_changes, shrinks, total_candidates, CandidateGrid,
};
use crate::grid::grid::Grid;
use crate::grid::position::Position;
use crate::constraints::variants::{
    AntiKnightConstraint, ClassicConstraint, KillerConstraint, LittleKillerConstraint, ThermometerConstraint,
};

verus! {

/// `(a1, a2)` comes strictly before `(b1, b2)` in lexicographic order.
pub open spec fn lex_lt(a1: int, a2: int, b1: int, b2: int) -> bool {
    a1 < b1 || (a1 == b1 && a2 < b2)
}

/// The cells marked in one of the last `m` grids of `h`.
pub open spec fn marked_in_last(h: Seq<Grid<bool>>, m: int) -> Set<Position> {
    Set::new(|p: Position| exists|i: int| 0 <= i && h.len() - m <= i < h.len() && h[i].in_bounds(p) && #[trigger] h[i].at(p))
}

/// A grid pushed after the last `m` ones joins them.
proof fn lemma_last_push(h: Seq<Grid<bool>>, e: Grid<bool>, m: int)
    requires
        0 <= m <= h.len(),
    ensures
        marked_in_last(h.push(e), m + 1) == marked_in_last(h, m).union(marked_set(&e)),
{
    let h1 = h.push(e);
    assert forall|p: Position| marked_in_last(h1, m + 1).contains(p) <==> #[trigger] marked_in_last(h, m).union(marked_set(&e)).contains(p) by {
        if marked_in_last(h1, m + 1).contains(p) {
            let i = choose|i: int| 0 <= i && h1.len() - (m + 1) <= i < h1.len() && h1[i].in_bounds(p) && #[trigger] h1[i].at(p);
            if i < h.len() {
                assert(h[i] == h1[i]);
                assert(marked_in_last(h, m).contains(p));
            } else {
                assert(h1[i] == e);
            }
        }
        if marked_in_last(h, m).contains(p) {
            let i = choose|i: int| 0 <= i && h.len() - m <= i < h.len() && h[i].in_bounds(p) && #[trigger] h[i].at(p);
            assert(h1[i] == h[i]);
        }
        if marked_set(&e).contains(p) {
            assert(h1[h.len() as int] == e);
        }
    }
    assert(marked_in_last(h1, m + 1) =~= marked_in_last(h, m).union(marked_set(&e)));
}

/// Dropping grids from the front keeps the last `m`.
proof fn lemma_last_suffix(h: Seq<Grid<bool>>, d: int, m: int)
    requires
        0 <= d <= h.len(),
        0 <= m <= h.len() - d,
    ensures
        marked_in_last(h.subrange(d, h.len() as int), m) == marked_in_last(h, m),
{
    let h1 = h.subrange(d, h.len() as int);
    assert forall|p: Position| marked_in_last(h1, m).contains(p) <==> #[trigger] marked_in_last(h, m).contains(p) by {
        if marked_in_last(h1, m).contains(p) {
            let i = choose|i: int| 0 <= i && h1.len() - m <= i < h1.len() && h1[i].in_bounds(p) && #[trigger] h1[i].at(p);
            assert(h1[i] == h[i + d]);
        }
        if marked_in_last(h, m).contains(p) {
            let i = choose|i: int| 0 <= i && h.len() - m <= i < h.len() && h[i].in_bounds(p) && #[trigger] h[i].at(p);
            assert(h1[i - d] == h[i]);
        }
    }
    assert(marked_in_last(h1, m) =~= marked_in_last(h, m));
}

/// One constraint of a set: one of the rules of this library.
pub enum AnyConstraint {
    Classic(ClassicConstraint),
    AntiKnight(AntiKnightConstraint),
    Killer(KillerConstraint),
    LittleKiller(LittleKillerConstraint),
    Thermometer(ThermometerConstraint),
}

impl Constraint for AnyConstraint {
    open spec fn holds(&self, sol: Seq<Seq<int>>, region_rows: nat, region_cols: nat) -> bool {
        match self {
            AnyConstraint::Classic(c) => c.holds(sol, region_rows, region_cols),
            AnyConstraint::AntiKnight(c) => c.holds(sol, region_rows, region_cols),
            AnyConstraint::Killer(c) => c.holds(sol, region_rows, region_cols),
            AnyConstraint::LittleKiller(c) => c.holds(sol, region_rows, region_cols),
            AnyConstraint::Thermometer(c) => c.holds(sol, region_rows, region_cols),
        }
    }

    open spec fn built_for(&self, region_rows: nat, region_cols: nat) -> bool {
        match self {
            AnyConstraint::Classic(c) => c.built_for(region_rows, region_cols),
            AnyConstraint::AntiKnight(c) => c.built_for(region_rows, region_cols),
            AnyConstraint::Killer(c) => c.built_for(region_rows, region_cols),
            AnyConstraint::LittleKiller(c) => c.built_for(region_rows, region_cols),
            AnyConstraint::Thermometer(c) => c.built_for(region_rows, region_cols),
        }
    }

    open spec fn settled(&self, grid: &CandidateGrid, unsettled: Set<Position>) -> bool {
        match self {
            AnyConstraint::Classic(c) => c.settled(grid, unsettled),
            AnyConstraint::AntiKnight(c) => c.settled(grid, unsettled),
            AnyConstraint::Killer(c) => c.settled(grid, unsettled),
            AnyConstraint::LittleKiller(c) => c.settled(grid, unsettled),
            AnyConstraint::Thermometer(c) => c.settled(grid, unsettled),
        }
    }

    proof fn lemma_settled_shrink(
        &self,
        g: &CandidateGrid,
        g2: &CandidateGrid,
        unsettled: Set<Position>,
        unsettled2: Set<Position>,
    ) {
        match self {
            AnyConstraint::Classic(c) => c.lemma_settled_shrink(g, g2, unsettled, unsettled2),
            AnyConstraint::AntiKnight(c) => c.lemma_settled_shrink(g, g2, unsettled, unsettled2),
            AnyConstraint::Killer(c) => c.lemma_settled_shrink(g, g2, unsettled, unsettled2),
            AnyConstraint::LittleKiller(c) => c.lemma_settled_shrink(g, g2, unsettled, unsettled2),
            AnyConstraint::Thermometer(c) => c.lemma_settled_shrink(g, g2, unsettled, unsettled2),
        }
    }

    proof fn lemma_settled_fixed(&self, g: &CandidateGrid, sol: Seq<Seq<int>>) {
        match self {
            AnyConstraint::Classic(c) => c.lemma_settled_fixed(g, sol),
            AnyConstraint::AntiKnight(c) => c.lemma_settled_fixed(g, sol),
            AnyConstraint::Killer(c) => c.lemma_settled_fixed(g, sol),
            AnyConstraint::LittleKiller(c) => c.lemma_settled_fixed(g, sol),
            AnyConstraint::Thermometer(c) => c.lemma_settled_fixed(g, sol),
        }
    }

    fn update(&self, grid: &mut CandidateGrid, active_positions: Grid<bool>) -> (r: Option<Grid<bool>>) {
        match self {
            AnyConstraint::Classic(c) => c.update(grid, active_positions),
            AnyConstraint::AntiKnight(c) => c.update(grid, active_positions),
            AnyConstraint::Killer(c) => c.update(grid, active_positions),
            AnyConstraint::LittleKiller(c) => c.update(grid, active_positions),
            AnyConstraint::Thermometer(c) => c.update(grid, active_positions),
        }
    }
}

impl AnyConstraint {
    /// The parts of the constraint that cover no cell ask for a sum of zero.
    pub open spec fn empty_parts_zero(&self) -> bool {
        match self {
            AnyConstraint::Killer(c) => c.empty_cages_zero(),
            AnyConstraint::LittleKiller(c) => c.empty_diagonals_zero(),
            _ => true,
        }
    }

    /// With every cell unsettled, the constraint is settled in any grid it was built
    /// for, as long as its parts that cover no cell ask for nothing.
    pub proof fn lemma_settled_everywhere(&self, g: &CandidateGrid)
        requires
            g.wf(),
            self.built_for(g.rrows(), g.rcols()),
            self.empty_parts_zero(),
        ensures
            self.settled(g, all_cells(g.size())),
    {
        match self {
            AnyConstraint::Classic(c) => {
                assert forall|p: Position| g.in_bounds(p) implies #[trigger] all_cells(g.size()).contains(p) by {}
            },
            AnyConstraint::AntiKnight(c) => {
                assert forall|p: Position| g.in_bounds(p) implies #[trigger] all_cells(g.size()).contains(p) by {}
            },
            AnyConstraint::Killer(c) => c.lemma_settled_everywhere(g),
            AnyConstraint::LittleKiller(c) => c.lemma_settled_everywhere(g),
            AnyConstraint::Thermometer(c) => c.lemma_settled_everywhere(g),
        }
    }
}

/// The rules of a puzzle, applied together.
pub struct ConstraintSet {
    constraints: Vec<AnyConstraint>,
}

impl ConstraintSet {
    /// The constraints, in the order they are applied.
    pub closed spec fn items(&self) -> Seq<AnyConstraint> {
        self.constraints@
    }

    /// Every constraint of the set holds of the assignment `sol`.
    pub open spec fn holds_all(&self, sol: Seq<Seq<int>>, region_rows: nat, region_cols: nat) -> bool {
        forall|i: int| 0 <= i < self.items().len() ==> #[trigger] self.items()[i].holds(sol, region_rows, region_cols)
    }

    /// Every constraint of the set was built for grids of this shape.
    pub open spec fn built_for_all(&self, region_rows: nat, region_cols: nat) -> bool {
        forall|i: int| 0 <= i < self.items().len() ==> #[trigger] self.items()[i].built_for(region_rows, region_cols)
    }

    /// Every constraint of the set is settled in `grid` outside `unsettled`.
    pub open spec fn settled_all(&self, grid: &CandidateGrid, unsettled: Set<Position>) -> bool {
        forall|i: int| 0 <= i < self.items().len() ==> #[trigger] self.items()[i].settled(grid, unsettled)
    }

    /// In every constraint of the set, the parts that cover no cell ask for a sum of
    /// zero.
    pub open spec fn empty_parts_zero_all(&self) -> bool {
        forall|i: int| 0 <= i < self.items().len() ==> #[trigger] self.items()[i].empty_parts_zero()
    }

    /// The set of `constraints`.
    pub fn new(constraints: Vec<AnyConstraint>) -> (r: Self)
        ensures
            r.items() == constraints@,
    {
        ConstraintSet { constraints }
    }

    /// Adds `constraint` after the others.
    pub fn add_constraint(&mut self, constraint: AnyConstraint)
        ensures
            final(self).items() == old(self).items().push(constraint),
    {
        self.constraints.push(constraint);
    }

    /// Applies the constraints in turn, each from the cells that the last rounds
    /// changed, until no cell changes. Gives `false` as soon as a constraint finds
    /// that no assignment obeying it fits the grid.
    pub fn update(&self, grid: &mut CandidateGrid, active_positions: Grid<bool>) -> (r: bool)
        requires
            old(grid).wf(),
            old(grid).size() <= 64,
            active_positions.wf(),
            active_positions.size() == old(grid).size(),
            self.built_for_all(old(grid).rrows(), old(grid).rcols()),
        ensures
            shrinks(final(grid), old(grid)),
            forall|sol: Seq<Seq<int>>|
                fits(sol, old(grid)) && #[trigger] self.holds_all(sol, old(grid).rrows(), old(grid).rcols())
                    ==> r && fits(sol, final(grid)),
            r && self.settled_all(old(grid), marked_set(&active_positions)) ==> self.settled_all(final(grid), Set::empty()),
            self.items().len() == 0 ==> r && *final(grid) == *old(grid),
    {
        let ghost g0 = *grid;
        let ghost rr = g0.rrows();
        let ghost rc = g0.rcols();
        let n = self.constraints.len();
        if n == 0 {
            return true;
        }
        if n == 1 {
            assert(self.items()[0].built_for(rr, rc));
            let r = self.constraints[0].update_recursive(grid, active_positions);
            proof {
                assert(self.settled_all(&g0, marked_set(&active_positions)) ==> self.items()[0].settled(&g0, marked_set(&active_positions)));
                assert(r is Some && self.items()[0].settled(grid, Set::empty()) ==> self.settled_all(grid, Set::empty()));
                assert forall|sol: Seq<Seq<int>>|
                    fits(sol, &g0) && #[trigger] self.holds_all(sol, rr, rc) implies r is Some && fits(sol, grid) by {
                    assert(self.items()[0].holds(sol, rr, rc));
                }
            }
            return match r {
                Some(_) => true,
                None => false,
            };
        }
        let ghost a0 = active_positions;
        let ghost s0 = self.settled_all(&g0, marked_set(&a0));
        let mut active_positions_set = ActivePositionsSet::new(n, active_positions);
        let ghost mut since: Seq<int> = Seq::new(n as nat, |j: int| 1int);
        proof {
            assert(marked_in_last(active_positions_set.entries(), 1) =~= marked_set(&a0)) by {
                let h = active_positions_set.entries();
                assert forall|p: Position| #[trigger] marked_set(&a0).contains(p) implies marked_in_last(h, 1).contains(p) by {
                    assert(h[0] == a0);
                }
            }
        }
        loop
            invariant
                since.len() == n,
                a0 == active_positions,
                s0 == self.settled_all(&g0, marked_set(&a0)),
                forall|j: int| 0 <= j < n ==> 0 <= #[trigger] since[j] <= active_positions_set.entries().len(),
                s0 ==> forall|j: int| 0 <= j < n ==> #[trigger] self.items()[j].settled(grid, marked_in_last(active_positions_set.entries(), since[j])),
                active_positions_set.capacity() == n ==> active_positions_set.entries().len() == 1,
                active_positions_set.capacity() == n - 1 ==> active_positions_set.entries().len() == n - 1
                    && forall|j: int| 0 <= j < n ==> #[trigger] since[j] <= n - 1 - j,
                n == self.items().len(),
                2 <= n,
                g0 == *old(grid),
                g0.wf(),
                g0.size() <= 64,
                rr == g0.rrows(),
                rc == g0.rcols(),
                self.built_for_all(rr, rc),
                shrinks(grid, &g0),
                forall|sol: Seq<Seq<int>>|
                    fits(sol, &g0) && #[trigger] self.holds_all(sol, rr, rc) ==> fits(sol, grid),
                active_positions_set.wf(),
                active_positions_set.side() == g0.size(),
                active_positions_set.capacity() == n || active_positions_set.capacity() == n - 1,
                active_positions_set.entries().len() <= active_positions_set.capacity(),
            decreases
                total_candidates(grid),
                active_positions_set.capacity() - trailing_unmarked(active_positions_set.entries()),
        {
            let ghost t0 = total_candidates(grid) as int;
            let ghost m0 = active_positions_set.capacity() - trailing_unmarked(active_positions_set.entries());
            let mut k: usize = 0;
            while k < n
                invariant
                    since.len() == n,
                    a0 == active_positions,
                    s0 == self.settled_all(&g0, marked_set(&a0)),
                    forall|j: int| 0 <= j < n ==> 0 <= #[trigger] since[j] <= active_positions_set.entries().len(),
                    s0 ==> forall|j: int| 0 <= j < n ==> #[trigger] self.items()[j].settled(grid, marked_in_last(active_positions_set.entries(), since[j])),
                    forall|j: int| 0 <= j < k ==> #[trigger] since[j] <= k - 1 - j,
                    active_positions_set.capacity() == n ==> active_positions_set.entries().len() == (if k < n { k + 1 } else { n as int }),
                    active_positions_set.capacity() == n - 1 ==> active_positions_set.entries().len() == n - 1
                        && forall|j: int| k <= j < n ==> #[trigger] since[j] <= n - 1 - j + k,
                    n == self.items().len(),
                    2 <= n,
                    k <= n,
                    g0 == *old(grid),
                    g0.wf(),
                    g0.size() <= 64,
                    rr == g0.rrows(),
                    rc == g0.rcols(),
                    self.built_for_all(rr, rc),
                    shrinks(grid, &g0),
                    forall|sol: Seq<Seq<int>>|
                        fits(sol, &g0) && #[trigger] self.holds_all(sol, rr, rc) ==> fits(sol, grid),
                    active_positions_set.wf(),
                    active_positions_set.side() == g0.size(),
                    active_positions_set.capacity() == n || active_positions_set.capacity() == n - 1,
                    active_positions_set.entries().len() <= active_positions_set.capacity(),
                    k == 0 ==> total_candidates(grid) == t0
                        && active_positions_set.capacity() - trailing_unmarked(active_positions_set.entries()) == m0,
                    k > 0 ==> lex_lt(
                        total_candidates(grid) as int,
                        active_positions_set.capacity() - trailing_unmarked(active_positions_set.entries()),
                        t0,
                        m0,
                    ),
                decreases n - k,
            {
                let active_positions = active_positions_set.aggregate();
                proof {
                    active_positions_set.lemma_entries();
                    let h = active_positions_set.entries();
                    assert forall|j: int| 0 <= j < n implies marked_in_last(h, #[trigger] since[j]).subset_of(marked_set(&active_positions)) by {
                        assert forall|p: Position| marked_in_last(h, since[j]).contains(p) implies marked_set(&active_positions).contains(p) by {
                            let i = choose|i: int| 0 <= i && h.len() - since[j] <= i < h.len() && h[i].in_bounds(p) && #[trigger] h[i].at(p);
                            assert(marked_in_some(h, p));
                        }
                    }
                    if s0 {
                        assert forall|j: int| 0 <= j < n implies #[trigger] self.items()[j].settled(grid, marked_set(&active_positions)) by {
                            assert(self.items()[j].built_for(rr, rc));
                            self.items()[j].lemma_settled_shrink(grid, grid, marked_in_last(h, since[j]), marked_set(&active_positions));
                        }
                    }
                }
                if !helpers::is_any_true(&active_positions) {
                    proof {
                        if s0 {
                            assert(marked_set(&active_positions) =~= Set::<Position>::empty()) by {
                                assert forall|p: Position| !marked_set(&active_positions).contains(p) by {
                                    if active_positions.in_bounds(p) && active_positions.at(p) {
                                        assert(active_positions@[p.row as int][p.col as int]);
                                    }
                                }
                            }
                            assert forall|j: int| 0 <= j < n implies #[trigger] self.items()[j].settled(grid, Set::empty()) by {
                                assert(self.items()[j].settled(grid, marked_set(&active_positions)));
                            }
                        }
                    }
                    return true;
                }
                let ghost h = active_positions_set.entries();
                let ghost g1 = *grid;
                proof {
                    vstd::set_lib::lemma_len_subset(Set::<int>::empty(), Set::<int>::empty());
                    let (r, c) = choose|r: int, c: int|
                        0 <= r < active_positions.size() && 0 <= c < active_positions.size() && #[trigger] active_positions@[r][c];
                    g0.lemma_size_bound();
                    let p = Position { row: r as usize, col: c as usize };
                    assert(active_positions.at(p));
                    assert(marked_in_some(h, p));
                    let i = choose|i: int| 0 <= i < h.len() && #[trigger] h[i].at(p);
                    active_positions_set.lemma_entries();
                    assert(h[i].size() == g0.size());
                    assert(h[i]@[r][c]);
                    assert(any_marked(&h[i]));
                    crate::constraints::active_positions_set::lemma_trailing_bound(h);
                    assert(trailing_unmarked(h) < h.len());
                    assert(self.items()[k as int].built_for(rr, rc));
                }
                match self.constraints[k].update_recursive(grid, active_positions) {
                    Some(updated_positions) => {
                        proof {
                            lemma_total_decreases(grid, &g1);
                            if any_marked(&updated_positions) {
                                let (r, c) = choose|r: int, c: int|
                                    0 <= r < updated_positions.size() && 0 <= c < updated_positions.size()
                                        && #[trigger] updated_positions@[r][c];
                                assert(grid@[r][c]@ != g1@[r][c]@);
                            } else {
                                assert(shrinks(&g1, grid)) by {
                                    assert forall|r: int, c: int|
                                        0 <= r < g1.size() && 0 <= c < g1.size() implies (#[trigger] g1@[r][c])@.subset_of(grid@[r][c]@) by {
                                        assert(!updated_positions@[r][c]);
                                    }
                                }
                                lemma_total_decreases(&g1, grid);
                            }
                            assert forall|sol: Seq<Seq<int>>|
                                fits(sol, &g0) && #[trigger] self.holds_all(sol, rr, rc) implies fits(sol, grid) by {
                                assert(self.items()[k as int].holds(sol, rr, rc));
                                assert(fits(sol, &g1));
                            }
                        }
                        let ghost e = updated_positions;
                        let ghost g2 = *grid;
                        active_positions_set.push(updated_positions);
                        proof {
                            let h2 = active_positions_set.entries();
                            let old_since = since;
                            since = Seq::new(n as nat, |j: int| if j == k { 0int } else { old_since[j] + 1 });
                            assert forall|j: int| 0 <= j < n && j != k implies #[trigger] since[j] <= h2.len()
                                && marked_in_last(h2, since[j]) == marked_in_last(h, old_since[j]).union(marked_set(&e)) by {
                                lemma_last_push(h, e, old_since[j]);
                                if h.len() + 1 > active_positions_set.capacity() {
                                    lemma_last_suffix(h.push(e), 1, old_since[j] + 1);
                                }
                            }
                            if s0 {
                                assert forall|j: int| 0 <= j < n implies #[trigger] self.items()[j].settled(grid, marked_in_last(h2, since[j])) by {
                                    assert(self.items()[j].built_for(rr, rc));
                                    if j == k {
                                        assert(marked_in_last(h2, 0) =~= Set::<Position>::empty());
                                    } else {
                                        assert(changed_cells(&g2, &g1).subset_of(marked_set(&e))) by {
                                            assert forall|p: Position| #[trigger] changed_cells(&g2, &g1).contains(p) implies marked_set(&e).contains(p) by {
                                                assert(e@[p.row as int][p.col as int]);
                                            }
                                        }
                                        self.items()[j].lemma_settled_shrink(&g1, &g2, marked_in_last(h, old_since[j]), marked_in_last(h2, since[j]));
                                    }
                                }
                            }
                            let h1 = h.push(e);
                            assert(h1.drop_last() =~= h);
                            if !any_marked(&e) {
                                assert(trailing_unmarked(h1) == trailing_unmarked(h) + 1);
                                crate::constraints::active_positions_set::lemma_trailing_bound(h1);
                                if h.len() + 1 > active_positions_set.capacity() {
                                    crate::constraints::active_positions_set::lemma_trailing_front(h1);
                                }
                            }
                            crate::constraints::active_positions_set::lemma_trailing_bound(active_positions_set.entries());
                        }
                    },
                    None => {
                        proof {
                            assert forall|sol: Seq<Seq<int>>|
                                fits(sol, &g0) && #[trigger] self.holds_all(sol, rr, rc) implies false by {
                                assert(self.items()[k as int].holds(sol, rr, rc));
                                assert(fits(sol, &g1));
                            }
                        }
                        return false;
                    },
                }
                k = k + 1;
            }
            let ghost h2 = active_positions_set.entries();
            if active_positions_set.max_capacity() > n - 1 {
                active_positions_set.set_max_capacity(n - 1);
                proof {
                    assert forall|j: int| 0 <= j < n implies marked_in_last(active_positions_set.entries(), #[trigger] since[j])
                        == marked_in_last(h2, since[j]) by {
                        lemma_last_suffix(h2, 1, since[j]);
                    }
                    crate::constraints::active_positions_set::lemma_trailing_bound(h2);
                    if h2.len() > n - 1 {
                        crate::constraints::active_positions_set::lemma_trailing_front(h2);
                        assert(h2.subrange(1, h2.len() as int) =~= active_positions_set.entries());
                    }
                    crate::constraints::active_positions_set::lemma_trailing_bound(active_positions_set.entries());
                }
            }
            proof {
                crate::constraints::active_positions_set::lemma_trailing_bound(active_positions_set.entries());
                assert(lex_lt(
                    total_candidates(grid) as int,
                    active_positions_set.capacity() - trailing_unmarked(active_positions_set.entries()),
                    t0,
                    m0,
                ));
            }
        }
    }
}

} // verus!

use vstd::prelude::*;
use vstd::set_lib::*;
use crate::grid::candidate_cell::CandidateCell;
use crate::grid::grid::Grid;

verus! {

/// A grid of candidate sets, one per cell.
pub type CandidateGrid = Grid<CandidateCell>;

/// A grid of final values, one per cell.
pub type SolutionGrid = Grid<usize>;

/// Every cell of `new` holds only candidates that the same cell of `old` held, and the
/// two grids have the same shape.
pub open spec fn shrinks(new: &CandidateGrid, old: &CandidateGrid) -> bool {
    &&& new.wf()
    &&& new.same_shape(old)
    &&& forall|r: int, c: int|
        0 <= r < old.size() && 0 <= c < old.size() ==> (#[trigger] new@[r][c])@.subset_of(old@[r][c]@)
}

/// `a` marks exactly the cells whose candidates differ between `new` and `old`.
pub open spec fn marks_changes(a: &Grid<bool>, new: &CandidateGrid, old: &CandidateGrid) -> bool {
    &&& a.wf()
    &&& a.same_shape(old)
    &&& forall|r: int, c: int|
        0 <= r < old.size() && 0 <= c < old.size() ==> (#[trigger] a@[r][c] <==> new@[r][c]@ != old@[r][c]@)
}

/// `sol` is a square assignment of values of side `n`.
pub open spec fn is_assignment(sol: Seq<Seq<int>>, n: nat) -> bool {
    &&& sol.len() == n
    &&& forall|r: int| 0 <= r < n ==> #[trigger] sol[r].len() == n
}

/// The assignment `sol` picks, in every cell of `g`, one of that cell's candidates.
pub open spec fn fits(sol: Seq<Seq<int>>, g: &CandidateGrid) -> bool {
    &&& is_assignment(sol, g.size())
    &&& forall|r: int, c: int|
        0 <= r < g.size() && 0 <= c < g.size() ==> (#[trigger] g@[r][c])@.contains(sol[r][c])
}

/// No cell of `g` is left without candidates.
pub open spec fn no_empty_cell(g: &CandidateGrid) -> bool {
    forall|r: int, c: int| 0 <= r < g.size() && 0 <= c < g.size() ==> (#[trigger] g@[r][c])@.len() > 0
}

/// Whether any cell of `g` is marked.
pub open spec fn any_marked(g: &Grid<bool>) -> bool {
    exists|r: int, c: int| 0 <= r < g.size() && 0 <= c < g.size() && #[trigger] g@[r][c]
}

/// The number of candidates in a row of cells.
pub open spec fn row_total(row: Seq<CandidateCell>) -> nat
    decreases row.len(),
{
    if row.len() == 0 {
        0
    } else {
        row_total(row.drop_last()) + row.last()@.len()
    }
}

/// The number of candidates in a list of rows.
pub open spec fn rows_total(rows: Seq<Seq<CandidateCell>>) -> nat
    decreases rows.len(),
{
    if rows.len() == 0 {
        0
    } else {
        rows_total(rows.drop_last()) + row_total(rows.last())
    }
}

/// The number of candidates left in the whole grid.
pub open spec fn total_candidates(g: &CandidateGrid) -> nat {
    rows_total(g@)
}

proof fn lemma_cell_le(a: CandidateCell, b: CandidateCell)
    requires
        a@.subset_of(b@),
    ensures
        a@.len() <= b@.len(),
        a@ != b@ ==> a@.len() < b@.len(),
{
    a.lemma_view_bounds();
    b.lemma_view_bounds();
    lemma_len_subset(a@, b@);
    if a@.len() == b@.len() {
        lemma_subset_equality(a@, b@);
    }
}

proof fn lemma_row_total_le(a: Seq<CandidateCell>, b: Seq<CandidateCell>)
    requires
        a.len() == b.len(),
        forall|i: int| 0 <= i < a.len() ==> (#[trigger] a[i])@.subset_of(b[i]@),
    ensures
        row_total(a) <= row_total(b),
        (exists|i: int| 0 <= i < a.len() && (#[trigger] a[i])@ != b[i]@) ==> row_total(a) < row_total(b),
    decreases a.len(),
{
    if a.len() > 0 {
        let n = a.len() - 1;
        assert forall|i: int| 0 <= i < a.drop_last().len() implies (#[trigger] a.drop_last()[i])@.subset_of(b.drop_last()[i]@) by {
            assert(a.drop_last()[i] == a[i]);
            assert(b.drop_last()[i] == b[i]);
        }
        lemma_row_total_le(a.drop_last(), b.drop_last());
        lemma_cell_le(a[n], b[n]);
        if exists|i: int| 0 <= i < a.len() && (#[trigger] a[i])@ != b[i]@ {
            let i = choose|i: int| 0 <= i < a.len() && (#[trigger] a[i])@ != b[i]@;
            if i < n {
                assert(a.drop_last()[i] == a[i]);
                assert(b.drop_last()[i] == b[i]);
            }
        }
    }
}

proof fn lemma_rows_total_le(a: Seq<Seq<CandidateCell>>, b: Seq<Seq<CandidateCell>>)
    requires
        a.len() == b.len(),
        forall|i: int| 0 <= i < a.len() ==> (#[trigger] a[i]).len() == b[i].len(),
        forall|i: int, j: int| 0 <= i < a.len() && 0 <= j < a[i].len() ==> (#[trigger] a[i][j])@.subset_of(b[i][j]@),
    ensures
        rows_total(a) <= rows_total(b),
        (exists|i: int, j: int| 0 <= i < a.len() && 0 <= j < a[i].len() && (#[trigger] a[i][j])@ != b[i][j]@)
            ==> rows_total(a) < rows_total(b),
    decreases a.len(),
{
    if a.len() > 0 {
        let n = a.len() - 1;
        let a2 = a.drop_last();
        let b2 = b.drop_last();
        assert forall|i: int| 0 <= i < a2.len() implies (#[trigger] a2[i]).len() == b2[i].len() by {
            assert(a2[i] == a[i]);
            assert(b2[i] == b[i]);
        }
        assert forall|i: int, j: int| 0 <= i < a2.len() && 0 <= j < a2[i].len() implies (#[trigger] a2[i][j])@.subset_of(b2[i][j]@) by {
            assert(a2[i] == a[i]);
            assert(b2[i] == b[i]);
        }
        lemma_rows_total_le(a2, b2);
        assert forall|j: int| 0 <= j < a[n].len() implies (#[trigger] a[n][j])@.subset_of(b[n][j]@) by {
        }
        lemma_row_total_le(a[n], b[n]);
        if exists|i: int, j: int| 0 <= i < a.len() && 0 <= j < a[i].len() && (#[trigger] a[i][j])@ != b[i][j]@ {
            let (i, j) = choose|i: int, j: int| 0 <= i < a.len() && 0 <= j < a[i].len() && (#[trigger] a[i][j])@ != b[i][j]@;
            if i < n {
                assert(a2[i] == a[i]);
                assert(b2[i] == b[i]);
                assert(a2[i][j]@ != b2[i][j]@);
            } else {
                assert(a[n][j]@ != b[n][j]@);
            }
        }
    }
}

/// A grid that only lost candidates holds no more of them than before, and strictly
/// fewer when some cell changed.
pub proof fn lemma_total_decreases(new: &CandidateGrid, old: &CandidateGrid)
    requires
        old.wf(),
        shrinks(new, old),
    ensures
        total_candidates(new) <= total_candidates(old),
        (exists|r: int, c: int| 0 <= r < old.size() && 0 <= c < old.size() && (#[trigger] new@[r][c])@ != old@[r][c]@)
            ==> total_candidates(new) < total_candidates(old),
{
    assert forall|i: int| 0 <= i < new@.len() implies (#[trigger] new@[i]).len() == old@[i].len() by {
    }
    assert forall|i: int, j: int| 0 <= i < new@.len() && 0 <= j < new@[i].len() implies (#[trigger] new@[i][j])@.subset_of(old@[i][j]@) by {
    }
    lemma_rows_total_le(new@, old@);
}

} // verus!

use vstd::prelude::*;
use std::collections::VecDeque;
use crate::grid::candidate_grid::any_marked;
use crate::grid::grid::Grid;
use crate::grid::position::Position;

verus! {

/// How many grids of `h` mark `p`.
pub open spec fn mark_count(h: Seq<Grid<bool>>, p: Position) -> nat
    decreases h.len(),
{
    if h.len() == 0 {
        0
    } else {
        mark_count(h.drop_last(), p) + (if h.last().at(p) { 1nat } else { 0nat })
    }
}

/// Whether some grid of `h` marks `p`.
pub open spec fn marked_in_some(h: Seq<Grid<bool>>, p: Position) -> bool {
    exists|i: int| 0 <= i < h.len() && #[trigger] h[i].at(p)
}

/// The grids kept after `e` is pushed onto the kept grids `h` with capacity `cap`: the
/// oldest goes when there would be more than `cap`.
pub open spec fn pushed(h: Seq<Grid<bool>>, cap: nat, e: Grid<bool>) -> Seq<Grid<bool>> {
    if h.len() + 1 > cap {
        h.push(e).subrange(1, h.len() + 1int)
    } else {
        h.push(e)
    }
}

/// The grids kept of `h` when the capacity becomes `cap`: the newest `cap` of them.
pub open spec fn trimmed(h: Seq<Grid<bool>>, cap: nat) -> Seq<Grid<bool>> {
    if h.len() > cap {
        h.subrange(h.len() - cap, h.len() as int)
    } else {
        h
    }
}

/// A call on an `ActivePositionsSet`, for stating what a run of calls does.
pub enum SetCall {
    Push(Grid<bool>),
    Aggregate,
    SetMaxCapacity(usize),
}

/// The grids kept and the capacity after `call`, from the grids kept `state.0` and the
/// capacity `state.1`, as the contracts of `push`, `aggregate` and `set_max_capacity` say.
pub open spec fn after_call(state: (Seq<Grid<bool>>, nat), call: SetCall) -> (Seq<Grid<bool>>, nat) {
    match call {
        SetCall::Push(e) => (pushed(state.0, state.1, e), state.1),
        SetCall::Aggregate => state,
        SetCall::SetMaxCapacity(n) => (trimmed(state.0, n as nat), n as nat),
    }
}

/// The grids kept and the capacity after `calls`, made in turn on the set that
/// `new(c, e0)` gives.
pub open spec fn after_calls(c: nat, e0: Grid<bool>, calls: Seq<SetCall>) -> (Seq<Grid<bool>>, nat)
    decreases calls.len(),
{
    if calls.len() == 0 {
        (seq![e0], c)
    } else {
        after_call(after_calls(c, e0, calls.drop_last()), calls.last())
    }
}

/// `e0` followed by the grids that `calls` push, in order.
pub open spec fn pushed_grids(e0: Grid<bool>, calls: Seq<SetCall>) -> Seq<Grid<bool>> {
    seq![e0] + Seq::new(
        calls.len(),
        |j: int|
            match calls[j] {
                SetCall::Push(e) => e,
                _ => e0,
            },
    )
}

/// After `new(c, e0)` with `c >= 1` and any number of pushes, the set keeps the last `c`
/// grids pushed (counting `e0`), and its aggregate marks exactly the cells that one of
/// them marks; the capacity is still `c`.
pub proof fn law_pushes_keep_last(c: nat, e0: Grid<bool>, calls: Seq<SetCall>)
    requires
        c >= 1,
        forall|j: int| 0 <= j < calls.len() ==> #[trigger] calls[j] is Push,
    ensures
        ({
            let es = pushed_grids(e0, calls);
            let lo = if es.len() > c { es.len() - c } else { 0 };
            &&& after_calls(c, e0, calls).0 == es.subrange(lo, es.len() as int)
            &&& after_calls(c, e0, calls).1 == c
            &&& forall|p: Position|
                marked_in_some(after_calls(c, e0, calls).0, p) <==> exists|i: int| lo <= i < es.len() && #[trigger] es[i].at(p)
        }),
    decreases calls.len(),
{
    let es = pushed_grids(e0, calls);
    let lo: int = if es.len() > c { es.len() - c } else { 0 };
    if calls.len() == 0 {
        assert(es =~= seq![e0]);
        assert(es.subrange(lo, es.len() as int) =~= seq![e0]);
    } else {
        let prev = calls.drop_last();
        law_pushes_keep_last(c, e0, prev);
        let es1 = pushed_grids(e0, prev);
        assert(es1 =~= es.drop_last());
        let lo1: int = if es1.len() > c { es1.len() - c } else { 0 };
        let h = after_calls(c, e0, prev).0;
        assert(h == es1.subrange(lo1, es1.len() as int));
        assert(calls[calls.len() - 1] is Push);
        let e = es[es.len() - 1];
        assert(calls.last() == SetCall::Push(e));
        if h.len() + 1 > c {
            assert(h.push(e).subrange(1, h.len() + 1int) =~= es.subrange(lo, es.len() as int));
        } else {
            assert(h.push(e) =~= es.subrange(lo, es.len() as int));
        }
    }
    let kept = after_calls(c, e0, calls).0;
    assert(kept == es.subrange(lo, es.len() as int));
    assert forall|p: Position|
        marked_in_some(kept, p) <==> exists|i: int| lo <= i < es.len() && #[trigger] es[i].at(p) by {
        if marked_in_some(kept, p) {
            let i = choose|i: int| 0 <= i < kept.len() && #[trigger] kept[i].at(p);
            assert(es[lo + i].at(p));
        }
        if exists|i: int| lo <= i < es.len() && #[trigger] es[i].at(p) {
            let i = choose|i: int| lo <= i < es.len() && #[trigger] es[i].at(p);
            assert(kept[i - lo].at(p));
        }
    }
}

/// After `new(c, e0)` with `c >= 1`, any number of pushes and then
/// `set_max_capacity(n)`, the set keeps the last `min(c, n)` grids pushed (counting
/// `e0`), none when `n` is zero, its aggregate marks exactly the cells that one of them
/// marks, and its capacity is `n`.
pub proof fn law_capacity_change_keeps_last(c: nat, e0: Grid<bool>, calls: Seq<SetCall>, n: usize)
    requires
        c >= 1,
        forall|j: int| 0 <= j < calls.len() ==> #[trigger] calls[j] is Push,
    ensures
        ({
            let es = pushed_grids(e0, calls);
            let m = if c < n { c } else { n as nat };
            let lo = if es.len() > m { es.len() - m } else { 0 };
            let after = after_calls(c, e0, calls.push(SetCall::SetMaxCapacity(n)));
            &&& after.0 == es.subrange(lo, es.len() as int)
            &&& after.1 == n
            &&& forall|p: Position| marked_in_some(after.0, p) <==> exists|i: int| lo <= i < es.len() && #[trigger] es[i].at(p)
        }),
{
    law_pushes_keep_last(c, e0, calls);
    let es = pushed_grids(e0, calls);
    let m: nat = if c < n { c } else { n as nat };
    let lo: int = if es.len() > m { es.len() - m } else { 0 };
    let lo1: int = if es.len() > c { es.len() - c } else { 0 };
    let all = calls.push(SetCall::SetMaxCapacity(n));
    assert(all.drop_last() =~= calls);
    let h = after_calls(c, e0, calls).0;
    assert(h == es.subrange(lo1, es.len() as int));
    let kept = after_calls(c, e0, all).0;
    assert(kept == trimmed(h, n as nat));
    assert(kept =~= es.subrange(lo, es.len() as int));
    assert forall|p: Position|
        marked_in_some(kept, p) <==> exists|i: int| lo <= i < es.len() && #[trigger] es[i].at(p) by {
        if marked_in_some(kept, p) {
            let i = choose|i: int| 0 <= i < kept.len() && #[trigger] kept[i].at(p);
            assert(es[lo + i].at(p));
        }
        if exists|i: int| lo <= i < es.len() && #[trigger] es[i].at(p) {
            let i = choose|i: int| lo <= i < es.len() && #[trigger] es[i].at(p);
            assert(kept[i - lo].at(p));
        }
    }
}

/// After `new(c, e0)` and any run of calls, the capacity is the argument of the last
/// `set_max_capacity` call, or `c` when there was none: `push` and `aggregate` never
/// change it.
pub proof fn law_capacity_is_last_set(c: nat, e0: Grid<bool>, calls: Seq<SetCall>)
    ensures
        forall|j: int|
            0 <= j < calls.len() && #[trigger] calls[j] is SetMaxCapacity && (forall|k: int|
                j < k < calls.len() ==> !(#[trigger] calls[k] is SetMaxCapacity)) ==> after_calls(c, e0, calls).1
                == calls[j]->SetMaxCapacity_0,
        (forall|k: int| 0 <= k < calls.len() ==> !(#[trigger] calls[k] is SetMaxCapacity)) ==> after_calls(c, e0, calls).1 == c,
    decreases calls.len(),
{
    if calls.len() > 0 {
        let prev = calls.drop_last();
        law_capacity_is_last_set(c, e0, prev);
        assert forall|j: int|
            0 <= j < calls.len() && #[trigger] calls[j] is SetMaxCapacity && (forall|k: int|
                j < k < calls.len() ==> !(#[trigger] calls[k] is SetMaxCapacity)) implies after_calls(c, e0, calls).1
                == calls[j]->SetMaxCapacity_0 by {
            if j < calls.len() - 1 {
                assert(prev[j] == calls[j]);
                assert forall|k: int| j < k < prev.len() implies !(#[trigger] prev[k] is SetMaxCapacity) by {
                    assert(prev[k] == calls[k]);
                }
                assert(!(calls[calls.len() - 1] is SetMaxCapacity));
            }
        }
        if forall|k: int| 0 <= k < calls.len() ==> !(#[trigger] calls[k] is SetMaxCapacity) {
            assert forall|k: int| 0 <= k < prev.len() implies !(#[trigger] prev[k] is SetMaxCapacity) by {
                assert(prev[k] == calls[k]);
            }
            assert(!(calls[calls.len() - 1] is SetMaxCapacity));
        }
    }
}

/// How many grids at the end of `h`, counted from the last one back, mark no cell.
pub open spec fn trailing_unmarked(h: Seq<Grid<bool>>) -> nat
    decreases h.len(),
{
    if h.len() == 0 {
        0
    } else if any_marked(&h.last()) {
        0
    } else {
        1 + trailing_unmarked(h.drop_last())
    }
}

proof fn lemma_mark_count_push(h: Seq<Grid<bool>>, e: Grid<bool>, p: Position)
    ensures
        mark_count(h.push(e), p) == mark_count(h, p) + (if e.at(p) { 1nat } else { 0nat }),
{
    assert(h.push(e).drop_last() =~= h);
}

proof fn lemma_mark_count_bounds(h: Seq<Grid<bool>>, p: Position)
    ensures
        mark_count(h, p) <= h.len(),
        mark_count(h, p) > 0 <==> marked_in_some(h, p),
    decreases h.len(),
{
    if h.len() > 0 {
        lemma_mark_count_bounds(h.drop_last(), p);
        if marked_in_some(h.drop_last(), p) {
            let i = choose|i: int| 0 <= i < h.drop_last().len() && #[trigger] h.drop_last()[i].at(p);
            assert(h[i] == h.drop_last()[i]);
        }
        if marked_in_some(h, p) {
            let i = choose|i: int| 0 <= i < h.len() && #[trigger] h[i].at(p);
            if i < h.len() - 1 {
                assert(h.drop_last()[i] == h[i]);
            }
        }
    }
}

proof fn lemma_mark_count_front(h: Seq<Grid<bool>>, p: Position)
    requires
        h.len() > 0,
    ensures
        mark_count(h, p) == mark_count(h.subrange(1, h.len() as int), p) + (if h[0].at(p) { 1nat } else { 0nat }),
    decreases h.len(),
{
    if h.len() > 1 {
        lemma_mark_count_front(h.drop_last(), p);
        assert(h.drop_last().subrange(1, h.drop_last().len() as int) =~= h.subrange(1, h.len() as int).drop_last());
    } else {
        assert(h.subrange(1, h.len() as int) =~= Seq::<Grid<bool>>::empty());
        assert(h.drop_last() =~= Seq::<Grid<bool>>::empty());
    }
}

/// The unmarked grids at the end are at most all of them, and all of them exactly when
/// no grid marks a cell.
pub proof fn lemma_trailing_bound(h: Seq<Grid<bool>>)
    ensures
        trailing_unmarked(h) <= h.len(),
        trailing_unmarked(h) == h.len() <==> forall|i: int| 0 <= i < h.len() ==> !any_marked(#[trigger] &h[i]),
    decreases h.len(),
{
    if h.len() > 0 {
        lemma_trailing_bound(h.drop_last());
        if forall|i: int| 0 <= i < h.len() ==> !any_marked(#[trigger] &h[i]) {
            assert forall|i: int| 0 <= i < h.drop_last().len() implies !any_marked(#[trigger] &h.drop_last()[i]) by {
                assert(h.drop_last()[i] == h[i]);
            }
            assert(!any_marked(&h[h.len() - 1]));
        }
        if trailing_unmarked(h) == h.len() {
            assert forall|i: int| 0 <= i < h.len() implies !any_marked(#[trigger] &h[i]) by {
                if i < h.len() - 1 {
                    assert(h.drop_last()[i] == h[i]);
                }
            }
        }
    }
}

/// Dropping the first grid shortens the unmarked run at the end only when it covered
/// every grid.
pub proof fn lemma_trailing_front(h: Seq<Grid<bool>>)
    requires
        h.len() > 0,
    ensures
        trailing_unmarked(h.subrange(1, h.len() as int)) == if trailing_unmarked(h) == h.len() {
            (h.len() - 1) as nat
        } else {
            trailing_unmarked(h)
        },
    decreases h.len(),
{
    lemma_trailing_bound(h);
    if h.len() > 1 {
        lemma_trailing_front(h.drop_last());
        assert(h.drop_last().subrange(1, h.drop_last().len() as int) =~= h.subrange(1, h.len() as int).drop_last());
        assert(h.subrange(1, h.len() as int).last() == h.last());
        lemma_trailing_bound(h.drop_last());
    } else {
        assert(h.subrange(1, h.len() as int) =~= Seq::<Grid<bool>>::empty());
        assert(h.drop_last() =~= Seq::<Grid<bool>>::empty());
    }
}

/// The grids of active positions that the last constraints of a round produced, with,
/// for every cell, how many of them mark it.
pub struct ActivePositionsSet {
    counter: Grid<usize>,
    history: VecDeque<Grid<bool>>,
    max_capacity: usize,
}

impl ActivePositionsSet {
    /// The grids kept, oldest first.
    pub closed spec fn entries(&self) -> Seq<Grid<bool>> {
        self.history@
    }

    /// The number of grids that the set keeps at most (one more while it holds just
    /// its first grid).
    pub closed spec fn capacity(&self) -> nat {
        self.max_capacity as nat
    }

    /// The side of the grids kept.
    pub closed spec fn side(&self) -> nat {
        self.counter.size()
    }

    /// The rows of a region of the grids kept.
    pub closed spec fn shape_rows(&self) -> nat {
        self.counter.rrows()
    }

    /// The columns of a region of the grids kept.
    pub closed spec fn shape_cols(&self) -> nat {
        self.counter.rcols()
    }

    /// The counts agree with the grids kept, every grid kept has the set's shape, and
    /// no more grids are kept than the capacity allows.
    pub closed spec fn wf(&self) -> bool {
        &&& self.counter.wf()
        &&& self.history@.len() <= (if self.max_capacity == 0 { 1 } else { self.max_capacity as int })
        &&& forall|i: int| 0 <= i < self.history@.len() ==> (#[trigger] self.history@[i]).wf() && self.history@[i].size() == self.counter.size()
        &&& forall|p: Position| self.counter.in_bounds(p) ==> #[trigger] self.counter.at(p) == mark_count(self.history@, p)
    }

    /// Every grid kept is well formed and of the set's side.
    pub proof fn lemma_entries(&self)
        requires
            self.wf(),
        ensures
            forall|i: int| 0 <= i < self.entries().len() ==> (#[trigger] self.entries()[i]).wf()
                && self.entries()[i].size() == self.side(),
    {
    }

    /// The set that keeps `initial_entry` and at most `max_capacity` grids.
    pub fn new(max_capacity: usize, initial_entry: Grid<bool>) -> (r: Self)
        requires
            initial_entry.wf(),
        ensures
            r.wf(),
            r.entries() == seq![initial_entry],
            r.capacity() == max_capacity,
            r.side() == initial_entry.size(),
            r.shape_rows() == initial_entry.rrows(),
            r.shape_cols() == initial_entry.rcols(),
    {
        let counter = initial_entry.map(|cell: &bool| -> (r: usize)
            ensures
                r == (if *cell { 1usize } else { 0usize }),
            {
                if *cell { 1 } else { 0 }
            });
        let mut history: VecDeque<Grid<bool>> = VecDeque::new();
        history.push_back(initial_entry);
        let r = ActivePositionsSet { counter, history, max_capacity };
        proof {
            assert forall|p: Position| r.counter.in_bounds(p) implies #[trigger] r.counter.at(p) == mark_count(r.history@, p) by {
                lemma_mark_count_push(Seq::empty(), initial_entry, p);
                assert(r.history@ =~= Seq::<Grid<bool>>::empty().push(initial_entry));
                assert(r.counter@[p.row as int][p.col as int] == (if initial_entry@[p.row as int][p.col as int] { 1usize } else { 0usize }));
            }
        }
        r
    }

    /// Adds `new_entry`, dropping the oldest grid when there are more than the
    /// capacity allows.
    pub fn push(&mut self, new_entry: Grid<bool>)
        requires
            old(self).wf(),
            new_entry.wf(),
            new_entry.size() == old(self).side(),
        ensures
            final(self).wf(),
            final(self).capacity() == old(self).capacity(),
            final(self).side() == old(self).side(),
            final(self).shape_rows() == old(self).shape_rows(),
            final(self).shape_cols() == old(self).shape_cols(),
            final(self).entries() == pushed(old(self).entries(), old(self).capacity(), new_entry),
    {
        let ghost h0 = self.history@;
        let ghost c0 = self.counter;
        self.history.push_back(new_entry);
        let ghost h1 = self.history@;
        let len = self.history.len();
        assert(h1 == h0.push(new_entry));
        proof {
            assert forall|i: int, j: int| 0 <= i < c0.size() && 0 <= j < c0.size() && #[trigger] new_entry@[i][j]
                implies c0@[i][j] < usize::MAX by {
                c0.lemma_size_bound();
                let p = Position { row: i as usize, col: j as usize };
                lemma_mark_count_bounds(h0, p);
                assert(c0.at(p) == mark_count(h0, p));
            }
        }
        let last = &self.history[len - 1];
        assert(*last == new_entry);
        self.counter.zip_apply(last, |count: &usize, active: &bool| -> (r: usize)
            requires
                *active ==> *count < usize::MAX,
            ensures
                r == *count + (if *active { 1int } else { 0int }),
            {
                if *active { *count + 1 } else { *count }
            });
        proof {
            assert forall|p: Position| self.counter.in_bounds(p) implies #[trigger] self.counter.at(p) == mark_count(h1, p) by {
                lemma_mark_count_push(h0, new_entry, p);
                assert(c0.in_bounds(p));
                assert(c0.at(p) == mark_count(h0, p));
                assert(self.counter@[p.row as int][p.col as int] == c0@[p.row as int][p.col as int]
                    + (if new_entry@[p.row as int][p.col as int] { 1int } else { 0int }));
            }
        }
        if self.history.len() > self.max_capacity {
            let old_entry = self.history.pop_front().unwrap();
            let ghost c1 = self.counter;
            proof {
                assert forall|i: int, j: int| 0 <= i < c1.size() && 0 <= j < c1.size() && #[trigger] old_entry@[i][j]
                    implies c1@[i][j] > 0 by {
                    c1.lemma_size_bound();
                    let p = Position { row: i as usize, col: j as usize };
                    lemma_mark_count_front(h1, p);
                    assert(c1.at(p) == mark_count(h1, p));
                }
            }
            self.counter.zip_apply(&old_entry, |count: &usize, active: &bool| -> (r: usize)
                requires
                    *active ==> *count > 0,
                ensures
                    r == *count - (if *active { 1int } else { 0int }),
                {
                    if *active { *count - 1 } else { *count }
                });
            proof {
                assert forall|p: Position| self.counter.in_bounds(p) implies #[trigger] self.counter.at(p) == mark_count(self.history@, p) by {
                    lemma_mark_count_front(h1, p);
                    assert(self.counter@[p.row as int][p.col as int] == c1@[p.row as int][p.col as int]
                        - (if old_entry@[p.row as int][p.col as int] { 1int } else { 0int }));
                    assert(c1.at(p) == mark_count(h1, p));
                }
            }
        }
    }

    /// The grid that marks every cell that some kept grid marks.
    pub fn aggregate(&self) -> (r: Grid<bool>)
        requires
            self.wf(),
        ensures
            r.wf(),
            r.size() == self.side(),
            r.rrows() == self.shape_rows(),
            r.rcols() == self.shape_cols(),
            forall|p: Position| r.in_bounds(p) ==> (#[trigger] r.at(p) <==> marked_in_some(self.entries(), p)),
    {
        let r = self.counter.map(|cell: &usize| -> (r: bool)
            ensures
                r == (*cell > 0),
            {
                *cell > 0
            });
        proof {
            assert forall|p: Position| r.in_bounds(p) implies (#[trigger] r.at(p) <==> marked_in_some(self.entries(), p)) by {
                lemma_mark_count_bounds(self.history@, p);
                assert(self.counter.at(p) == mark_count(self.history@, p));
            }
        }
        r
    }

    /// Sets the capacity to `new_capacity`, dropping the oldest grids beyond it.
    pub fn set_max_capacity(&mut self, new_capacity: usize)
        requires
            old(self).wf(),
        ensures
            final(self).wf(),
            final(self).capacity() == new_capacity,
            final(self).side() == old(self).side(),
            final(self).shape_rows() == old(self).shape_rows(),
            final(self).shape_cols() == old(self).shape_cols(),
            final(self).entries() == trimmed(old(self).entries(), new_capacity as nat),
    {
        self.max_capacity = new_capacity;
        let ghost h0 = self.history@;
        while self.history.len() > self.max_capacity
            invariant
                self.counter.wf(),
                self.max_capacity == new_capacity,
                self.counter.rrows() == old(self).shape_rows(),
                self.counter.rcols() == old(self).shape_cols(),
                self.counter.size() == old(self).side(),
                h0 == old(self).entries(),
                h0.len() <= old(self).entries().len(),
                self.history@ == (if h0.len() - self.history@.len() > 0 {
                    h0.subrange(h0.len() - self.history@.len(), h0.len() as int)
                } else {
                    h0
                }),
                self.history@.len() >= (if h0.len() > new_capacity { new_capacity as int } else { h0.len() as int }),
                forall|i: int| 0 <= i < self.history@.len() ==> (#[trigger] self.history@[i]).wf() && self.history@[i].size() == self.counter.size(),
                forall|p: Position| self.counter.in_bounds(p) ==> #[trigger] self.counter.at(p) == mark_count(self.history@, p),
            decreases self.history@.len(),
        {
            let ghost h1 = self.history@;
            let old_entry = self.history.pop_front().unwrap();
            let ghost c1 = self.counter;
            proof {
                assert forall|i: int, j: int| 0 <= i < c1.size() && 0 <= j < c1.size() && #[trigger] old_entry@[i][j]
                    implies c1@[i][j] > 0 by {
                    c1.lemma_size_bound();
                    let p = Position { row: i as usize, col: j as usize };
                    lemma_mark_count_front(h1, p);
                    assert(c1.at(p) == mark_count(h1, p));
                }
            }
            self.counter.zip_apply(&old_entry, |count: &usize, active: &bool| -> (r: usize)
                requires
                    *active ==> *count > 0,
                ensures
                    r == *count - (if *active { 1int } else { 0int }),
                {
                    if *active { *count - 1 } else { *count }
                });
            proof {
                assert forall|p: Position| self.counter.in_bounds(p) implies #[trigger] self.counter.at(p) == mark_count(self.history@, p) by {
                    lemma_mark_count_front(h1, p);
                    assert(self.counter@[p.row as int][p.col as int] == c1@[p.row as int][p.col as int]
                        - (if old_entry@[p.row as int][p.col as int] { 1int } else { 0int }));
                    assert(c1.at(p) == mark_count(h1, p));
                }
                assert(self.history@ =~= h0.subrange(h0.len() - self.history@.len(), h0.len() as int));
            }
        }
    }

    /// The number of grids that the set keeps at most.
    pub fn max_capacity(&self) -> (r: usize)
        ensures
            r == self.capacity(),
    {
        self.max_capacity
    }
}

} // verus!

use vstd::prelude::*;

verus! {

/// The sum of a sequence of values.
pub open spec fn seq_sum(s: Seq<int>) -> int
    decreases s.len(),
{
    if s.len() == 0 {
        0
    } else {
        seq_sum(s.drop_last()) + s.last()
    }
}

/// The search for a sum over a line of slots: slot `i` may hold one of `cands[i]`,
/// every value lies in `1..=n`, and no value repeats among slots of one group
/// (`groups[i]` is the group of slot `i`).
///
/// Whether `v` may go in slot `idx` when the pairs (group, value) in `used` are taken
/// and `rem` is what is left of the sum.
pub open spec fn sum_step(
    cands: Seq<Set<int>>,
    groups: Seq<int>,
    n: int,
    used: Set<(int, int)>,
    idx: int,
    rem: int,
    v: int,
) -> bool {
    &&& 1 <= v <= n
    &&& v <= rem
    &&& !used.contains((groups[idx], v))
    &&& cands[idx].contains(v)
}

/// Whether the slots from `idx` on can be filled so that they add up to `rem`.
pub open spec fn sum_completes(
    cands: Seq<Set<int>>,
    groups: Seq<int>,
    n: int,
    used: Set<(int, int)>,
    idx: nat,
    rem: int,
) -> bool
    decreases cands.len() - idx,
{
    if idx >= cands.len() {
        rem == 0
    } else {
        exists|v: int|
            #[trigger] sum_step(cands, groups, n, used, idx as int, rem, v) && sum_completes(
                cands,
                groups,
                n,
                used.insert((groups[idx as int], v)),
                idx + 1,
                rem - v,
            )
    }
}

/// Whether some way of filling the slots from `idx` on, adding up to `rem`, puts `w`
/// in slot `j`.
pub open spec fn sum_supports(
    cands: Seq<Set<int>>,
    groups: Seq<int>,
    n: int,
    used: Set<(int, int)>,
    idx: nat,
    rem: int,
    j: int,
    w: int,
) -> bool
    decreases cands.len() - idx,
{
    if idx >= cands.len() {
        false
    } else {
        exists|v: int|
            #[trigger] sum_step(cands, groups, n, used, idx as int, rem, v) && (
            (j == idx && w == v && sum_completes(
                cands,
                groups,
                n,
                used.insert((groups[idx as int], v)),
                idx + 1,
                rem - v,
            )) || (j > idx && sum_supports(
                cands,
                groups,
                n,
                used.insert((groups[idx as int], v)),
                idx + 1,
                rem - v,
                j,
                w,
            )))
    }
}

/// Slots that hold more candidates can still be filled in every way they could be.
pub proof fn lemma_completes_mono(
    small: Seq<Set<int>>,
    big: Seq<Set<int>>,
    groups: Seq<int>,
    n: int,
    used: Set<(int, int)>,
    idx: nat,
    rem: int,
)
    requires
        small.len() == big.len(),
        forall|i: int| 0 <= i < small.len() ==> (#[trigger] small[i]).subset_of(big[i]),
        sum_completes(small, groups, n, used, idx, rem),
    ensures
        sum_completes(big, groups, n, used, idx, rem),
    decreases small.len() - idx,
{
    if idx < small.len() {
        let v = choose|v: int|
            #[trigger] sum_step(small, groups, n, used, idx as int, rem, v) && sum_completes(
                small,
                groups,
                n,
                used.insert((groups[idx as int], v)),
                idx + 1,
                rem - v,
            );
        lemma_completes_mono(small, big, groups, n, used.insert((groups[idx as int], v)), idx + 1, rem - v);
        assert(small[idx as int].subset_of(big[idx as int]));
        assert(sum_step(big, groups, n, used, idx as int, rem, v));
    }
}

/// A value that some filling puts in slot `j` is still put there by one when the slots
/// hold more candidates.
pub proof fn lemma_supports_mono(
    small: Seq<Set<int>>,
    big: Seq<Set<int>>,
    groups: Seq<int>,
    n: int,
    used: Set<(int, int)>,
    idx: nat,
    rem: int,
    j: int,
    w: int,
)
    requires
        small.len() == big.len(),
        forall|i: int| 0 <= i < small.len() ==> (#[trigger] small[i]).subset_of(big[i]),
        sum_supports(small, groups, n, used, idx, rem, j, w),
    ensures
        sum_supports(big, groups, n, used, idx, rem, j, w),
    decreases small.len() - idx,
{
    if idx < small.len() {
        let v = choose|v: int|
            #[trigger] sum_step(small, groups, n, used, idx as int, rem, v) && (
            (j == idx && w == v && sum_completes(
                small,
                groups,
                n,
                used.insert((groups[idx as int], v)),
                idx + 1,
                rem - v,
            )) || (j > idx && sum_supports(
                small,
                groups,
                n,
                used.insert((groups[idx as int], v)),
                idx + 1,
                rem - v,
                j,
                w,
            )));
        assert(small[idx as int].subset_of(big[idx as int]));
        assert(sum_step(big, groups, n, used, idx as int, rem, v));
        if j == idx && w == v && sum_completes(small, groups, n, used.insert((groups[idx as int], v)), idx + 1, rem - v) {
            lemma_completes_mono(small, big, groups, n, used.insert((groups[idx as int], v)), idx + 1, rem - v);
        } else {
            lemma_supports_mono(small, big, groups, n, used.insert((groups[idx as int], v)), idx + 1, rem - v, j, w);
        }
    }
}

/// `vals` fills the slots: each value a candidate of its slot in `1..=n`, no value
/// twice in a group, and the values add up to `target`.
pub open spec fn sum_assignment(
    vals: Seq<int>,
    cands: Seq<Set<int>>,
    groups: Seq<int>,
    n: int,
    target: int,
) -> bool {
    &&& vals.len() == cands.len()
    &&& groups.len() == cands.len()
    &&& forall|i: int| 0 <= i < vals.len() ==> 1 <= #[trigger] vals[i] <= n && cands[i].contains(vals[i])
    &&& forall|i: int, k: int|
        0 <= i < k < vals.len() && groups[i] == groups[k] ==> #[trigger] vals[i] != #[trigger] vals[k]
    &&& seq_sum(vals) == target
}

/// The pairs (group, value) of the first `idx` slots of `vals`.
pub open spec fn used_prefix(vals: Seq<int>, groups: Seq<int>, idx: int) -> Set<(int, int)> {
    Set::new(|p: (int, int)| exists|k: int| 0 <= k < idx && p == (groups[k], #[trigger] vals[k]))
}

proof fn lemma_completes_nonneg(
    cands: Seq<Set<int>>,
    groups: Seq<int>,
    n: int,
    used: Set<(int, int)>,
    idx: nat,
    rem: int,
)
    requires
        sum_completes(cands, groups, n, used, idx, rem),
    ensures
        rem >= 0,
{
    if idx < cands.len() {
        let v = choose|v: int|
            #[trigger] sum_step(cands, groups, n, used, idx as int, rem, v) && sum_completes(
                cands,
                groups,
                n,
                used.insert((groups[idx as int], v)),
                idx + 1,
                rem - v,
            );
    }
}

proof fn lemma_assignment_from(
    vals: Seq<int>,
    cands: Seq<Set<int>>,
    groups: Seq<int>,
    n: int,
    target: int,
    idx: nat,
)
    requires
        sum_assignment(vals, cands, groups, n, target),
        idx <= cands.len(),
    ensures
        sum_completes(cands, groups, n, used_prefix(vals, groups, idx as int), idx, target - seq_sum(vals.take(idx as int))),
        forall|j: int|
            idx <= j < cands.len() ==> #[trigger] sum_supports(
                cands,
                groups,
                n,
                used_prefix(vals, groups, idx as int),
                idx,
                target - seq_sum(vals.take(idx as int)),
                j,
                vals[j],
            ),
    decreases cands.len() - idx,
{
    let used = used_prefix(vals, groups, idx as int);
    let rem = target - seq_sum(vals.take(idx as int));
    if idx == cands.len() {
        assert(vals.take(idx as int) =~= vals);
    } else {
        lemma_assignment_from(vals, cands, groups, n, target, idx + 1);
        let v = vals[idx as int];
        let used1 = used_prefix(vals, groups, idx + 1int);
        assert(used1 =~= used.insert((groups[idx as int], v))) by {
            assert forall|p: (int, int)| used1.contains(p) implies used.insert((groups[idx as int], v)).contains(p) by {
                let k = choose|k: int| 0 <= k < idx + 1 && p == (groups[k], #[trigger] vals[k]);
                if k < idx {
                    assert(used.contains(p));
                }
            }
            assert forall|p: (int, int)| used.insert((groups[idx as int], v)).contains(p) implies used1.contains(p) by {
                if p != (groups[idx as int], v) {
                    let k = choose|k: int| 0 <= k < idx && p == (groups[k], #[trigger] vals[k]);
                    assert(0 <= k < idx + 1 && p == (groups[k], vals[k]));
                } else {
                    assert(0 <= idx < idx + 1 && p == (groups[idx as int], vals[idx as int]));
                }
            }
        }
        assert(vals.take(idx + 1int).drop_last() =~= vals.take(idx as int));
        assert(seq_sum(vals.take(idx + 1int)) == seq_sum(vals.take(idx as int)) + v);
        lemma_completes_nonneg(cands, groups, n, used1, idx + 1, rem - v);
        assert(!used.contains((groups[idx as int], v))) by {
            if used.contains((groups[idx as int], v)) {
                let k = choose|k: int| 0 <= k < idx && (groups[idx as int], v) == (groups[k], #[trigger] vals[k]);
                assert(vals[k] != vals[idx as int]);
            }
        }
        assert(sum_step(cands, groups, n, used, idx as int, rem, v));
        assert forall|j: int| idx <= j < cands.len() implies #[trigger] sum_supports(
            cands,
            groups,
            n,
            used,
            idx,
            rem,
            j,
            vals[j],
        ) by {
            assert(sum_step(cands, groups, n, used, idx as int, rem, v));
            if j > idx {
                assert(sum_supports(cands, groups, n, used1, idx + 1, rem - v, j, vals[j]));
            } else {
                assert(sum_completes(cands, groups, n, used1, idx + 1, rem - v));
            }
        }
    }
}

/// Every assignment that fills the slots is found by the search: the search from the
/// first slot completes, and supports each value of the assignment in its slot.
pub proof fn lemma_assignment_found(
    vals: Seq<int>,
    cands: Seq<Set<int>>,
    groups: Seq<int>,
    n: int,
    target: int,
)
    requires
        sum_assignment(vals, cands, groups, n, target),
    ensures
        sum_completes(cands, groups, n, Set::empty(), 0, target),
        forall|j: int|
            0 <= j < cands.len() ==> #[trigger] sum_supports(cands, groups, n, Set::empty(), 0, target, j, vals[j]),
{
    lemma_assignment_from(vals, cands, groups, n, target, 0);
    assert(used_prefix(vals, groups, 0) =~= Set::<(int, int)>::empty());
    assert(vals.take(0) =~= Seq::<int>::empty());
}

proof fn lemma_completes_singletons_from(
    vals: Seq<int>,
    cands: Seq<Set<int>>,
    groups: Seq<int>,
    n: int,
    target: int,
    idx: nat,
)
    requires
        vals.len() == cands.len(),
        groups.len() == cands.len(),
        forall|i: int| 0 <= i < cands.len() ==> #[trigger] cands[i] == set![vals[i]],
        idx <= cands.len(),
        sum_completes(cands, groups, n, used_prefix(vals, groups, idx as int), idx, target - seq_sum(vals.take(idx as int))),
    ensures
        forall|i: int| idx <= i < vals.len() ==> 1 <= #[trigger] vals[i] <= n,
        forall|i: int, k: int|
            0 <= i < k < vals.len() && idx <= k && groups[i] == groups[k] ==> #[trigger] vals[i] != #[trigger] vals[k],
        seq_sum(vals) == target,
    decreases cands.len() - idx,
{
    let used = used_prefix(vals, groups, idx as int);
    let rem = target - seq_sum(vals.take(idx as int));
    if idx == cands.len() {
        assert(vals.take(idx as int) =~= vals);
    } else {
        let v = choose|v: int|
            #[trigger] sum_step(cands, groups, n, used, idx as int, rem, v) && sum_completes(
                cands,
                groups,
                n,
                used.insert((groups[idx as int], v)),
                idx + 1,
                rem - v,
            );
        assert(cands[idx as int] == set![vals[idx as int]]);
        assert(v == vals[idx as int]);
        let used1 = used_prefix(vals, groups, idx + 1int);
        assert(used1 =~= used.insert((groups[idx as int], v))) by {
            assert forall|p: (int, int)| used1.contains(p) implies used.insert((groups[idx as int], v)).contains(p) by {
                let k = choose|k: int| 0 <= k < idx + 1 && p == (groups[k], #[trigger] vals[k]);
                if k < idx {
                    assert(used.contains(p));
                }
            }
            assert forall|p: (int, int)| used.insert((groups[idx as int], v)).contains(p) implies used1.contains(p) by {
                if p != (groups[idx as int], v) {
                    let k = choose|k: int| 0 <= k < idx && p == (groups[k], #[trigger] vals[k]);
                    assert(0 <= k < idx + 1 && p == (groups[k], vals[k]));
                } else {
                    assert(0 <= idx < idx + 1 && p == (groups[idx as int], vals[idx as int]));
                }
            }
        }
        assert(vals.take(idx + 1int).drop_last() =~= vals.take(idx as int));
        assert(seq_sum(vals.take(idx + 1int)) == seq_sum(vals.take(idx as int)) + v);
        lemma_completes_singletons_from(vals, cands, groups, n, target, idx + 1);
        assert forall|i: int, k: int|
            0 <= i < k < vals.len() && idx <= k && groups[i] == groups[k] implies #[trigger] vals[i] != #[trigger] vals[k] by {
            if k == idx {
                if vals[i] == vals[k] {
                    assert(used.contains((groups[k], vals[k]))) by {
                        assert(0 <= i < idx && (groups[k], vals[k]) == (groups[i], vals[i]));
                    }
                }
            }
        }
    }
}

/// When every slot has a single candidate, a search that completes reads off a
/// filling: the single candidates fill the slots.
pub proof fn lemma_completes_singletons(
    vals: Seq<int>,
    cands: Seq<Set<int>>,
    groups: Seq<int>,
    n: int,
    target: int,
)
    requires
        vals.len() == cands.len(),
        groups.len() == cands.len(),
        forall|i: int| 0 <= i < cands.len() ==> #[trigger] cands[i] == set![vals[i]],
        sum_completes(cands, groups, n, Set::empty(), 0, target),
    ensures
        sum_assignment(vals, cands, groups, n, target),
{
    assert(used_prefix(vals, groups, 0) =~= Set::<(int, int)>::empty());
    assert(vals.take(0) =~= Seq::<int>::empty());
    lemma_completes_singletons_from(vals, cands, groups, n, target, 0);
    assert forall|i: int| 0 <= i < vals.len() implies 1 <= #[trigger] vals[i] <= n && cands[i].contains(vals[i]) by {
        assert(cands[i] == set![vals[i]]);
    }
}

} // verus!

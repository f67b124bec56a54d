use vstd::prelude::*;
use vstd::set_lib::*;

verus! {

/// Whether bit `i` of `mask` is set.
pub open spec fn bit_set(mask: u64, i: int) -> bool {
    (mask >> (i as u64)) & 1u64 == 1u64
}

/// The positions `0..64` of the bits of `mask` that are one.
pub open spec fn one_bits(mask: u64) -> Set<int> {
    Set::new(|i: int| 0 <= i < 64 && bit_set(mask, i))
}

/// The candidate values `1..=64` that a bitmask stands for: value `v` is present
/// exactly when bit `v - 1` is set.
pub open spec fn mask_values(mask: u64) -> Set<int> {
    Set::new(|v: int| 1 <= v <= 64 && bit_set(mask, v - 1))
}

/// The positions below `k` of the bits of `mask` that are one.
spec fn low_one_bits(mask: u64, k: int) -> Set<int> {
    Set::new(|i: int| 0 <= i < k && bit_set(mask, i))
}

/// The number of bits of `x` that are one.
fn count_ones(x: u64) -> (r: u32)
    ensures
        r as int == one_bits(x).len(),
{
    let mut count: u32 = 0;
    let mut i: u64 = 0;
    proof {
        assert(low_one_bits(x, 0) =~= Set::<int>::empty());
    }
    while i < 64
        invariant
            i <= 64,
            count <= i,
            low_one_bits(x, i as int).finite(),
            count as int == low_one_bits(x, i as int).len(),
        decreases 64 - i,
    {
        let ghost before = low_one_bits(x, i as int);
        if (x >> i) & 1u64 == 1u64 {
            proof {
                assert(bit_set(x, i as int));
                assert(low_one_bits(x, i + 1) =~= before.insert(i as int));
                assert(!before.contains(i as int));
            }
            count = count + 1;
        } else {
            proof {
                assert(!bit_set(x, i as int));
                assert(low_one_bits(x, i + 1) =~= before);
            }
        }
        i = i + 1;
    }
    assert(low_one_bits(x, 64) =~= one_bits(x));
    count
}

/// The set of values that a cell of the puzzle may still hold, one bit per value.
#[derive(Debug, Clone, Copy, PartialEq, Eq, Structural)]
pub struct CandidateCell {
    bitmask: u64,
}

impl View for CandidateCell {
    type V = Set<int>;

    closed spec fn view(&self) -> Set<int> {
        mask_values(self.bitmask)
    }
}

proof fn lemma_mask_values_finite(mask: u64)
    ensures
        mask_values(mask).finite(),
        mask_values(mask).len() <= 64,
        one_bits(mask).finite(),
        mask_values(mask).len() == one_bits(mask).len(),
{
    lemma_int_range(1, 65);
    lemma_len_subset(mask_values(mask), set_int_range(1, 65));
    lemma_int_range(0, 64);
    lemma_len_subset(one_bits(mask), set_int_range(0, 64));
    let f = |i: int| i + 1;
    assert(one_bits(mask).map(f) =~= mask_values(mask)) by {
        assert forall|v: int| mask_values(mask).contains(v) implies one_bits(mask).map(f).contains(v) by {
            assert(one_bits(mask).contains(v - 1));
            assert(f(v - 1) == v);
        }
    }
    lemma_map_size(one_bits(mask), mask_values(mask), f);
}

impl CandidateCell {
    /// Every value of a cell lies in `1..=64`, and a cell holds finitely many values.
    pub proof fn lemma_view_bounds(&self)
        ensures
            self@.finite(),
            self@.len() <= 64,
            forall|v: int| #[trigger] self@.contains(v) ==> 1 <= v <= 64,
    {
        lemma_mask_values_finite(self.bitmask);
    }

    /// The cell whose candidates are `1..=count`.
    pub fn with_count(count: u8) -> (r: Self)
        requires
            count < 64,
        ensures
            r@ == Set::new(|v: int| 1 <= v <= count),
            r@.len() == count,
    {
        assert(count < 64 ==> (1u64 << count) >= 1u64) by (bit_vector);
        let bitmask = (1u64 << count) - 1;
        proof {
            assert forall|v: int| 1 <= v <= 64 implies #[trigger] bit_set(bitmask, v - 1) == (v <= count) by {
                let i = (v - 1) as u64;
                assert(count < 64 && i < 64 ==> (((((1u64 << count) - 1u64) as u64) >> i) & 1u64 == 1u64) == (i < count))
                    by (bit_vector);
            }
        }
        let r = Self { bitmask };
        assert(r@ =~= Set::new(|v: int| 1 <= v <= count));
        proof {
            vstd::set_lib::lemma_int_range(1, count + 1int);
            assert(r@ =~= vstd::set_lib::set_int_range(1, count + 1int));
        }
        r
    }

    /// Taking a value out of a cell leaves one candidate fewer when the value was a
    /// candidate, and the cell as it was otherwise.
    pub proof fn lemma_remove_len(&self, value: int)
        ensures
            self@.remove(value).len() == (if self@.contains(value) { self@.len() - 1 } else { self@.len() as int }),
    {
        self.lemma_view_bounds();
        if !self@.contains(value) {
            assert(self@.remove(value) =~= self@);
        }
    }

    /// The cell whose only candidate is `value`.
    pub fn with_value(value: u8) -> (r: Self)
        requires
            1 <= value <= 64,
        ensures
            r@ == set![value as int],
    {
        let r = Self { bitmask: Self::mask_for(value) };
        proof {
            assert forall|v: int| 1 <= v <= 64 implies #[trigger] bit_set(r.bitmask, v - 1) == (v == value) by {
                let i = (v - 1) as u64;
                let k = (value - 1) as u64;
                assert(k < 64 && i < 64 ==> (((1u64 << k) >> i) & 1u64 == 1u64) == (i == k)) by (bit_vector);
            }
        }
        assert(r@ =~= set![value as int]);
        r
    }

    /// Whether `value` is still a candidate of the cell.
    pub fn contains(&self, value: u8) -> (r: bool)
        requires
            1 <= value <= 64,
        ensures
            r == self@.contains(value as int),
    {
        let m = Self::mask_for(value);
        let b = self.bitmask;
        let k = (value - 1) as u64;
        assert(k < 64 ==> ((b & (1u64 << k)) != 0) == ((b >> k) & 1u64 == 1u64)) by (bit_vector);
        self.bitmask & m != 0
    }

    /// The number of candidates of the cell.
    pub fn len(&self) -> (r: u8)
        ensures
            r as int == self@.len(),
    {
        proof {
            lemma_mask_values_finite(self.bitmask);
        }
        let n = count_ones(self.bitmask);
        n as u8
    }

    /// Takes `value` out of the candidates; a value that is not a candidate leaves the
    /// cell as it was.
    pub fn remove(&mut self, value: u8)
        requires
            1 <= value <= 64,
        ensures
            final(self)@ == old(self)@.remove(value as int),
    {
        if !self.contains(value) {
            assert(old(self)@.remove(value as int) =~= old(self)@);
            return;
        }
        let ghost b = self.bitmask;
        self.bitmask = self.bitmask ^ Self::mask_for(value);
        proof {
            let k = (value - 1) as u64;
            assert forall|v: int| 1 <= v <= 64 implies #[trigger] bit_set(self.bitmask, v - 1) == (bit_set(b, v - 1) && v != value) by {
                let i = (v - 1) as u64;
                assert(k < 64 && i < 64 && (b >> k) & 1u64 == 1u64 ==>
                    (((b ^ (1u64 << k)) >> i) & 1u64 == 1u64) == (((b >> i) & 1u64 == 1u64) && i != k)) by (bit_vector);
            }
            assert(self@ =~= old(self)@.remove(value as int));
        }
    }

    /// The single candidate of the cell, when there is exactly one.
    pub fn fixed_value(&self) -> (r: Option<u8>)
        ensures
            r is Some <==> self@.len() == 1,
            r matches Some(v) ==> self@ == set![v as int],
    {
        if self.len() != 1 {
            return None;
        }
        let tz = self.bitmask.trailing_zeros();
        proof {
            vstd::std_specs::bits::axiom_u64_trailing_zeros(self.bitmask);
            lemma_mask_values_finite(self.bitmask);
            let s = self@;
            let x = s.choose();
            assert(s.contains(x));
            vstd::set::axiom_set_choose_len(s);
            assert(s =~= set![x]) by {
                assert forall|y: int| s.contains(y) implies y == x by {
                    if y != x {
                        assert(s.remove(x).contains(y));
                        vstd::set::axiom_set_remove_len(s, x);
                        vstd::set_lib::lemma_set_empty_equivalency_len(s.remove(x));
                    }
                }
            }
            assert(self.bitmask != 0) by {
                let b = self.bitmask;
                let i = (x - 1) as u64;
                assert(i < 64 && (b >> i) & 1u64 == 1u64 ==> b != 0) by (bit_vector);
            }
            assert(tz < 64);
            assert(s.contains(tz + 1));
        }
        Some((tz + 1) as u8)
    }

    fn mask_for(value: u8) -> (r: u64)
        requires
            1 <= value <= 64,
        ensures
            r == 1u64 << ((value - 1) as u64),
    {
        1u64 << (value - 1)
    }
}

} // verus!

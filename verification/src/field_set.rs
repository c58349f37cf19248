//! The sets of fields that a program makes use of.

use vstd::prelude::*;

verus! {

/// A set of fields. Field 0 is the whole line, field `i` the `i`-th field of it.
///
/// The set is small and cheap to compare: it tells the fields up to 63 apart. A set
/// that is to hold a later field is the set of all fields.
#[derive(Copy, Clone, PartialEq, Eq, Structural, Debug)]
pub struct FieldSet {
    bits: u64,
}

/// The lowest `n` bits.
spec fn low(n: u64) -> u64 {
    !(0xffff_ffff_ffff_ffffu64 << n)
}

impl FieldSet {
    /// The bit of the set that stands for field `index`, as far as there is one.
    closed spec fn bit(self, index: int) -> bool {
        (self.bits >> (index as u64)) & 1 == 1
    }

    /// The set of all fields.
    pub closed spec fn everything() -> FieldSet {
        FieldSet { bits: 0xffff_ffff_ffff_ffff }
    }

    /// The set is the set of all fields.
    pub open spec fn is_all(self) -> bool {
        self == FieldSet::everything()
    }

    /// The set holds field `index`.
    pub closed spec fn has(self, index: int) -> bool {
        if 0 <= index < 64 {
            self.bit(index)
        } else {
            self.is_all()
        }
    }

    /// The set of all fields.
    pub fn all() -> (r: FieldSet)
        ensures
            r == FieldSet::everything(),
            forall|i: int| i >= 0 ==> #[trigger] r.has(i),
    {
        let r = FieldSet { bits: 0xffff_ffff_ffff_ffff };
        assert forall|i: int| i >= 0 implies #[trigger] r.has(i) by {
            r.lemma_all_has(i);
        }
        r
    }

    /// The set that holds nothing.
    pub fn empty() -> (r: FieldSet)
        ensures
            !r.is_all(),
            forall|i: int| i >= 0 ==> !#[trigger] r.has(i),
    {
        let r = FieldSet { bits: 0 };
        assert forall|i: int| i >= 0 implies !#[trigger] r.has(i) by {
            if i < 64 {
                let k = i as u64;
                assert((0u64 >> k) & 1 == 0) by (bit_vector);
            }
        }
        r
    }

    /// The smallest set that holds what `self` holds, and field `index`.
    pub fn with(self, index: usize) -> (r: FieldSet)
        ensures
            index < 64 ==> forall|i: int| 0 <= i < 64 ==> #[trigger] r.has(i) == (self.has(i) || i
                == index),
            index >= 64 ==> r.is_all(),
            r.is_all() <==> forall|i: int| 0 <= i < 64 ==> #[trigger] r.has(i),
    {
        if index >= 64 {
            return FieldSet::all();
        }
        let old_bits: u64 = self.bits;
        let k: u64 = index as u64;
        let r = FieldSet { bits: old_bits | (1u64 << k) };
        assert forall|i: int| 0 <= i < 64 implies #[trigger] r.has(i) == (self.has(i) || i
            == index) by {
            let j = i as u64;
            assert(((old_bits | (1u64 << k)) >> j) & 1 == 1 <==> ((old_bits >> j) & 1 == 1 || j
                == k)) by (bit_vector)
                requires
                    k < 64,
                    j < 64,
            ;
        }
        proof {
            r.lemma_all_when_full();
        }
        r
    }

    /// Says whether the set holds field `index`.
    pub fn get(&self, index: usize) -> (r: bool)
        ensures
            r == self.has(index as int),
    {
        if index < 64 {
            (self.bits >> (index as u64)) & 1 == 1
        } else {
            self.bits == 0xffff_ffff_ffff_ffff
        }
    }

    /// Says whether the set holds the field that comes after `before` others.
    pub fn get_after(&self, before: usize) -> (r: bool)
        ensures
            r == self.has(before + 1),
    {
        self.get(before.saturating_add(1))
    }

    /// A set is the set of all fields if it holds all those that it tells apart. A later
    /// field is held by the set of all fields only.
    pub proof fn lemma_all_when_full(self)
        ensures
            self.is_all() <==> forall|i: int| 0 <= i < 64 ==> #[trigger] self.has(i),
            forall|i: int| i >= 64 ==> #[trigger] self.has(i) == self.is_all(),
    {
        if self.is_all() {
            assert forall|i: int| 0 <= i < 64 implies #[trigger] self.has(i) by {
                self.lemma_all_has(i);
            }
        } else if forall|i: int| 0 <= i < 64 ==> #[trigger] self.has(i) {
            self.lemma_low_bits(63);
            assert(self.has(63));
            let b = self.bits;
            assert(b == 0xffff_ffff_ffff_ffff) by (bit_vector)
                requires
                    b & low(63) == low(63),
                    (b >> 63) & 1 == 1,
            ;
        }
    }

    /// The lowest `n` bits are set if the fields up to `n` are held.
    proof fn lemma_low_bits(self, n: u64)
        requires
            n < 64,
            forall|i: int| 0 <= i < 64 ==> #[trigger] self.has(i),
        ensures
            self.bits & low(n) == low(n),
        decreases n,
    {
        let b = self.bits;
        if n == 0 {
            assert(b & low(0) == low(0)) by (bit_vector);
        } else {
            let m = (n - 1) as u64;
            self.lemma_low_bits(m);
            assert(self.has(m as int));
            assert(b & low(n) == low(n)) by (bit_vector)
                requires
                    n == m + 1,
                    n < 64,
                    b & low(m) == low(m),
                    (b >> m) & 1 == 1,
            ;
        }
    }

    /// The set of all fields holds each of them.
    pub proof fn lemma_all_has(self, index: int)
        requires
            self.is_all(),
            index >= 0,
        ensures
            self.has(index),
    {
        if index < 64 {
            let k = index as u64;
            assert((0xffff_ffff_ffff_ffffu64 >> k) & 1 == 1) by (bit_vector)
                requires
                    k < 64,
            ;
        }
    }
}

} // verus!

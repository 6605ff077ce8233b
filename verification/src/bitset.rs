//! A set of board squares, stored as one bit per square in a 64-bit word.

use vstd::prelude::*;

verus! {

/// Square set over the 64 board squares.  Bit `i` is set exactly when
/// square `i` is a member.
#[derive(Clone, Copy, Debug, PartialEq, Eq, Structural)]
pub struct Bitset(pub u64);

/// Bit `j` of `x` taken as a membership test.
pub open spec fn word_bit(x: u64, j: u64) -> bool {
    (x >> j) & 1 == 1
}

/// Setting bit `i` leaves every other bit alone and turns bit `i` on.
pub proof fn lemma_word_set_bit(x: u64, y: u64, i: u64)
    by (bit_vector)
    requires
        i < 64,
        y == x | (1u64 << i),
    ensures
        forall|j: u64| j < 64 ==> (#[trigger] ((y >> j) & 1) == 1 <==> (j == i || (x >> j) & 1 == 1)),
{
}

/// Clearing bit `i` leaves every other bit alone and turns bit `i` off.
pub proof fn lemma_word_clear_bit(x: u64, y: u64, i: u64)
    by (bit_vector)
    requires
        i < 64,
        y == x & !(1u64 << i),
    ensures
        forall|j: u64| j < 64 ==> (#[trigger] ((y >> j) & 1) == 1 <==> (j != i && (x >> j) & 1 == 1)),
{
}

/// A bitwise or unions the members of the two words.
pub proof fn lemma_word_or(x: u64, y: u64, z: u64)
    by (bit_vector)
    requires
        z == x | y,
    ensures
        forall|j: u64| j < 64 ==> (#[trigger] ((z >> j) & 1) == 1 <==> ((x >> j) & 1 == 1 || (y >> j) & 1 == 1)),
{
}

/// A bitwise and intersects the members of the two words.
pub proof fn lemma_word_and(x: u64, y: u64, z: u64)
    by (bit_vector)
    requires
        z == x & y,
    ensures
        forall|j: u64| j < 64 ==> (#[trigger] ((z >> j) & 1) == 1 <==> ((x >> j) & 1 == 1 && (y >> j) & 1 == 1)),
{
}

/// Testing a bit with a mask agrees with testing it by shifting.
pub proof fn lemma_word_test_bit(x: u64, i: u64)
    by (bit_vector)
    requires
        i < 64,
    ensures
        (x & (1u64 << i) != 0) <==> (x >> i) & 1 == 1,
{
}

/// The zero word has no members.
pub proof fn lemma_word_zero(j: u64)
    by (bit_vector)
    ensures
        (0u64 >> j) & 1 != 1,
{
}

impl Bitset {
    /// Membership of square `i`.
    pub open spec fn spec_bit(self, i: u64) -> bool
        recommends
            i < 64,
    {
        word_bit(self.0, i)
    }

    pub fn new(value: u64) -> (r: Self)
        ensures
            r.0 == value,
    {
        Self(value)
    }

    /// The word with every bit but `index` masked off; nonzero exactly when
    /// `index` is a member.
    pub fn get_bit(&self, index: u8) -> (r: u64)
        requires
            index < 64,
        ensures
            (r != 0) == self.spec_bit(index as u64),
            r == self.0 & (1u64 << index),
    {
        proof {
            lemma_word_test_bit(self.0, index as u64);
        }
        self.0 & (1u64 << index)
    }

    /// Adds `index` to the set; every other square keeps its membership.
    pub fn set_bit(&mut self, index: u8)
        requires
            index < 64,
        ensures
            final(self).0 == old(self).0 | (1u64 << index),
            forall|j: u64|
                j < 64 ==> #[trigger] final(self).spec_bit(j) == (j == index || old(self).spec_bit(j)),
    {
        let updated: u64 = self.0 | (1u64 << index);
        proof {
            lemma_word_set_bit(self.0, updated, index as u64);
        }
        self.0 = updated;
    }

    /// Removes `index` from the set; every other square keeps its membership.
    pub fn clear_bit(&mut self, index: u8)
        requires
            index < 64,
        ensures
            final(self).0 == old(self).0 & !(1u64 << index),
            forall|j: u64|
                j < 64 ==> #[trigger] final(self).spec_bit(j) == (j != index && old(self).spec_bit(j)),
    {
        let updated: u64 = self.0 & !(1u64 << index);
        proof {
            lemma_word_clear_bit(self.0, updated, index as u64);
        }
        self.0 = updated;
    }

    /// Membership test for square `index`.
    pub fn is_bit_set(&self, index: u8) -> (r: bool)
        requires
            index < 64,
        ensures
            r == self.spec_bit(index as u64),
    {
        self.get_bit(index) != 0
    }

    /// The union of the two sets.
    pub fn union(self, rhs: Self) -> (r: Self)
        ensures
            r.0 == self.0 | rhs.0,
            forall|j: u64|
                j < 64 ==> #[trigger] r.spec_bit(j) == (self.spec_bit(j) || rhs.spec_bit(j)),
    {
        let joined: u64 = self.0 | rhs.0;
        proof {
            lemma_word_or(self.0, rhs.0, joined);
        }
        Bitset(joined)
    }

    /// The intersection of the two sets.
    pub fn intersect(self, rhs: Self) -> (r: Self)
        ensures
            r.0 == self.0 & rhs.0,
            forall|j: u64|
                j < 64 ==> #[trigger] r.spec_bit(j) == (self.spec_bit(j) && rhs.spec_bit(j)),
    {
        let met: u64 = self.0 & rhs.0;
        proof {
            lemma_word_and(self.0, rhs.0, met);
        }
        Bitset(met)
    }

    /// In-place union.
    pub fn union_with(&mut self, rhs: Self)
        ensures
            final(self).0 == old(self).0 | rhs.0,
            forall|j: u64|
                j < 64 ==> #[trigger] final(self).spec_bit(j) == (old(self).spec_bit(j) || rhs.spec_bit(j)),
    {
        *self = self.union(rhs);
    }

    /// In-place intersection.
    pub fn intersect_with(&mut self, rhs: Self)
        ensures
            final(self).0 == old(self).0 & rhs.0,
            forall|j: u64|
                j < 64 ==> #[trigger] final(self).spec_bit(j) == (old(self).spec_bit(j) && rhs.spec_bit(j)),
    {
        *self = self.intersect(rhs);
    }

    /// All member squares, in ascending order.
    pub fn set_bit_indices(&self) -> (r: Vec<u8>)
        ensures
            forall|k: int| 0 <= k < r@.len() ==> r@[k] < 64 && self.spec_bit(#[trigger] r@[k] as u64),
            forall|i: u64| i < 64 && #[trigger] self.spec_bit(i) ==> r@.contains(i as u8),
            forall|k1: int, k2: int| 0 <= k1 < k2 < r@.len() ==> r@[k1] < r@[k2],
    {
        let mut indices: Vec<u8> = Vec::new();
        for index in 0..64u8
            invariant
                forall|k: int|
                    0 <= k < indices@.len() ==> indices@[k] < index && self.spec_bit(
                        #[trigger] indices@[k] as u64,
                    ),
                forall|i: u64| i < index && #[trigger] self.spec_bit(i) ==> indices@.contains(i as u8),
                forall|k1: int, k2: int| 0 <= k1 < k2 < indices@.len() ==> indices@[k1] < indices@[k2],
        {
            if self.is_bit_set(index) {
                let ghost prev = indices@;
                indices.push(index);
                proof {
                    assert forall|i: u64|
                        i < index + 1 && #[trigger] self.spec_bit(i) implies indices@.contains(
                        i as u8,
                    ) by {
                        if i < index as u64 {
                            let k = choose|k: int| 0 <= k < prev.len() && prev[k] == i as u8;
                            assert(indices@[k] == i as u8);
                        } else {
                            assert(indices@[prev.len() as int] == index);
                        }
                    }
                }
            }
        }
        indices
    }
}

} // verus!

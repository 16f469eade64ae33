//! The order the store keeps its keys in.
//!
//! The store is an ordered map, so a key type must carry a total order: a
//! reflexive, transitive, antisymmetric and total relation, together with an
//! executable three-way comparison that decides it. The order must agree
//! with equality of the key values themselves, so that the comparison can
//! stand in for an equality test during lookups.

use vstd::prelude::*;

use core::cmp::Ordering;

verus! {

/// A key the store can hold: a type with a decidable total order.
pub trait OrderedKey: Sized {
    /// The order itself, `self` at or before `other`.
    spec fn le(self, other: Self) -> bool;

    /// Every key is at or before itself.
    proof fn lemma_le_reflexive(x: Self)
        ensures
            x.le(x),
    ;

    /// The order carries over a middle key.
    proof fn lemma_le_transitive(x: Self, y: Self, z: Self)
        requires
            x.le(y),
            y.le(z),
        ensures
            x.le(z),
    ;

    /// Two keys at or before each other are the same key.
    proof fn lemma_le_antisymmetric(x: Self, y: Self)
        requires
            x.le(y),
            y.le(x),
        ensures
            x == y,
    ;

    /// Any two keys are ordered one way or the other.
    proof fn lemma_le_total(x: Self, y: Self)
        ensures
            x.le(y) || y.le(x),
    ;

    /// Decide the order of two keys.
    fn key_cmp(&self, other: &Self) -> (c: Ordering)
        ensures
            (match c {
                Ordering::Less => self.le(*other) && *self != *other,
                Ordering::Equal => *self == *other,
                Ordering::Greater => other.le(*self) && *self != *other,
            }),
    ;
}

impl OrderedKey for u8 {
    open spec fn le(self, other: Self) -> bool {
        self <= other
    }

    proof fn lemma_le_reflexive(x: Self) {
    }

    proof fn lemma_le_transitive(x: Self, y: Self, z: Self) {
    }

    proof fn lemma_le_antisymmetric(x: Self, y: Self) {
    }

    proof fn lemma_le_total(x: Self, y: Self) {
    }

    fn key_cmp(&self, other: &Self) -> (c: Ordering) {
        if *self < *other {
            Ordering::Less
        } else if *self == *other {
            Ordering::Equal
        } else {
            Ordering::Greater
        }
    }
}

impl OrderedKey for u16 {
    open spec fn le(self, other: Self) -> bool {
        self <= other
    }

    proof fn lemma_le_reflexive(x: Self) {
    }

    proof fn lemma_le_transitive(x: Self, y: Self, z: Self) {
    }

    proof fn lemma_le_antisymmetric(x: Self, y: Self) {
    }

    proof fn lemma_le_total(x: Self, y: Self) {
    }

    fn key_cmp(&self, other: &Self) -> (c: Ordering) {
        if *self < *other {
            Ordering::Less
        } else if *self == *other {
            Ordering::Equal
        } else {
            Ordering::Greater
        }
    }
}

impl OrderedKey for u32 {
    open spec fn le(self, other: Self) -> bool {
        self <= other
    }

    proof fn lemma_le_reflexive(x: Self) {
    }

    proof fn lemma_le_transitive(x: Self, y: Self, z: Self) {
    }

    proof fn lemma_le_antisymmetric(x: Self, y: Self) {
    }

    proof fn lemma_le_total(x: Self, y: Self) {
    }

    fn key_cmp(&self, other: &Self) -> (c: Ordering) {
        if *self < *other {
            Ordering::Less
        } else if *self == *other {
            Ordering::Equal
        } else {
            Ordering::Greater
        }
    }
}

impl OrderedKey for u64 {
    open spec fn le(self, other: Self) -> bool {
        self <= other
    }

    proof fn lemma_le_reflexive(x: Self) {
    }

    proof fn lemma_le_transitive(x: Self, y: Self, z: Self) {
    }

    proof fn lemma_le_antisymmetric(x: Self, y: Self) {
    }

    proof fn lemma_le_total(x: Self, y: Self) {
    }

    fn key_cmp(&self, other: &Self) -> (c: Ordering) {
        if *self < *other {
            Ordering::Less
        } else if *self == *other {
            Ordering::Equal
        } else {
            Ordering::Greater
        }
    }
}

impl OrderedKey for usize {
    open spec fn le(self, other: Self) -> bool {
        self <= other
    }

    proof fn lemma_le_reflexive(x: Self) {
    }

    proof fn lemma_le_transitive(x: Self, y: Self, z: Self) {
    }

    proof fn lemma_le_antisymmetric(x: Self, y: Self) {
    }

    proof fn lemma_le_total(x: Self, y: Self) {
    }

    fn key_cmp(&self, other: &Self) -> (c: Ordering) {
        if *self < *other {
            Ordering::Less
        } else if *self == *other {
            Ordering::Equal
        } else {
            Ordering::Greater
        }
    }
}

impl OrderedKey for i64 {
    open spec fn le(self, other: Self) -> bool {
        self <= other
    }

    proof fn lemma_le_reflexive(x: Self) {
    }

    proof fn lemma_le_transitive(x: Self, y: Self, z: Self) {
    }

    proof fn lemma_le_antisymmetric(x: Self, y: Self) {
    }

    proof fn lemma_le_total(x: Self, y: Self) {
    }

    fn key_cmp(&self, other: &Self) -> (c: Ordering) {
        if *self < *other {
            Ordering::Less
        } else if *self == *other {
            Ordering::Equal
        } else {
            Ordering::Greater
        }
    }
}

} // verus!

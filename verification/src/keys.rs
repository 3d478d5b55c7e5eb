//! Key equality for counter entries.
//!
//! The multiset counter groups repeated occurrences of equal items.  What
//! "equal" means is supplied by this trait: a specification-level equivalence
//! together with an executable test that decides it.  Integers compare by
//! value and strings by their characters; both are proved, not assumed.

use vstd::prelude::*;

verus! {

/// A type whose values can serve as counter keys.  `key_equal` is the
/// mathematical meaning of equality, `key_eq` decides it, and
/// `lemma_key_equal_laws` shows it is an equivalence relation.
pub trait KeyEq: Sized {
    spec fn key_equal(&self, other: &Self) -> bool;

    proof fn lemma_key_equal_laws(a: &Self, b: &Self, c: &Self)
        ensures
            a.key_equal(a),
            a.key_equal(b) == b.key_equal(a),
            a.key_equal(b) && b.key_equal(c) ==> a.key_equal(c),
    ;

    fn key_eq(&self, other: &Self) -> (r: bool)
        ensures
            r == self.key_equal(other),
    ;
}

impl KeyEq for i32 {
    open spec fn key_equal(&self, other: &Self) -> bool {
        *self == *other
    }

    proof fn lemma_key_equal_laws(a: &Self, b: &Self, c: &Self) {
    }

    fn key_eq(&self, other: &Self) -> (r: bool)
        ensures
            r == self.key_equal(other),
    {
        *self == *other
    }
}

impl KeyEq for u64 {
    open spec fn key_equal(&self, other: &Self) -> bool {
        *self == *other
    }

    proof fn lemma_key_equal_laws(a: &Self, b: &Self, c: &Self) {
    }

    fn key_eq(&self, other: &Self) -> (r: bool)
        ensures
            r == self.key_equal(other),
    {
        *self == *other
    }
}

impl KeyEq for usize {
    open spec fn key_equal(&self, other: &Self) -> bool {
        *self == *other
    }

    proof fn lemma_key_equal_laws(a: &Self, b: &Self, c: &Self) {
    }

    fn key_eq(&self, other: &Self) -> (r: bool)
        ensures
            r == self.key_equal(other),
    {
        *self == *other
    }
}

impl KeyEq for String {
    /// Strings count as the same key when they hold the same characters.
    open spec fn key_equal(&self, other: &Self) -> bool {
        self@ == other@
    }

    proof fn lemma_key_equal_laws(a: &Self, b: &Self, c: &Self) {
    }

    fn key_eq(&self, other: &Self) -> (r: bool)
        ensures
            r == self.key_equal(other),
    {
        *self == *other
    }
}

} // verus!

//! What the algorithms need of an element: an exact copy (to grow a buffer
//! from its own elements), and a total order (to sort).
use vstd::prelude::*;
use std::cmp::Ordering;

verus! {

/// Elements that can be copied exactly.
pub trait Duplicate: Sized {
    fn duplicate(&self) -> (r: Self)
        ensures
            r == *self,
    ;
}

/// A strict total order on the element type, under which two elements compare
/// equal exactly when they are the same value.
pub trait TotalOrder: Sized {
    spec fn less(a: Self, b: Self) -> bool;

    proof fn lemma_total_order(a: Self, b: Self, c: Self)
        ensures
            !Self::less(a, a),
            Self::less(a, b) && Self::less(b, c) ==> Self::less(a, c),
            a != b ==> Self::less(a, b) || Self::less(b, a),
    ;

    fn compare(&self, other: &Self) -> (r: Ordering)
        ensures
            (r == Ordering::Less) == Self::less(*self, *other),
            (r == Ordering::Greater) == Self::less(*other, *self),
            (r == Ordering::Equal) == (*self == *other),
    ;
}

impl Duplicate for i64 {
    fn duplicate(&self) -> (r: Self) {
        *self
    }
}

impl TotalOrder for i64 {
    open spec fn less(a: Self, b: Self) -> bool {
        a < b
    }

    proof fn lemma_total_order(a: Self, b: Self, c: Self) {
    }

    fn compare(&self, other: &Self) -> (r: Ordering) {
        if *self < *other {
            Ordering::Less
        } else if *self > *other {
            Ordering::Greater
        } else {
            Ordering::Equal
        }
    }
}

} // verus!

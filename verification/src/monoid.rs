//! Commutative monoids that summarise the point-value pairs of a subtree.

use vstd::prelude::*;

verus! {

/// A commutative monoid, together with a function that lifts values of type
/// `LiftingFrom` into the universe of the monoid.
///
/// The three proof obligations are the monoid laws. A tree relies on them:
/// it combines the summaries of a subtree in whatever order its shape gives.
pub trait LiftingCommutativeMonoid<LiftingFrom>: Sized + Eq {
    /// The neutral element of the monoid.
    const NEUTRAL: Self;

    /// The monoidal value that stands for `val`.
    spec fn lifted(val: &LiftingFrom) -> Self;

    /// The monoidal value that `a` and `b` combine to.
    spec fn combined(a: &Self, b: &Self) -> Self;

    /// Combining is associative.
    proof fn lemma_associative(a: &Self, b: &Self, c: &Self)
        ensures
            Self::combined(&Self::combined(a, b), c) == Self::combined(a, &Self::combined(b, c)),
    ;

    /// Combining is commutative.
    proof fn lemma_commutative(a: &Self, b: &Self)
        ensures
            Self::combined(a, b) == Self::combined(b, a),
    ;

    /// Combining with the neutral element changes nothing.
    proof fn lemma_neutral(a: &Self)
        ensures
            Self::combined(a, &Self::NEUTRAL) == *a,
            Self::combined(&Self::NEUTRAL, a) == *a,
    ;

    /// Lift a value into the monoid.
    fn lift(val: &LiftingFrom) -> (m: Self)
        ensures
            m == Self::lifted(val),
    ;

    /// Combine two monoidal values.
    fn combine(a: &Self, b: &Self) -> (m: Self)
        ensures
            m == Self::combined(a, b),
    ;
}

/// The trivial monoid that performs no computation. Use this when you *have*
/// to supply a monoid but you do not actually need one.
impl<T> LiftingCommutativeMonoid<T> for () {
    const NEUTRAL: Self = ();

    open spec fn lifted(val: &T) -> Self {
        ()
    }

    open spec fn combined(a: &Self, b: &Self) -> Self {
        ()
    }

    proof fn lemma_associative(a: &Self, b: &Self, c: &Self) {
    }

    proof fn lemma_commutative(a: &Self, b: &Self) {
    }

    proof fn lemma_neutral(a: &Self) {
    }

    fn lift(_val: &T) -> (m: Self) {
        ()
    }

    fn combine(_a: &Self, _b: &Self) -> (m: Self) {
        ()
    }
}

/// The sum of `a` and `b` as a `usize`: the sum itself where it fits, and the
/// sum less `usize::MAX + 1` where it does not.
pub open spec fn wrapping_sum(a: usize, b: usize) -> usize {
    if a + b <= usize::MAX {
        (a + b) as usize
    } else {
        (a + b - usize::MAX - 1) as usize
    }
}

/// The `LiftingCommutativeMonoid` implementation for `usize` performs
/// counting: any value is lifted to `1`, and `combine` is addition. Sums that
/// do not fit a `usize` wrap around, which keeps `combine` associative on all
/// of `usize`; the count of what a tree in memory holds always fits.
impl<T> LiftingCommutativeMonoid<T> for usize {
    const NEUTRAL: Self = 0;

    open spec fn lifted(val: &T) -> Self {
        1
    }

    open spec fn combined(a: &Self, b: &Self) -> Self {
        wrapping_sum(*a, *b)
    }

    proof fn lemma_associative(a: &Self, b: &Self, c: &Self) {
    }

    proof fn lemma_commutative(a: &Self, b: &Self) {
    }

    proof fn lemma_neutral(a: &Self) {
    }

    fn lift(_val: &T) -> (m: Self) {
        1
    }

    fn combine(a: &Self, b: &Self) -> (m: Self) {
        a.wrapping_add(*b)
    }
}

/// The neutral element of the counting monoid is zero.
pub proof fn lemma_counting_neutral<T>()
    ensures
        <usize as LiftingCommutativeMonoid<T>>::NEUTRAL == 0,
{
}

} // verus!

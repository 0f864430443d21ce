//! The ordering that the containers rely on: what it means for an element type
//! to be totally ordered, the two comparisons the heap makes, and the facts
//! about them that its proofs use.

use std::cmp::Ordering;
use vstd::laws_cmp::obeys_cmp;
use vstd::std_specs::cmp::{PartialEqSpec, PartialOrdSpec};
use vstd::prelude::*;

verus! {

/// `T`'s comparison operators compute a total order: they agree with each
/// other, any two values are comparable, and "less" is transitive.
pub open spec fn total_order<T: Ord>() -> bool {
    obeys_cmp::<T>()
}

/// `a` is strictly below `b`.
pub open spec fn lt<T: Ord>(a: T, b: T) -> bool {
    a.partial_cmp_spec(&b) == Some(Ordering::Less)
}

/// `a` is at or above `b`.
pub open spec fn ge<T: Ord>(a: T, b: T) -> bool {
    a.partial_cmp_spec(&b) == Some(Ordering::Greater) || a.partial_cmp_spec(&b) == Some(
        Ordering::Equal,
    )
}

/// Executable `a < b`.
pub fn less<T: Ord>(a: &T, b: &T) -> (r: bool)
    requires
        total_order::<T>(),
    ensures
        r == lt(*a, *b),
{
    proof {
        reveal(vstd::laws_cmp::obeys_cmp_partial_ord);
    }
    *a < *b
}

/// Executable `a >= b`.
pub fn at_least<T: Ord>(a: &T, b: &T) -> (r: bool)
    requires
        total_order::<T>(),
    ensures
        r == ge(*a, *b),
{
    proof {
        reveal(vstd::laws_cmp::obeys_cmp_partial_ord);
    }
    *a >= *b
}

/// Any two values are comparable: exactly one of `a < b` and `a >= b` holds.
pub proof fn lemma_lt_or_ge<T: Ord>(a: T, b: T)
    requires
        total_order::<T>(),
    ensures
        lt(a, b) != ge(a, b),
{
    reveal(vstd::laws_cmp::obeys_cmp_ord);
}

/// `a < b` puts `b` at or above `a`.
pub proof fn lemma_lt_flips<T: Ord>(a: T, b: T)
    requires
        total_order::<T>(),
        lt(a, b),
    ensures
        ge(b, a),
{
    reveal(vstd::laws_cmp::obeys_partial_cmp_spec_properties);
}

/// Every value is at or above itself.
pub proof fn lemma_ge_reflexive<T: Ord>(a: T)
    requires
        total_order::<T>(),
    ensures
        ge(a, a),
{
    reveal(vstd::laws_cmp::obeys_partial_cmp_spec_properties);
    lemma_lt_or_ge(a, a);
    if lt(a, a) {
        lemma_lt_flips(a, a);
    }
}

/// What is at or below a value that is strictly below `c` is strictly below
/// `c` too.
pub proof fn lemma_ge_then_lt<T: Ord>(a: T, b: T, c: T)
    requires
        total_order::<T>(),
        ge(a, b),
        lt(a, c),
    ensures
        lt(b, c),
{
    lemma_lt_or_ge(b, c);
    lemma_lt_or_ge(a, c);
    if ge(b, c) {
        lemma_ge_transitive(a, b, c);
    }
}

/// "At or above" is transitive.
pub proof fn lemma_ge_transitive<T: Ord>(a: T, b: T, c: T)
    requires
        total_order::<T>(),
        ge(a, b),
        ge(b, c),
    ensures
        ge(a, c),
{
    reveal(vstd::laws_cmp::obeys_partial_cmp_spec_properties);
    reveal(vstd::laws_eq::obeys_eq_spec_properties);
    lemma_lt_or_ge(a, c);
    if lt(a, c) {
        // Then c is strictly above a, and a >= b >= c closes a cycle.
        lemma_lt_flips(a, c);
        lemma_lt_or_ge(c, a);
        lemma_lt_or_ge(c, b);
        if a.partial_cmp_spec(&b) == Some(Ordering::Greater) {
            assert(c.partial_cmp_spec(&b) == Some(Ordering::Greater));
        } else if b.partial_cmp_spec(&c) == Some(Ordering::Greater) {
            assert(a.partial_cmp_spec(&b) == Some(Ordering::Less));
        } else {
            assert(a.eq_spec(&c));
        }
    }
}

} // verus!

//! The order on elements.
//!
//! Elements are compared with `<` and `==` of `PartialOrd`. The list is
//! specified for element types on which these form a strict total order
//! that agrees with equality of values; `total_order` says so.

use core::cmp::Ordering;
use vstd::prelude::*;
use vstd::std_specs::cmp::PartialEqSpec;
use vstd::std_specs::cmp::PartialOrdSpec;

verus! {

/// `a` is strictly below `b` in the order of `T`.
pub open spec fn lt<T: PartialOrd>(a: T, b: T) -> bool {
    a.partial_cmp_spec(&b) == Some(Ordering::Less)
}

/// The comparison operators of `T` behave as specified, `==` is equality of
/// values, and `<` is a strict total order: of any two distinct values one
/// is below the other, never both ways, and transitively.
pub open spec fn total_order<T: PartialOrd>() -> bool {
    &&& T::obeys_eq_spec()
    &&& T::obeys_partial_cmp_spec()
    &&& forall|a: T, b: T| #[trigger] a.eq_spec(&b) <==> (a == b)
    &&& forall|a: T, b: T| #[trigger] lt(a, b) ==> !lt(b, a)
    &&& forall|a: T, b: T| a != b ==> #[trigger] lt(a, b) || lt(b, a)
    &&& forall|a: T, b: T, c: T| #[trigger] lt(a, b) && #[trigger] lt(b, c) ==> lt(a, c)
}

/// No value is below itself.
pub proof fn lemma_lt_irreflexive<T: PartialOrd>(a: T)
    requires
        total_order::<T>(),
    ensures
        !lt(a, a),
{
    if lt(a, a) {
        assert(!lt(a, a));
    }
}

/// Exactly one of `a < b`, `a == b`, `b < a` holds.
pub proof fn lemma_lt_trichotomy<T: PartialOrd>(a: T, b: T)
    requires
        total_order::<T>(),
    ensures
        lt(a, b) || a == b || lt(b, a),
        lt(a, b) ==> a != b && !lt(b, a),
        a == b ==> !lt(a, b) && !lt(b, a),
{
    lemma_lt_irreflexive(a);
    if lt(a, b) {
        assert(!lt(b, a));
    }
}

/// `<` is transitive.
pub proof fn lemma_lt_transitive<T: PartialOrd>(a: T, b: T, c: T)
    requires
        total_order::<T>(),
        lt(a, b),
        lt(b, c),
    ensures
        lt(a, c),
{
}

/// Tests `a < b`.
pub fn less<T: PartialOrd>(a: &T, b: &T) -> (r: bool)
    requires
        total_order::<T>(),
    ensures
        r == lt(*a, *b),
{
    *a < *b
}

/// Tests `a == b`.
pub fn same<T: PartialOrd>(a: &T, b: &T) -> (r: bool)
    requires
        total_order::<T>(),
    ensures
        r == (*a == *b),
{
    *a == *b
}

} // verus!

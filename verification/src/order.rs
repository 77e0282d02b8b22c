//! The order that values are ranked by.
//!
//! Two values are compared with `partial_cmp`; only a definite `Less` counts.
//! Values that cannot be compared precede neither one another, so they rank
//! as equal and no comparison ever fails.

use std::cmp::Ordering;
use vstd::prelude::*;
use vstd::std_specs::cmp::PartialOrdSpec;

verus! {

/// Whether comparing two values of `T` is known to give what the type's
/// specification of its order says. It holds of the integers; of a type whose
/// comparison is not specified nothing is known, and then the contracts of this
/// crate speak of the values that are held but not of their order.
pub open spec fn order_known<T: PartialOrd>() -> bool {
    T::obeys_partial_cmp_spec()
}

/// `a` ranks strictly before `b`.
pub open spec fn lt<T: PartialOrd>(a: T, b: T) -> bool {
    a.partial_cmp_spec(&b) == Some(Ordering::Less)
}

/// The order of `T` is a strict weak order: no two values rank before one
/// another both ways round, and where `a` does not rank before `b` nor `b`
/// before `c`, `a` does not rank before `c`. The orders of the integers are
/// such; an order in which some values cannot be compared mostly is not.
pub open spec fn weak_order<T: PartialOrd>() -> bool {
    &&& forall|a: T, b: T| #[trigger] lt(a, b) ==> !lt(b, a)
    &&& forall|a: T, b: T, c: T| !#[trigger] lt(a, b) && !#[trigger] lt(b, c) ==> !lt(a, c)
}

/// Tells whether `a` ranks strictly before `b`. It is `false` where the two
/// cannot be compared.
pub fn precedes<T: PartialOrd>(a: &T, b: &T) -> (before: bool)
    ensures
        order_known::<T>() ==> before == lt(*a, *b),
{
    match a.partial_cmp(b) {
        Some(Ordering::Less) => true,
        _ => false,
    }
}

} // verus!

//! What the generic containers of this crate ask of the order and of the
//! clones of their elements.
//!
//! The containers compare with `<` and `>` and copy with `clone`. Their
//! contracts speak of the order that `PartialOrd` specifies for the element
//! type, and hold for element types that meet the conditions named here.
use core::cmp::Ordering;
use vstd::pervasive::cloned;
use vstd::prelude::*;
use vstd::std_specs::cmp::PartialOrdSpec;

verus! {

/// The comparison operators of `T` do what the order of `T` says.
pub open spec fn order_specified<T: PartialOrd>() -> bool {
    T::obeys_partial_cmp_spec()
}

/// `a > b` in the order of `T`.
pub open spec fn exceeds<T: PartialOrd>(a: T, b: T) -> bool {
    a.partial_cmp_spec(&b) == Some(Ordering::Greater)
}

/// `a < b` in the order of `T`.
pub open spec fn falls_below<T: PartialOrd>(a: T, b: T) -> bool {
    a.partial_cmp_spec(&b) == Some(Ordering::Less)
}

/// `>` on `T` is a strict weak order, and `<` is its converse: nothing exceeds
/// what exceeds it, and if `a` does not exceed `b` nor `b` exceed `c`, then `a`
/// does not exceed `c`. Every total order is one.
pub open spec fn strict_weak_order<T: PartialOrd>() -> bool {
    &&& order_specified::<T>()
    &&& forall|a: T, b: T| #[trigger] exceeds(a, b) ==> !exceeds(b, a)
    &&& forall|a: T, b: T, c: T|
        !(#[trigger] exceeds(a, b)) && !(#[trigger] exceeds(b, c)) ==> !exceeds(a, c)
    &&& forall|a: T, b: T| #[trigger] falls_below(a, b) <==> exceeds(b, a)
}

/// A clone of a value of `T` is that value.
pub open spec fn faithful_clone<T: Clone>() -> bool {
    forall|a: T, b: T| #[trigger] cloned(a, b) ==> a == b
}

/// `usize` meets all the conditions.
pub proof fn lemma_usize_is_ordered()
    ensures
        strict_weak_order::<usize>(),
        faithful_clone::<usize>(),
        forall|a: usize, b: usize| #[trigger] exceeds(a, b) <==> a > b,
        forall|a: usize, b: usize| #[trigger] falls_below(a, b) <==> a < b,
{
}

} // verus!

//! The order on the elements, as the sorting contracts speak of it.

use core::cmp::Ordering;
use vstd::laws_cmp::obeys_cmp;
use vstd::laws_cmp::obeys_cmp_ord;
use vstd::laws_cmp::obeys_cmp_partial_ord;
use vstd::laws_cmp::obeys_partial_cmp_spec_properties;
use vstd::laws_eq::obeys_eq_spec_properties;
use vstd::prelude::*;
use vstd::std_specs::cmp::PartialOrdSpec;

verus! {

/// `a` is less than or equal to `b`.
pub open spec fn le<T: PartialOrd>(a: T, b: T) -> bool {
    a.partial_cmp_spec(&b) matches Some(Ordering::Less | Ordering::Equal)
}

/// `a` is strictly greater than `b`.
pub open spec fn gt<T: PartialOrd>(a: T, b: T) -> bool {
    a.partial_cmp_spec(&b) == Some(Ordering::Greater)
}

/// Neither of `a` and `b` comes before the other: they have the same sort key.
pub open spec fn equivalent<T: PartialOrd>(a: T, b: T) -> bool {
    le(a, b) && le(b, a)
}

/// The comparison operators of `T` compute a total order that obeys the laws of
/// `Ord`, `PartialOrd` and `PartialEq`.
pub open spec fn total_order<T: Ord>() -> bool {
    obeys_cmp::<T>()
}

/// The operators `<=` and `>` decide `le` and `gt`.
pub open spec fn operators_decide<T: PartialOrd>() -> bool {
    T::obeys_partial_cmp_spec()
}

/// Any two elements are comparable, and `le` is transitive.
pub open spec fn total_preorder<T: PartialOrd>() -> bool {
    &&& forall|a: T, b: T| #![trigger le(a, b)] #![trigger gt(a, b)] gt(a, b) <==> !le(a, b)
    &&& forall|a: T, b: T| #![trigger le(a, b)] le(a, b) || le(b, a)
    &&& forall|a: T, b: T, c: T| #![trigger le(a, b), le(b, c)] le(a, b) && le(b, c) ==> le(a, c)
}

/// In a total order the operators decide `le` and `gt`, which form a total preorder.
pub proof fn lemma_total_order<T: Ord>()
    requires
        total_order::<T>(),
    ensures
        operators_decide::<T>(),
        total_preorder::<T>(),
{
    reveal(obeys_cmp_ord);
    reveal(obeys_cmp_partial_ord);
    reveal(obeys_partial_cmp_spec_properties);
    reveal(obeys_eq_spec_properties);
    assert forall|a: T, b: T, c: T| le(a, b) && le(b, c) implies le(a, c) by {
        if gt(a, c) {
            // Then `c < a`, which contradicts `a <= b <= c` in each of the four cases.
            assert(le(c, a) && !le(a, c));
            assert(le(c, b) || gt(c, b));
            assert(le(b, a) || gt(b, a));
        }
    }
}

} // verus!

//! The choice between the two sorting algorithms.

use crate::arrangement::sorted;
use crate::arrangement::stable;
use crate::bubble::bubble_sort;
use crate::merge::merge_sort;
use crate::order::total_order;
use core::fmt::Debug;
use vstd::prelude::*;

verus! {

/// The sorting algorithms that the library offers.
#[derive(Clone, Copy, Debug, PartialEq, Eq)]
pub enum Algorithms {
    Bubble,
    Merge,
}

/// Sorts `l` in ascending order with the algorithm chosen.
///
/// Whichever is chosen, elements of the same sort key keep their relative order,
/// and a slice that is sorted already is left as it is.
pub fn sort<T: Ord + Copy + Debug>(algorithm: Algorithms, l: &mut [T])
    requires
        total_order::<T>(),
    ensures
        sorted(final(l)@),
        final(l)@.len() == old(l)@.len(),
        final(l)@.to_multiset() == old(l)@.to_multiset(),
        stable(old(l)@, final(l)@),
        sorted(old(l)@) ==> final(l)@ == old(l)@,
        old(l)@.len() <= 1 ==> final(l)@ == old(l)@,
{
    match algorithm {
        Algorithms::Bubble => bubble_sort(l),
        Algorithms::Merge => merge_sort(l),
    }
}

} // verus!

//! Bubble sort.

use crate::arrangement::exchanged;
use crate::arrangement::lemma_swap_permutation;
use crate::arrangement::lemma_swap_stable;
use crate::arrangement::sorted;
use crate::arrangement::stable;
use crate::order::le;
use crate::order::lemma_total_order;
use crate::order::operators_decide;
use crate::order::total_order;
use crate::order::total_preorder;
use vstd::prelude::*;

verus! {

/// `<[V]>::swap` of the standard library exchanges the elements at `a` and `b` and
/// leaves the others alone. It panics on an index out of bounds, which `requires`
/// leaves out.
pub assume_specification<V>[ <[V]>::swap ](s: &mut [V], a: usize, b: usize)
    requires
        a < old(s)@.len(),
        b < old(s)@.len(),
    ensures
        final(s)@ == old(s)@.update(a as int, old(s)@[b as int]).update(
            b as int,
            old(s)@[a as int],
        ),
;

/// Each of the last `count` elements of `s` is at least every element before it.
spec fn settled<T: PartialOrd>(s: Seq<T>, count: int) -> bool {
    forall|i: int, j: int|
        0 <= i < j < s.len() && s.len() - count <= j ==> le(#[trigger] s[i], #[trigger] s[j])
}

/// Sorts `l` in ascending order by exchanging neighbours that are out of order,
/// in passes over the whole slice, until a pass exchanges nothing.
///
/// Elements of the same sort key keep their relative order, and a slice that is
/// sorted already is left as it is.
pub fn bubble_sort<T: Ord>(l: &mut [T])
    requires
        total_order::<T>(),
    ensures
        sorted(final(l)@),
        final(l)@.len() == old(l)@.len(),
        final(l)@.to_multiset() == old(l)@.to_multiset(),
        stable(old(l)@, final(l)@),
        sorted(old(l)@) ==> final(l)@ == old(l)@,
        old(l)@.len() <= 1 ==> final(l)@ == old(l)@,
{
    let n = l.len();
    if n == 0 {
        return ;
    }
    proof {
        lemma_total_order::<T>();
    }
    let mut swapped: bool = true;
    let ghost mut passes: int = 0;
    while swapped
        invariant
            n == l@.len(),
            n == old(l)@.len(),
            n > 0,
            total_order::<T>(),
            operators_decide::<T>(),
            total_preorder::<T>(),
            l@.to_multiset() == old(l)@.to_multiset(),
            stable(old(l)@, l@),
            sorted(old(l)@) ==> l@ == old(l)@,
            0 <= passes,
            settled(l@, passes),
            swapped ==> passes < n,
            !swapped ==> sorted(l@),
        decreases n - passes,
    {
        swapped = false;
        for i in 0..n - 1
            invariant
                n == l@.len(),
                n == old(l)@.len(),
                n > 0,
                total_order::<T>(),
                operators_decide::<T>(),
                total_preorder::<T>(),
                l@.to_multiset() == old(l)@.to_multiset(),
                stable(old(l)@, l@),
                sorted(old(l)@) ==> l@ == old(l)@,
                0 <= passes < n,
                settled(l@, passes),
                forall|k: int| 0 <= k < i ==> le(#[trigger] l@[k], l@[i as int]),
                forall|a: int, b: int|
                    0 <= a < b <= i && n - 1 - passes <= b ==> le(#[trigger] l@[a], #[trigger] l@[b]),
                !swapped ==> forall|a: int, b: int|
                    0 <= a < b <= i ==> le(#[trigger] l@[a], #[trigger] l@[b]),
                swapped ==> passes + 1 < n,
        {
            let ghost before = l@;
            if l[i] > l[i + 1] {
                swapped = true;
                l.swap(i, i + 1);
                proof {
                    assert(!le(before[i as int], before[i + 1]));
                    assert(l@ == exchanged(before, i as int, i + 1));
                    lemma_swap_permutation(before, i as int, i + 1);
                    lemma_swap_stable(before, i as int);
                }
            } else {
                proof {
                    assert(le(before[i as int], before[i + 1]));
                }
            }
        }
        proof {
            passes = passes + 1;
        }
    }
}

} // verus!

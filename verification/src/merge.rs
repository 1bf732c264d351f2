//! Merging two sorted runs, and merge sort.

use crate::arrangement::class_of;
use crate::arrangement::lemma_class_concat;
use crate::arrangement::lemma_class_empty;
use crate::arrangement::lemma_class_push;
use crate::arrangement::lemma_sorted_stable_unique;
use crate::arrangement::lemma_stable_concat;
use crate::arrangement::sorted;
use crate::arrangement::stable;
use crate::order::equivalent;
use crate::order::le;
use crate::order::lemma_total_order;
use crate::order::operators_decide;
use crate::order::total_order;
use crate::order::total_preorder;
use core::fmt::Debug;
use vstd::multiset::Multiset;
use vstd::prelude::*;

verus! {

/// The two-cursor merge of `a` and `b`: the lesser of the two first elements comes
/// first, the one of `a` on a tie, and once one sequence is used up the rest of the
/// other follows.
pub open spec fn merged<T: PartialOrd>(a: Seq<T>, b: Seq<T>) -> Seq<T>
    decreases a.len() + b.len(),
{
    if a.len() == 0 {
        b
    } else if b.len() == 0 {
        a
    } else if le(a[0], b[0]) {
        seq![a[0]] + merged(a.drop_first(), b)
    } else {
        seq![b[0]] + merged(a, b.drop_first())
    }
}

/// A merge holds the elements of both sequences, each as often as they do together.
pub proof fn lemma_merged_permutation<T: PartialOrd>(a: Seq<T>, b: Seq<T>)
    ensures
        merged(a, b).len() == a.len() + b.len(),
        merged(a, b).to_multiset() == a.to_multiset().add(b.to_multiset()),
        merged(a, b).to_multiset() == (a + b).to_multiset(),
    decreases a.len() + b.len(),
{
    broadcast use vstd::multiset::group_multiset_axioms;

    vstd::seq_lib::lemma_multiset_commutative(a, b);
    if a.len() == 0 {
        a.to_multiset_ensures();
        assert(a.to_multiset() =~= Multiset::<T>::empty());
        assert(merged(a, b).to_multiset() =~= a.to_multiset().add(b.to_multiset()));
    } else if b.len() == 0 {
        b.to_multiset_ensures();
        assert(b.to_multiset() =~= Multiset::<T>::empty());
        assert(merged(a, b).to_multiset() =~= a.to_multiset().add(b.to_multiset()));
    } else if le(a[0], b[0]) {
        let rest = merged(a.drop_first(), b);
        lemma_merged_permutation(a.drop_first(), b);
        vstd::seq_lib::lemma_multiset_commutative(seq![a[0]], rest);
        vstd::seq_lib::lemma_multiset_commutative(seq![a[0]], a.drop_first());
        assert(seq![a[0]] + a.drop_first() =~= a);
        assert(merged(a, b).to_multiset() =~= a.to_multiset().add(b.to_multiset()));
    } else {
        let rest = merged(a, b.drop_first());
        lemma_merged_permutation(a, b.drop_first());
        vstd::seq_lib::lemma_multiset_commutative(seq![b[0]], rest);
        vstd::seq_lib::lemma_multiset_commutative(seq![b[0]], b.drop_first());
        assert(seq![b[0]] + b.drop_first() =~= b);
        assert(merged(a, b).to_multiset() =~= a.to_multiset().add(b.to_multiset()));
    }
}

/// What is at most every element of `a` and of `b` is at most every element of
/// their merge.
pub proof fn lemma_merged_lower_bound<T: PartialOrd>(a: Seq<T>, b: Seq<T>, x: T)
    requires
        forall|i: int| 0 <= i < a.len() ==> le(x, #[trigger] a[i]),
        forall|j: int| 0 <= j < b.len() ==> le(x, #[trigger] b[j]),
    ensures
        forall|k: int| 0 <= k < merged(a, b).len() ==> le(x, #[trigger] merged(a, b)[k]),
    decreases a.len() + b.len(),
{
    if a.len() == 0 || b.len() == 0 {
    } else if le(a[0], b[0]) {
        let tail = a.drop_first();
        assert forall|i: int| 0 <= i < tail.len() implies le(x, #[trigger] tail[i]) by {
            assert(le(x, a[i + 1]));
        }
        lemma_merged_lower_bound(tail, b, x);
        let rest = merged(tail, b);
        assert forall|k: int| 0 <= k < merged(a, b).len() implies le(x, #[trigger] merged(a, b)[k]) by {
            if k > 0 {
                assert(le(x, rest[k - 1]));
            } else {
                assert(le(x, a[0]));
            }
        }
    } else {
        let tail = b.drop_first();
        assert forall|j: int| 0 <= j < tail.len() implies le(x, #[trigger] tail[j]) by {
            assert(le(x, b[j + 1]));
        }
        lemma_merged_lower_bound(a, tail, x);
        let rest = merged(a, tail);
        assert forall|k: int| 0 <= k < merged(a, b).len() implies le(x, #[trigger] merged(a, b)[k]) by {
            if k > 0 {
                assert(le(x, rest[k - 1]));
            } else {
                assert(le(x, b[0]));
            }
        }
    }
}

/// The merge of two sorted sequences is sorted.
pub proof fn lemma_merged_sorted<T: Ord>(a: Seq<T>, b: Seq<T>)
    requires
        total_order::<T>(),
        sorted(a),
        sorted(b),
    ensures
        sorted(merged(a, b)),
    decreases a.len() + b.len(),
{
    lemma_total_order::<T>();
    if a.len() == 0 || b.len() == 0 {
    } else if le(a[0], b[0]) {
        let tail = a.drop_first();
        let rest = merged(tail, b);
        assert forall|i: int, j: int| 0 <= i < j < tail.len() implies le(
            #[trigger] tail[i],
            #[trigger] tail[j],
        ) by {
            assert(le(a[i + 1], a[j + 1]));
        }
        lemma_merged_sorted(tail, b);
        assert forall|i: int| 0 <= i < tail.len() implies le(a[0], #[trigger] tail[i]) by {
            assert(le(a[0], a[i + 1]));
        }
        assert forall|j: int| 0 <= j < b.len() implies le(a[0], #[trigger] b[j]) by {
            if j > 0 {
                assert(le(b[0], b[j]));
            }
        }
        lemma_merged_lower_bound(tail, b, a[0]);
        assert forall|i: int, j: int| 0 <= i < j < merged(a, b).len() implies le(
            #[trigger] merged(a, b)[i],
            #[trigger] merged(a, b)[j],
        ) by {
            if i > 0 {
                assert(le(rest[i - 1], rest[j - 1]));
            } else {
                assert(le(a[0], rest[j - 1]));
            }
        }
    } else {
        let tail = b.drop_first();
        let rest = merged(a, tail);
        assert forall|i: int, j: int| 0 <= i < j < tail.len() implies le(
            #[trigger] tail[i],
            #[trigger] tail[j],
        ) by {
            assert(le(b[i + 1], b[j + 1]));
        }
        lemma_merged_sorted(a, tail);
        assert forall|j: int| 0 <= j < tail.len() implies le(b[0], #[trigger] tail[j]) by {
            assert(le(b[0], b[j + 1]));
        }
        assert(le(b[0], a[0]));
        assert forall|i: int| 0 <= i < a.len() implies le(b[0], #[trigger] a[i]) by {
            if i > 0 {
                assert(le(a[0], a[i]));
            }
        }
        lemma_merged_lower_bound(a, tail, b[0]);
        assert forall|i: int, j: int| 0 <= i < j < merged(a, b).len() implies le(
            #[trigger] merged(a, b)[i],
            #[trigger] merged(a, b)[j],
        ) by {
            if i > 0 {
                assert(le(rest[i - 1], rest[j - 1]));
            } else {
                assert(le(b[0], rest[j - 1]));
            }
        }
    }
}

/// No element of a sequence has the sort key of something less than all of them.
proof fn lemma_class_above<T: Ord>(s: Seq<T>, low: T, x: T)
    requires
        total_order::<T>(),
        equivalent(low, x),
        forall|i: int| 0 <= i < s.len() ==> !le(#[trigger] s[i], low),
    ensures
        class_of(s, x).len() == 0,
    decreases s.len(),
{
    lemma_total_order::<T>();
    if s.len() == 0 {
        lemma_class_empty(s, x);
    } else {
        let front = s.drop_last();
        assert(front.push(s.last()) =~= s);
        lemma_class_push(front, s.last(), x);
        assert(!le(s[s.len() - 1], low));
        if equivalent(s.last(), x) {
            assert(le(s.last(), x) && le(x, low));
        }
        assert forall|i: int| 0 <= i < front.len() implies !le(#[trigger] front[i], low) by {
            assert(!le(s[i], low));
        }
        lemma_class_above(front, low, x);
    }
}

/// Merging into a sorted first sequence keeps the elements of each sort key in
/// order: those of the first sequence, then those of the second.
pub proof fn lemma_merged_stable<T: Ord>(a: Seq<T>, b: Seq<T>)
    requires
        total_order::<T>(),
        sorted(a),
    ensures
        forall|x: T| #[trigger] class_of(merged(a, b), x) == class_of(a, x) + class_of(b, x),
        stable(a + b, merged(a, b)),
    decreases a.len() + b.len(),
{
    lemma_total_order::<T>();
    assert forall|x: T| #[trigger] class_of(merged(a, b), x) == class_of(a, x) + class_of(b, x) by {
        if a.len() == 0 {
            lemma_class_empty(a, x);
            assert(class_of(a, x) + class_of(b, x) =~= class_of(b, x));
        } else if b.len() == 0 {
            lemma_class_empty(b, x);
            assert(class_of(a, x) + class_of(b, x) =~= class_of(a, x));
        } else if le(a[0], b[0]) {
            let tail = a.drop_first();
            assert forall|i: int, j: int| 0 <= i < j < tail.len() implies le(
                #[trigger] tail[i],
                #[trigger] tail[j],
            ) by {
                assert(le(a[i + 1], a[j + 1]));
            }
            lemma_merged_stable(tail, b);
            assert(seq![a[0]] + tail =~= a);
            lemma_class_concat(seq![a[0]], tail, x);
            lemma_class_concat(seq![a[0]], merged(tail, b), x);
            assert(class_of(merged(tail, b), x) == class_of(tail, x) + class_of(b, x));
            assert(class_of(merged(a, b), x) =~= class_of(a, x) + class_of(b, x));
        } else {
            let tail = b.drop_first();
            lemma_merged_stable(a, tail);
            assert(seq![b[0]] + tail =~= b);
            lemma_class_concat(seq![b[0]], tail, x);
            lemma_class_concat(seq![b[0]], merged(a, tail), x);
            assert(class_of(merged(a, tail), x) == class_of(a, x) + class_of(tail, x));
            if equivalent(b[0], x) {
                assert forall|i: int| 0 <= i < a.len() implies !le(#[trigger] a[i], b[0]) by {
                    if i > 0 {
                        assert(le(a[0], a[i]));
                    }
                }
                lemma_class_above(a, b[0], x);
                assert(class_of(a, x) =~= Seq::<T>::empty());
            } else {
                let none = Seq::<T>::empty();
                assert(none.push(b[0]) =~= seq![b[0]]);
                lemma_class_push(none, b[0], x);
                lemma_class_empty(none, x);
                assert(class_of(seq![b[0]], x) =~= Seq::<T>::empty());
            }
            assert(class_of(merged(a, b), x) =~= class_of(a, x) + class_of(b, x));
        }
    }
    assert forall|x: T| class_of(merged(a, b), x) == class_of(a + b, x) by {
        lemma_class_concat(a, b, x);
        assert(class_of(merged(a, b), x) == class_of(a, x) + class_of(b, x));
    }
}

/// Appends `l[from..to]` to `work`.
fn append_run<T: Copy>(work: &mut Vec<T>, l: &[T], from: usize, to: usize)
    requires
        from <= to <= l@.len(),
    ensures
        final(work)@ == old(work)@ + l@.subrange(from as int, to as int),
{
    let mut k: usize = from;
    while k < to
        invariant
            from <= k <= to <= l@.len(),
            work@ == old(work)@ + l@.subrange(from as int, k as int),
        decreases to - k,
    {
        work.push(l[k]);
        k += 1;
        assert(work@ =~= old(work)@ + l@.subrange(from as int, k as int));
    }
}

/// Merges the two runs `l[..mid]` and `l[mid..]` in place, as `merged` says.
///
/// Where both runs are sorted the result is sorted, and elements of the same sort
/// key keep their relative order. Runs that are not sorted are merged all the
/// same, by their first elements.
pub fn merge<T: Ord + Copy + Debug>(l: &mut [T], mid: usize)
    requires
        total_order::<T>(),
        mid <= old(l)@.len(),
    ensures
        final(l)@ == merged(old(l)@.take(mid as int), old(l)@.skip(mid as int)),
        final(l)@.len() == old(l)@.len(),
        final(l)@.to_multiset() == old(l)@.to_multiset(),
        sorted(old(l)@.take(mid as int)) && sorted(old(l)@.skip(mid as int)) ==> sorted(final(l)@)
            && stable(old(l)@, final(l)@),
        mid == 0 || mid == old(l)@.len() ==> final(l)@ == old(l)@,
{
    let n = l.len();
    let ghost a = l@.take(mid as int);
    let ghost b = l@.skip(mid as int);
    proof {
        lemma_total_order::<T>();
    }
    let mut work: Vec<T> = Vec::new();
    let mut left: usize = 0;
    let mut right: usize = mid;
    while left < mid && right < n
        invariant
            n == l@.len(),
            l@ == old(l)@,
            a == l@.take(mid as int),
            b == l@.skip(mid as int),
            operators_decide::<T>(),
            total_preorder::<T>(),
            left <= mid <= right <= n,
            work@ + merged(l@.subrange(left as int, mid as int), l@.subrange(right as int, n as int))
                == merged(a, b),
        decreases (mid - left) + (n - right),
    {
        let ghost run_a = l@.subrange(left as int, mid as int);
        let ghost run_b = l@.subrange(right as int, n as int);
        let ghost so_far = work@;
        if l[left] <= l[right] {
            work.push(l[left]);
            left += 1;
            proof {
                assert(le(run_a[0], run_b[0]));
                assert(run_a.drop_first() =~= l@.subrange(left as int, mid as int));
                assert(work@ + merged(run_a.drop_first(), run_b) =~= so_far + merged(run_a, run_b));
            }
        } else {
            work.push(l[right]);
            right += 1;
            proof {
                assert(!le(run_a[0], run_b[0]));
                assert(run_b.drop_first() =~= l@.subrange(right as int, n as int));
                assert(work@ + merged(run_a, run_b.drop_first()) =~= so_far + merged(run_a, run_b));
            }
        }
    }
    let ghost so_far = work@;
    append_run(&mut work, l, left, mid);
    append_run(&mut work, l, right, n);
    proof {
        let run_a = l@.subrange(left as int, mid as int);
        let run_b = l@.subrange(right as int, n as int);
        assert(merged(run_a, run_b) =~= run_a + run_b);
        assert(work@ =~= so_far + merged(run_a, run_b));
        lemma_merged_permutation(a, b);
        assert(a + b =~= l@);
    }
    for i in 0..n
        invariant
            n == l@.len(),
            n == work@.len(),
            forall|k: int| 0 <= k < i ==> l@[k] == work@[k],
    {
        l[i] = work[i];
    }
    proof {
        assert(l@ =~= work@);
        if sorted(a) && sorted(b) {
            lemma_merged_sorted(a, b);
            lemma_merged_stable(a, b);
        }
        if mid == 0 || mid == n {
            assert(merged(a, b) =~= a + b);
        }
    }
}

/// Sorts `l` in ascending order: it sorts each half, the first being the shorter
/// where the length is odd, and merges the two.
///
/// Elements of the same sort key keep their relative order, and a slice that is
/// sorted already is left as it is.
pub fn merge_sort<T: Ord + Copy + Debug>(l: &mut [T])
    requires
        total_order::<T>(),
    ensures
        sorted(final(l)@),
        final(l)@.len() == old(l)@.len(),
        final(l)@.to_multiset() == old(l)@.to_multiset(),
        stable(old(l)@, final(l)@),
        sorted(old(l)@) ==> final(l)@ == old(l)@,
        old(l)@.len() <= 1 ==> final(l)@ == old(l)@,
    decreases old(l)@.len(),
{
    if l.len() <= 1 {
        return ;
    }
    let m = l.len() / 2;
    let ghost before = l@;
    let (front, back) = l.split_at_mut(m);
    let ghost a = front@;
    let ghost b = back@;
    merge_sort(front);
    merge_sort(back);
    let ghost a2 = front@;
    let ghost b2 = back@;
    proof {
        assert(before =~= a + b);
        assert(l@.take(m as int) =~= a2);
        assert(l@.skip(m as int) =~= b2);
        vstd::seq_lib::lemma_multiset_commutative(a, b);
        vstd::seq_lib::lemma_multiset_commutative(a2, b2);
        lemma_stable_concat(a, a2, b, b2);
    }
    merge(l, m);
    proof {
        if sorted(before) {
            lemma_sorted_stable_unique(before, l@);
        }
    }
}

} // verus!

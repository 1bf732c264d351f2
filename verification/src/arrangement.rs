//! What it means for a sequence to be sorted, and for one sequence to be a
//! rearrangement of another that keeps equal elements in order.

use crate::order::equivalent;
use crate::order::le;
use crate::order::lemma_total_order;
use crate::order::total_order;
use vstd::prelude::*;

verus! {

/// No element of `s` is greater than a later one.
pub open spec fn sorted<T: PartialOrd>(s: Seq<T>) -> bool {
    forall|i: int, j: int| 0 <= i < j < s.len() ==> le(#[trigger] s[i], #[trigger] s[j])
}

/// Holds of the elements that have the sort key of `x`.
pub open spec fn in_class<T: PartialOrd>(x: T) -> spec_fn(T) -> bool {
    |y: T| equivalent(y, x)
}

/// The elements of `s` that have the sort key of `x`, in the order in which `s` holds them.
pub open spec fn class_of<T: PartialOrd>(s: Seq<T>, x: T) -> Seq<T> {
    s.filter(in_class(x))
}

/// `after` holds the elements of each sort key exactly as `before` does: the same
/// elements, in the same relative order.
pub open spec fn stable<T: PartialOrd>(before: Seq<T>, after: Seq<T>) -> bool {
    forall|x: T| #![trigger class_of(after, x)] #![trigger class_of(before, x)]
        class_of(after, x) == class_of(before, x)
}

/// `s` with the elements at `i` and `j` exchanged.
pub open spec fn exchanged<T>(s: Seq<T>, i: int, j: int) -> Seq<T> {
    s.update(i, s[j]).update(j, s[i])
}

/// Each element of `s` is at most its successor.
pub open spec fn ascending<T: PartialOrd>(s: Seq<T>) -> bool {
    forall|i: int| 0 <= i < s.len() - 1 ==> le(#[trigger] s[i], s[i + 1])
}

/// A sequence is sorted exactly if each element is at most its successor.
pub proof fn lemma_sorted_ascending<T: Ord>(s: Seq<T>)
    requires
        total_order::<T>(),
    ensures
        sorted(s) <==> ascending(s),
    decreases s.len(),
{
    lemma_total_order::<T>();
    if sorted(s) {
        assert forall|i: int| 0 <= i < s.len() - 1 implies le(#[trigger] s[i], s[i + 1]) by {
            assert(le(s[i], s[i + 1]));
        }
    }
    if ascending(s) && s.len() >= 2 {
        let front = s.drop_last();
        assert forall|i: int| 0 <= i < front.len() - 1 implies le(#[trigger] front[i], front[i + 1]) by {
            assert(le(s[i], s[i + 1]));
        }
        lemma_sorted_ascending(front);
        let k = s.len() - 2;
        assert forall|i: int, j: int| 0 <= i < j < s.len() implies le(#[trigger] s[i], #[trigger] s[j]) by {
            if j < s.len() - 1 {
                assert(le(front[i], front[j]));
            } else if i < k {
                assert(le(front[i], front[k]));
                assert(le(s[k], s[k + 1]));
            } else {
                assert(le(s[k], s[k + 1]));
            }
        }
    }
}

/// Appending `e` appends it to the class of `x` if it has the sort key of `x`, and
/// leaves that class alone if not.
pub proof fn lemma_class_push<T: PartialOrd>(s: Seq<T>, e: T, x: T)
    ensures
        class_of(s.push(e), x) == if equivalent(e, x) {
            class_of(s, x).push(e)
        } else {
            class_of(s, x)
        },
{
    s.lemma_filter_push(e, in_class(x));
}

/// The classes of a concatenation are the concatenations of the classes.
pub proof fn lemma_class_concat<T: PartialOrd>(a: Seq<T>, b: Seq<T>, x: T)
    ensures
        class_of(a + b, x) == class_of(a, x) + class_of(b, x),
{
    Seq::filter_distributes_over_add(a, b, in_class(x));
}

/// The empty sequence has empty classes.
pub proof fn lemma_class_empty<T: PartialOrd>(s: Seq<T>, x: T)
    requires
        s.len() == 0,
    ensures
        class_of(s, x) == Seq::<T>::empty(),
        class_of(s, x).len() == 0,
{
    s.lemma_filter_len(in_class(x));
    assert(class_of(s, x) =~= Seq::<T>::empty());
}

/// Two sorted sequences that hold the elements of each sort key in the same order
/// are the same sequence.
pub proof fn lemma_sorted_stable_unique<T: Ord>(a: Seq<T>, b: Seq<T>)
    requires
        total_order::<T>(),
        sorted(a),
        sorted(b),
        stable(a, b),
    ensures
        a == b,
    decreases a.len(),
{
    lemma_total_order::<T>();
    if a.len() == 0 || b.len() == 0 {
        if b.len() > 0 {
            let y = b.last();
            assert(b.drop_last().push(y) =~= b);
            lemma_class_push(b.drop_last(), y, y);
            lemma_class_empty(a, y);
            assert(class_of(b, y) == class_of(a, y));
        }
        if a.len() > 0 {
            let x = a.last();
            assert(a.drop_last().push(x) =~= a);
            lemma_class_push(a.drop_last(), x, x);
            lemma_class_empty(b, x);
            assert(class_of(b, x) == class_of(a, x));
        }
        assert(a =~= b);
    } else {
        let x = a.last();
        let y = b.last();
        let a0 = a.drop_last();
        let b0 = b.drop_last();
        assert(a0.push(x) =~= a);
        assert(b0.push(y) =~= b);
        // The last of `a` occurs in `b`, so it is at most the last of `b`; and conversely.
        lemma_class_push(a0, x, x);
        assert(class_of(b, x) == class_of(a, x));
        assert(class_of(b, x).last() == x);
        b.lemma_filter_contains_rev(in_class(x), x);
        let kb = choose|k: int| 0 <= k < b.len() && b[k] == x;
        assert(le(b[kb], y));
        lemma_class_push(b0, y, y);
        assert(class_of(b, y) == class_of(a, y));
        assert(class_of(a, y).last() == y);
        a.lemma_filter_contains_rev(in_class(y), y);
        let ka = choose|k: int| 0 <= k < a.len() && a[k] == y;
        assert(le(a[ka], x));
        // So both have the same sort key, and end the same class.
        lemma_class_push(b0, y, x);
        assert(class_of(a0, x).push(x) == class_of(b0, x).push(y));
        assert(class_of(a0, x).push(x).last() == class_of(b0, x).push(y).last());
        assert(x == y);
        assert forall|z: T| class_of(b0, z) == class_of(a0, z) by {
            lemma_class_push(a0, x, z);
            lemma_class_push(b0, x, z);
            assert(class_of(b, z) == class_of(a, z));
            if equivalent(x, z) {
                assert(class_of(a0, z) =~= class_of(a0, z).push(x).drop_last());
                assert(class_of(b0, z) =~= class_of(b0, z).push(x).drop_last());
            }
        }
        assert forall|i: int, j: int| 0 <= i < j < a0.len() implies le(#[trigger] a0[i], #[trigger] a0[j]) by {
            assert(le(a[i], a[j]));
        }
        assert forall|i: int, j: int| 0 <= i < j < b0.len() implies le(#[trigger] b0[i], #[trigger] b0[j]) by {
            assert(le(b[i], b[j]));
        }
        lemma_sorted_stable_unique(a0, b0);
    }
}

/// A sequence has only one sorted rearrangement that keeps every class: whatever
/// sorts it so gives the same result.
pub proof fn lemma_stable_sort_unique<T: Ord>(before: Seq<T>, a: Seq<T>, b: Seq<T>)
    requires
        total_order::<T>(),
        sorted(a),
        stable(before, a),
        sorted(b),
        stable(before, b),
    ensures
        a == b,
{
    assert forall|x: T| class_of(b, x) == class_of(a, x) by {
        assert(class_of(a, x) == class_of(before, x));
        assert(class_of(b, x) == class_of(before, x));
    }
    lemma_sorted_stable_unique(a, b);
}

/// Exchanging two neighbours of different sort keys keeps every class as it was.
pub proof fn lemma_swap_stable<T: Ord>(s: Seq<T>, i: int)
    requires
        total_order::<T>(),
        0 <= i,
        i + 1 < s.len(),
        !equivalent(s[i], s[i + 1]),
    ensures
        stable(s, exchanged(s, i, i + 1)),
{
    lemma_total_order::<T>();
    let front = s.take(i);
    let back = s.skip(i + 2);
    let pair = Seq::<T>::empty().push(s[i]).push(s[i + 1]);
    let turned = Seq::<T>::empty().push(s[i + 1]).push(s[i]);
    assert(s =~= front + pair + back);
    assert(exchanged(s, i, i + 1) =~= front + turned + back);
    assert forall|x: T| class_of(exchanged(s, i, i + 1), x) == class_of(s, x) by {
        let none = Seq::<T>::empty();
        lemma_class_empty(none, x);
        lemma_class_push(none, s[i], x);
        lemma_class_push(none.push(s[i]), s[i + 1], x);
        lemma_class_push(none, s[i + 1], x);
        lemma_class_push(none.push(s[i + 1]), s[i], x);
        if equivalent(s[i], x) && equivalent(s[i + 1], x) {
            assert(le(s[i], x) && le(x, s[i + 1]));
            assert(le(s[i + 1], x) && le(x, s[i]));
        }
        assert(class_of(pair, x) =~= class_of(turned, x));
        lemma_class_concat(front, pair, x);
        lemma_class_concat(front + pair, back, x);
        lemma_class_concat(front, turned, x);
        lemma_class_concat(front + turned, back, x);
    }
}

/// Exchanging two elements keeps the multiset of elements.
pub proof fn lemma_swap_permutation<T>(s: Seq<T>, i: int, j: int)
    requires
        0 <= i < s.len(),
        0 <= j < s.len(),
    ensures
        exchanged(s, i, j).to_multiset() == s.to_multiset(),
{
    broadcast use vstd::multiset::group_multiset_axioms;

    vstd::seq_lib::to_multiset_update(s, i, s[j]);
    vstd::seq_lib::to_multiset_update(s.update(i, s[j]), j, s[i]);
    s.to_multiset_ensures();
    assert(exchanged(s, i, j).to_multiset() =~= s.to_multiset());
}

/// The class of `x` holds `x` as often as the sequence does.
pub proof fn lemma_class_count<T: Ord>(s: Seq<T>, x: T)
    requires
        total_order::<T>(),
    ensures
        class_of(s, x).to_multiset().count(x) == s.to_multiset().count(x),
    decreases s.len(),
{
    broadcast use vstd::multiset::group_multiset_axioms;

    lemma_total_order::<T>();
    assert(equivalent(x, x)) by {
        assert(le(x, x) || le(x, x));
    }
    if s.len() == 0 {
        lemma_class_empty(s, x);
        assert(class_of(s, x) =~= s);
    } else {
        let front = s.drop_last();
        let e = s.last();
        assert(front.push(e) =~= s);
        lemma_class_count(front, x);
        lemma_class_push(front, e, x);
        vstd::seq_lib::to_multiset_build(front, e);
        vstd::seq_lib::to_multiset_build(class_of(front, x), e);
    }
}

/// A rearrangement that keeps every class keeps every element, each as often as
/// it occurred.
pub proof fn lemma_stable_permutation<T: Ord>(before: Seq<T>, after: Seq<T>)
    requires
        total_order::<T>(),
        stable(before, after),
    ensures
        after.to_multiset() == before.to_multiset(),
        after.len() == before.len(),
{
    assert forall|x: T| after.to_multiset().count(x) == before.to_multiset().count(x) by {
        lemma_class_count(before, x);
        lemma_class_count(after, x);
        assert(class_of(after, x) == class_of(before, x));
    }
    assert(after.to_multiset() =~= before.to_multiset());
    vstd::seq_lib::to_multiset_len(before);
    vstd::seq_lib::to_multiset_len(after);
}

/// Rearranging two parts, each keeping its classes, keeps the classes of the whole.
pub proof fn lemma_stable_concat<T: PartialOrd>(a: Seq<T>, a2: Seq<T>, b: Seq<T>, b2: Seq<T>)
    requires
        stable(a, a2),
        stable(b, b2),
    ensures
        stable(a + b, a2 + b2),
{
    assert forall|x: T| class_of(a2 + b2, x) == class_of(a + b, x) by {
        lemma_class_concat(a, b, x);
        lemma_class_concat(a2, b2, x);
        assert(class_of(a2, x) == class_of(a, x));
        assert(class_of(b2, x) == class_of(b, x));
    }
}

} // verus!

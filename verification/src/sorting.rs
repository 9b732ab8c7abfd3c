//! Merge sort: split, sort the halves, merge, and write the result back.

use crate::merging::merge;
use crate::order::total_preorder;
use crate::sortedness::{lemma_sorted_fixed_by_classes, sorted, ties_keep_order};
use vstd::prelude::*;
use vstd::seq_lib::lemma_multiset_commutative;

verus! {

/// Sorting the two parts of a sequence apart and merging the results sorts
/// the whole: what the parts keep, the whole keeps.
proof fn lemma_halves_combine<T: PartialOrd>(
    whole: Seq<T>,
    mid: int,
    left: Seq<T>,
    right: Seq<T>,
    merged: Seq<T>,
)
    requires
        0 <= mid <= whole.len(),
        left.to_multiset() == whole.subrange(0, mid).to_multiset(),
        right.to_multiset() == whole.subrange(mid, whole.len() as int).to_multiset(),
        ties_keep_order(left, whole.subrange(0, mid)),
        ties_keep_order(right, whole.subrange(mid, whole.len() as int)),
        merged.to_multiset() == (left + right).to_multiset(),
        ties_keep_order(merged, left + right),
    ensures
        merged.to_multiset() == whole.to_multiset(),
        ties_keep_order(merged, whole),
{
    let lower = whole.subrange(0, mid);
    let upper = whole.subrange(mid, whole.len() as int);
    assert(whole =~= lower + upper);
    lemma_multiset_commutative(left, right);
    lemma_multiset_commutative(lower, upper);
}

/// Returns the items of a non-empty slice as a new sorted vector.
///
/// A slice of one item is returned as it is. A longer one is split at half
/// its length, rounded down; both parts are sorted by this function and the
/// results merged. The slice itself is left alone.
pub fn merge_helper<T: Copy + PartialOrd>(arr: &[T]) -> (result: Vec<T>)
    requires
        total_preorder::<T>(),
        arr@.len() >= 1,
    ensures
        result@.len() == arr@.len(),
        sorted(result@),
        result@.to_multiset() == arr@.to_multiset(),
        ties_keep_order(result@, arr@),
        arr@.len() == 1 ==> result@ == arr@,
    decreases arr@.len(),
{
    let len: usize = arr.len();
    if len == 1 {
        let only = vec![arr[0]];
        assert(only@ =~= arr@);
        return only;
    }
    let left = merge_helper(&arr[0..(len / 2)]);
    let right = merge_helper(&arr[(len / 2)..len]);
    let result = merge(left, right);
    proof {
        lemma_halves_combine(arr@, (len / 2) as int, left@, right@, result@);
    }
    result
}

/// Sorts the slice in place.
///
/// Afterwards the slice is in non-descending order and holds exactly the
/// values it held before, each as often as before. Values that rank together
/// keep the order they had. An empty slice is left as it is.
pub fn merge_sort<T: Copy + PartialOrd>(arr: &mut [T])
    requires
        total_preorder::<T>(),
    ensures
        final(arr)@.len() == old(arr)@.len(),
        sorted(final(arr)@),
        final(arr)@.to_multiset() == old(arr)@.to_multiset(),
        ties_keep_order(final(arr)@, old(arr)@),
        sorted(old(arr)@) ==> final(arr)@ == old(arr)@,
        old(arr)@.len() <= 1 ==> final(arr)@ == old(arr)@,
{
    if arr.len() == 0 {
        return;
    }
    let sorted_items = merge_helper(arr);
    let len: usize = arr.len();
    let mut i: usize = 0;
    while i < len
        invariant
            i <= len,
            len == arr@.len(),
            len == sorted_items@.len(),
            forall|k: int| 0 <= k < i ==> arr@[k] == sorted_items@[k],
        decreases len - i,
    {
        arr[i] = sorted_items[i];
        i += 1;
    }
    assert(arr@ =~= sorted_items@);
    proof {
        if sorted(old(arr)@) {
            lemma_sorted_fixed_by_classes(arr@, old(arr)@);
        }
    }
}

/// Sorting what has been sorted changes nothing: a second sort returns what
/// the first one left.
pub proof fn lemma_second_sort_changes_nothing<T: PartialOrd>(
    before: Seq<T>,
    once: Seq<T>,
    twice: Seq<T>,
)
    requires
        total_preorder::<T>(),
        sorted(once),
        once.to_multiset() == before.to_multiset(),
        ties_keep_order(once, before),
        sorted(twice),
        twice.to_multiset() == once.to_multiset(),
        ties_keep_order(twice, once),
    ensures
        twice == once,
{
    lemma_sorted_fixed_by_classes(twice, once);
}

/// The input fixes the output: two results that both are sorted and keep the
/// input's ties in order are the same.
pub proof fn lemma_one_result<T: PartialOrd>(before: Seq<T>, one: Seq<T>, other: Seq<T>)
    requires
        total_preorder::<T>(),
        sorted(one),
        ties_keep_order(one, before),
        sorted(other),
        ties_keep_order(other, before),
    ensures
        one == other,
{
    lemma_sorted_fixed_by_classes(one, other);
}

} // verus!

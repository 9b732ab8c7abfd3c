//! Merging two sorted sequences into one.

use crate::order::{equivalent, le, total_preorder};
use crate::sortedness::{class_of, lemma_sorted_fixed_by_classes, sorted, ties_keep_order};
use vstd::prelude::*;
use vstd::seq_lib::{lemma_multiset_commutative, to_multiset_build};

verus! {

/// What holds of the output `out` once the first `f` items of `first` and the
/// first `s` items of `second` have been moved into it.
spec fn merged_so_far<T: PartialOrd>(
    out: Seq<T>,
    first: Seq<T>,
    second: Seq<T>,
    f: int,
    s: int,
) -> bool {
    &&& 0 <= f <= first.len()
    &&& 0 <= s <= second.len()
    &&& out.len() == f + s
    &&& sorted(out)
    &&& forall|i: int, j: int|
        0 <= i < out.len() && f <= j < first.len() ==> le(#[trigger] out[i], #[trigger] first[j])
    &&& forall|i: int, j: int|
        0 <= i < out.len() && s <= j < second.len() ==> le(
            #[trigger] out[i],
            #[trigger] second[j],
        )
    &&& forall|i: int, j: int|
        0 <= i < s && f <= j < first.len() ==> !le(#[trigger] first[j], #[trigger] second[i])
    &&& out.to_multiset() == first.take(f).to_multiset().add(second.take(s).to_multiset())
    &&& forall|v: T| #[trigger]
        out.filter(class_of(v)) == first.take(f).filter(class_of(v)) + second.take(s).filter(
            class_of(v),
        )
}

/// Before anything has been moved, the empty output is in the stated relation
/// to the inputs.
proof fn lemma_merge_start<T: PartialOrd>(first: Seq<T>, second: Seq<T>)
    ensures
        merged_so_far(Seq::<T>::empty(), first, second, 0, 0),
{
    let none = Seq::<T>::empty();
    assert(first.take(0) =~= none);
    assert(second.take(0) =~= none);
    assert(none.to_multiset() == none.to_multiset().add(none.to_multiset())) by {
        lemma_multiset_commutative(none, none);
    }
}

/// A class that holds `x` has no member among the first `s` items of
/// `second`, when each of them comes strictly before `x`.
proof fn lemma_no_earlier_tie<T: PartialOrd>(second: Seq<T>, s: int, x: T, v: T)
    requires
        total_preorder::<T>(),
        0 <= s <= second.len(),
        equivalent(x, v),
        forall|i: int| 0 <= i < s ==> !le(x, #[trigger] second[i]),
    ensures
        second.take(s).filter(class_of(v)) == Seq::<T>::empty(),
{
    let head = second.take(s);
    let kept = head.filter(class_of(v));
    if kept.len() > 0 {
        // A listed item would rank together with `x` and yet come strictly
        // before it.
        head.lemma_filter_contains_rev(class_of(v), kept[0]);
    }
}

/// Moving the next item of `first` keeps the relation, when that item does
/// not come after the next item of `second`.
proof fn lemma_move_from_first<T: PartialOrd>(
    out: Seq<T>,
    first: Seq<T>,
    second: Seq<T>,
    f: int,
    s: int,
)
    requires
        total_preorder::<T>(),
        sorted(first),
        sorted(second),
        merged_so_far(out, first, second, f, s),
        f < first.len(),
        s < second.len() ==> le(first[f], second[s]),
    ensures
        merged_so_far(out.push(first[f]), first, second, f + 1, s),
{
    let x = first[f];
    let next = out.push(x);
    assert(first.take(f + 1) =~= first.take(f).push(x));
    assert(next.to_multiset() == first.take(f + 1).to_multiset().add(
        second.take(s).to_multiset(),
    )) by {
        to_multiset_build(out, x);
        to_multiset_build(first.take(f), x);
    }
    assert forall|v: T| #[trigger]
        next.filter(class_of(v)) == first.take(f + 1).filter(class_of(v)) + second.take(s).filter(
            class_of(v),
        ) by {
        out.lemma_filter_push(x, class_of(v));
        first.take(f).lemma_filter_push(x, class_of(v));
        if equivalent(x, v) {
            lemma_no_earlier_tie(second, s, x, v);
        }
    }
}

/// Moving the next item of `second` keeps the relation, when that item comes
/// strictly before the next item of `first`.
proof fn lemma_move_from_second<T: PartialOrd>(
    out: Seq<T>,
    first: Seq<T>,
    second: Seq<T>,
    f: int,
    s: int,
)
    requires
        total_preorder::<T>(),
        sorted(first),
        sorted(second),
        merged_so_far(out, first, second, f, s),
        s < second.len(),
        f < first.len() ==> !le(first[f], second[s]),
    ensures
        merged_so_far(out.push(second[s]), first, second, f, s + 1),
{
    let y = second[s];
    let next = out.push(y);
    assert(second.take(s + 1) =~= second.take(s).push(y));
    assert(next.to_multiset() == first.take(f).to_multiset().add(
        second.take(s + 1).to_multiset(),
    )) by {
        to_multiset_build(out, y);
        to_multiset_build(second.take(s), y);
    }
    assert forall|v: T| #[trigger]
        next.filter(class_of(v)) == first.take(f).filter(class_of(v)) + second.take(s + 1).filter(
            class_of(v),
        ) by {
        out.lemma_filter_push(y, class_of(v));
        second.take(s).lemma_filter_push(y, class_of(v));
    }
}

/// Once both inputs are used up, the output is the sorted rearrangement of
/// `first` followed by `second` in which ties keep their order.
proof fn lemma_merge_end<T: PartialOrd>(out: Seq<T>, first: Seq<T>, second: Seq<T>)
    requires
        merged_so_far(out, first, second, first.len() as int, second.len() as int),
    ensures
        out.len() == first.len() + second.len(),
        sorted(out),
        out.to_multiset() == (first + second).to_multiset(),
        ties_keep_order(out, first + second),
{
    assert(first.take(first.len() as int) =~= first);
    assert(second.take(second.len() as int) =~= second);
    lemma_multiset_commutative(first, second);
}

/// Merges two sorted vectors into one sorted vector.
///
/// The result holds every item of `first` and of `second`, in non-descending
/// order. Where an item of `first` and an item of `second` rank together, the
/// one of `first` comes out first, so the result is `first` followed by
/// `second`, sorted with ties left in their order. Merging with an empty
/// vector returns the other one.
pub fn merge<T: Copy + PartialOrd>(first: Vec<T>, second: Vec<T>) -> (merged: Vec<T>)
    requires
        total_preorder::<T>(),
        sorted(first@),
        sorted(second@),
    ensures
        merged@.len() == first@.len() + second@.len(),
        sorted(merged@),
        merged@.to_multiset() == (first@ + second@).to_multiset(),
        ties_keep_order(merged@, first@ + second@),
        first@.len() == 0 ==> merged@ == second@,
        second@.len() == 0 ==> merged@ == first@,
{
    let first_len: usize = first.len();
    let second_len: usize = second.len();
    let mut f: usize = 0;
    let mut s: usize = 0;
    let mut merged: Vec<T> = Vec::new();
    proof {
        lemma_merge_start(first@, second@);
    }
    while f < first_len || s < second_len
        invariant
            total_preorder::<T>(),
            sorted(first@),
            sorted(second@),
            first_len == first@.len(),
            second_len == second@.len(),
            merged_so_far(merged@, first@, second@, f as int, s as int),
        decreases (first_len - f) + (second_len - s),
    {
        if f < first_len && s < second_len {
            if first[f] <= second[s] {
                proof {
                    lemma_move_from_first(merged@, first@, second@, f as int, s as int);
                }
                merged.push(first[f]);
                f += 1;
            } else {
                proof {
                    lemma_move_from_second(merged@, first@, second@, f as int, s as int);
                }
                merged.push(second[s]);
                s += 1;
            }
        } else if f >= first_len {
            proof {
                lemma_move_from_second(merged@, first@, second@, f as int, s as int);
            }
            merged.push(second[s]);
            s += 1;
        } else {
            proof {
                lemma_move_from_first(merged@, first@, second@, f as int, s as int);
            }
            merged.push(first[f]);
            f += 1;
        }
    }
    proof {
        lemma_merge_end(merged@, first@, second@);
        if first@.len() == 0 {
            assert(first@ + second@ =~= second@);
            lemma_sorted_fixed_by_classes(merged@, second@);
        }
        if second@.len() == 0 {
            assert(first@ + second@ =~= first@);
            lemma_sorted_fixed_by_classes(merged@, first@);
        }
    }
    merged
}

} // verus!

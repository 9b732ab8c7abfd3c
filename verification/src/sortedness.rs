//! What it means for one sequence to be a sorted rearrangement of another.

use crate::order::{equivalent, le, lemma_le_reflexive, total_order, total_preorder};
use vstd::prelude::*;
use vstd::seq_lib::{to_multiset_build, to_multiset_contains};

verus! {

/// The sequence is in non-descending order: no item comes strictly after a
/// later one.
pub open spec fn sorted<T: PartialOrd>(s: Seq<T>) -> bool {
    forall|i: int, j: int| 0 <= i < j < s.len() ==> le(#[trigger] s[i], #[trigger] s[j])
}

/// The test that picks the values ranking together with `v`.
pub open spec fn class_of<T: PartialOrd>(v: T) -> spec_fn(T) -> bool {
    |x: T| equivalent(x, v)
}

/// Values that rank together stand in `out` in the order in which `source`
/// holds them: whichever class one picks, both sequences list its members
/// alike.
pub open spec fn ties_keep_order<T: PartialOrd>(out: Seq<T>, source: Seq<T>) -> bool {
    forall|v: T| #[trigger] out.filter(class_of(v)) == source.filter(class_of(v))
}

/// Each item is followed by one that does not come strictly before it.
pub open spec fn neighbours_in_order<T: PartialOrd>(s: Seq<T>) -> bool {
    forall|i: int| 0 <= i && i + 1 < s.len() ==> le(#[trigger] s[i], s[i + 1])
}

/// Where neighbours are in order, so are any two items further apart.
proof fn lemma_neighbours_reach<T: PartialOrd>(s: Seq<T>, i: int, j: int)
    requires
        total_preorder::<T>(),
        neighbours_in_order(s),
        0 <= i < j < s.len(),
    ensures
        le(s[i], s[j]),
    decreases j - i,
{
    if i + 1 < j {
        lemma_neighbours_reach(s, i, j - 1);
    }
}

/// A sequence is sorted exactly when all its neighbours are in order.
pub proof fn lemma_sorted_by_neighbours<T: PartialOrd>(s: Seq<T>)
    requires
        total_preorder::<T>(),
    ensures
        sorted(s) <==> neighbours_in_order(s),
{
    if neighbours_in_order(s) {
        assert forall|i: int, j: int| 0 <= i < j < s.len() implies le(
            #[trigger] s[i],
            #[trigger] s[j],
        ) by {
            lemma_neighbours_reach(s, i, j);
        }
    }
}

/// A sequence of at most one item is sorted.
pub proof fn lemma_short_is_sorted<T: PartialOrd>(s: Seq<T>)
    requires
        s.len() <= 1,
    ensures
        sorted(s),
{
}

/// A sequence that lists a member of the class of `v` holds an item that
/// ranks together with `v`.
proof fn lemma_class_member<T: PartialOrd>(s: Seq<T>, v: T) -> (i: int)
    requires
        s.filter(class_of(v)).len() > 0,
    ensures
        0 <= i < s.len(),
        equivalent(s[i], v),
{
    let listed = s.filter(class_of(v));
    s.lemma_filter_contains_rev(class_of(v), listed[0]);
    choose|i: int| 0 <= i < s.len() && s[i] == listed[0]
}

/// In a sorted sequence that lists a member of the class of `v`, the last
/// item does not come strictly before `v`.
proof fn lemma_last_not_below<T: PartialOrd>(s: Seq<T>, v: T)
    requires
        total_preorder::<T>(),
        sorted(s),
        s.filter(class_of(v)).len() > 0,
    ensures
        s.len() > 0,
        le(v, s.last()),
{
    let i = lemma_class_member(s, v);
    assert(le(v, s[i]));
}

/// A sequence lists its last item in the class of that item.
proof fn lemma_last_is_listed<T: PartialOrd>(s: Seq<T>)
    requires
        total_preorder::<T>(),
        s.len() > 0,
    ensures
        s.filter(class_of(s.last())).len() > 0,
{
    lemma_le_reflexive(s.last());
    s.lemma_filter_contains(class_of(s.last()), s.len() - 1);
}

/// Two sorted sequences that list every class alike are the same sequence.
///
/// So the output of a sort that keeps ties in order is fixed by its input:
/// sortedness places the classes, and the order within each class is the
/// input's.
pub proof fn lemma_sorted_fixed_by_classes<T: PartialOrd>(a: Seq<T>, b: Seq<T>)
    requires
        total_preorder::<T>(),
        sorted(a),
        sorted(b),
        ties_keep_order(a, b),
    ensures
        a == b,
    decreases a.len() + b.len(),
{
    if a.len() == 0 || b.len() == 0 {
        // A sequence lists its last item, so an empty one has an empty twin.
        if a.len() > 0 {
            lemma_last_is_listed(a);
            b.lemma_filter_len(class_of(a.last()));
        }
        if b.len() > 0 {
            lemma_last_is_listed(b);
            a.lemma_filter_len(class_of(b.last()));
        }
    } else {
        let x = a.last();
        let y = b.last();
        let shorter_a = a.drop_last();
        let shorter_b = b.drop_last();
        assert(a =~= shorter_a.push(x));
        assert(b =~= shorter_b.push(y));
        // Each sequence lists the other's last item, so neither last item
        // comes strictly before the other.
        assert(equivalent(y, x)) by {
            lemma_last_is_listed(a);
            lemma_last_is_listed(b);
            lemma_last_not_below(b, x);
            lemma_last_not_below(a, y);
        }
        // Both close the listing of their common class.
        assert(x == y) by {
            shorter_a.lemma_filter_push(x, class_of(x));
            shorter_b.lemma_filter_push(y, class_of(x));
            assert(shorter_a.filter(class_of(x)).push(x).last() == x);
            assert(shorter_b.filter(class_of(x)).push(y).last() == y);
        }
        // Without them the two sequences still list every class alike.
        assert forall|v: T| #[trigger]
            shorter_a.filter(class_of(v)) == shorter_b.filter(class_of(v)) by {
            let kept_a = shorter_a.filter(class_of(v));
            let kept_b = shorter_b.filter(class_of(v));
            shorter_a.lemma_filter_push(x, class_of(v));
            shorter_b.lemma_filter_push(y, class_of(v));
            if equivalent(x, v) {
                assert(kept_a =~= kept_a.push(x).drop_last());
                assert(kept_b =~= kept_b.push(y).drop_last());
            }
        }
        lemma_sorted_fixed_by_classes(shorter_a, shorter_b);
    }
}

/// Under a total order the class of `v` is listed as `v` itself, as often as
/// the sequence holds it.
proof fn lemma_class_of_single_value<T: PartialOrd>(s: Seq<T>, v: T)
    requires
        total_order::<T>(),
    ensures
        s.filter(class_of(v)) == Seq::new(s.to_multiset().count(v), |i: int| v),
    decreases s.len(),
{
    if s.len() == 0 {
        to_multiset_contains(s, v);
    } else {
        let rest = s.drop_last();
        let z = s.last();
        assert(s =~= rest.push(z));
        lemma_class_of_single_value(rest, v);
        rest.lemma_filter_push(z, class_of(v));
        to_multiset_build(rest, z);
    }
}

/// Under a total order two sequences that hold the same values equally often
/// list every class alike.
pub proof fn lemma_same_values_keep_ties<T: PartialOrd>(a: Seq<T>, b: Seq<T>)
    requires
        total_order::<T>(),
        a.to_multiset() == b.to_multiset(),
    ensures
        ties_keep_order(a, b),
{
    assert forall|v: T| #[trigger] a.filter(class_of(v)) == b.filter(class_of(v)) by {
        lemma_class_of_single_value(a, v);
        lemma_class_of_single_value(b, v);
    }
}

/// Under a total order a sequence has one sorted rearrangement: two sorted
/// sequences that hold the same values equally often are the same sequence.
pub proof fn lemma_sorted_fixed_by_values<T: PartialOrd>(a: Seq<T>, b: Seq<T>)
    requires
        total_order::<T>(),
        sorted(a),
        sorted(b),
        a.to_multiset() == b.to_multiset(),
    ensures
        a == b,
{
    lemma_same_values_keep_ties(a, b);
    lemma_sorted_fixed_by_classes(a, b);
}

/// Sequences that hold the same values equally often hold the same values:
/// none is added and none is lost.
pub proof fn lemma_same_members<T>(a: Seq<T>, b: Seq<T>, v: T)
    requires
        a.to_multiset() == b.to_multiset(),
    ensures
        a.contains(v) <==> b.contains(v),
        a.to_multiset().count(v) == b.to_multiset().count(v),
{
    to_multiset_contains(a, v);
    to_multiset_contains(b, v);
}

} // verus!

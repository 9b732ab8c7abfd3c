//! The order that the element type's comparison defines, as seen by contracts.

use std::cmp::Ordering;
use vstd::prelude::*;
use vstd::std_specs::cmp::PartialOrdSpec;

verus! {

/// `a` comes before `b` or ranks together with it: what `a <= b` computes.
pub open spec fn le<T: PartialOrd>(a: T, b: T) -> bool {
    a.partial_cmp_spec(&b) == Some(Ordering::Less) || a.partial_cmp_spec(&b) == Some(
        Ordering::Equal,
    )
}

/// `a` and `b` rank together: neither comes strictly before the other.
///
/// Equivalent values need not be identical. A type may compare by a key and
/// carry more data beside it.
pub open spec fn equivalent<T: PartialOrd>(a: T, b: T) -> bool {
    le(a, b) && le(b, a)
}

/// The comparison of `T` ranks all values in one line.
///
/// Executable comparisons agree with [`le`], any two values are comparable,
/// and the comparison is transitive. Antisymmetry is not asked for, so this
/// is a total order on the classes of [`equivalent`] values.
pub open spec fn total_preorder<T: PartialOrd>() -> bool {
    &&& T::obeys_partial_cmp_spec()
    &&& forall|a: T, b: T| #[trigger] le(a, b) || le(b, a)
    &&& forall|a: T, b: T, c: T| #[trigger] le(a, b) && #[trigger] le(b, c) ==> le(a, c)
}

/// The comparison of `T` is a total order: a total preorder in which only
/// identical values rank together.
pub open spec fn total_order<T: PartialOrd>() -> bool {
    &&& total_preorder::<T>()
    &&& forall|a: T, b: T| #[trigger] equivalent(a, b) ==> a == b
}

/// Any value ranks together with itself.
pub proof fn lemma_le_reflexive<T: PartialOrd>(a: T)
    requires
        total_preorder::<T>(),
    ensures
        le(a, a),
        equivalent(a, a),
{
}

} // verus!

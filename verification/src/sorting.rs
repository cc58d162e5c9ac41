//! Sorting through the `lazysort` crate.
use vstd::prelude::*;
use core::cmp::Ordering;
#[allow(unused_imports)]
use lazysort::SortedBy;

verus! {

broadcast use vstd::seq_lib::group_to_multiset_ensures;

/// The order in which `lazysort` yields the given items when it compares
/// them by their first two components: a name for the result of its
/// quicksort, which decides among items with equal keys.
pub uninterp spec fn lazysorted(items: Seq<(i64, i64, usize)>) -> Seq<(i64, i64, usize)>;

/// `a` comes no later than `b` in the order of the first two components.
pub open spec fn key_le(a: (i64, i64, usize), b: (i64, i64, usize)) -> bool {
    a.0 < b.0 || (a.0 == b.0 && a.1 <= b.1)
}

/// The items are in increasing order of their first two components.
pub open spec fn sorted_by_key(s: Seq<(i64, i64, usize)>) -> bool {
    forall|i: int, j: int| 0 <= i < j < s.len() ==> key_le(#[trigger] s[i], #[trigger] s[j])
}

/// Compares two items by their first two components.
pub fn compare_keys(a: &(i64, i64, usize), b: &(i64, i64, usize)) -> (o: Ordering)
    ensures
        (o == Ordering::Less) <==> key_le(*a, *b) && !key_le(*b, *a),
        (o == Ordering::Equal) <==> key_le(*a, *b) && key_le(*b, *a),
        (o == Ordering::Greater) <==> !key_le(*a, *b),
{
    if a.0 < b.0 {
        Ordering::Less
    } else if a.0 > b.0 {
        Ordering::Greater
    } else if a.1 < b.1 {
        Ordering::Less
    } else if a.1 > b.1 {
        Ordering::Greater
    } else {
        Ordering::Equal
    }
}

/// The items in increasing order of their first two components.
///
/// Calls `lazysort::SortedBy::sorted_by` with `compare_keys` and collects
/// the iterator. The crate documents that it yields the same data ordered
/// by the comparison: the contract states that the result is a permutation
/// of the items in that order, and names the order among equal keys, which
/// its quicksort decides.
#[verifier::external_body]
pub(crate) fn sort_by_key(items: Vec<(i64, i64, usize)>) -> (r: Vec<(i64, i64, usize)>)
    ensures
        r@ == lazysorted(items@),
        r@.to_multiset() == items@.to_multiset(),
        sorted_by_key(r@),
{
    items.into_iter().sorted_by(|a, b| compare_keys(a, b)).collect()
}

} // verus!

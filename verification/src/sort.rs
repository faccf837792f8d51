//! Sorting a sequence in the humane order.

use crate::order::{humane_order, HumaneOrder};
use core::cmp::Ordering;
use vstd::prelude::*;

verus! {

/// `p` says where each item of `sorted` stood in `before`: it names every
/// old place once, the items are in ascending humane order, and items that
/// compare equal have kept the order they had.
pub open spec fn stable_sorting_by(
    before: Seq<Seq<char>>,
    sorted: Seq<Seq<char>>,
    p: Seq<int>,
) -> bool {
    &&& p.len() == before.len()
    &&& p.len() == sorted.len()
    &&& forall|i: int|
        0 <= i < p.len() ==> 0 <= #[trigger] p[i] < before.len() && sorted[i] == before[p[i]]
    &&& forall|i: int, j: int| 0 <= i < j < p.len() ==> #[trigger] p[i] != #[trigger] p[j]
    &&& forall|i: int, j: int|
        0 <= i < j < p.len() ==> humane_order(#[trigger] sorted[i], #[trigger] sorted[j])
            != Ordering::Greater
    &&& forall|i: int, j: int|
        0 <= i < j < p.len() && humane_order(sorted[i], sorted[j]) == Ordering::Equal
            ==> #[trigger] p[i] < #[trigger] p[j]
}

/// `sorted` is `before` put into ascending humane order, items that compare
/// equal left in the order they had.
pub open spec fn is_stable_sort_of(before: Seq<Seq<char>>, sorted: Seq<Seq<char>>) -> bool {
    exists|p: Seq<int>| stable_sorting_by(before, sorted, p)
}

/// The texts of the items of a sequence, in order.
pub open spec fn text_of_each<T: HumaneOrder>(items: Seq<T>) -> Seq<Seq<char>> {
    Seq::new(items.len(), |i: int| items[i].text())
}

/// Calls `sort_by` of the standard library's slices with `humane_cmp` as the
/// comparison.
///
/// Trusted: the standard library documents `sort_by` as a stable sort by the
/// given comparison, which here is a total preorder. So afterwards the slice
/// holds the items it held, in ascending order, and items that compare equal
/// have not passed each other.
#[verifier::external_body]
fn sort_slice<T: HumaneOrder>(items: &mut [T])
    ensures
        is_stable_sort_of(text_of_each(old(items)@), text_of_each(final(items)@)),
        final(items)@.to_multiset() == old(items)@.to_multiset(),
{
    items.sort_by(|a, b| a.humane_cmp(b))
}

/// Sequences that can be sorted in the humane order.
pub trait HumaneSortable {
    /// The texts of the items, in order.
    spec fn item_texts(&self) -> Seq<Seq<char>>;

    /// Sorts the sequence in place: ascending in the humane order, items
    /// that compare equal left in the order they had.
    fn humane_sort(&mut self)
        ensures
            is_stable_sort_of(old(self).item_texts(), final(self).item_texts()),
    ;
}

impl<T: HumaneOrder> HumaneSortable for [T] {
    open spec fn item_texts(&self) -> Seq<Seq<char>> {
        text_of_each(self@)
    }

    fn humane_sort(&mut self)
        ensures
            final(self)@.to_multiset() == old(self)@.to_multiset(),
    {
        sort_slice(self)
    }
}

} // verus!

//! Ascending order of a level's elements.

use vstd::prelude::*;
use vstd::relations::{sorted_by, total_ordering};
use vstd::seq_lib::lemma_sorted_unique;
use crate::compactor::Element;
use crate::estimated_quantiles::{sort_key, QuantileElement};

verus! {

/// The order of the elements: smaller values first.
pub open spec fn at_most() -> spec_fn(Element, Element) -> bool {
    |a: Element, b: Element| a <= b
}

/// The elements of `values` in ascending order.
pub open spec fn ascending(values: Seq<Element>) -> Seq<Element> {
    values.sort_by(at_most())
}

/// `ascending` rearranges its argument, and what it returns is in order.
pub proof fn lemma_ascending(values: Seq<Element>)
    ensures
        ascending(values).to_multiset() == values.to_multiset(),
        ascending(values).len() == values.len(),
        forall|i: int, j: int|
            0 <= i <= j < values.len() ==> ascending(values)[i] <= ascending(values)[j],
{
    assert(total_ordering(at_most()));
    values.lemma_sort_by_ensures(at_most());
    values.to_multiset_ensures();
    ascending(values).to_multiset_ensures();
    assert forall|i: int, j: int| 0 <= i <= j < values.len() implies ascending(values)[i]
        <= ascending(values)[j] by {
        if i < j {
            assert(at_most()(ascending(values)[i], ascending(values)[j]));
        }
    }
}

/// An ordered rearrangement of `values` is `ascending(values)`: there is
/// only one.
pub proof fn lemma_ascending_unique(values: Seq<Element>, ordered: Seq<Element>)
    requires
        ordered.to_multiset() == values.to_multiset(),
        forall|i: int, j: int| 0 <= i <= j < ordered.len() ==> ordered[i] <= ordered[j],
    ensures
        ordered == ascending(values),
{
    assert(total_ordering(at_most()));
    values.lemma_sort_by_ensures(at_most());
    assert(sorted_by(ordered, at_most()));
    lemma_sorted_unique(ordered, ascending(values), at_most());
}

/// Sorts with `sort` of std's slices, which leaves the same elements in
/// ascending order.
#[verifier::external_body]
fn sort_elements(values: &mut Vec<Element>)
    ensures
        final(values)@.to_multiset() == old(values)@.to_multiset(),
        forall|i: int, j: int|
            0 <= i <= j < final(values)@.len() ==> final(values)@[i] <= final(values)@[j],
{
    values.sort();
}

/// The entries stand in ascending order of value, those of equal value in
/// ascending order of weight.
pub open spec fn in_key_order(entries: Seq<QuantileElement>) -> bool {
    forall|i: int, j: int|
        0 <= i <= j < entries.len() ==> entries[i].element < entries[j].element || (
        entries[i].element == entries[j].element && entries[i].weight <= entries[j].weight)
}

/// Sorts with `sort_by_key` of std's slices, by the value and then the
/// weight of an entry, which leaves the same entries in ascending order of
/// that key.
#[verifier::external_body]
pub(crate) fn sort_entries(entries: &mut Vec<QuantileElement>)
    ensures
        final(entries)@.to_multiset() == old(entries)@.to_multiset(),
        in_key_order(final(entries)@),
{
    entries.sort_by_key(|entry| sort_key(entry));
}

/// Puts a buffer in ascending order.
pub fn sort_ascending(values: &mut Vec<Element>)
    ensures
        final(values)@ == ascending(old(values)@),
        final(values)@.to_multiset() == old(values)@.to_multiset(),
        forall|i: int, j: int|
            0 <= i <= j < final(values)@.len() ==> final(values)@[i] <= final(values)@[j],
{
    let ghost before = values@;
    sort_elements(values);
    proof {
        lemma_ascending_unique(before, values@);
    }
}

} // verus!

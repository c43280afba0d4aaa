//! Sums of sequences of natural numbers.

use vstd::prelude::*;

verus! {

/// The sum of all entries of `values`.
pub open spec fn total(values: Seq<nat>) -> nat
    decreases values.len(),
{
    if values.len() == 0 {
        0
    } else {
        total(values.drop_last()) + values.last()
    }
}

/// Appending an entry adds it to the sum.
pub proof fn lemma_total_push(values: Seq<nat>, value: nat)
    ensures
        total(values.push(value)) == total(values) + value,
{
    assert(values.push(value).drop_last() =~= values);
}

/// The sum of a concatenation is the sum of the sums.
pub proof fn lemma_total_add(front: Seq<nat>, back: Seq<nat>)
    ensures
        total(front + back) == total(front) + total(back),
    decreases back.len(),
{
    if back.len() == 0 {
        assert(front + back =~= front);
    } else {
        lemma_total_add(front, back.drop_last());
        assert((front + back).drop_last() =~= front + back.drop_last());
    }
}

/// Replacing one entry changes the sum by the difference of the two.
pub proof fn lemma_total_update(values: Seq<nat>, index: int, value: nat)
    requires
        0 <= index < values.len(),
    ensures
        total(values.update(index, value)) + values[index] == total(values) + value,
    decreases values.len(),
{
    if index == values.len() - 1 {
        assert(values.update(index, value).drop_last() =~= values.drop_last());
    } else {
        lemma_total_update(values.drop_last(), index, value);
        assert(values.update(index, value).drop_last() =~= values.drop_last().update(
            index,
            value,
        ));
    }
}

/// Entry by entry strictly smaller, on at least one entry, means strictly
/// smaller in sum.
pub proof fn lemma_total_strictly_below(smaller: Seq<nat>, larger: Seq<nat>)
    requires
        smaller.len() == larger.len(),
        smaller.len() >= 1,
        forall|i: int| 0 <= i < smaller.len() ==> smaller[i] < larger[i],
    ensures
        total(smaller) < total(larger),
    decreases smaller.len(),
{
    if smaller.len() > 1 {
        lemma_total_strictly_below(smaller.drop_last(), larger.drop_last());
    } else {
        assert(total(smaller.drop_last()) == 0);
        assert(total(larger.drop_last()) == 0);
    }
}

/// No entry is larger than the sum.
pub proof fn lemma_total_covers(values: Seq<nat>, index: int)
    requires
        0 <= index < values.len(),
    ensures
        values[index] <= total(values),
    decreases values.len(),
{
    if index < values.len() - 1 {
        lemma_total_covers(values.drop_last(), index);
    }
}

/// A sum of zeros is zero.
pub proof fn lemma_total_of_zeros(values: Seq<nat>)
    requires
        forall|i: int| 0 <= i < values.len() ==> values[i] == 0,
    ensures
        total(values) == 0,
    decreases values.len(),
{
    if values.len() > 0 {
        lemma_total_of_zeros(values.drop_last());
    }
}

} // verus!

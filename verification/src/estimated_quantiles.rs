//! The weighted summary: what a sketch is finalized into.

use vstd::multiset::Multiset;
use vstd::prelude::*;
use vstd::relations::{sorted_by, total_ordering};
use vstd::seq_lib::{lemma_fold_left_permutation, lemma_sorted_unique};
use crate::capacity::{lemma_power_positive, power};
use crate::compactor::{levels_view, Compactor, Element, LevelView};
use crate::compactors::Compactors;
use crate::sorting::{in_key_order, sort_entries};

verus! {

/// One entry of a summary: a value and the number of ingested values that it
/// stands for.
#[derive(Clone, Copy, Debug, PartialEq, Eq)]
pub struct QuantileElement {
    pub weight: usize,
    pub element: Element,
}

/// A finalized sketch: its values, each with its weight, ascending by value.
/// Equal values stand in ascending order of weight.
#[derive(Debug)]
pub struct EstimatedQuantiles {
    pub elements: Vec<QuantileElement>,
}

/// The weights of a sketch do not fit the weight type: taken together they
/// exceed `usize::MAX`.
#[derive(Clone, Copy, Debug, PartialEq, Eq)]
pub struct WeightOverflow;

/// The elements of one level, each with the weight of that level.
pub open spec fn weighted(data: Seq<Element>, weight: nat) -> Seq<QuantileElement> {
    Seq::new(data.len(), |i: int| QuantileElement { weight: weight as usize, element: data[i] })
}

/// The elements of all levels, lowest level first, an element of level `i`
/// with weight `2^i`.
pub open spec fn weighted_levels(levels: Seq<LevelView>) -> Seq<QuantileElement>
    decreases levels.len(),
{
    if levels.len() == 0 {
        Seq::empty()
    } else {
        weighted_levels(levels.drop_last()) + weighted(
            levels.last().data,
            power(2, (levels.len() - 1) as nat),
        )
    }
}

/// The number of ingested values that the levels stand for: `2^i` for every
/// element of level `i`.
pub open spec fn weighted_size(levels: Seq<LevelView>) -> nat
    decreases levels.len(),
{
    if levels.len() == 0 {
        0
    } else {
        weighted_size(levels.drop_last()) + levels.last().data.len() * power(
            2,
            (levels.len() - 1) as nat,
        )
    }
}

/// The sum of the weights of `entries`.
pub open spec fn total_weight(entries: Seq<QuantileElement>) -> nat
    decreases entries.len(),
{
    if entries.len() == 0 {
        0
    } else {
        total_weight(entries.drop_last()) + entries.last().weight as nat
    }
}

/// The values of `entries`, each as often as it occurs, without their order
/// and weights.
pub open spec fn values(entries: Seq<QuantileElement>) -> Multiset<Element>
    decreases entries.len(),
{
    if entries.len() == 0 {
        Multiset::empty()
    } else {
        values(entries.drop_last()).insert(entries.last().element)
    }
}

/// The order of a summary: by value, and by weight among equal values.
pub open spec fn by_value() -> spec_fn(QuantileElement, QuantileElement) -> bool {
    |a: QuantileElement, b: QuantileElement|
        a.element < b.element || (a.element == b.element && a.weight <= b.weight)
}

/// What an entry is ordered by: its value, then its weight.
pub fn sort_key(entry: &QuantileElement) -> (key: (Element, usize))
    ensures
        key == (entry.element, entry.weight),
{
    (entry.element, entry.weight)
}

/// The summary of the given levels.
pub open spec fn summarized(levels: Seq<LevelView>) -> Seq<QuantileElement> {
    weighted_levels(levels).sort_by(by_value())
}

/// The sum of weights of a concatenation is the sum of the sums.
pub proof fn lemma_total_weight_add(front: Seq<QuantileElement>, back: Seq<QuantileElement>)
    ensures
        total_weight(front + back) == total_weight(front) + total_weight(back),
    decreases back.len(),
{
    if back.len() == 0 {
        assert(front + back =~= front);
    } else {
        lemma_total_weight_add(front, back.drop_last());
        assert((front + back).drop_last() =~= front + back.drop_last());
    }
}

/// The values of a concatenation are those of both parts.
pub proof fn lemma_values_add(front: Seq<QuantileElement>, back: Seq<QuantileElement>)
    ensures
        values(front + back) == values(front).add(values(back)),
    decreases back.len(),
{
    if back.len() == 0 {
        assert(front + back =~= front);
        assert(values(front).add(values(back)) =~= values(front));
    } else {
        lemma_values_add(front, back.drop_last());
        assert((front + back).drop_last() =~= front + back.drop_last());
        assert(values(front + back) =~= values(front).add(values(back)));
    }
}

/// The values of one level's entries are the level's elements.
pub proof fn lemma_values_weighted(data: Seq<Element>, weight: nat)
    ensures
        values(weighted(data, weight)) == data.to_multiset(),
    decreases data.len(),
{
    broadcast use vstd::seq_lib::group_to_multiset_ensures;

    if data.len() == 0 {
        assert(data.to_multiset() =~= Multiset::empty());
    } else {
        lemma_values_weighted(data.drop_last(), weight);
        assert(weighted(data, weight).drop_last() =~= weighted(data.drop_last(), weight));
        assert(data =~= data.drop_last().push(data.last()));
    }
}

/// A level of `n` elements under a weight that fits weighs `n` times that
/// weight.
pub proof fn lemma_total_weight_weighted(data: Seq<Element>, weight: nat)
    requires
        weight <= usize::MAX,
    ensures
        total_weight(weighted(data, weight)) == data.len() * weight,
    decreases data.len(),
{
    if data.len() == 0 {
        assert(data.len() * weight == 0) by (nonlinear_arith)
            requires
                data.len() == 0,
        ;
    } else {
        lemma_total_weight_weighted(data.drop_last(), weight);
        assert(weighted(data, weight).drop_last() =~= weighted(data.drop_last(), weight));
        assert((data.len() - 1) * weight + weight == data.len() * weight) by (nonlinear_arith);
    }
}

/// Rearranging entries changes neither the sum of their weights nor their
/// values.
pub proof fn lemma_rearranged(first: Seq<QuantileElement>, second: Seq<QuantileElement>)
    requires
        first.to_multiset() == second.to_multiset(),
    ensures
        total_weight(first) == total_weight(second),
        values(first) == values(second),
{
    let add_weight = |sum: nat, entry: QuantileElement| (sum + entry.weight) as nat;
    let add_value = |seen: Multiset<Element>, entry: QuantileElement| seen.insert(entry.element);
    lemma_total_weight_is_fold(first);
    lemma_total_weight_is_fold(second);
    lemma_values_is_fold(first);
    lemma_values_is_fold(second);
    lemma_fold_left_permutation(first, second, add_weight, 0nat);
    assert forall|x: QuantileElement, y: QuantileElement, seen: Multiset<Element>|
        #[trigger] add_value(add_value(seen, x), y) == add_value(add_value(seen, y), x) by {
        assert(seen.insert(x.element).insert(y.element) =~= seen.insert(y.element).insert(
            x.element,
        ));
    }
    lemma_fold_left_permutation(first, second, add_value, Multiset::<Element>::empty());
}

proof fn lemma_total_weight_is_fold(entries: Seq<QuantileElement>)
    ensures
        total_weight(entries) == entries.fold_left(
            0nat,
            |sum: nat, entry: QuantileElement| (sum + entry.weight) as nat,
        ),
    decreases entries.len(),
{
    if entries.len() > 0 {
        lemma_total_weight_is_fold(entries.drop_last());
    }
}

proof fn lemma_values_is_fold(entries: Seq<QuantileElement>)
    ensures
        values(entries) == entries.fold_left(
            Multiset::<Element>::empty(),
            |seen: Multiset<Element>, entry: QuantileElement| seen.insert(entry.element),
        ),
    decreases entries.len(),
{
    if entries.len() > 0 {
        lemma_values_is_fold(entries.drop_last());
    }
}

/// The levels below a given one weigh no more than all levels.
pub proof fn lemma_weighted_size_prefix(levels: Seq<LevelView>, count: int)
    requires
        0 <= count <= levels.len(),
    ensures
        weighted_size(levels.take(count)) <= weighted_size(levels),
    decreases levels.len() - count,
{
    if count == levels.len() {
        assert(levels.take(count) =~= levels);
    } else {
        lemma_weighted_size_prefix(levels, count + 1);
        assert(levels.take(count + 1).drop_last() =~= levels.take(count));
    }
}

/// Where the weights of all levels together fit the weight type, the entries
/// of the levels weigh what the levels weigh.
pub proof fn lemma_weighted_levels_weight(levels: Seq<LevelView>)
    requires
        weighted_size(levels) <= usize::MAX,
    ensures
        total_weight(weighted_levels(levels)) == weighted_size(levels),
    decreases levels.len(),
{
    if levels.len() > 0 {
        let weight = power(2, (levels.len() - 1) as nat);
        let data = levels.last().data;
        lemma_weighted_levels_weight(levels.drop_last());
        lemma_total_weight_add(weighted_levels(levels.drop_last()), weighted(data, weight));
        if data.len() == 0 {
            assert(weighted(data, weight) =~= Seq::empty());
            assert(data.len() * weight == 0) by (nonlinear_arith)
                requires
                    data.len() == 0,
            ;
        } else {
            assert(weight <= data.len() * weight) by (nonlinear_arith)
                requires
                    data.len() >= 1,
            ;
            lemma_total_weight_weighted(data, weight);
        }
    }
}

/// The summary of levels whose weights fit weighs what the levels weigh, and
/// holds the elements of all levels.
pub proof fn lemma_summarized(levels: Seq<LevelView>)
    ensures
        summarized(levels).to_multiset() == weighted_levels(levels).to_multiset(),
        summarized(levels).len() == weighted_levels(levels).len(),
        values(summarized(levels)) == values(weighted_levels(levels)),
        weighted_size(levels) <= usize::MAX ==> total_weight(summarized(levels)) == weighted_size(
            levels,
        ),
        sorted_by(summarized(levels), by_value()),
{
    lemma_by_value_total();
    weighted_levels(levels).lemma_sort_by_ensures(by_value());
    lemma_rearranged(summarized(levels), weighted_levels(levels));
    summarized(levels).to_multiset_ensures();
    weighted_levels(levels).to_multiset_ensures();
    if weighted_size(levels) <= usize::MAX {
        lemma_weighted_levels_weight(levels);
    }
}

/// The sum of the weights of `entries`, if it fits `usize`.
pub fn checked_weight(entries: &Vec<QuantileElement>) -> (weight: Option<usize>)
    ensures
        weight is Some <==> total_weight(entries@) <= usize::MAX,
        weight matches Some(sum) ==> sum == total_weight(entries@),
{
    let mut sum: usize = 0;
    let mut index: usize = 0;
    while index < entries.len()
        invariant
            index <= entries.len(),
            sum == total_weight(entries@.take(index as int)),
        decreases entries.len() - index,
    {
        proof {
            let all = entries@;
            assert(all.take(index + 1).drop_last() =~= all.take(index as int));
            assert(all =~= all.take(index + 1) + all.skip(index + 1));
            lemma_total_weight_add(all.take(index + 1), all.skip(index + 1));
        }
        if usize::MAX - sum < entries[index].weight {
            return None;
        }
        sum = sum + entries[index].weight;
        index += 1;
    }
    assert(entries@.take(index as int) =~= entries@);
    Some(sum)
}

impl EstimatedQuantiles {
    /// The summaries whose weights can be added up: their sum fits `usize`.
    pub open spec fn wf(&self) -> bool {
        total_weight(self.elements@) <= usize::MAX
    }

    /// Finalizes a sketch. Every element of level `i` becomes an entry of
    /// weight `2^i`, and the entries are put in ascending order of value.
    /// Fails where the weights taken together do not fit `usize`.
    pub fn from(compactors: Compactors) -> (summary: Result<Self, WeightOverflow>)
        ensures
            summary is Ok <==> weighted_size(compactors@.levels) <= usize::MAX,
            summary matches Ok(quantiles) ==> {
                &&& quantiles.elements@ == summarized(compactors@.levels)
                &&& quantiles.elements@.to_multiset() == weighted_levels(
                    compactors@.levels,
                ).to_multiset()
                &&& in_key_order(quantiles.elements@)
                &&& total_weight(quantiles.elements@) == weighted_size(compactors@.levels)
                &&& quantiles.wf()
            },
    {
        Self::from_levels(compactors.into())
    }

    /// The summary of the given levels, lowest first: every element of the
    /// level at index `i` becomes an entry of weight `2^i`, and the entries
    /// are put in ascending order of value. Fails where the weights taken
    /// together do not fit `usize`.
    pub fn from_levels(levels: Vec<Compactor>) -> (summary: Result<Self, WeightOverflow>)
        ensures
            summary is Ok <==> weighted_size(levels_view(levels@)) <= usize::MAX,
            summary matches Ok(quantiles) ==> {
                &&& quantiles.elements@ == summarized(levels_view(levels@))
                &&& quantiles.elements@.to_multiset() == weighted_levels(
                    levels_view(levels@),
                ).to_multiset()
                &&& in_key_order(quantiles.elements@)
                &&& total_weight(quantiles.elements@) == weighted_size(levels_view(levels@))
                &&& quantiles.wf()
            },
    {
        let ghost all = levels_view(levels@);
        let mut elements: Vec<QuantileElement> = Vec::new();
        let mut sum: usize = 0;
        let mut weight: usize = 1;
        let mut fits: bool = true;
        let mut level: usize = 0;
        while level < levels.len()
            invariant
                level <= levels.len(),
                all == levels_view(levels@),
                elements@ == weighted_levels(all.take(level as int)),
                sum == weighted_size(all.take(level as int)),
                fits ==> weight == power(2, level as nat),
                !fits ==> power(2, level as nat) > usize::MAX,
            decreases levels.len() - level,
        {
            let ghost exact = power(2, level as nat);
            let ghost below = all.take(level as int);
            let ghost data = all[level as int].data;
            proof {
                assert(all.take(level + 1).drop_last() =~= below);
                assert(all.take(level + 1).last() == all[level as int]);
                lemma_weighted_size_prefix(all, level + 1);
                lemma_power_positive(2, level as nat);
            }
            let mut index: usize = 0;
            while index < levels[level].data.len()
                invariant
                    level < levels.len(),
                        all == levels_view(levels@),
                    data == all[level as int].data,
                    data == levels@[level as int].data@,
                    index <= data.len(),
                    exact == power(2, level as nat),
                    exact > 0,
                    fits ==> weight == exact,
                    !fits ==> exact > usize::MAX,
                    elements@ == weighted_levels(below) + weighted(data.take(index as int), exact),
                    sum == weighted_size(below) + index * exact,
                    weighted_size(below) + data.len() * exact <= weighted_size(all),
                decreases data.len() - index,
            {
                proof {
                    assert((index + 1) * exact <= data.len() * exact) by (nonlinear_arith)
                        requires
                            index < data.len(),
                            exact > 0,
                    ;
                    assert((index + 1) * exact == index * exact + exact) by (nonlinear_arith);
                    assert(index * exact >= 0) by (nonlinear_arith);
                }
                if !fits || usize::MAX - sum < weight {
                    return Err(WeightOverflow);
                }
                sum = sum + weight;
                elements.push(QuantileElement { weight, element: levels[level].data[index] });
                index += 1;
                assert(elements@ =~= weighted_levels(below) + weighted(
                    data.take(index as int),
                    exact,
                ));
            }
            proof {
                assert(data.take(index as int) =~= data);
            }
            if fits && weight <= usize::MAX / 2 {
                weight = weight * 2;
            } else {
                fits = false;
            }
            level += 1;
        }
        proof {
            assert(all.take(level as int) =~= all);
            lemma_summarized(all);
            lemma_by_value_total();
        }
        sort_entries(&mut elements);
        proof {
            assert(sorted_by(elements@, by_value()));
            lemma_sorted_unique(elements@, summarized(all), by_value());
        }
        Ok(EstimatedQuantiles { elements })
    }

    /// Whether the weights can be added up.
    pub fn is_wf(&self) -> (ok: bool)
        ensures
            ok == self.wf(),
    {
        checked_weight(&self.elements).is_some()
    }

    /// The sum of all weights: an estimate of the number of values that were
    /// ingested.
    pub fn estimated_element_count(&self) -> (count: usize)
        requires
            self.wf(),
        ensures
            count == total_weight(self.elements@),
    {
        let mut count: usize = 0;
        let mut index: usize = 0;
        while index < self.elements.len()
            invariant
                index <= self.elements.len(),
                count == total_weight(self.elements@.take(index as int)),
                total_weight(self.elements@) <= usize::MAX,
            decreases self.elements.len() - index,
        {
            proof {
                let entries = self.elements@;
                assert(entries.take(index + 1).drop_last() =~= entries.take(index as int));
                assert(entries =~= entries.take(index + 1) + entries.skip(index + 1));
                lemma_total_weight_add(entries.take(index + 1), entries.skip(index + 1));
            }
            count = count + self.elements[index].weight;
            index += 1;
        }
        assert(self.elements@.take(index as int) =~= self.elements@);
        count
    }
}

/// The order of a summary is a total order.
pub proof fn lemma_by_value_total()
    ensures
        total_ordering(by_value()),
{
}

} // verus!

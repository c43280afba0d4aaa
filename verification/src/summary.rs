//! What a summary tells about the values that went into its sketch.

use vstd::multiset::Multiset;
use vstd::prelude::*;
use vstd::seq_lib::lemma_multiset_commutative;
use crate::capacity::power;
use crate::compactor::{Element, LevelView};
use crate::estimated_quantiles::{
    lemma_summarized,
    lemma_values_add,
    lemma_values_weighted,
    summarized,
    total_weight,
    values,
    weighted,
    weighted_levels,
    weighted_size,
    QuantileElement,
};
use crate::invariants::{lemma_refactored, lemma_scanned_keeps};
use crate::model::{joined_levels, Policy, SketchView};

verus! {

/// The elements that the levels hold, each as often as it occurs.
pub open spec fn elements_of(levels: Seq<LevelView>) -> Multiset<Element>
    decreases levels.len(),
{
    if levels.len() == 0 {
        Multiset::empty()
    } else {
        elements_of(levels.drop_last()).add(levels.last().data.to_multiset())
    }
}

/// The values of the entries of the levels are the elements of the levels.
pub proof fn lemma_values_of_levels(levels: Seq<LevelView>)
    ensures
        values(weighted_levels(levels)) == elements_of(levels),
    decreases levels.len(),
{
    if levels.len() > 0 {
        let weight = power(2, (levels.len() - 1) as nat);
        lemma_values_of_levels(levels.drop_last());
        lemma_values_add(
            weighted_levels(levels.drop_last()),
            weighted(levels.last().data, weight),
        );
        lemma_values_weighted(levels.last().data, weight);
    }
}

/// There are as many values as entries.
pub proof fn lemma_values_len(entries: Seq<QuantileElement>)
    ensures
        values(entries).len() == entries.len(),
    decreases entries.len(),
{
    if entries.len() > 0 {
        lemma_values_len(entries.drop_last());
    }
}

/// Joined levels hold the elements of both sides.
pub proof fn lemma_elements_of_joined(first: Seq<LevelView>, second: Seq<LevelView>)
    ensures
        elements_of(joined_levels(first, second)) == elements_of(first).add(elements_of(second)),
    decreases first.len() + second.len(),
{
    let joined = joined_levels(first, second);
    if joined.len() == 0 {
        assert(elements_of(first).add(elements_of(second)) =~= Multiset::empty());
    } else {
        let shorter_first = if first.len() == joined.len() {
            first.drop_last()
        } else {
            first
        };
        let shorter_second = if second.len() == joined.len() {
            second.drop_last()
        } else {
            second
        };
        assert(joined.drop_last() =~= joined_levels(shorter_first, shorter_second));
        lemma_elements_of_joined(shorter_first, shorter_second);
        if first.len() == joined.len() && second.len() == joined.len() {
            lemma_multiset_commutative(first.last().data, second.last().data);
        }
        assert(elements_of(joined) =~= elements_of(first).add(elements_of(second)));
    }
}

/// A pass from a settled state changes no level.
pub proof fn lemma_settled_pass(s: SketchView)
    requires
        s.wf(),
        s.settled(),
    ensures
        s.compacted().levels == s.levels,
{
    let counted = s.counted();
    match s.policy {
        Policy::Eager => {
            lemma_idle_scan(counted, 0);
        },
        Policy::Lazy => {},
    }
}

proof fn lemma_idle_scan(s: SketchView, level: nat)
    requires
        s.below_capacity(),
        level <= s.levels.len(),
    ensures
        s.scanned(level, s.levels.len()) == s,
    decreases s.levels.len() - level,
{
    if level < s.levels.len() {
        assert(!s.overflowing(level)) by {
            assert(s.levels[level as int].data.len() < s.levels[level as int].capacity);
        }
        lemma_idle_scan(s, level + 1);
    }
}

/// A sketch that still has one level after ingesting `elements` into a new
/// sketch has refactored nothing: its level holds `elements`, in order.
pub proof fn lemma_single_level_history(
    k: nat,
    policy: Policy,
    observed: bool,
    elements: Seq<Element>,
)
    requires
        1 <= k < usize::MAX,
        SketchView::initial(k, policy, observed).ingested_all(elements).levels.len() == 1,
    ensures
        SketchView::initial(k, policy, observed).ingested_all(elements).levels[0].data == elements,
    decreases elements.len(),
{
    let start = SketchView::initial(k, policy, observed);
    if elements.len() == 0 {
        assert(start.levels[0].data =~= elements);
    } else {
        let before = start.ingested_all(elements.drop_last());
        lemma_ingested_all_keeps(start, elements.drop_last());
        let fed = before.fed(elements.last()).counted();
        lemma_scanned_keeps(fed, 0, fed.levels.len());
        assert(fed.levels.len() == 1);
        lemma_single_level_history(k, policy, observed, elements.drop_last());
        assert(fed.examined(0).scanned(1, 1) == fed.examined(0));
        if fed.triggered() && fed.overflowing(0) {
            lemma_refactored(fed, 0);
            assert(fed.scanned(0, 1) == fed.refactored(0));
        }
        assert(fed.scanned(0, 1).levels == fed.levels);
        assert(elements =~= elements.drop_last().push(elements.last()));
    }
}

/// Ingesting values keeps a sketch well formed and removes no level.
pub proof fn lemma_ingested_all_keeps(s: SketchView, elements: Seq<Element>)
    requires
        s.wf(),
    ensures
        s.ingested_all(elements).wf(),
        s.ingested_all(elements).k == s.k,
        s.ingested_all(elements).policy == s.policy,
        s.ingested_all(elements).observed == s.observed,
        s.ingested_all(elements).compactions == s.compactions + elements.len(),
        s.ingested_all(elements).levels.len() >= s.levels.len(),
    decreases elements.len(),
{
    if elements.len() > 0 {
        lemma_ingested_all_keeps(s, elements.drop_last());
        let fed = s.ingested_all(elements.drop_last()).fed(elements.last()).counted();
        lemma_scanned_keeps(fed, 0, fed.levels.len());
    }
}

/// The summary of a sketch that has ingested `elements` and has refactored
/// nothing (it still has its one level) weighs exactly as many as were
/// ingested.
pub proof fn lemma_uncompacted_count_is_exact(
    k: nat,
    policy: Policy,
    observed: bool,
    elements: Seq<Element>,
)
    requires
        1 <= k < usize::MAX,
        SketchView::initial(k, policy, observed).ingested_all(elements).levels.len() == 1,
    ensures
        weighted_size(SketchView::initial(k, policy, observed).ingested_all(elements).levels)
            == elements.len(),
        elements.len() <= usize::MAX ==> total_weight(
            summarized(SketchView::initial(k, policy, observed).ingested_all(elements).levels),
        ) == elements.len(),
{
    let levels = SketchView::initial(k, policy, observed).ingested_all(elements).levels;
    lemma_single_level_history(k, policy, observed, elements);
    assert(levels.drop_last() =~= Seq::empty());
    assert(weighted_size(levels.drop_last()) == 0);
    assert(power(2, 0) == 1);
    assert(elements.len() * 1 == elements.len()) by (nonlinear_arith);
    lemma_summarized(levels);
}

/// Merging two sketches with the same size parameter, where the pass that
/// ends the merge finds the joined levels settled, gives a sketch whose
/// summary holds exactly the values of the summaries of the two: as many
/// entries, and every value as often.
pub proof fn lemma_settled_merge_keeps_values(first: SketchView, second: SketchView)
    requires
        first.wf(),
        second.wf(),
        first.k == second.k,
        first.joined(second).settled(),
    ensures
        values(summarized(first.merged(second).levels)) == values(summarized(first.levels)).add(
            values(summarized(second.levels)),
        ),
        summarized(first.merged(second).levels).len() == summarized(first.levels).len()
            + summarized(second.levels).len(),
{
    let joined = first.joined(second);
    lemma_settled_pass(joined);
    lemma_summarized(joined.levels);
    lemma_summarized(first.levels);
    lemma_summarized(second.levels);
    lemma_values_of_levels(joined.levels);
    lemma_values_of_levels(first.levels);
    lemma_values_of_levels(second.levels);
    lemma_elements_of_joined(first.levels, second.levels);
    lemma_values_len(summarized(joined.levels));
    lemma_values_len(summarized(first.levels));
    lemma_values_len(summarized(second.levels));
}

} // verus!

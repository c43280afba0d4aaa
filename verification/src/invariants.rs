//! What a compaction pass keeps true of a sketch.

use vstd::prelude::*;
use crate::capacity::{
    capacity_spec,
    lemma_capacity_by_depth,
    lemma_capacity_nondecreasing,
    lemma_capacity_range,
    lemma_top_level_capacity,
};
use crate::compactor::{Element, LevelView};
use crate::model::{capacities, joined_levels, retained, sizes, Policy, SketchView};
use crate::sorting::lemma_ascending;
use crate::sums::{
    lemma_total_add,
    lemma_total_push,
    lemma_total_strictly_below,
    lemma_total_update,
    total,
};

verus! {

/// How many elements of a buffer of the given length a refactoring moves up.
pub open spec fn kept_count(length: nat, keep_even: bool) -> nat {
    if keep_even {
        (length + 1) / 2
    } else {
        length / 2
    }
}

impl SketchView {
    /// Every capacity is what the formula gives for the present number of
    /// levels.
    pub open spec fn calibrated(self) -> bool {
        forall|i: int|
            0 <= i < self.levels.len() ==> #[trigger] self.levels[i].capacity == capacity_spec(
                self.k,
                self.levels.len(),
                i as nat,
            )
    }

    /// Every level holds fewer elements than its capacity.
    pub open spec fn below_capacity(self) -> bool {
        forall|i: int|
            0 <= i < self.levels.len() ==> (#[trigger] self.levels[i]).data.len()
                < self.levels[i].capacity
    }

    /// No level holds more elements than its capacity.
    pub open spec fn within_capacity(self) -> bool {
        forall|i: int|
            0 <= i < self.levels.len() ==> (#[trigger] self.levels[i]).data.len()
                <= self.levels[i].capacity
    }

    /// The sketch holds fewer elements than all capacities together allow.
    pub open spec fn below_total_capacity(self) -> bool {
        self.size() < self.total_capacity()
    }

    /// A pass from this state refactors nothing: under the eager policy no
    /// level has reached its capacity, under the lazy one the sketch is below
    /// its total capacity.
    pub open spec fn settled(self) -> bool {
        match self.policy {
            Policy::Eager => self.below_capacity(),
            Policy::Lazy => self.below_total_capacity(),
        }
    }
}

/// What refactoring a level does to the shape of a sketch.
pub proof fn lemma_refactored(s: SketchView, level: nat)
    requires
        level < s.levels.len(),
    ensures
        ({
            let r = s.refactored(level);
            let n = s.levels.len();
            let moved = kept_count(s.levels[level as int].data.len(), s.keeps_even());
            &&& r.k == s.k
            &&& r.compactions == s.compactions
            &&& r.policy == s.policy
            &&& r.observed == s.observed
            &&& r.levels.len() == if level + 1 < n {
                n
            } else {
                n + 1
            }
            &&& r.levels[level as int].data.len() == 0
            &&& r.levels[level as int + 1].data.len() == moved + if level + 1 < n {
                s.levels[level as int + 1].data.len()
            } else {
                0
            }
            &&& forall|i: int|
                0 <= i < n && i != level && i != level + 1 ==> (#[trigger] r.levels[i]).data
                    == s.levels[i].data
            &&& forall|i: int|
                0 <= i < r.levels.len() ==> (#[trigger] r.levels[i]).capacity == if level + 1
                    < n {
                    s.levels[i].capacity
                } else {
                    capacity_spec(s.k, n + 1, i as nat)
                }
            &&& r.size() + s.levels[level as int].data.len() == s.size() + moved
        }),
{
    let n = s.levels.len();
    let g = s.grown(level + 1);
    let sorted = g.sorted_at(level);
    let r = s.refactored(level);
    let length = s.levels[level as int].data.len();
    let moved = kept_count(length, s.keeps_even());
    lemma_ascending(s.levels[level as int].data);
    assert(sorted.levels[level as int].data.len() == length);
    assert(retained(sorted.levels[level as int].data, s.keeps_even()).len() == moved);
    // The number of elements held.
    if level + 1 < n {
        assert(sizes(g.levels) =~= sizes(s.levels));
    } else {
        assert(sizes(g.levels) =~= sizes(s.levels).push(0));
        lemma_total_push(sizes(s.levels), 0);
    }
    assert(sizes(sorted.levels) =~= sizes(g.levels));
    let cleared = sizes(sorted.levels).update(level as int, 0);
    let next = sorted.levels[level as int + 1].data.len();
    assert(sizes(r.levels) =~= cleared.update(level as int + 1, next + moved));
    lemma_total_update(sizes(sorted.levels), level as int, 0);
    lemma_total_update(cleared, level as int + 1, next + moved);
}

/// Refactoring a level of a calibrated sketch leaves it calibrated, and
/// lowers no capacity sum.
pub proof fn lemma_refactored_calibrated(s: SketchView, level: nat)
    requires
        level < s.levels.len(),
        s.calibrated(),
    ensures
        s.refactored(level).calibrated(),
        s.refactored(level).total_capacity() >= s.total_capacity(),
{
    let n = s.levels.len();
    let r = s.refactored(level);
    lemma_refactored(s, level);
    if level + 1 < n {
        assert(capacities(r.levels) =~= capacities(s.levels));
    } else {
        let lowest = seq![capacity_spec(s.k, n + 1, 0)];
        assert(capacities(r.levels) =~= lowest + capacities(s.levels)) by {
            assert forall|i: int| 0 <= i < n + 1 implies capacities(r.levels)[i] == (lowest
                + capacities(s.levels))[i] by {
                if i > 0 {
                    lemma_capacity_by_depth(s.k, n, (i - 1) as nat);
                    assert(s.levels[i - 1].capacity == capacity_spec(s.k, n, (i - 1) as nat));
                }
            }
        }
        lemma_total_add(lowest, capacities(s.levels));
    }
}

/// A pass keeps the size parameter, the policy, the pass count and the
/// observer of a sketch, and removes no level.
pub proof fn lemma_scanned_keeps(s: SketchView, level: nat, end: nat)
    requires
        s.wf(),
        end <= s.levels.len(),
    ensures
        s.scanned(level, end).wf(),
        s.scanned(level, end).k == s.k,
        s.scanned(level, end).policy == s.policy,
        s.scanned(level, end).compactions == s.compactions,
        s.scanned(level, end).observed == s.observed,
        s.scanned(level, end).levels.len() >= s.levels.len(),
    decreases end - level,
{
    if level < end && s.triggered() {
        if s.overflowing(level) {
            lemma_refactored(s, level);
        }
        lemma_scanned_keeps(s.examined(level), level + 1, end);
    }
}

/// Appending a value, and counting a pass, change no capacity.
pub proof fn lemma_fed_calibrated(s: SketchView, element: Element)
    requires
        s.wf(),
        s.calibrated(),
    ensures
        s.fed(element).calibrated(),
        s.fed(element).counted().calibrated(),
{
    let fed = s.fed(element);
    assert forall|i: int| 0 <= i < fed.levels.len() implies #[trigger] fed.levels[i].capacity
        == capacity_spec(fed.k, fed.levels.len(), i as nat) by {
        assert(fed.levels[i].capacity == s.levels[i].capacity);
    }
}

/// A pass leaves a calibrated sketch calibrated.
pub proof fn lemma_scanned_calibrated(s: SketchView, level: nat, end: nat)
    requires
        s.wf(),
        s.calibrated(),
        end <= s.levels.len(),
    ensures
        s.scanned(level, end).calibrated(),
    decreases end - level,
{
    if level < end && s.triggered() {
        if s.overflowing(level) {
            lemma_refactored(s, level);
            lemma_refactored_calibrated(s, level);
        }
        lemma_scanned_calibrated(s.examined(level), level + 1, end);
    }
}

/// An eager pass that adds no level ends with no level above its capacity,
/// whatever the levels held before.
pub proof fn lemma_eager_scan_without_growth(s: SketchView, level: nat)
    requires
        s.wf(),
        s.policy == Policy::Eager,
        level <= s.levels.len(),
        s.scanned(level, s.levels.len()).levels.len() == s.levels.len(),
        forall|i: int|
            0 <= i < level ==> (#[trigger] s.levels[i]).data.len() <= s.levels[i].capacity,
    ensures
        s.scanned(level, s.levels.len()).within_capacity(),
    decreases s.levels.len() - level,
{
    let n = s.levels.len();
    if level < n {
        let next = s.examined(level);
        if s.overflowing(level) {
            lemma_refactored(s, level);
            lemma_scanned_keeps(next, level + 1, n);
            assert forall|i: int| 0 <= i < level + 1 implies (#[trigger] next.levels[i]).data.len()
                <= next.levels[i].capacity by {
                if i < level {
                    assert(next.levels[i].data == s.levels[i].data);
                }
            }
        }
        lemma_eager_scan_without_growth(next, level + 1);
    }
}

/// Under the eager policy, an ingestion that adds no level leaves no level
/// above its capacity.
pub proof fn lemma_eager_ingest_without_growth(s: SketchView, element: Element)
    requires
        s.wf(),
        s.policy == Policy::Eager,
        s.ingested(element).levels.len() == s.levels.len(),
    ensures
        s.ingested(element).within_capacity(),
{
    lemma_eager_scan_without_growth(s.fed(element).counted(), 0);
}

/// The state of an eager pass that has come to `level` with no level added
/// so far, in a sketch that was below capacity before one element arrived:
/// every other level is below its capacity, and this one either is too, or
/// holds at most twice its capacity less two while all levels under it are
/// empty.
pub open spec fn cascading(s: SketchView, level: nat) -> bool {
    &&& s.wf()
    &&& s.policy == Policy::Eager
    &&& s.calibrated()
    &&& level <= s.levels.len()
    &&& forall|i: int|
        0 <= i < s.levels.len() && i != level ==> (#[trigger] s.levels[i]).data.len()
            < s.levels[i].capacity
    &&& level < s.levels.len() ==> {
        ||| s.levels[level as int].data.len() < s.levels[level as int].capacity
        ||| {
            &&& s.levels[level as int].data.len() + 2 <= 2 * s.levels[level as int].capacity
            &&& forall|i: int| 0 <= i < level ==> (#[trigger] s.levels[i]).data.len() == 0
        }
    }
}

/// An eager pass in a cascading state ends with every level below its
/// capacity.
pub proof fn lemma_eager_scan(s: SketchView, level: nat)
    requires
        cascading(s, level),
    ensures
        s.scanned(level, s.levels.len()).wf(),
        s.scanned(level, s.levels.len()).calibrated(),
        s.scanned(level, s.levels.len()).below_capacity(),
    decreases s.levels.len() - level,
{
    let n = s.levels.len();
    if level < n {
        if s.overflowing(level) {
            let r = s.refactored(level);
            let length = s.levels[level as int].data.len();
            let moved = kept_count(length, s.keeps_even());
            lemma_refactored(s, level);
            lemma_refactored_calibrated(s, level);
            assert(moved + 1 <= s.levels[level as int].capacity);
            if level + 1 < n {
                lemma_capacity_nondecreasing(s.k, n, level, level + 1);
                assert(s.levels[level as int].capacity == capacity_spec(s.k, n, level));
                assert(s.levels[level as int + 1].capacity == capacity_spec(s.k, n, level + 1));
                assert forall|i: int| 0 <= i < r.levels.len() && i != level + 1 implies (
                #[trigger] r.levels[i]).data.len() < r.levels[i].capacity by {
                    if i == level {
                        lemma_capacity_range(s.k, n, level);
                    } else {
                        assert(r.levels[i].data == s.levels[i].data);
                    }
                }
                assert forall|i: int| 0 <= i < level + 1 implies (#[trigger] r.levels[i]).data.len()
                    == 0 by {
                    if i < level {
                        assert(r.levels[i].data == s.levels[i].data);
                    }
                }
                assert(cascading(r, level + 1));
                lemma_eager_scan(r, level + 1);
            } else {
                lemma_top_level_capacity(s.k, n);
                lemma_top_level_capacity(s.k, n + 1);
                assert(s.levels[level as int].capacity == capacity_spec(s.k, n, level));
                assert forall|i: int| 0 <= i < r.levels.len() implies (
                #[trigger] r.levels[i]).data.len() < r.levels[i].capacity by {
                    lemma_capacity_range(s.k, n + 1, i as nat);
                    if i < level {
                        assert(r.levels[i].data == s.levels[i].data);
                    }
                }
                assert(r.scanned(level + 1, n) == r);
            }
        } else {
            assert(cascading(s, level + 1));
            lemma_eager_scan(s, level + 1);
        }
    }
}

/// Under the eager policy, ingesting a value into a calibrated sketch whose
/// levels are all below capacity leaves it calibrated with all levels below
/// capacity: directly after an ingestion no level holds more than its
/// capacity.
pub proof fn lemma_eager_ingest_below_capacity(s: SketchView, element: Element)
    requires
        s.wf(),
        s.policy == Policy::Eager,
        s.calibrated(),
        s.below_capacity(),
    ensures
        s.ingested(element).wf(),
        s.ingested(element).calibrated(),
        s.ingested(element).below_capacity(),
        s.ingested(element).settled(),
{
    let fed = s.fed(element).counted();
    lemma_scanned_keeps(fed, 0, fed.levels.len());
    lemma_capacity_range(s.k, s.levels.len(), 0);
    assert(s.levels[0].capacity == capacity_spec(s.k, s.levels.len(), 0));
    assert forall|i: int| 0 <= i < fed.levels.len() && i != 0 implies (
    #[trigger] fed.levels[i]).data.len() < fed.levels[i].capacity by {
        assert(fed.levels[i] == s.levels[i]);
    }
    lemma_fed_calibrated(s, element);
    assert(cascading(fed, 0));
    lemma_eager_scan(fed, 0);
}

/// The state of a lazy pass that has come to `level` with no refactoring so
/// far: the sketch holds at most as many elements as its total capacity, and
/// the levels already examined are below their capacities.
pub open spec fn deferring(s: SketchView, level: nat) -> bool {
    &&& s.wf()
    &&& s.policy == Policy::Lazy
    &&& s.calibrated()
    &&& level <= s.levels.len()
    &&& s.size() <= s.total_capacity()
    &&& forall|i: int|
        0 <= i < level ==> (#[trigger] s.levels[i]).data.len() < s.levels[i].capacity
}

/// A lazy pass in a deferring state ends below the total capacity.
pub proof fn lemma_lazy_scan(s: SketchView, level: nat)
    requires
        deferring(s, level),
    ensures
        s.scanned(level, s.levels.len()).wf(),
        s.scanned(level, s.levels.len()).calibrated(),
        s.scanned(level, s.levels.len()).below_total_capacity(),
    decreases s.levels.len() - level,
{
    let n = s.levels.len();
    if level >= n {
        lemma_total_strictly_below(sizes(s.levels), capacities(s.levels));
    } else if s.triggered() {
        if s.overflowing(level) {
            let r = s.refactored(level);
            let length = s.levels[level as int].data.len();
            lemma_refactored(s, level);
            lemma_refactored_calibrated(s, level);
            lemma_capacity_range(s.k, n, level);
            assert(s.levels[level as int].capacity == capacity_spec(s.k, n, level));
            assert(kept_count(length, s.keeps_even()) < length);
            assert(r.below_total_capacity());
            assert(r.scanned(level + 1, n) == r);
        } else {
            lemma_lazy_scan(s, level + 1);
        }
    }
}

/// Under the lazy policy, a compaction pass on a calibrated sketch that
/// holds at most as many elements as its total capacity ends with fewer:
/// once the pass returns, occupancy does not exceed the total capacity.
pub proof fn lemma_lazy_compact_below_total_capacity(s: SketchView)
    requires
        s.wf(),
        s.policy == Policy::Lazy,
        s.calibrated(),
        s.size() <= s.total_capacity(),
    ensures
        s.compacted().wf(),
        s.compacted().calibrated(),
        s.compacted().below_total_capacity(),
        s.compacted().settled(),
{
    let counted = s.counted();
    lemma_scanned_keeps(counted, 0, counted.levels.len());
    assert(counted.levels == s.levels);
    assert(deferring(counted, 0));
    lemma_lazy_scan(counted, 0);
}

/// Under the lazy policy, ingesting a value into a calibrated sketch below
/// its total capacity leaves it calibrated and below its total capacity.
pub proof fn lemma_lazy_ingest_below_total_capacity(s: SketchView, element: Element)
    requires
        s.wf(),
        s.policy == Policy::Lazy,
        s.calibrated(),
        s.below_total_capacity(),
    ensures
        s.ingested(element).wf(),
        s.ingested(element).calibrated(),
        s.ingested(element).below_total_capacity(),
        s.ingested(element).settled(),
{
    let fed = s.fed(element);
    let grown = s.levels[0].data.len() + 1;
    assert(sizes(fed.levels) =~= sizes(s.levels).update(0, grown as nat));
    lemma_total_update(sizes(s.levels), 0, grown as nat);
    assert(capacities(fed.levels) =~= capacities(s.levels));
    lemma_fed_calibrated(s, element);
    lemma_lazy_compact_below_total_capacity(fed);
}

/// Joined levels hold as many elements as both sides together.
pub proof fn lemma_joined_size(first: Seq<LevelView>, second: Seq<LevelView>)
    ensures
        total(sizes(joined_levels(first, second))) == total(sizes(first)) + total(sizes(second)),
    decreases first.len() + second.len(),
{
    let joined = joined_levels(first, second);
    if joined.len() > 0 {
        let shorter_first = if first.len() == joined.len() {
            first.drop_last()
        } else {
            first
        };
        let shorter_second = if second.len() == joined.len() {
            second.drop_last()
        } else {
            second
        };
        lemma_joined_size(shorter_first, shorter_second);
        assert(sizes(joined).drop_last() =~= sizes(joined_levels(shorter_first, shorter_second)));
        if first.len() == joined.len() {
            assert(sizes(first).drop_last() =~= sizes(shorter_first));
        }
        if second.len() == joined.len() {
            assert(sizes(second).drop_last() =~= sizes(shorter_second));
        }
    }
}

/// Under the lazy policy, merging into a calibrated sketch one with no more
/// levels, where the two together hold at most as many elements as the
/// capacities of the first allow, gives a calibrated sketch below its total
/// capacity.
pub proof fn lemma_lazy_merge_below_total_capacity(first: SketchView, second: SketchView)
    requires
        first.wf(),
        first.policy == Policy::Lazy,
        first.calibrated(),
        second.levels.len() <= first.levels.len(),
        first.size() + second.size() <= first.total_capacity(),
    ensures
        first.merged(second).wf(),
        first.merged(second).calibrated(),
        first.merged(second).below_total_capacity(),
        first.merged(second).settled(),
{
    let joined = first.joined(second);
    lemma_joined_size(first.levels, second.levels);
    assert(capacities(joined.levels) =~= capacities(first.levels));
    assert(joined.calibrated()) by {
        assert forall|i: int|
            0 <= i < joined.levels.len() implies #[trigger] joined.levels[i].capacity
            == capacity_spec(joined.k, joined.levels.len(), i as nat) by {
            assert(joined.levels[i].capacity == first.levels[i].capacity);
        }
    }
    lemma_lazy_compact_below_total_capacity(joined);
}

/// A new sketch is calibrated and settled.
pub proof fn lemma_initial_settled(k: nat, policy: Policy, observed: bool)
    requires
        1 <= k < usize::MAX,
    ensures
        SketchView::initial(k, policy, observed).wf(),
        SketchView::initial(k, policy, observed).calibrated(),
        SketchView::initial(k, policy, observed).below_capacity(),
        SketchView::initial(k, policy, observed).below_total_capacity(),
        SketchView::initial(k, policy, observed).settled(),
{
    let s = SketchView::initial(k, policy, observed);
    lemma_capacity_range(k, 1, 0);
    lemma_total_strictly_below(sizes(s.levels), capacities(s.levels));
}

/// A sketch that was built by ingestions alone is calibrated and settled
/// after every one of them: under the eager policy every level holds fewer
/// elements than its capacity, under the lazy one the sketch holds fewer
/// than all capacities together allow.
pub proof fn lemma_ingestions_settled(
    k: nat,
    policy: Policy,
    observed: bool,
    elements: Seq<Element>,
)
    requires
        1 <= k < usize::MAX,
    ensures
        SketchView::initial(k, policy, observed).ingested_all(elements).wf(),
        SketchView::initial(k, policy, observed).ingested_all(elements).calibrated(),
        SketchView::initial(k, policy, observed).ingested_all(elements).settled(),
    decreases elements.len(),
{
    if elements.len() == 0 {
        lemma_initial_settled(k, policy, observed);
    } else {
        lemma_ingestions_settled(k, policy, observed, elements.drop_last());
        let before = SketchView::initial(k, policy, observed).ingested_all(elements.drop_last());
        match before.policy {
            Policy::Eager => lemma_eager_ingest_below_capacity(before, elements.last()),
            Policy::Lazy => lemma_lazy_ingest_below_total_capacity(before, elements.last()),
        }
    }
}

} // verus!

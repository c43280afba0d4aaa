//! The compaction sketch: a stack of level buffers that ingests values in
//! bounded memory and can be merged with another sketch of the same size
//! parameter.

use vstd::prelude::*;
use crate::capacity::capacity;
use crate::compactor::{frames_view, levels_view, snapshot, Compactor, Element, LevelView};
use crate::invariants::{
    lemma_eager_ingest_below_capacity,
    lemma_eager_ingest_without_growth,
    lemma_fed_calibrated,
    lemma_initial_settled,
    lemma_lazy_ingest_below_total_capacity,
    lemma_lazy_merge_below_total_capacity,
    lemma_scanned_calibrated,
    lemma_scanned_keeps,
};
use crate::model::{capacities, retained, sizes, Policy, SketchView};
use crate::pairing::{zip_longest, Paired};
use crate::sorting::sort_ascending;
use crate::sums::total;

verus! {

/// A multi-level compaction sketch.
///
/// Level 0 receives the ingested values. A level that has reached its
/// capacity is refactored: it is sorted, every other element moves to the
/// next level and the rest is dropped, so that an element of level `i` stands
/// for `2^i` ingested values.
#[derive(Debug)]
pub struct Compactors {
    k: usize,
    compactors: Vec<Compactor>,
    num_compactions: u64,
    policy: Policy,
    observed: bool,
}

impl View for Compactors {
    type V = SketchView;

    closed spec fn view(&self) -> SketchView {
        SketchView {
            k: self.k as nat,
            levels: levels_view(self.compactors@),
            compactions: self.num_compactions as nat,
            policy: self.policy,
            observed: self.observed,
        }
    }
}

/// `retained` of a prefix that is one element longer.
proof fn lemma_retained_step(sorted: Seq<Element>, keep_even: bool, index: int)
    requires
        0 <= index < sorted.len(),
    ensures
        retained(sorted.take(index + 1), keep_even) == if (index % 2 == 0) == keep_even {
            retained(sorted.take(index), keep_even).push(sorted[index])
        } else {
            retained(sorted.take(index), keep_even)
        },
{
    let shorter = retained(sorted.take(index), keep_even);
    let longer = retained(sorted.take(index + 1), keep_even);
    if (index % 2 == 0) == keep_even {
        assert(longer =~= shorter.push(sorted[index]));
    } else {
        assert(longer =~= shorter);
    }
}

/// The number of elements that the given levels hold together.
pub fn occupancy(levels: &Vec<Compactor>) -> (size: u128)
    ensures
        size == total(sizes(levels_view(levels@))),
{
    let ghost all = sizes(levels_view(levels@));
    let mut size: u128 = 0;
    let mut level: usize = 0;
    while level < levels.len()
        invariant
            level <= levels.len(),
            all == sizes(levels_view(levels@)),
            size == total(all.take(level as int)),
            size <= level * usize::MAX,
        decreases levels.len() - level,
    {
        let length: usize = levels[level].data.len();
        proof {
            assert(all.take(level + 1).drop_last() =~= all.take(level as int));
            lemma_wide_sum(size as int, length as int, level as int);
        }
        size = size + length as u128;
        level += 1;
    }
    assert(all.take(level as int) =~= all);
    size
}

/// The sum of the capacities of the given levels.
pub fn total_room(levels: &Vec<Compactor>) -> (capacity: u128)
    ensures
        capacity == total(capacities(levels_view(levels@))),
{
    let ghost all = capacities(levels_view(levels@));
    let mut capacity: u128 = 0;
    let mut level: usize = 0;
    while level < levels.len()
        invariant
            level <= levels.len(),
            all == capacities(levels_view(levels@)),
            capacity == total(all.take(level as int)),
            capacity <= level * usize::MAX,
        decreases levels.len() - level,
    {
        let room: usize = levels[level].capacity;
        proof {
            assert(all.take(level + 1).drop_last() =~= all.take(level as int));
            lemma_wide_sum(capacity as int, room as int, level as int);
        }
        capacity = capacity + room as u128;
        level += 1;
    }
    assert(all.take(level as int) =~= all);
    capacity
}

/// A sum of fewer than `usize::MAX` terms of type `usize` fits 128 bits.
proof fn lemma_wide_sum(sum: int, term: int, count: int)
    requires
        0 <= sum <= count * usize::MAX,
        0 <= term <= usize::MAX,
        0 <= count < usize::MAX,
    ensures
        sum + term <= (count + 1) * usize::MAX,
        sum + term <= u128::MAX,
{
    let bound: int = usize::MAX as int;
    assert(sum + term <= (count + 1) * bound) by (nonlinear_arith)
        requires
            sum <= count * bound,
            term <= bound,
    ;
    assert((count + 1) * bound <= u128::MAX) by (nonlinear_arith)
        requires
            0 <= count < bound,
            bound <= 0xffff_ffff_ffff_ffff,
    ;
}

impl Compactors {
    /// A new sketch with size parameter `k`: one empty level of capacity
    /// `k + 1`. With `observed` set, every operation hands back the snapshots
    /// that an observer of the sketch is to be shown.
    pub fn new(k: usize, policy: Policy, observed: bool) -> (sketch: Self)
        requires
            1 <= k < usize::MAX,
        ensures
            sketch@ == SketchView::initial(k as nat, policy, observed),
            sketch@.wf(),
            sketch@.calibrated(),
            sketch@.settled(),
    {
        proof {
            lemma_initial_settled(k as nat, policy, observed);
        }
        let mut compactors: Vec<Compactor> = Vec::new();
        compactors.push(Compactor::new(capacity(k, 1, 0)));
        let sketch = Compactors { k, compactors, num_compactions: 0, policy, observed };
        assert(sketch@.levels =~= SketchView::initial(k as nat, policy, observed).levels);
        sketch
    }

    /// Ingests one value: it is appended to level 0, then a compaction pass
    /// runs. Returns the snapshots for the observer, in the order they arise:
    /// one after the value is appended, then two for every level that the
    /// pass refactors.
    pub fn update(&mut self, element: Element) -> (frames: Vec<Vec<Compactor>>)
        requires
            old(self)@.wf(),
            old(self)@.compactions < u64::MAX,
        ensures
            final(self)@ == old(self)@.ingested(element),
            final(self)@.wf(),
            final(self)@.k == old(self)@.k,
            final(self)@.policy == old(self)@.policy,
            final(self)@.observed == old(self)@.observed,
            final(self)@.compactions == old(self)@.compactions + 1,
            final(self)@.levels.len() >= old(self)@.levels.len(),
            frames_view(frames@) == old(self)@.ingest_frames(element),
            old(self)@.calibrated() ==> final(self)@.calibrated(),
            old(self)@.calibrated() && old(self)@.settled() ==> final(self)@.settled(),
            old(self)@.policy == Policy::Eager && final(self)@.levels.len() == old(
                self,
            )@.levels.len() ==> final(self)@.within_capacity(),
    {
        proof {
            if old(self)@.policy == Policy::Eager && old(self)@.ingested(element).levels.len()
                == old(self)@.levels.len() {
                lemma_eager_ingest_without_growth(old(self)@, element);
            }
            if old(self)@.calibrated() {
                lemma_fed_calibrated(old(self)@, element);
            }
            if old(self)@.calibrated() && old(self)@.settled() {
                match old(self)@.policy {
                    Policy::Eager => lemma_eager_ingest_below_capacity(old(self)@, element),
                    Policy::Lazy => lemma_lazy_ingest_below_total_capacity(old(self)@, element),
                }
            }
        }
        let mut frames: Vec<Vec<Compactor>> = Vec::new();
        self.compactors[0].update(element);
        assert(self@.levels =~= old(self)@.fed(element).levels);
        self.record_frame(&mut frames);
        self.compact(&mut frames);
        frames
    }

    /// Merges `other`, a sketch with the same size parameter, into this one:
    /// level by level the buffers of `other` are appended, levels that only
    /// one of the two has are kept as they are, then one compaction pass runs.
    /// Returns the snapshots of that pass.
    pub fn merge(&mut self, other: Compactors) -> (frames: Vec<Vec<Compactor>>)
        requires
            old(self)@.wf(),
            other@.wf(),
            old(self)@.k == other@.k,
            old(self)@.compactions < u64::MAX,
        ensures
            final(self)@ == old(self)@.merged(other@),
            final(self)@.wf(),
            final(self)@.k == old(self)@.k,
            final(self)@.policy == old(self)@.policy,
            final(self)@.observed == old(self)@.observed,
            final(self)@.compactions == old(self)@.compactions + 1,
            final(self)@.levels.len() >= old(self)@.levels.len(),
            final(self)@.levels.len() >= other@.levels.len(),
            frames_view(frames@) == old(self)@.merge_frames(other@),
            old(self)@.joined(other@).calibrated() ==> final(self)@.calibrated(),
            old(self)@.policy == Policy::Lazy && old(self)@.calibrated() && other@.levels.len()
                <= old(self)@.levels.len() && old(self)@.size() + other@.size() <= old(
                self,
            )@.total_capacity() ==> final(self)@.calibrated() && final(self)@.settled(),
    {
        let ghost joined = old(self)@.joined(other@);
        proof {
            if old(self)@.policy == Policy::Lazy && old(self)@.calibrated() && other@.levels.len()
                <= old(self)@.levels.len() && old(self)@.size() + other@.size() <= old(
                self,
            )@.total_capacity() {
                lemma_lazy_merge_below_total_capacity(old(self)@, other@);
            }
        }
        let mut compactors: Vec<Compactor> = Vec::new();
        std::mem::swap(&mut self.compactors, &mut compactors);
        let pairs = zip_longest(compactors, other.compactors);
        let mut merged: Vec<Compactor> = Vec::new();
        for pair in iter: pairs
            invariant
                iter.seq() == pairs@,
                pairs@.len() == joined.levels.len(),
                merged@.len() == iter.index(),
                forall|i: int| 0 <= i < merged@.len() ==> merged@[i]@ == joined.levels[i],
                forall|i: int|
                    0 <= i < pairs@.len() ==> joined.levels[i] == match pairs@[i] {
                        Paired::Both(a, b) => LevelView { data: a@.data + b@.data, ..a@ },
                        Paired::Left(a) => a@,
                        Paired::Right(b) => b@,
                    },
        {
            match pair {
                Paired::Both(mut a, mut b) => {
                    a.data.append(&mut b.data);
                    merged.push(a);
                },
                Paired::Left(a) => {
                    merged.push(a);
                },
                Paired::Right(b) => {
                    merged.push(b);
                },
            }
        }
        self.compactors = merged;
        assert(self@.levels =~= joined.levels);
        let mut frames: Vec<Vec<Compactor>> = Vec::new();
        self.compact(&mut frames);
        frames
    }

    /// The size parameter.
    pub fn k(&self) -> (k: usize)
        ensures
            k == self@.k,
    {
        self.k
    }

    /// How many compaction passes have run: one for every ingestion and
    /// every merge.
    pub fn num_compactions(&self) -> (count: u64)
        ensures
            count == self@.compactions,
    {
        self.num_compactions
    }

    /// The compaction policy.
    pub fn policy(&self) -> (policy: Policy)
        ensures
            policy == self@.policy,
    {
        self.policy
    }

    /// Whether snapshots are taken for an observer.
    pub fn observed(&self) -> (observed: bool)
        ensures
            observed == self@.observed,
    {
        self.observed
    }

    /// An independent copy of all levels, lowest first.
    pub fn levels(&self) -> (levels: Vec<Compactor>)
        ensures
            levels_view(levels@) == self@.levels,
    {
        snapshot(&self.compactors)
    }

    /// Gives up the sketch for its levels, lowest first.
    pub fn into(self) -> (levels: Vec<Compactor>)
        ensures
            levels_view(levels@) == self@.levels,
    {
        self.compactors
    }

    /// The number of elements held, all levels together.
    pub fn size(&self) -> (size: u128)
        ensures
            size == self@.size(),
    {
        occupancy(&self.compactors)
    }

    /// The sum of the capacities of all levels.
    pub fn total_capacity(&self) -> (capacity: u128)
        ensures
            capacity == self@.total_capacity(),
    {
        total_room(&self.compactors)
    }

    /// The capacity that the formula gives `level` for the current number of
    /// levels.
    pub fn capacity(&self, level: usize) -> (capacity: usize)
        requires
            self@.wf(),
            level < self@.levels.len(),
        ensures
            capacity == crate::capacity::capacity_spec(
                self@.k,
                self@.levels.len(),
                level as nat,
            ),
    {
        capacity(self.k, self.compactors.len(), level)
    }

    /// Makes sure that levels up to and including `level` exist. Where levels
    /// are added, the capacity of every level is set anew.
    fn grow_to_include_level(&mut self, level: usize)
        requires
            old(self)@.wf(),
        ensures
            final(self)@ == old(self)@.grown(level as nat),
            final(self)@.wf(),
    {
        if level < self.compactors.len() {
            return ;
        }
        while self.compactors.len() <= level
            invariant
                old(self).compactors@.len() <= self.compactors@.len() <= level + 1,
                self.k == old(self).k,
                self.num_compactions == old(self).num_compactions,
                self.policy == old(self).policy,
                self.observed == old(self).observed,
                forall|i: int|
                    0 <= i < self.compactors@.len() ==> self.compactors@[i]@.data == if i < old(
                        self,
                    ).compactors@.len() {
                        old(self).compactors@[i]@.data
                    } else {
                        Seq::empty()
                    },
            decreases level + 1 - self.compactors.len(),
        {
            // The capacity is assigned below.
            self.compactors.push(Compactor::new(0));
        }
        let count: usize = self.compactors.len();
        let mut index: usize = 0;
        while index < count
            invariant
                index <= count,
                count == self.compactors@.len(),
                count == level + 1,
                self@.wf(),
                self.k == old(self).k,
                self.num_compactions == old(self).num_compactions,
                self.policy == old(self).policy,
                self.observed == old(self).observed,
                forall|i: int|
                    0 <= i < count ==> self.compactors@[i]@.data == if i < old(
                        self,
                    ).compactors@.len() {
                        old(self).compactors@[i]@.data
                    } else {
                        Seq::empty()
                    },
                forall|i: int|
                    0 <= i < index ==> self.compactors@[i]@.capacity
                        == crate::capacity::capacity_spec(self.k as nat, count as nat, i as nat),
            decreases count - index,
        {
            let room: usize = self.capacity(index);
            self.compactors[index].capacity = room;
            index += 1;
        }
        assert(self@.levels =~= old(self)@.grown(level as nat).levels);
    }

    /// Hands the observer a snapshot of all levels, if there is an observer.
    fn record_frame(&self, frames: &mut Vec<Vec<Compactor>>)
        ensures
            frames_view(final(frames)@) == frames_view(old(frames)@) + self@.frame(),
    {
        if self.observed {
            let frame = snapshot(&self.compactors);
            frames.push(frame);
        }
        assert(frames_view(frames@) =~= frames_view(old(frames)@) + self@.frame());
    }

    /// Refactors one level: the next level is made to exist, the buffer is
    /// sorted, every other element (by the parity of the pass) is appended to
    /// the next level, and the buffer is cleared.
    fn refactor_level(&mut self, level: usize, frames: &mut Vec<Vec<Compactor>>)
        requires
            old(self)@.wf(),
            level < old(self)@.levels.len(),
        ensures
            final(self)@ == old(self)@.refactored(level as nat),
            final(self)@.wf(),
            frames_view(final(frames)@) == frames_view(old(frames)@) + old(
                self,
            )@.refactor_frames(level as nat),
    {
        let count: usize = self.compactors.len();
        assert(level < count);
        let next: usize = level + 1;
        self.grow_to_include_level(next);
        let use_evens: bool = self.num_compactions % 2 == 0;
        let ghost grown = self@;
        sort_ascending(&mut self.compactors[level].data);
        assert(self@.levels =~= grown.sorted_at(level as nat).levels);
        let ghost sorted = self@;
        self.record_frame(frames);
        let mut buffer: Vec<Element> = Vec::new();
        std::mem::swap(&mut buffer, &mut self.compactors[level].data);
        let mut index: usize = 0;
        while index < buffer.len()
            invariant
                index <= buffer.len(),
                buffer@ == sorted.levels[level as int].data,
                next == level + 1,
                next < sorted.levels.len(),
                self.compactors@.len() == sorted.levels.len(),
                self@.k == sorted.k,
                self@.compactions == sorted.compactions,
                self@.policy == sorted.policy,
                self@.observed == sorted.observed,
                self@.levels == sorted.levels.update(
                    level as int,
                    LevelView { data: Seq::empty(), ..sorted.levels[level as int] },
                ).update(
                    next as int,
                    LevelView {
                        data: sorted.levels[next as int].data + retained(
                            buffer@.take(index as int),
                            use_evens,
                        ),
                        ..sorted.levels[next as int]
                    },
                ),
            decreases buffer.len() - index,
        {
            proof {
                lemma_retained_step(buffer@, use_evens, index as int);
            }
            let ghost levels = self.compactors@;
            if (index % 2 == 0) == use_evens {
                self.compactors[next].data.push(buffer[index]);
            }
            index += 1;
            proof {
                let target = sorted.levels.update(
                    level as int,
                    LevelView { data: Seq::empty(), ..sorted.levels[level as int] },
                ).update(
                    next as int,
                    LevelView {
                        data: sorted.levels[next as int].data + retained(
                            buffer@.take(index as int),
                            use_evens,
                        ),
                        ..sorted.levels[next as int]
                    },
                );
                assert forall|i: int| 0 <= i < target.len() implies self@.levels[i]
                    =~= target[i] by {
                    assert(levels_view(levels)[i] == levels[i]@);
                }
                assert(self@.levels =~= target);
            }
        }
        assert(buffer@.take(index as int) =~= buffer@);
        assert(self@ =~= sorted.promoted_from(level as nat));
        self.record_frame(frames);
        assert(frames_view(frames@) =~= frames_view(old(frames)@) + old(self)@.refactor_frames(
            level as nat,
        ));
    }

    /// Runs one compaction pass. The pass is counted, which fixes its parity
    /// choice; then the levels that exist at its start are examined from the
    /// lowest up, and those that have reached their capacity are refactored.
    /// Under the lazy policy the pass ends as soon as the sketch as a whole
    /// holds fewer elements than all capacities together allow.
    fn compact(&mut self, frames: &mut Vec<Vec<Compactor>>)
        requires
            old(self)@.wf(),
            old(self)@.compactions < u64::MAX,
        ensures
            final(self)@ == old(self)@.compacted(),
            final(self)@.wf(),
            final(self)@.k == old(self)@.k,
            final(self)@.policy == old(self)@.policy,
            final(self)@.observed == old(self)@.observed,
            final(self)@.compactions == old(self)@.compactions + 1,
            final(self)@.levels.len() >= old(self)@.levels.len(),
            old(self)@.calibrated() ==> final(self)@.calibrated(),
            frames_view(final(frames)@) == frames_view(old(frames)@) + old(self)@.compact_frames(),
    {
        proof {
            let counted = old(self)@.counted();
            lemma_scanned_keeps(counted, 0, counted.levels.len());
            if old(self)@.calibrated() {
                assert(counted.calibrated());
                lemma_scanned_calibrated(counted, 0, counted.levels.len());
            }
        }
        self.num_compactions += 1;
        let end: usize = self.compactors.len();
        let ghost start = self@;
        assert(start == old(self)@.counted());
        let mut level: usize = 0;
        let mut triggered: bool = self.triggered();
        while level < end && triggered
            invariant
                level <= end <= self@.levels.len(),
                self@.wf(),
                triggered == self@.triggered(),
                self@.scanned(level as nat, end as nat) == start.scanned(0, end as nat),
                frames_view(frames@) + self@.scan_frames(level as nat, end as nat) == frames_view(
                    old(frames)@,
                ) + start.scan_frames(0, end as nat),
            decreases end - level,
        {
            let ghost before = self@;
            let ghost emitted = frames_view(frames@);
            if self.compactors[level].data.len() >= self.compactors[level].capacity {
                self.refactor_level(level, frames);
            }
            assert(self@ == before.examined(level as nat));
            assert(frames_view(frames@) =~= emitted + before.examine_frames(level as nat));
            level += 1;
            triggered = self.triggered();
            assert(frames_view(frames@) + self@.scan_frames(level as nat, end as nat) =~= emitted
                + before.scan_frames((level - 1) as nat, end as nat));
        }
        assert(frames_view(frames@) =~= frames_view(old(frames)@) + old(self)@.compact_frames());
    }

    /// Whether a pass goes on from the present state.
    fn triggered(&self) -> (triggered: bool)
        ensures
            triggered == self@.triggered(),
    {
        match self.policy {
            Policy::Eager => true,
            Policy::Lazy => self.size() >= self.total_capacity(),
        }
    }
}

} // verus!

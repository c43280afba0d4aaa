//! The sketch as mathematics: what ingestion, compaction and merging do to
//! the levels, stated on sequences.

use vstd::prelude::*;
use crate::capacity::capacity_spec;
use crate::compactor::{Element, LevelView};
use crate::sorting::ascending;
use crate::sums::total;

verus! {

/// When an overfull level is compacted.
#[derive(Clone, Copy, Debug, PartialEq, Eq)]
pub enum Policy {
    /// Every pass compacts every level that has reached its capacity.
    Eager,
    /// A pass compacts overfull levels only while the sketch as a whole holds
    /// at least as many elements as all capacities together allow.
    Lazy,
}

/// A snapshot of all levels, lowest first.
pub type Frame = Seq<LevelView>;

/// The state of a sketch.
#[verifier::ext_equal]
pub struct SketchView {
    /// The size parameter, fixed at construction.
    pub k: nat,
    /// The level buffers, level 0 first.
    pub levels: Seq<LevelView>,
    /// How many compaction passes have run.
    pub compactions: nat,
    /// The compaction policy, fixed at construction.
    pub policy: Policy,
    /// Whether snapshots are taken for an observer.
    pub observed: bool,
}

/// The number of elements in each level.
pub open spec fn sizes(levels: Seq<LevelView>) -> Seq<nat> {
    Seq::new(levels.len(), |i: int| levels[i].data.len())
}

/// The capacity of each level.
pub open spec fn capacities(levels: Seq<LevelView>) -> Seq<nat> {
    Seq::new(levels.len(), |i: int| levels[i].capacity)
}

/// Every other element of a sorted buffer: those at even positions if
/// `keep_even`, else those at odd positions.
pub open spec fn retained(sorted: Seq<Element>, keep_even: bool) -> Seq<Element> {
    let first: int = if keep_even {
        0
    } else {
        1
    };
    Seq::new(((sorted.len() + 1 - first) / 2) as nat, |j: int| sorted[2 * j + first])
}

/// The levels of two sketches combined by position: where both have a level,
/// the buffer of the second follows that of the first under the capacity of
/// the first; a level that only one has is taken as it is, capacity included.
pub open spec fn joined_levels(first: Seq<LevelView>, second: Seq<LevelView>) -> Seq<LevelView> {
    Seq::new(
        if first.len() >= second.len() {
            first.len()
        } else {
            second.len()
        },
        |i: int|
            if i < first.len() && i < second.len() {
                LevelView { data: first[i].data + second[i].data, ..first[i] }
            } else if i < first.len() {
                first[i]
            } else {
                second[i]
            },
    )
}

impl SketchView {
    /// The states that the operations are defined on: a size parameter of at
    /// least one whose successor is representable, and at least one level.
    pub open spec fn wf(self) -> bool {
        &&& 1 <= self.k < usize::MAX
        &&& self.levels.len() >= 1
    }

    /// A new sketch: one empty level of capacity `k + 1`, no pass run yet.
    pub open spec fn initial(k: nat, policy: Policy, observed: bool) -> SketchView {
        SketchView {
            k,
            levels: seq![LevelView { data: Seq::empty(), capacity: capacity_spec(k, 1, 0) }],
            compactions: 0,
            policy,
            observed,
        }
    }

    /// The same sketch with other levels.
    pub open spec fn with_levels(self, levels: Seq<LevelView>) -> SketchView {
        SketchView { levels, ..self }
    }

    /// The number of elements held, all levels together.
    pub open spec fn size(self) -> nat {
        total(sizes(self.levels))
    }

    /// The sum of the capacities of all levels.
    pub open spec fn total_capacity(self) -> nat {
        total(capacities(self.levels))
    }

    /// Whether a level has reached its capacity.
    pub open spec fn overflowing(self, level: nat) -> bool {
        self.levels[level as int].data.len() >= self.levels[level as int].capacity
    }

    /// The parity choice of the current pass: elements at even positions are
    /// kept when the pass count is even, those at odd positions when it is odd.
    pub open spec fn keeps_even(self) -> bool {
        self.compactions % 2 == 0
    }

    /// What an observer is shown at this point: the levels if snapshots are
    /// taken, nothing otherwise.
    pub open spec fn frame(self) -> Seq<Frame> {
        if self.observed {
            seq![self.levels]
        } else {
            Seq::empty()
        }
    }

    /// The sketch with levels up to and including `level`. Where levels are
    /// added they are empty, and every capacity is set anew for the new
    /// number of levels.
    pub open spec fn grown(self, level: nat) -> SketchView {
        if level < self.levels.len() {
            self
        } else {
            self.with_levels(
                Seq::new(
                    level + 1,
                    |i: int|
                        LevelView {
                            data: if i < self.levels.len() {
                                self.levels[i].data
                            } else {
                                Seq::empty()
                            },
                            capacity: capacity_spec(self.k, level + 1, i as nat),
                        },
                ),
            )
        }
    }

    /// The sketch with the buffer of `level` in ascending order.
    pub open spec fn sorted_at(self, level: nat) -> SketchView {
        self.with_levels(
            self.levels.update(
                level as int,
                LevelView {
                    data: ascending(self.levels[level as int].data),
                    ..self.levels[level as int]
                },
            ),
        )
    }

    /// The sketch after the buffer of `level` has handed every other element
    /// to the end of the next level and has been cleared.
    pub open spec fn promoted_from(self, level: nat) -> SketchView {
        let kept = retained(self.levels[level as int].data, self.keeps_even());
        self.with_levels(
            self.levels.update(
                level as int,
                LevelView { data: Seq::empty(), ..self.levels[level as int] },
            ).update(
                level as int + 1,
                LevelView {
                    data: self.levels[level as int + 1].data + kept,
                    ..self.levels[level as int + 1]
                },
            ),
        )
    }

    /// The sketch after `level` has been refactored: the next level exists,
    /// half of the sorted buffer has moved up, the other half is gone.
    pub open spec fn refactored(self, level: nat) -> SketchView {
        self.grown(level + 1).sorted_at(level).promoted_from(level)
    }

    /// The snapshots of one refactoring: after the sort, and at the end.
    pub open spec fn refactor_frames(self, level: nat) -> Seq<Frame> {
        self.grown(level + 1).sorted_at(level).frame() + self.refactored(level).frame()
    }

    /// One step of a pass: the level is refactored if it has reached its
    /// capacity.
    pub open spec fn examined(self, level: nat) -> SketchView {
        if self.overflowing(level) {
            self.refactored(level)
        } else {
            self
        }
    }

    /// The snapshots of one step of a pass.
    pub open spec fn examine_frames(self, level: nat) -> Seq<Frame> {
        if self.overflowing(level) {
            self.refactor_frames(level)
        } else {
            Seq::empty()
        }
    }

    /// Whether a pass goes on from this state: always under the eager policy,
    /// under the lazy one while occupancy has reached the total capacity.
    pub open spec fn triggered(self) -> bool {
        match self.policy {
            Policy::Eager => true,
            Policy::Lazy => self.size() >= self.total_capacity(),
        }
    }

    /// The rest of a pass that has come to `level` and ends before `end`.
    pub open spec fn scanned(self, level: nat, end: nat) -> SketchView
        decreases end - level,
    {
        if level >= end || !self.triggered() {
            self
        } else {
            self.examined(level).scanned(level + 1, end)
        }
    }

    /// The snapshots of the rest of a pass.
    pub open spec fn scan_frames(self, level: nat, end: nat) -> Seq<Frame>
        decreases end - level,
    {
        if level >= end || !self.triggered() {
            Seq::empty()
        } else {
            self.examine_frames(level) + self.examined(level).scan_frames(level + 1, end)
        }
    }

    /// The sketch with one more pass counted.
    pub open spec fn counted(self) -> SketchView {
        SketchView { compactions: self.compactions + 1, ..self }
    }

    /// The sketch after a compaction pass: the pass is counted, then the
    /// levels that existed at its start are examined from the lowest up.
    pub open spec fn compacted(self) -> SketchView {
        self.counted().scanned(0, self.levels.len())
    }

    /// The snapshots of a compaction pass.
    pub open spec fn compact_frames(self) -> Seq<Frame> {
        self.counted().scan_frames(0, self.levels.len())
    }

    /// The sketch with `element` appended to level 0.
    pub open spec fn fed(self, element: Element) -> SketchView {
        self.with_levels(
            self.levels.update(
                0,
                LevelView { data: self.levels[0].data.push(element), ..self.levels[0] },
            ),
        )
    }

    /// The sketch after ingesting `element`.
    pub open spec fn ingested(self, element: Element) -> SketchView {
        self.fed(element).compacted()
    }

    /// The snapshots of an ingestion: after the element is appended, then
    /// those of the pass.
    pub open spec fn ingest_frames(self, element: Element) -> Seq<Frame> {
        self.fed(element).frame() + self.fed(element).compact_frames()
    }

    /// The sketch with the levels of `other` joined to its own.
    pub open spec fn joined(self, other: SketchView) -> SketchView {
        self.with_levels(joined_levels(self.levels, other.levels))
    }

    /// The sketch after merging `other` into it.
    pub open spec fn merged(self, other: SketchView) -> SketchView {
        self.joined(other).compacted()
    }

    /// The snapshots of a merge: those of its pass.
    pub open spec fn merge_frames(self, other: SketchView) -> Seq<Frame> {
        self.joined(other).compact_frames()
    }

    /// The sketch after ingesting `elements` one by one, in order.
    pub open spec fn ingested_all(self, elements: Seq<Element>) -> SketchView
        decreases elements.len(),
    {
        if elements.len() == 0 {
            self
        } else {
            self.ingested_all(elements.drop_last()).ingested(elements.last())
        }
    }

    /// The snapshots of ingesting `elements` one by one, in order.
    pub open spec fn ingest_all_frames(self, elements: Seq<Element>) -> Seq<Frame>
        decreases elements.len(),
    {
        if elements.len() == 0 {
            Seq::empty()
        } else {
            self.ingest_all_frames(elements.drop_last()) + self.ingested_all(
                elements.drop_last(),
            ).ingest_frames(elements.last())
        }
    }
}

} // verus!

//! The level buffer: the unit of storage at one compaction level.

use vstd::prelude::*;

verus! {

/// The values a sketch ingests.
pub type Element = u32;

/// What a level buffer holds, as mathematics: its elements in the order they
/// are stored, and its capacity threshold.
#[verifier::ext_equal]
pub struct LevelView {
    pub data: Seq<Element>,
    pub capacity: nat,
}

/// One level of a sketch: an unordered, growable buffer and the capacity
/// threshold that the owning sketch assigned to it.
#[derive(Debug)]
pub struct Compactor {
    pub data: Vec<Element>,
    pub capacity: usize,
}

impl View for Compactor {
    type V = LevelView;

    open spec fn view(&self) -> LevelView {
        LevelView { data: self.data@, capacity: self.capacity as nat }
    }
}

/// The levels of a sketch, lowest first, each by its view.
pub open spec fn levels_view(levels: Seq<Compactor>) -> Seq<LevelView> {
    Seq::new(levels.len(), |i: int| levels[i]@)
}

/// A list of snapshots, each by the views of its levels.
pub open spec fn frames_view(frames: Seq<Vec<Compactor>>) -> Seq<Seq<LevelView>> {
    Seq::new(frames.len(), |i: int| levels_view(frames[i]@))
}

impl Compactor {
    /// An empty buffer with the given capacity threshold.
    pub fn new(capacity: usize) -> (compactor: Self)
        ensures
            compactor@ == (LevelView { data: Seq::empty(), capacity: capacity as nat }),
    {
        Compactor { data: Vec::new(), capacity }
    }

    /// Appends one element at the end of the buffer. The threshold is not
    /// enforced here: the owning sketch compacts an overfull buffer.
    pub fn update(&mut self, element: Element)
        ensures
            final(self)@ == (LevelView {
                data: old(self)@.data.push(element),
                capacity: old(self)@.capacity,
            }),
    {
        self.data.push(element);
    }
}

impl Clone for Compactor {
    /// An independent copy with the same elements and the same threshold.
    fn clone(&self) -> (copy: Self)
        ensures
            copy@ == self@,
    {
        Compactor { data: self.data.clone(), capacity: self.capacity }
    }
}

/// An independent copy of every level, in order.
pub fn snapshot(levels: &Vec<Compactor>) -> (copy: Vec<Compactor>)
    ensures
        levels_view(copy@) == levels_view(levels@),
{
    let mut copy: Vec<Compactor> = Vec::new();
    let mut level: usize = 0;
    while level < levels.len()
        invariant
            level <= levels.len(),
            copy@.len() == level,
            forall|i: int| 0 <= i < level ==> copy@[i]@ == levels@[i]@,
        decreases levels.len() - level,
    {
        copy.push(levels[level].clone());
        level += 1;
    }
    assert(levels_view(copy@) =~= levels_view(levels@));
    copy
}

} // verus!

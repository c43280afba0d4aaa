//! Several sketches built side by side and reduced to one by merging them
//! in pairs, round after round.

use vstd::prelude::*;
use crate::compactor::{frames_view, Compactor, Element};
use crate::compactors::Compactors;
use crate::model::{Frame, Policy, SketchView};
use crate::pairing::chunks;
use crate::recording::feed;
use crate::invariants::lemma_scanned_keeps;
use crate::summary::lemma_ingested_all_keeps;

verus! {

/// A sketch on its way through the reduction, and the place of its
/// snapshots in the record.
pub struct Lane {
    pub index: nat,
    pub sketch: SketchView,
}

/// The lanes of a list of sketches, each with the place of its snapshots.
pub open spec fn lanes_view(lanes: Seq<(usize, Compactors)>) -> Seq<Lane> {
    Seq::new(lanes.len(), |i: int| Lane { index: lanes[i].0 as nat, sketch: lanes[i].1@ })
}

/// The record of snapshots, one list for each sketch that was built.
pub open spec fn record_view(record: Seq<Vec<Vec<Compactor>>>) -> Seq<Seq<Frame>> {
    Seq::new(record.len(), |i: int| frames_view(record[i]@))
}

/// The runs of samples, one for each sketch to build.
pub open spec fn runs_view(runs: Seq<Vec<Element>>) -> Seq<Seq<Element>> {
    Seq::new(runs.len(), |i: int| runs[i]@)
}

/// The lanes after one round: of every two neighbours the second is merged
/// into the first, and a last lane without a neighbour stays as it is.
pub open spec fn paired(lanes: Seq<Lane>) -> Seq<Lane> {
    Seq::new(
        ((lanes.len() + 1) / 2) as nat,
        |c: int|
            if 2 * c + 1 < lanes.len() {
                Lane {
                    index: lanes[2 * c].index,
                    sketch: lanes[2 * c].sketch.merged(lanes[2 * c + 1].sketch),
                }
            } else {
                lanes[2 * c]
            },
    )
}

/// The record after the first `count` pairs of a round: the snapshots of a
/// merge follow those that the first sketch of the pair has shown before.
pub open spec fn pair_frames(lanes: Seq<Lane>, record: Seq<Seq<Frame>>, count: nat) -> Seq<
    Seq<Frame>,
>
    decreases count,
{
    if count == 0 {
        record
    } else {
        let c = (count - 1) as int;
        let before = pair_frames(lanes, record, c as nat);
        if 2 * c + 1 < lanes.len() {
            let index = lanes[2 * c].index as int;
            before.update(
                index,
                before[index] + lanes[2 * c].sketch.merge_frames(lanes[2 * c + 1].sketch),
            )
        } else {
            before
        }
    }
}

/// The record after as many rounds as it takes to come down to one lane.
pub open spec fn reduced_frames(lanes: Seq<Lane>, record: Seq<Seq<Frame>>) -> Seq<Seq<Frame>>
    decreases lanes.len(),
{
    if lanes.len() <= 1 {
        record
    } else {
        reduced_frames(paired(lanes), pair_frames(lanes, record, ((lanes.len() + 1) / 2) as nat))
    }
}

/// The lanes at the start: sketch `i` has ingested run `i`.
pub open spec fn started(k: nat, policy: Policy, runs: Seq<Seq<Element>>) -> Seq<Lane> {
    Seq::new(
        runs.len(),
        |i: int|
            Lane {
                index: i as nat,
                sketch: SketchView::initial(k, policy, true).ingested_all(runs[i]),
            },
    )
}

/// The record at the start: the snapshots of every sketch's ingestions.
pub open spec fn started_frames(k: nat, policy: Policy, runs: Seq<Seq<Element>>) -> Seq<
    Seq<Frame>,
> {
    Seq::new(
        runs.len(),
        |i: int| SketchView::initial(k, policy, true).ingest_all_frames(runs[i]),
    )
}

/// What holds of the lanes all through the reduction: the sketches are well
/// formed and share the size parameter, every lane has its place in the
/// record, and there is room in the pass count for the merges yet to come.
pub open spec fn lanes_fit(lanes: Seq<Lane>, k: nat, places: nat) -> bool {
    forall|i: int|
        0 <= i < lanes.len() ==> {
            &&& (#[trigger] lanes[i]).sketch.wf()
            &&& lanes[i].sketch.k == k
            &&& lanes[i].index < places
            &&& lanes[i].sketch.compactions + lanes.len() <= u64::MAX
        }
}

/// Builds one sketch for every run of samples, then merges the sketches in
/// pairs, round after round, until one is left. Returns the snapshots that
/// each sketch has shown: those of its ingestions, then those of the merges
/// into it.
pub fn make_frames(k: usize, policy: Policy, runs: &Vec<Vec<Element>>) -> (record: Vec<
    Vec<Vec<Compactor>>,
>)
    requires
        1 <= k < usize::MAX,
        forall|i: int| 0 <= i < runs@.len() ==> (#[trigger] runs@[i])@.len() + runs@.len()
            <= u64::MAX,
    ensures
        record_view(record@) == reduced_frames(
            started(k as nat, policy, runs_view(runs@)),
            started_frames(k as nat, policy, runs_view(runs@)),
        ),
{
    let ghost samples = runs_view(runs@);
    let mut record: Vec<Vec<Vec<Compactor>>> = Vec::new();
    let mut lanes: Vec<(usize, Compactors)> = Vec::new();
    let mut index: usize = 0;
    while index < runs.len()
        invariant
            index <= runs.len(),
            1 <= k < usize::MAX,
            samples == runs_view(runs@),
            forall|i: int| 0 <= i < runs@.len() ==> (#[trigger] runs@[i])@.len() + runs@.len()
                <= u64::MAX,
            lanes@.len() == index,
            record@.len() == index,
            forall|i: int|
                0 <= i < index ==> (#[trigger] lanes_view(lanes@)[i]) == started(
                    k as nat,
                    policy,
                    samples,
                )[i],
            forall|i: int|
                0 <= i < index ==> (#[trigger] record_view(record@)[i]) == started_frames(
                    k as nat,
                    policy,
                    samples,
                )[i],
        decreases runs.len() - index,
    {
        let mut frames: Vec<Vec<Compactor>> = Vec::new();
        let mut compactor = Compactors::new(k, policy, true);
        assert(runs@[index as int]@.len() + runs@.len() <= u64::MAX);
        feed(&mut compactor, &runs[index], &mut frames);
        assert(frames_view(frames@) =~= SketchView::initial(
            k as nat,
            policy,
            true,
        ).ingest_all_frames(samples[index as int]));
        let ghost lanes_before = lanes_view(lanes@);
        let ghost record_before = record_view(record@);
        lanes.push((index, compactor));
        record.push(frames);
        assert forall|i: int| 0 <= i < index + 1 implies (#[trigger] lanes_view(lanes@)[i])
            == started(k as nat, policy, samples)[i] by {
            if i < index {
                assert(lanes_view(lanes@)[i] == lanes_before[i]);
            }
        }
        assert forall|i: int| 0 <= i < index + 1 implies (#[trigger] record_view(record@)[i])
            == started_frames(k as nat, policy, samples)[i] by {
            if i < index {
                assert(record_view(record@)[i] == record_before[i]);
            }
        }
        index += 1;
    }
    assert(lanes_view(lanes@) =~= started(k as nat, policy, samples));
    assert(record_view(record@) =~= started_frames(k as nat, policy, samples));
    proof {
        assert forall|i: int| 0 <= i < lanes@.len() implies {
            &&& (#[trigger] lanes_view(lanes@)[i]).sketch.wf()
            &&& lanes_view(lanes@)[i].sketch.k == k
            &&& lanes_view(lanes@)[i].index < record@.len()
            &&& lanes_view(lanes@)[i].sketch.compactions + lanes@.len() <= u64::MAX
        } by {
            lemma_ingested_all_keeps(SketchView::initial(k as nat, policy, true), samples[i]);
            assert(runs@[i]@.len() + runs@.len() <= u64::MAX);
        }
    }
    let ghost goal = reduced_frames(lanes_view(lanes@), record_view(record@));
    while lanes.len() > 1
        invariant
            lanes_fit(lanes_view(lanes@), k as nat, record@.len()),
            reduced_frames(lanes_view(lanes@), record_view(record@)) == goal,
        decreases lanes.len(),
    {
        let ghost round = lanes_view(lanes@);
        let ghost round_record = record_view(record@);
        let ghost places = record@.len();
        let ghost whole = lanes@;
        let pairs = chunks(lanes, 2);
        let mut next: Vec<(usize, Compactors)> = Vec::new();
        for chunk in iter: pairs
            invariant
                iter.seq() == pairs@,
                round == lanes_view(whole),
                whole.len() >= 2,
                pairs@.len() == (whole.len() + 1) / 2,
                forall|c: int|
                    0 <= c < pairs@.len() ==> (#[trigger] pairs@[c])@ == whole.subrange(
                        2 * c,
                        if 2 * c + 2 <= whole.len() {
                            2 * c + 2
                        } else {
                            whole.len() as int
                        },
                    ),
                lanes_fit(round, k as nat, places),
                record@.len() == places,
                next@.len() == iter.index(),
                lanes_view(next@) == paired(round).take(iter.index() as int),
                record_view(record@) == pair_frames(round, round_record, iter.index() as nat),
            decreases pairs@.len() - iter.index(),
        {
            let ghost c = next@.len() as int;
            let ghost done = lanes_view(next@);
            let ghost shown_before = record_view(record@);
            let mut chunk = chunk;
            assert(chunk@ == whole.subrange(
                2 * c,
                if 2 * c + 2 <= whole.len() {
                    2 * c + 2
                } else {
                    whole.len() as int
                },
            ));
            assert(round[2 * c] == Lane { index: whole[2 * c].0 as nat, sketch: whole[2 * c].1@ });
            let second = chunk.pop();
            let first = chunk.pop();
            match (first, second) {
                (Some(head), Some(tail)) => {
                    assert(head == whole[2 * c]);
                    assert(tail == whole[2 * c + 1]);
                    assert(round[2 * c + 1] == Lane {
                        index: whole[2 * c + 1].0 as nat,
                        sketch: whole[2 * c + 1].1@,
                    });
                    let (place, mut sketch) = head;
                    let (_, other) = tail;
                    let mut shown = sketch.merge(other);
                    let ghost earlier = record@;
                    let ghost added = shown@;
                    record[place].append(&mut shown);
                    next.push((place, sketch));
                    assert(record@.len() == earlier.len());
                    assert(record@[place as int]@ == earlier[place as int]@ + added);
                    assert(frames_view(earlier[place as int]@ + added) =~= frames_view(
                        earlier[place as int]@,
                    ) + frames_view(added));
                    assert forall|i: int| 0 <= i < record@.len() && i != place implies record@[i]
                        == earlier[i] by {}
                    assert(record_view(record@) =~= shown_before.update(
                        place as int,
                        shown_before[place as int] + round[2 * c].sketch.merge_frames(
                            round[2 * c + 1].sketch,
                        ),
                    ));
                },
                (None, Some(single)) => {
                    assert(single == whole[2 * c]);
                    next.push(single);
                    assert(record_view(record@) =~= shown_before);
                },
                (_, None) => {
                    assert(false);
                },
            }
            assert(lanes_view(next@) =~= paired(round).take(c + 1)) by {
                assert(lanes_view(next@) =~= done.push(paired(round)[c]));
            }
        }
        proof {
            assert(paired(round).take(paired(round).len() as int) =~= paired(round));
            assert forall|i: int| 0 <= i < next@.len() implies {
                &&& (#[trigger] lanes_view(next@)[i]).sketch.wf()
                &&& lanes_view(next@)[i].sketch.k == k
                &&& lanes_view(next@)[i].index < places
                &&& lanes_view(next@)[i].sketch.compactions + next@.len() <= u64::MAX
            } by {
                assert(round[2 * i].sketch.wf());
                if 2 * i + 1 < round.len() {
                    let joined = round[2 * i].sketch.joined(round[2 * i + 1].sketch);
                    assert(round[2 * i + 1].sketch.wf());
                    lemma_scanned_keeps(joined.counted(), 0, joined.levels.len());
                }
            }
        }
        lanes = next;
    }
    record
}

} // verus!

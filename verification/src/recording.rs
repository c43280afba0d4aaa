//! Runs of values through a sketch: the snapshots of a run, and its summary.

use vstd::prelude::*;
use crate::compactor::{frames_view, Compactor, Element};
use crate::compactors::Compactors;
use crate::estimated_quantiles::{summarized, weighted_size, EstimatedQuantiles, WeightOverflow};
use crate::model::{Policy, SketchView};
use crate::summary::lemma_ingested_all_keeps;

verus! {

/// Ingests `samples` in order, and appends the snapshots to `frames`.
pub fn feed(sketch: &mut Compactors, samples: &Vec<Element>, frames: &mut Vec<Vec<Compactor>>)
    requires
        old(sketch)@.wf(),
        old(sketch)@.compactions + samples@.len() <= u64::MAX,
    ensures
        final(sketch)@ == old(sketch)@.ingested_all(samples@),
        final(sketch)@.wf(),
        frames_view(final(frames)@) == frames_view(old(frames)@) + old(sketch)@.ingest_all_frames(
            samples@,
        ),
{
    let ghost start = sketch@;
    let ghost recorded = frames_view(frames@);
    let mut index: usize = 0;
    while index < samples.len()
        invariant
            index <= samples.len(),
            start.wf(),
            start.compactions + samples@.len() <= u64::MAX,
            sketch@ == start.ingested_all(samples@.take(index as int)),
            sketch@.wf(),
            frames_view(frames@) == recorded + start.ingest_all_frames(samples@.take(index as int)),
        decreases samples.len() - index,
    {
        proof {
            lemma_ingested_all_keeps(start, samples@.take(index as int));
            assert(samples@.take(index + 1).drop_last() =~= samples@.take(index as int));
        }
        let ghost before = frames_view(frames@);
        let mut shown = sketch.update(samples[index]);
        frames.append(&mut shown);
        index += 1;
        assert(frames_view(frames@) =~= before + start.ingested_all(
            samples@.take(index - 1),
        ).ingest_frames(samples@[index - 1]));
        assert(frames_view(frames@) =~= recorded + start.ingest_all_frames(
            samples@.take(index as int),
        ));
    }
    assert(samples@.take(index as int) =~= samples@);
}

/// The snapshots of a new sketch that ingests `samples`.
pub fn make_frames(k: usize, policy: Policy, samples: &Vec<Element>) -> (frames: Vec<
    Vec<Compactor>,
>)
    requires
        1 <= k < usize::MAX,
    ensures
        frames_view(frames@) == SketchView::initial(k as nat, policy, true).ingest_all_frames(
            samples@,
        ),
{
    let mut frames: Vec<Vec<Compactor>> = Vec::new();
    let mut compactors = Compactors::new(k, policy, true);
    assert(samples.len() <= u64::MAX);
    feed(&mut compactors, samples, &mut frames);
    assert(frames_view(frames@) =~= SketchView::initial(
        k as nat,
        policy,
        true,
    ).ingest_all_frames(samples@));
    frames
}

/// The summary of a new sketch that has ingested `samples`.
pub fn make_est(k: usize, policy: Policy, samples: &Vec<Element>) -> (summary: Result<
    EstimatedQuantiles,
    WeightOverflow,
>)
    requires
        1 <= k < usize::MAX,
    ensures
        summary is Ok <==> weighted_size(
            SketchView::initial(k as nat, policy, false).ingested_all(samples@).levels,
        ) <= usize::MAX,
        summary matches Ok(quantiles) ==> quantiles.elements@ == summarized(
            SketchView::initial(k as nat, policy, false).ingested_all(samples@).levels,
        ) && quantiles.wf(),
{
    let mut frames: Vec<Vec<Compactor>> = Vec::new();
    let mut compactors = Compactors::new(k, policy, false);
    assert(samples.len() <= u64::MAX);
    feed(&mut compactors, samples, &mut frames);
    EstimatedQuantiles::from(compactors)
}

} // verus!

use compactors::compactor::Compactor;
use compactors::compactors::Compactors;
use compactors::model::Policy;
use compactors::parallel::make_frames;

fn run(count: u32, multiplier: u32, modulus: u32) -> Vec<u32> {
    (0..count).map(|i| (i * multiplier) % modulus).collect()
}

fn plain(frames: &[Vec<Compactor>]) -> Vec<Vec<(Vec<u32>, usize)>> {
    frames
        .iter()
        .map(|frame| frame.iter().map(|level| (level.data.clone(), level.capacity)).collect())
        .collect()
}

fn built(values: &[u32]) -> (Compactors, Vec<Vec<Compactor>>) {
    let mut sketch = Compactors::new(3, Policy::Eager, true);
    let mut frames = Vec::new();
    for &value in values {
        frames.extend(sketch.update(value));
    }
    (sketch, frames)
}

#[test]
fn no_runs_give_no_record() {
    assert!(make_frames(3, Policy::Eager, &Vec::new()).is_empty());
}

#[test]
fn a_single_run_is_only_ingested() {
    let values = run(9, 13, 97);
    let record = make_frames(3, Policy::Eager, &vec![values.clone()]);
    let (_, frames) = built(&values);
    assert_eq!(record.len(), 1);
    assert_eq!(plain(&record[0]), plain(&frames));
}

#[test]
fn four_runs_are_merged_in_two_rounds() {
    let runs = vec![run(9, 13, 97), run(7, 7919, 1000), run(12, 31, 500), run(5, 17, 89)];
    let record = make_frames(3, Policy::Eager, &runs);
    let (mut a, mut frames_a) = built(&runs[0]);
    let (b, frames_b) = built(&runs[1]);
    let (mut c, mut frames_c) = built(&runs[2]);
    let (d, frames_d) = built(&runs[3]);
    frames_a.extend(a.merge(b));
    frames_c.extend(c.merge(d));
    frames_a.extend(a.merge(c));
    assert_eq!(record.len(), 4);
    assert_eq!(plain(&record[0]), plain(&frames_a));
    assert_eq!(plain(&record[1]), plain(&frames_b));
    assert_eq!(plain(&record[2]), plain(&frames_c));
    assert_eq!(plain(&record[3]), plain(&frames_d));
    // The merges did compact, so the first record is longer than the
    // ingestions of its own run.
    assert!(record[0].len() > built(&runs[0]).1.len());
}

#[test]
fn an_odd_run_waits_for_the_next_round() {
    let runs = vec![run(9, 13, 97), run(7, 7919, 1000), run(12, 31, 500)];
    let record = make_frames(3, Policy::Lazy, &runs);
    let lazy = |values: &[u32]| {
        let mut sketch = Compactors::new(3, Policy::Lazy, true);
        let mut frames = Vec::new();
        for &value in values {
            frames.extend(sketch.update(value));
        }
        (sketch, frames)
    };
    let (mut a, mut frames_a) = lazy(&runs[0]);
    let (b, frames_b) = lazy(&runs[1]);
    let (c, frames_c) = lazy(&runs[2]);
    frames_a.extend(a.merge(b));
    frames_a.extend(a.merge(c));
    assert_eq!(record.len(), 3);
    assert_eq!(plain(&record[0]), plain(&frames_a));
    assert_eq!(plain(&record[1]), plain(&frames_b));
    assert_eq!(plain(&record[2]), plain(&frames_c));
}

use compactors::compactors::Compactors;
use compactors::estimated_quantiles::EstimatedQuantiles;
use compactors::model::Policy;
use compactors::recording::{feed, make_est, make_frames};
use compactors::sorting::sort_ascending;
use rand::rngs::StdRng;
use rand::SeedableRng;
use rand_distr::{Distribution, Normal};

fn samples() -> Vec<u32> {
    let distribution = Normal::new(10.0f32, 3.0f32).unwrap();
    let mut rng = StdRng::seed_from_u64(42);
    (1..100).map(|_| distribution.sample(&mut rng) as u32).collect()
}

#[test]
fn sorting_puts_a_buffer_in_ascending_order() {
    let mut values = vec![5, 3, 8, 3, 0, 4294967295, 8];
    sort_ascending(&mut values);
    assert_eq!(values, vec![0, 3, 3, 5, 8, 8, 4294967295]);
}

#[test]
fn frames_of_a_run_are_those_of_its_ingestions() {
    let values = vec![5, 3, 8, 1];
    let frames = make_frames(2, Policy::Eager, &values);
    let mut sketch = Compactors::new(2, Policy::Eager, true);
    let mut expected = Vec::new();
    for &value in &values {
        expected.extend(sketch.update(value));
    }
    assert_eq!(frames.len(), 6);
    assert_eq!(frames.len(), expected.len());
    for (frame, other) in frames.iter().zip(expected.iter()) {
        assert_eq!(frame.len(), other.len());
        for (level, other_level) in frame.iter().zip(other.iter()) {
            assert_eq!(level.data, other_level.data);
            assert_eq!(level.capacity, other_level.capacity);
        }
    }
    assert_eq!(frames[5][0].data, vec![1]);
    assert_eq!(frames[5][1].data, vec![5]);
}

#[test]
fn feeding_appends_to_the_frames_already_there() {
    let mut sketch = Compactors::new(2, Policy::Eager, true);
    let mut frames = Vec::new();
    feed(&mut sketch, &vec![5, 3], &mut frames);
    assert_eq!(frames.len(), 2);
    feed(&mut sketch, &vec![8], &mut frames);
    assert_eq!(frames.len(), 5);
    assert_eq!(sketch.num_compactions(), 3);
}

#[test]
fn the_summary_of_a_run_is_that_of_its_sketch() {
    let values: Vec<u32> = (0..99).map(|i| (i * 7919) % 1000).collect();
    let summary = make_est(10, Policy::Eager, &values).unwrap();
    let mut sketch = Compactors::new(10, Policy::Eager, false);
    for &value in &values {
        sketch.update(value);
    }
    assert_eq!(summary.elements, EstimatedQuantiles::from(sketch).unwrap().elements);
    assert_eq!(summary.estimated_element_count(), 91);
}

#[test]
fn eager_and_lazy_summaries_of_the_same_samples_count_alike() {
    let values = samples();
    assert_eq!(values.len(), 99);
    let eager = make_est(10, Policy::Eager, &values).unwrap();
    let lazy = make_est(10, Policy::Lazy, &values).unwrap();
    // Both sketches end with four levels. A refactoring of an odd number of
    // elements shifts the count by the weight of its level, so the counts
    // differ from the 99 ingested values, and from each other, by a few
    // weights, the heaviest being 8.
    assert_eq!(eager.estimated_element_count(), 91);
    assert_eq!(lazy.estimated_element_count(), 100);
    assert!(eager.estimated_element_count().abs_diff(99) <= 8);
    assert!(lazy.estimated_element_count().abs_diff(99) <= 8);
    // The lazy sketch has compacted less: it holds more entries, of lower
    // weights.
    assert_eq!(eager.elements.len(), 18);
    assert_eq!(lazy.elements.len(), 25);
    for summary in [&eager, &lazy] {
        for pair in summary.elements.windows(2) {
            assert!(pair[0].element <= pair[1].element);
        }
        for entry in &summary.elements {
            assert!([1, 2, 4, 8].contains(&entry.weight));
        }
    }
}

use compactors::compactor::{snapshot, Compactor};
use compactors::compactors::{occupancy, total_room, Compactors};
use compactors::estimated_quantiles::{EstimatedQuantiles, QuantileElement};
use compactors::model::Policy;

fn run(count: u32, multiplier: u32, modulus: u32, offset: u32) -> Vec<u32> {
    (0..count).map(|i| ((i + offset) * multiplier) % modulus).collect()
}

fn data(levels: &[Compactor]) -> Vec<Vec<u32>> {
    levels.iter().map(|level| level.data.clone()).collect()
}

fn capacities(levels: &[Compactor]) -> Vec<usize> {
    levels.iter().map(|level| level.capacity).collect()
}

fn entry(element: u32, weight: usize) -> QuantileElement {
    QuantileElement { weight, element }
}

#[test]
fn new_sketch_has_one_empty_level_of_capacity_k_plus_one() {
    let sketch = Compactors::new(10, Policy::Eager, false);
    assert_eq!(sketch.k(), 10);
    assert_eq!(sketch.num_compactions(), 0);
    assert_eq!(sketch.policy(), Policy::Eager);
    assert!(!sketch.observed());
    assert_eq!(sketch.size(), 0);
    assert_eq!(sketch.total_capacity(), 11);
    let levels = sketch.into();
    assert_eq!(data(&levels), vec![Vec::<u32>::new()]);
    assert_eq!(capacities(&levels), vec![11]);
}

#[test]
fn three_values_with_k_two_promote_the_middle_one() {
    let mut sketch = Compactors::new(2, Policy::Eager, false);
    assert_eq!(capacities(&sketch.levels()), vec![3]);
    sketch.update(5);
    sketch.update(3);
    assert_eq!(data(&sketch.levels()), vec![vec![5, 3]]);
    sketch.update(8);
    assert_eq!(sketch.num_compactions(), 3);
    let levels = sketch.levels();
    assert_eq!(data(&levels), vec![vec![], vec![5]]);
    assert_eq!(capacities(&levels), vec![3, 3]);
    let summary = EstimatedQuantiles::from(sketch).unwrap();
    assert_eq!(summary.elements, vec![entry(5, 2)]);
    assert_eq!(summary.estimated_element_count(), 2);
}

#[test]
fn an_even_pass_keeps_the_even_positions() {
    // The fourth pass is the first to find level 0 full: positions 0 and 2
    // of [1, 4, 7, 9] stay.
    let mut sketch = Compactors::new(3, Policy::Eager, false);
    for value in [9, 1, 7, 4] {
        sketch.update(value);
    }
    assert_eq!(data(&sketch.levels()), vec![vec![], vec![1, 7]]);
}

#[test]
fn an_odd_pass_keeps_the_odd_positions() {
    let mut sketch = Compactors::new(4, Policy::Eager, false);
    for value in [9, 1, 7, 4, 3] {
        sketch.update(value);
    }
    assert_eq!(data(&sketch.levels()), vec![vec![], vec![3, 7]]);
}

#[test]
fn eager_run_of_ninety_nine_values() {
    let mut sketch = Compactors::new(10, Policy::Eager, false);
    for value in run(99, 7919, 1000, 0) {
        sketch.update(value);
    }
    assert_eq!(sketch.num_compactions(), 99);
    let levels = sketch.levels();
    assert_eq!(
        data(&levels),
        vec![
            vec![62],
            vec![143, 305, 467],
            vec![6, 411, 735, 897, 196, 601, 791],
            vec![140, 299, 461, 623, 707, 841, 950],
        ]
    );
    assert_eq!(capacities(&levels), vec![5, 6, 8, 11]);
    assert_eq!(sketch.size(), 18);
    assert_eq!(sketch.total_capacity(), 30);
    let summary = EstimatedQuantiles::from(sketch).unwrap();
    assert_eq!(summary.estimated_element_count(), 91);
    let expected: Vec<QuantileElement> = [
        (6, 4), (62, 1), (140, 8), (143, 2), (196, 4), (299, 8), (305, 2), (411, 4), (461, 8),
        (467, 2), (601, 4), (623, 8), (707, 8), (735, 4), (791, 4), (841, 8), (897, 4), (950, 8),
    ]
    .iter()
    .map(|&(element, weight)| entry(element, weight))
    .collect();
    assert_eq!(summary.elements, expected);
}

#[test]
fn lazy_run_of_ninety_nine_values() {
    let mut sketch = Compactors::new(10, Policy::Lazy, false);
    for value in run(99, 7919, 1000, 0) {
        sketch.update(value);
    }
    let levels = sketch.levels();
    assert_eq!(
        data(&levels),
        vec![
            vec![305, 224, 143, 62],
            vec![6, 168, 763, 925, 115, 277, 386, 467, 548, 629, 710, 872],
            vec![],
            vec![56, 165, 327, 411, 514, 651, 735, 838, 978],
        ]
    );
    assert_eq!(capacities(&levels), vec![5, 6, 8, 11]);
    let summary = EstimatedQuantiles::from(sketch).unwrap();
    assert_eq!(summary.estimated_element_count(), 100);
}

#[test]
fn eager_ingestion_leaves_every_level_below_its_capacity() {
    for k in [1usize, 2, 3, 7, 10, 50] {
        let mut sketch = Compactors::new(k, Policy::Eager, false);
        for value in run(2000, 48271, 65521, 1) {
            sketch.update(value);
            for level in sketch.levels() {
                assert!(level.data.len() < level.capacity);
            }
        }
    }
}

#[test]
fn lazy_ingestion_stays_below_the_total_capacity() {
    for k in [1usize, 2, 3, 7, 10, 50] {
        let mut sketch = Compactors::new(k, Policy::Lazy, false);
        for value in run(2000, 48271, 65521, 1) {
            sketch.update(value);
            assert!(sketch.size() < sketch.total_capacity());
        }
    }
}

#[test]
fn capacities_follow_the_formula_as_levels_are_added() {
    let mut sketch = Compactors::new(10, Policy::Eager, false);
    for value in run(500, 7919, 1000, 0) {
        sketch.update(value);
        let levels = sketch.levels();
        for (index, level) in levels.iter().enumerate() {
            assert_eq!(level.capacity, sketch.capacity(index));
        }
        assert_eq!(levels.last().unwrap().capacity, 11);
    }
}

#[test]
fn without_compaction_the_count_is_exact() {
    let values = run(50, 7919, 1000, 0);
    let mut sketch = Compactors::new(100, Policy::Eager, false);
    for &value in &values {
        sketch.update(value);
    }
    assert_eq!(sketch.levels().len(), 1);
    let summary = EstimatedQuantiles::from(sketch).unwrap();
    assert_eq!(summary.estimated_element_count(), 50);
    let mut sorted = values.clone();
    sorted.sort();
    let expected: Vec<QuantileElement> = sorted.iter().map(|&value| entry(value, 1)).collect();
    assert_eq!(summary.elements, expected);
}

#[test]
fn merge_appends_level_by_level_and_carries_the_longer_tail() {
    let mut first = Compactors::new(10, Policy::Eager, false);
    for value in run(5, 7919, 1000, 500) {
        first.update(value);
    }
    let mut second = Compactors::new(10, Policy::Eager, false);
    for value in run(40, 31, 500, 0) {
        second.update(value);
    }
    assert_eq!(data(&first.levels()), vec![vec![500, 419, 338, 257, 176]]);
    assert_eq!(
        data(&second.levels()),
        vec![vec![209], vec![368, 430, 492, 54, 116, 178], vec![58, 120, 182, 244, 306, 434]]
    );
    first.merge(second);
    assert_eq!(first.num_compactions(), 6);
    let levels = first.levels();
    // No level is full, so nothing moves, and the capacities stay as they
    // came: that of level 0 from the first sketch, the others from the second.
    assert_eq!(
        data(&levels),
        vec![
            vec![500, 419, 338, 257, 176, 209],
            vec![368, 430, 492, 54, 116, 178],
            vec![58, 120, 182, 244, 306, 434],
        ]
    );
    assert_eq!(capacities(&levels), vec![11, 8, 11]);
}

#[test]
fn merge_into_the_longer_sketch_compacts_what_overflows() {
    let mut first = Compactors::new(10, Policy::Eager, false);
    for value in run(40, 31, 500, 0) {
        first.update(value);
    }
    let mut second = Compactors::new(10, Policy::Eager, false);
    for value in run(5, 7919, 1000, 500) {
        second.update(value);
    }
    first.merge(second);
    assert_eq!(first.num_compactions(), 41);
    let levels = first.levels();
    assert_eq!(
        data(&levels),
        vec![vec![], vec![], vec![58, 120, 182, 244, 306, 434, 116, 209, 368, 492]]
    );
    assert_eq!(capacities(&levels), vec![6, 8, 11]);
}

#[test]
fn lazy_merge_adds_a_level() {
    let mut first = Compactors::new(3, Policy::Lazy, false);
    for value in run(7, 7919, 1000, 0) {
        first.update(value);
    }
    let mut second = Compactors::new(3, Policy::Lazy, false);
    for value in run(9, 13, 97, 0) {
        second.update(value);
    }
    assert_eq!(data(&first.levels()), vec![vec![676, 595, 514], vec![0, 838]]);
    assert_eq!(data(&second.levels()), vec![vec![52, 65, 78, 91, 7], vec![0, 26]]);
    first.merge(second);
    let levels = first.levels();
    assert_eq!(data(&levels), vec![vec![], vec![], vec![0, 7, 65, 595]]);
    assert_eq!(capacities(&levels), vec![3, 4, 4]);
    assert_eq!(first.size(), 4);
    assert_eq!(first.total_capacity(), 11);
}

#[test]
fn a_merge_that_compacts_nothing_keeps_every_value() {
    let left = run(4, 7919, 1000, 0);
    let right = run(5, 31, 500, 3);
    let mut first = Compactors::new(10, Policy::Eager, false);
    for &value in &left {
        first.update(value);
    }
    let mut second = Compactors::new(10, Policy::Eager, false);
    for &value in &right {
        second.update(value);
    }
    let mut first_alone = Compactors::new(10, Policy::Eager, false);
    for &value in &left {
        first_alone.update(value);
    }
    let mut second_alone = Compactors::new(10, Policy::Eager, false);
    for &value in &right {
        second_alone.update(value);
    }
    first.merge(second);
    let merged = EstimatedQuantiles::from(first).unwrap();
    let mut separate: Vec<u32> = EstimatedQuantiles::from(first_alone)
        .unwrap()
        .elements
        .iter()
        .chain(EstimatedQuantiles::from(second_alone).unwrap().elements.iter())
        .map(|entry| entry.element)
        .collect();
    separate.sort();
    let together: Vec<u32> = merged.elements.iter().map(|entry| entry.element).collect();
    assert_eq!(together, separate);
    assert_eq!(together.len(), 9);
}

#[test]
fn an_observed_ingestion_shows_the_append_and_both_sides_of_a_refactoring() {
    let mut sketch = Compactors::new(2, Policy::Eager, true);
    let frames = sketch.update(5);
    assert_eq!(frames.len(), 1);
    assert_eq!(data(&frames[0]), vec![vec![5]]);
    let frames = sketch.update(3);
    assert_eq!(frames.len(), 1);
    assert_eq!(data(&frames[0]), vec![vec![5, 3]]);
    let frames = sketch.update(8);
    assert_eq!(frames.len(), 3);
    assert_eq!(data(&frames[0]), vec![vec![5, 3, 8]]);
    assert_eq!(capacities(&frames[0]), vec![3]);
    assert_eq!(data(&frames[1]), vec![vec![3, 5, 8], vec![]]);
    assert_eq!(capacities(&frames[1]), vec![3, 3]);
    assert_eq!(data(&frames[2]), vec![vec![], vec![5]]);
}

#[test]
fn an_unobserved_sketch_shows_nothing() {
    let mut sketch = Compactors::new(2, Policy::Eager, false);
    for value in [5, 3, 8, 1, 9, 2, 7] {
        assert!(sketch.update(value).is_empty());
    }
    let other = Compactors::new(2, Policy::Eager, true);
    assert!(sketch.merge(other).is_empty());
}

#[test]
fn an_observed_merge_shows_its_refactorings() {
    let mut first = Compactors::new(2, Policy::Eager, true);
    first.update(4);
    first.update(1);
    let mut second = Compactors::new(2, Policy::Eager, false);
    second.update(3);
    second.update(2);
    let frames = first.merge(second);
    assert_eq!(frames.len(), 2);
    assert_eq!(data(&frames[0]), vec![vec![1, 2, 3, 4], vec![]]);
    // The third pass of the first sketch is odd: positions 1 and 3 stay.
    assert_eq!(data(&frames[1]), vec![vec![], vec![2, 4]]);
}

#[test]
fn a_snapshot_is_independent_of_the_sketch() {
    let mut sketch = Compactors::new(5, Policy::Eager, true);
    let mut frames = sketch.update(1);
    frames[0][0].data.push(99);
    frames[0][0].capacity = 0;
    let levels = sketch.levels();
    assert_eq!(data(&levels), vec![vec![1]]);
    assert_eq!(capacities(&levels), vec![6]);
}

#[test]
fn after_a_merge_an_ingestion_can_leave_a_level_over_its_capacity() {
    // The merge leaves the highest level full. The next pass refactors it,
    // which adds a level and lowers every capacity, that of level 1 to
    // below what level 1 holds.
    let mut first = Compactors::new(12, Policy::Eager, false);
    for value in run(108, 7919, 1000, 0) {
        first.update(value);
    }
    let mut second = Compactors::new(12, Policy::Eager, false);
    for value in run(117, 31, 500, 0) {
        second.update(value);
    }
    first.merge(second);
    assert_eq!(capacities(&first.levels()), vec![4, 6, 7, 10, 13]);
    first.update(1);
    let levels = first.levels();
    let sizes: Vec<usize> = levels.iter().map(|level| level.data.len()).collect();
    assert_eq!(sizes, vec![0, 5, 0, 0, 0, 7]);
    assert_eq!(capacities(&levels), vec![4, 4, 6, 7, 10, 13]);
}

#[test]
fn occupancy_and_room_of_plain_levels() {
    let levels = vec![
        Compactor { data: vec![1, 2, 3], capacity: 6 },
        Compactor { data: vec![], capacity: 8 },
        Compactor { data: vec![4], capacity: 11 },
    ];
    assert_eq!(occupancy(&levels), 4);
    assert_eq!(total_room(&levels), 25);
    assert_eq!(occupancy(&Vec::new()), 0);
}

#[test]
fn a_copy_of_the_levels_holds_what_they_hold() {
    let levels = vec![Compactor::new(6), Compactor { data: vec![4, 2], capacity: 11 }];
    let copy = snapshot(&levels);
    assert_eq!(data(&copy), vec![vec![], vec![4, 2]]);
    assert_eq!(capacities(&copy), vec![6, 11]);
    let mut level = Compactor::new(3);
    level.update(9);
    level.update(1);
    assert_eq!(level.data, vec![9, 1]);
    assert_eq!(level.capacity, 3);
    let twin = level.clone();
    assert_eq!(twin.data, vec![9, 1]);
    assert_eq!(twin.capacity, 3);
}

#[test]
fn after_merges_a_lazy_sketch_can_hold_more_than_its_total_capacity() {
    // Merging into a sketch of one level keeps the capacity 11 of its level
    // 0, and carries level 1 with its capacity 11. Two such sketches merged
    // hold 31 elements in level 1: half of them move up, every capacity is
    // set anew, and what is left is more than the new capacities allow.
    let lazy = |count: u32| {
        let mut sketch = Compactors::new(10, Policy::Lazy, false);
        for value in run(count, 7919, 1000, 0) {
            sketch.update(value);
        }
        sketch
    };
    let sizes = |sketch: &Compactors| -> Vec<usize> {
        sketch.levels().iter().map(|level| level.data.len()).collect()
    };
    let mut first = lazy(9);
    first.merge(lazy(30));
    first.update(1);
    assert_eq!(sizes(&first), vec![1, 19]);
    assert_eq!(capacities(&first.levels()), vec![11, 11]);
    let mut second = lazy(4);
    second.merge(lazy(30));
    assert_eq!(sizes(&second), vec![9, 12]);
    first.merge(second);
    assert_eq!(sizes(&first), vec![10, 0, 16]);
    assert_eq!(capacities(&first.levels()), vec![6, 8, 11]);
    assert_eq!(first.size(), 26);
    assert_eq!(first.total_capacity(), 25);
}

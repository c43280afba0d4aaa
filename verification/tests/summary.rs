use compactors::compactor::Compactor;
use compactors::estimated_quantiles::{
    checked_weight, sort_key, EstimatedQuantiles, QuantileElement, WeightOverflow,
};

fn level(data: Vec<u32>) -> Compactor {
    Compactor { data, capacity: 11 }
}

fn entry(element: u32, weight: usize) -> QuantileElement {
    QuantileElement { weight, element }
}

#[test]
fn entries_are_weighted_by_level_and_sorted_by_value() {
    let summary =
        EstimatedQuantiles::from_levels(vec![level(vec![9, 1]), level(vec![5]), level(vec![7, 2])])
            .unwrap();
    assert_eq!(
        summary.elements,
        vec![entry(1, 1), entry(2, 4), entry(5, 2), entry(7, 4), entry(9, 1)]
    );
    assert_eq!(summary.estimated_element_count(), 12);
}

#[test]
fn equal_values_stand_in_ascending_order_of_weight() {
    let summary = EstimatedQuantiles::from_levels(vec![
        level(vec![4, 4]),
        level(vec![4, 3]),
        level(vec![]),
        level(vec![4]),
    ])
    .unwrap();
    assert_eq!(
        summary.elements,
        vec![entry(3, 2), entry(4, 1), entry(4, 1), entry(4, 2), entry(4, 8)]
    );
    assert_eq!(summary.estimated_element_count(), 14);
}

#[test]
fn no_levels_give_an_empty_summary() {
    let summary = EstimatedQuantiles::from_levels(Vec::new()).unwrap();
    assert!(summary.elements.is_empty());
    assert_eq!(summary.estimated_element_count(), 0);
}

#[test]
fn the_highest_weight_that_fits() {
    let mut levels: Vec<Compactor> = (0..usize::BITS - 1).map(|_| level(vec![])).collect();
    levels.push(level(vec![3]));
    levels[0].data.push(8);
    let summary = EstimatedQuantiles::from_levels(levels).unwrap();
    let top = 1usize << (usize::BITS - 1);
    assert_eq!(summary.elements, vec![entry(3, top), entry(8, 1)]);
    assert_eq!(summary.estimated_element_count(), top + 1);
}

#[test]
fn a_weight_beyond_the_weight_type_is_an_overflow() {
    let mut levels: Vec<Compactor> = (0..usize::BITS).map(|_| level(vec![])).collect();
    levels.push(level(vec![3]));
    assert_eq!(EstimatedQuantiles::from_levels(levels).err(), Some(WeightOverflow));
}

#[test]
fn a_sum_of_weights_beyond_the_weight_type_is_an_overflow() {
    let mut levels: Vec<Compactor> = (0..usize::BITS - 1).map(|_| level(vec![])).collect();
    levels.push(level(vec![3, 4]));
    assert_eq!(EstimatedQuantiles::from_levels(levels).err(), Some(WeightOverflow));
}

#[test]
fn empty_levels_beyond_the_weight_type_do_not_overflow() {
    let mut levels: Vec<Compactor> = vec![level(vec![6])];
    levels.extend((0..2 * usize::BITS).map(|_| level(vec![])));
    let summary = EstimatedQuantiles::from_levels(levels).unwrap();
    assert_eq!(summary.elements, vec![entry(6, 1)]);
}

#[test]
fn weights_are_added_up_while_they_fit() {
    assert_eq!(checked_weight(&Vec::new()), Some(0));
    assert_eq!(checked_weight(&vec![entry(1, 3), entry(2, 4)]), Some(7));
    assert_eq!(checked_weight(&vec![entry(1, usize::MAX - 1), entry(2, 1)]), Some(usize::MAX));
    assert_eq!(checked_weight(&vec![entry(1, usize::MAX), entry(2, 1)]), None);
    let summary = EstimatedQuantiles { elements: vec![entry(1, usize::MAX), entry(2, 1)] };
    assert!(!summary.is_wf());
    let summary = EstimatedQuantiles { elements: vec![entry(1, 5), entry(2, 1)] };
    assert!(summary.is_wf());
    assert_eq!(summary.estimated_element_count(), 6);
}

#[test]
fn the_key_of_an_entry_is_its_value_then_its_weight() {
    assert_eq!(sort_key(&entry(7, 4)), (7, 4));
}

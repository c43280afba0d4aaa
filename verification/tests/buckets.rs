use compactors::buckets::{Bar, Bucketer};
use compactors::compactor::Compactor;
use compactors::estimated_quantiles::{EstimatedQuantiles, QuantileElement};
use compactors::layout::Rectangle;

fn entry(element: u32, weight: usize) -> QuantileElement {
    QuantileElement { weight, element }
}

fn summary() -> EstimatedQuantiles {
    EstimatedQuantiles::from_levels(vec![
        Compactor { data: vec![40, 10], capacity: 6 },
        Compactor { data: vec![30, 20], capacity: 8 },
        Compactor { data: vec![50], capacity: 11 },
    ])
    .unwrap()
}

#[test]
fn a_new_bucketer_has_dealt_nothing() {
    let bucketer = Bucketer::new(summary(), 3);
    assert_eq!(bucketer.estimated_element_count, 10);
    assert_eq!(bucketer.elements_seen, 0);
    assert_eq!(bucketer.elements.len(), 5);
    assert_eq!(bucketer.buckets, vec![Vec::new(), Vec::new(), Vec::new()]);
}

#[test]
fn entries_go_to_the_bucket_of_the_weight_before_them() {
    // Ten in all, three buckets: a share is 3.
    let mut bucketer = Bucketer::new(summary(), 3);
    bucketer.step();
    assert_eq!(bucketer.elements_seen, 1);
    assert_eq!(bucketer.buckets, vec![vec![entry(10, 1)], vec![], vec![]]);
    bucketer.step();
    assert_eq!(bucketer.elements_seen, 3);
    assert_eq!(bucketer.buckets, vec![vec![entry(10, 1), entry(20, 2)], vec![], vec![]]);
    bucketer.step();
    assert_eq!(bucketer.elements_seen, 5);
    assert_eq!(
        bucketer.buckets,
        vec![vec![entry(10, 1), entry(20, 2)], vec![entry(30, 2)], vec![]]
    );
    bucketer.step();
    assert_eq!(bucketer.elements_seen, 6);
    bucketer.step();
    assert_eq!(bucketer.elements_seen, 10);
    assert!(bucketer.elements.is_empty());
    assert_eq!(
        bucketer.buckets,
        vec![
            vec![entry(10, 1), entry(20, 2)],
            vec![entry(30, 2), entry(40, 1)],
            vec![entry(50, 4)],
        ]
    );
    bucketer.step();
    assert_eq!(bucketer.elements_seen, 10);
    assert_eq!(bucketer.buckets[2], vec![entry(50, 4)]);
}

#[test]
fn a_bucket_beyond_the_last_is_the_last() {
    // Thirteen in all, seven buckets: a share is 1, and weight 12 before the
    // last entry would name bucket 12.
    let levels = vec![Compactor { data: (0..13).collect(), capacity: 20 }];
    let mut bucketer = Bucketer::new(EstimatedQuantiles::from_levels(levels).unwrap(), 7);
    for _ in 0..13 {
        bucketer.step();
    }
    let sizes: Vec<usize> = bucketer.buckets.iter().map(|bucket| bucket.len()).collect();
    assert_eq!(sizes, vec![1, 1, 1, 1, 1, 1, 7]);
    assert_eq!(bucketer.buckets[6][0], entry(6, 1));
    assert_eq!(bucketer.buckets[6][6], entry(12, 1));
}

#[test]
fn the_sizes_of_the_two_pictures() {
    let mut bucketer = Bucketer::new(summary(), 3);
    assert_eq!(bucketer.elements_size(), (60, 20));
    assert_eq!(bucketer.buckets_size(), (36, 10));
    bucketer.step();
    bucketer.step();
    assert_eq!(bucketer.elements_size(), (36, 20));
    assert_eq!(bucketer.buckets_size(), (36, 7));
}

#[test]
fn an_empty_summary_has_nothing_to_deal() {
    let empty = EstimatedQuantiles::from_levels(vec![Compactor { data: vec![], capacity: 11 }]);
    let mut bucketer = Bucketer::new(empty.unwrap(), 7);
    assert_eq!(bucketer.estimated_element_count, 0);
    bucketer.step();
    assert_eq!(bucketer.elements_seen, 0);
    assert!(bucketer.buckets.iter().all(|bucket| bucket.is_empty()));
    assert_eq!(bucketer.elements_size(), (0, 20));
    assert_eq!(bucketer.buckets_size(), (84, 0));
}

#[test]
fn the_bars_of_the_entries_stand_side_by_side() {
    let bucketer = Bucketer::new(summary(), 3);
    let bars = bucketer.render_elements();
    let bar = |x, h, element| Bar { rect: Rectangle { x, y: 0, w: 10, h }, element };
    assert_eq!(
        bars,
        vec![bar(0, 1, 10), bar(12, 2, 20), bar(24, 2, 30), bar(36, 1, 40), bar(48, 4, 50)]
    );
    assert!(bucketer.render_bucket().is_empty());
}

#[test]
fn the_bars_of_a_bucket_are_stacked() {
    let mut bucketer = Bucketer::new(summary(), 3);
    for _ in 0..5 {
        bucketer.step();
    }
    let bar = |x, y, h, element| Bar { rect: Rectangle { x, y, w: 10, h }, element };
    assert_eq!(
        bucketer.render_bucket(),
        vec![bar(0, 0, 1, 10), bar(0, 1, 2, 20), bar(12, 0, 2, 30), bar(12, 2, 1, 40), bar(24, 0, 4, 50)]
    );
    assert!(bucketer.render_elements().is_empty());
}

#[test]
fn a_state_is_well_formed_while_its_weights_add_up() {
    let mut bucketer = Bucketer::new(summary(), 3);
    assert!(bucketer.is_wf());
    bucketer.step();
    bucketer.step();
    assert!(bucketer.is_wf());
    bucketer.elements_seen += 1;
    assert!(!bucketer.is_wf());
    bucketer.elements_seen -= 1;
    bucketer.estimated_element_count = 2;
    assert!(!bucketer.is_wf());
    bucketer.estimated_element_count = 10;
    bucketer.elements[0].weight = usize::MAX;
    assert!(!bucketer.is_wf());
    bucketer.elements.clear();
    bucketer.buckets.clear();
    assert!(!bucketer.is_wf());
    bucketer.elements_seen = 0;
    assert!(bucketer.is_wf());
}

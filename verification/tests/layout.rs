use compactors::compactor::Compactor;
use compactors::layout::{
    capacity_rects, compactor_cells, compactor_element_to_rect, frame_fits, frame_size,
    max_frame_size, Cell, Paint, Rectangle,
};

fn level(data: Vec<u32>, capacity: usize) -> Compactor {
    Compactor { data, capacity }
}

fn rect(x: u32, y: u32, w: u32, h: u32) -> Rectangle {
    Rectangle { x, y, w, h }
}

#[test]
fn the_cell_of_an_element() {
    assert_eq!(compactor_element_to_rect(0, 0, 7), rect(2, 2, 10, 7));
    assert_eq!(compactor_element_to_rect(3, 5, 19), rect(62, 68, 10, 19));
}

#[test]
fn the_cells_of_a_row_of_capacity() {
    assert_eq!(
        capacity_rects(1, 3),
        vec![rect(2, 24, 10, 20), rect(14, 24, 10, 20), rect(26, 24, 10, 20)]
    );
    assert!(capacity_rects(4, 0).is_empty());
}

#[test]
fn the_size_of_a_frame() {
    assert_eq!(frame_size(&Vec::new()), (2, 2));
    assert_eq!(frame_size(&vec![level(vec![], 11)]), (2, 24));
    let frame = vec![level(vec![1, 2], 6), level(vec![1, 2, 3, 4, 5], 8), level(vec![9], 11)];
    assert_eq!(frame_size(&frame), (62, 68));
}

#[test]
fn the_size_that_holds_every_frame() {
    assert_eq!(max_frame_size(&Vec::new()), (0, 0));
    let frames = vec![
        vec![level(vec![1, 2, 3, 4, 5, 6, 7], 11)],
        vec![level(vec![], 8), level(vec![1, 2, 3], 11)],
        vec![level(vec![1], 6), level(vec![], 8), level(vec![1], 11)],
    ];
    assert_eq!(max_frame_size(&frames), (86, 68));
}

#[test]
fn the_cells_of_a_frame() {
    // Three elements in all: the first three places of capacity are in use,
    // counted through the rows.
    let frame = vec![level(vec![6], 2), level(vec![15, 3], 2)];
    let cell = |x, y, h, paint| Cell { rect: rect(x, y, 10, h), paint };
    assert_eq!(
        compactor_cells(&frame),
        vec![
            cell(2, 2, 20, Paint::UsedCapacity),
            cell(14, 2, 20, Paint::UsedCapacity),
            cell(2, 2, 6, Paint::Element),
            cell(2, 24, 20, Paint::UsedCapacity),
            cell(14, 24, 20, Paint::Capacity),
            cell(2, 24, 15, Paint::Element),
            cell(14, 24, 3, Paint::Element),
        ]
    );
}

#[test]
fn an_overfull_sketch_uses_every_place() {
    let frame = vec![level(vec![1, 2, 3], 1), level(vec![], 1)];
    let paints: Vec<Paint> = compactor_cells(&frame).iter().map(|cell| cell.paint).collect();
    assert_eq!(
        paints,
        vec![
            Paint::UsedCapacity,
            Paint::Element,
            Paint::Element,
            Paint::Element,
            Paint::UsedCapacity,
        ]
    );
}

#[test]
fn a_frame_fits_while_its_cells_can_be_addressed() {
    assert!(frame_fits(&Vec::new()));
    assert!(frame_fits(&vec![level(vec![1, 2, 3], 11)]));
    assert!(frame_fits(&vec![level(vec![], 357913942)]));
    assert!(!frame_fits(&vec![level(vec![], 357913943)]));
    assert!(frame_fits(&vec![level(vec![], 0)]));
}

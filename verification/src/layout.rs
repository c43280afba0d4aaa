//! The picture of a sketch: one row per level, one cell per place of its
//! capacity, and over them one cell per element, as high as its value.

use vstd::prelude::*;
use crate::compactor::{levels_view, Compactor, Element, LevelView};
use crate::compactors::occupancy;
use crate::model::{capacities, sizes};
use crate::sums::total;

verus! {

/// The width of a cell.
pub const ELEMENT_WIDTH: u32 = 10;

/// The gap between neighbouring cells and rows, and along the edge.
pub const SPACE_BETWEEN_ELEMENTS: u32 = 2;

/// The height of a row, and of the cell of a place of capacity.
pub const MAX_ELEMENT_HEIGHT: u32 = 20;

/// A rectangle of the picture, by its upper left corner and its extent.
#[derive(Clone, Copy, Debug, PartialEq, Eq)]
pub struct Rectangle {
    pub x: u32,
    pub y: u32,
    pub w: u32,
    pub h: u32,
}

/// What a cell shows.
#[derive(Clone, Copy, Debug, PartialEq, Eq)]
pub enum Paint {
    /// A place of capacity that the sketch, taken as a whole, has in use.
    UsedCapacity,
    /// A place of capacity beyond what the sketch holds.
    Capacity,
    /// An element.
    Element,
}

/// One cell of the picture.
#[derive(Clone, Copy, Debug, PartialEq, Eq)]
pub struct Cell {
    pub rect: Rectangle,
    pub paint: Paint,
}

/// The distance from one cell to the next in a row.
pub open spec fn pitch() -> nat {
    (ELEMENT_WIDTH + SPACE_BETWEEN_ELEMENTS) as nat
}

/// The distance from one row to the next.
pub open spec fn row_pitch() -> nat {
    (MAX_ELEMENT_HEIGHT + SPACE_BETWEEN_ELEMENTS) as nat
}

/// The left edge of the cell at `index` of a row.
pub open spec fn cell_x(index: nat) -> nat {
    SPACE_BETWEEN_ELEMENTS as nat + index * pitch()
}

/// The upper edge of the row of `level`.
pub open spec fn row_y(level: nat) -> nat {
    SPACE_BETWEEN_ELEMENTS as nat + level * row_pitch()
}

/// The cell at `index` of the row of `level`, `height` high.
pub open spec fn cell_rect(level: nat, index: nat, height: nat) -> Rectangle {
    Rectangle {
        x: cell_x(index) as u32,
        y: row_y(level) as u32,
        w: ELEMENT_WIDTH,
        h: height as u32,
    }
}

/// The length of the longest buffer.
pub open spec fn longest(levels: Seq<LevelView>) -> nat
    decreases levels.len(),
{
    if levels.len() == 0 {
        0
    } else if longest(levels.drop_last()) >= levels.last().data.len() {
        longest(levels.drop_last())
    } else {
        levels.last().data.len()
    }
}

/// The width of the picture of a snapshot: room for its longest buffer.
pub open spec fn frame_width(levels: Seq<LevelView>) -> nat {
    cell_x(longest(levels))
}

/// The height of the picture of a snapshot: room for all its rows.
pub open spec fn frame_height(levels: Seq<LevelView>) -> nat {
    row_y(levels.len())
}

/// The width of the widest of the given snapshots, 0 if there is none.
pub open spec fn widest(frames: Seq<Seq<LevelView>>) -> nat
    decreases frames.len(),
{
    if frames.len() == 0 {
        0
    } else if widest(frames.drop_last()) >= frame_width(frames.last()) {
        widest(frames.drop_last())
    } else {
        frame_width(frames.last())
    }
}

/// The height of the highest of the given snapshots, 0 if there is none.
pub open spec fn highest(frames: Seq<Seq<LevelView>>) -> nat
    decreases frames.len(),
{
    if frames.len() == 0 {
        0
    } else if highest(frames.drop_last()) >= frame_height(frames.last()) {
        highest(frames.drop_last())
    } else {
        frame_height(frames.last())
    }
}

/// The cells of the places of capacity of one row. A place counts as used
/// while the places before it, those of the lower rows included, are fewer
/// than the elements of the whole sketch.
pub open spec fn capacity_cells(level: nat, capacity: nat, before: nat, held: nat) -> Seq<Cell> {
    Seq::new(
        capacity,
        |i: int|
            Cell {
                rect: cell_rect(level, i as nat, MAX_ELEMENT_HEIGHT as nat),
                paint: if before + i < held {
                    Paint::UsedCapacity
                } else {
                    Paint::Capacity
                },
            },
    )
}

/// The cells of the elements of one row.
pub open spec fn element_cells(level: nat, data: Seq<Element>) -> Seq<Cell> {
    Seq::new(
        data.len(),
        |i: int| Cell { rect: cell_rect(level, i as nat, data[i] as nat), paint: Paint::Element },
    )
}

/// The cells of the first `count` rows of a snapshot, in the order they are
/// drawn: row by row, the places of capacity and over them the elements.
pub open spec fn cells_of_rows(levels: Seq<LevelView>, count: nat) -> Seq<Cell>
    decreases count,
{
    if count == 0 {
        Seq::empty()
    } else {
        let level = (count - 1) as nat;
        cells_of_rows(levels, level) + capacity_cells(
            level,
            levels[level as int].capacity,
            total(capacities(levels).take(level as int)),
            total(sizes(levels)),
        ) + element_cells(level, levels[level as int].data)
    }
}

/// The cells of a snapshot.
pub open spec fn cells_of(levels: Seq<LevelView>) -> Seq<Cell> {
    cells_of_rows(levels, levels.len())
}

/// Whether the cells of `count` places of a row can be addressed.
pub open spec fn row_fits(count: nat) -> bool {
    count > 0 ==> cell_x((count - 1) as nat) <= u32::MAX
}

/// Whether every cell of a snapshot can be addressed in 32 bits.
pub open spec fn picture_fits(levels: Seq<LevelView>) -> bool {
    &&& levels.len() > 0 ==> row_y((levels.len() - 1) as nat) <= u32::MAX
    &&& forall|i: int|
        0 <= i < levels.len() ==> row_fits(#[trigger] levels[i].capacity) && row_fits(
            levels[i].data.len(),
        )
}

proof fn lemma_cell_x(index: nat)
    ensures
        cell_x(index) == 2 + 12 * index,
{
    assert(index * pitch() == 12 * index) by (nonlinear_arith)
        requires
            pitch() == 12,
    ;
}

proof fn lemma_row_y(level: nat)
    ensures
        row_y(level) == 2 + 22 * level,
{
    assert(level * row_pitch() == 22 * level) by (nonlinear_arith)
        requires
            row_pitch() == 22,
    ;
}

/// The cell of an element, or of a place of capacity, `element` high, at
/// `element_index` of the row of `level`.
pub fn compactor_element_to_rect(level: usize, element_index: usize, element: Element) -> (rect:
    Rectangle)
    requires
        cell_x(element_index as nat) <= u32::MAX,
        row_y(level as nat) <= u32::MAX,
    ensures
        rect == cell_rect(level as nat, element_index as nat, element as nat),
{
    proof {
        lemma_cell_x(element_index as nat);
        lemma_row_y(level as nat);
    }
    Rectangle {
        x: SPACE_BETWEEN_ELEMENTS + (element_index as u32) * (SPACE_BETWEEN_ELEMENTS
            + ELEMENT_WIDTH),
        y: SPACE_BETWEEN_ELEMENTS + (level as u32) * (MAX_ELEMENT_HEIGHT
            + SPACE_BETWEEN_ELEMENTS),
        w: ELEMENT_WIDTH,
        h: element,
    }
}

/// The cells of the places of capacity of the row of `level`.
pub fn capacity_rects(level: usize, capacity: usize) -> (rects: Vec<Rectangle>)
    requires
        row_fits(capacity as nat),
        row_y(level as nat) <= u32::MAX,
    ensures
        rects@.len() == capacity,
        forall|i: int|
            0 <= i < capacity ==> rects@[i] == cell_rect(
                level as nat,
                i as nat,
                MAX_ELEMENT_HEIGHT as nat,
            ),
{
    let mut rects: Vec<Rectangle> = Vec::new();
    let mut element_index: usize = 0;
    while element_index < capacity
        invariant
            element_index <= capacity,
            row_fits(capacity as nat),
            row_y(level as nat) <= u32::MAX,
            rects@.len() == element_index,
            forall|i: int|
                0 <= i < element_index ==> rects@[i] == cell_rect(
                    level as nat,
                    i as nat,
                    MAX_ELEMENT_HEIGHT as nat,
                ),
        decreases capacity - element_index,
    {
        proof {
            lemma_cell_x(element_index as nat);
            lemma_cell_x((capacity - 1) as nat);
        }
        rects.push(compactor_element_to_rect(level, element_index, MAX_ELEMENT_HEIGHT));
        element_index += 1;
    }
    rects
}

/// The longest buffer is as long as the bound that every buffer keeps, and
/// no shorter than any buffer.
proof fn lemma_longest(levels: Seq<LevelView>, bound: nat)
    ensures
        (forall|i: int| 0 <= i < levels.len() ==> levels[i].data.len() <= bound) <==> longest(
            levels,
        ) <= bound,
    decreases levels.len(),
{
    if levels.len() > 0 {
        let front = levels.drop_last();
        lemma_longest(front, bound);
        if longest(levels) <= bound {
            assert forall|i: int| 0 <= i < levels.len() implies levels[i].data.len() <= bound by {
                if i < front.len() {
                    assert(front[i] == levels[i]);
                }
            }
        } else if forall|i: int| 0 <= i < levels.len() ==> levels[i].data.len() <= bound {
            assert forall|i: int| 0 <= i < front.len() implies front[i].data.len() <= bound by {
                assert(front[i] == levels[i]);
            }
        }
    }
}

/// Whether the picture of a snapshot, its cells and its size, can be
/// measured in 32 bits.
pub fn frame_fits(compactors: &Vec<Compactor>) -> (ok: bool)
    ensures
        ok == (picture_fits(levels_view(compactors@)) && frame_width(levels_view(compactors@))
            <= u32::MAX && frame_height(levels_view(compactors@)) <= u32::MAX),
{
    let ghost levels = levels_view(compactors@);
    let most_cells: usize = ((u32::MAX - SPACE_BETWEEN_ELEMENTS) / (ELEMENT_WIDTH
        + SPACE_BETWEEN_ELEMENTS)) as usize;
    let most_rows: usize = ((u32::MAX - SPACE_BETWEEN_ELEMENTS) / (MAX_ELEMENT_HEIGHT
        + SPACE_BETWEEN_ELEMENTS)) as usize;
    proof {
        lemma_row_y(compactors@.len());
        lemma_row_y((compactors@.len() - 1) as nat);
        lemma_cell_x(longest(levels));
        lemma_longest(levels, most_cells as nat);
    }
    if compactors.len() > most_rows {
        return false;
    }
    let mut level: usize = 0;
    while level < compactors.len()
        invariant
            level <= compactors.len(),
            levels == levels_view(compactors@),
            most_cells == 357913941,
            forall|i: int|
                0 <= i < level ==> (#[trigger] levels[i]).data.len() <= most_cells
                    && levels[i].capacity <= most_cells + 1,
        decreases compactors.len() - level,
    {
        proof {
            lemma_longest(levels, most_cells as nat);
            lemma_cell_x(longest(levels));
            lemma_cell_x((levels[level as int].data.len() - 1) as nat);
            lemma_cell_x((levels[level as int].capacity - 1) as nat);
        }
        if compactors[level].data.len() > most_cells {
            return false;
        }
        if compactors[level].capacity > most_cells && compactors[level].capacity - 1
            > most_cells {
            return false;
        }
        level += 1;
    }
    proof {
        assert forall|i: int| 0 <= i < levels.len() implies row_fits(
            #[trigger] levels[i].capacity,
        ) && row_fits(levels[i].data.len()) by {
            lemma_cell_x((levels[i].data.len() - 1) as nat);
            lemma_cell_x((levels[i].capacity - 1) as nat);
        }
    }
    true
}

/// The cells of a snapshot, in the order they are drawn: row by row, first
/// the places of capacity, then over them the elements.
pub fn compactor_cells(current_frame: &Vec<Compactor>) -> (cells: Vec<Cell>)
    requires
        picture_fits(levels_view(current_frame@)),
    ensures
        cells@ == cells_of(levels_view(current_frame@)),
{
    let ghost levels = levels_view(current_frame@);
    let held: u128 = occupancy(current_frame);
    let mut before: u128 = 0;
    let mut cells: Vec<Cell> = Vec::new();
    let mut level: usize = 0;
    while level < current_frame.len()
        invariant
            level <= current_frame.len(),
            levels == levels_view(current_frame@),
            picture_fits(levels),
            held == total(sizes(levels)),
            before == total(capacities(levels).take(level as int)),
            before <= level * usize::MAX,
            cells@ == cells_of_rows(levels, level as nat),
        decreases current_frame.len() - level,
    {
        let capacity: usize = current_frame[level].capacity;
        let ghost data = levels[level as int].data;
        let ghost rows = cells_of_rows(levels, level as nat);
        let ghost places = capacity_cells(
            level as nat,
            capacity as nat,
            before as nat,
            held as nat,
        );
        proof {
            lemma_row_y(level as nat);
            lemma_row_y((current_frame@.len() - 1) as nat);
            assert(levels[level as int].capacity == capacity);
            let all = capacities(levels);
            assert(all.take(level + 1).drop_last() =~= all.take(level as int));
            let bound: int = usize::MAX as int;
            assert(before + capacity <= (level + 1) * bound) by (nonlinear_arith)
                requires
                    before <= level * bound,
                    capacity <= bound,
            ;
            assert((level + 1) * bound <= u128::MAX) by (nonlinear_arith)
                requires
                    0 <= level < bound,
                    bound <= 0xffff_ffff_ffff_ffff,
            ;
        }
        let rects = capacity_rects(level, capacity);
        let mut index: usize = 0;
        while index < capacity
            invariant
                index <= capacity,
                rects@.len() == capacity,
                forall|i: int|
                    0 <= i < capacity ==> rects@[i] == cell_rect(
                        level as nat,
                        i as nat,
                        MAX_ELEMENT_HEIGHT as nat,
                    ),
                before + capacity <= u128::MAX,
                places == capacity_cells(level as nat, capacity as nat, before as nat, held as nat),
                cells@ == rows + places.take(index as int),
            decreases capacity - index,
        {
            let paint = if before + (index as u128) < held {
                Paint::UsedCapacity
            } else {
                Paint::Capacity
            };
            cells.push(Cell { rect: rects[index], paint });
            index += 1;
            assert(cells@ =~= rows + places.take(index as int));
        }
        let mut element_index: usize = 0;
        while element_index < current_frame[level].data.len()
            invariant
                level < current_frame.len(),
                levels == levels_view(current_frame@),
                data == levels[level as int].data,
                data == current_frame@[level as int].data@,
                element_index <= data.len(),
                row_fits(data.len()),
                row_y(level as nat) <= u32::MAX,
                cells@ == rows + places + element_cells(level as nat, data).take(
                    element_index as int,
                ),
            decreases data.len() - element_index,
        {
            proof {
                lemma_cell_x(element_index as nat);
                lemma_cell_x((data.len() - 1) as nat);
            }
            let rect = compactor_element_to_rect(
                level,
                element_index,
                current_frame[level].data[element_index],
            );
            cells.push(Cell { rect, paint: Paint::Element });
            element_index += 1;
            assert(cells@ =~= rows + places + element_cells(level as nat, data).take(
                element_index as int,
            ));
        }
        before = before + capacity as u128;
        level += 1;
        assert(cells@ =~= cells_of_rows(levels, level as nat));
    }
    cells
}

/// The width and height of the picture of a snapshot.
pub fn frame_size(compactors: &Vec<Compactor>) -> (size: (u32, u32))
    requires
        frame_width(levels_view(compactors@)) <= u32::MAX,
        frame_height(levels_view(compactors@)) <= u32::MAX,
    ensures
        size.0 == frame_width(levels_view(compactors@)),
        size.1 == frame_height(levels_view(compactors@)),
{
    let ghost levels = levels_view(compactors@);
    let mut most: usize = 0;
    let mut level: usize = 0;
    while level < compactors.len()
        invariant
            level <= compactors.len(),
            levels == levels_view(compactors@),
            most == longest(levels.take(level as int)),
        decreases compactors.len() - level,
    {
        proof {
            assert(levels.take(level + 1).drop_last() =~= levels.take(level as int));
        }
        if compactors[level].data.len() > most {
            most = compactors[level].data.len();
        }
        level += 1;
    }
    proof {
        assert(levels.take(level as int) =~= levels);
        lemma_cell_x(most as nat);
        lemma_row_y(compactors@.len());
    }
    (
        SPACE_BETWEEN_ELEMENTS + (most as u32) * (ELEMENT_WIDTH + SPACE_BETWEEN_ELEMENTS),
        SPACE_BETWEEN_ELEMENTS + (compactors.len() as u32) * (MAX_ELEMENT_HEIGHT
            + SPACE_BETWEEN_ELEMENTS),
    )
}

/// The least width and height that hold the picture of every one of the
/// given snapshots.
pub fn max_frame_size(frames: &Vec<Vec<Compactor>>) -> (size: (u32, u32))
    requires
        forall|i: int|
            0 <= i < frames@.len() ==> frame_width(levels_view(#[trigger] frames@[i]@))
                <= u32::MAX && frame_height(levels_view(frames@[i]@)) <= u32::MAX,
    ensures
        size.0 == widest(crate::compactor::frames_view(frames@)),
        size.1 == highest(crate::compactor::frames_view(frames@)),
{
    let ghost views = crate::compactor::frames_view(frames@);
    let mut width: u32 = 0;
    let mut height: u32 = 0;
    let mut index: usize = 0;
    while index < frames.len()
        invariant
            index <= frames.len(),
            views == crate::compactor::frames_view(frames@),
            forall|i: int|
                0 <= i < frames@.len() ==> frame_width(levels_view(#[trigger] frames@[i]@))
                    <= u32::MAX && frame_height(levels_view(frames@[i]@)) <= u32::MAX,
            width == widest(views.take(index as int)),
            height == highest(views.take(index as int)),
        decreases frames.len() - index,
    {
        proof {
            assert(views.take(index + 1).drop_last() =~= views.take(index as int));
            assert(views[index as int] == levels_view(frames@[index as int]@));
        }
        let (w, h) = frame_size(&frames[index]);
        if w > width {
            width = w;
        }
        if h > height {
            height = h;
        }
        index += 1;
    }
    proof {
        assert(views.take(index as int) =~= views);
    }
    (width, height)
}

} // verus!

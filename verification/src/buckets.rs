//! Equal-weight buckets of a summary: the entries are taken in ascending
//! order of value and dealt into buckets by the weight seen before them.

use vstd::prelude::*;
use crate::compactor::Element;
use crate::estimated_quantiles::{
    checked_weight,
    lemma_total_weight_add,
    total_weight,
    EstimatedQuantiles,
    QuantileElement,
};
use crate::layout::{Rectangle, ELEMENT_WIDTH, MAX_ELEMENT_HEIGHT, SPACE_BETWEEN_ELEMENTS};
use crate::sums::{lemma_total_covers, lemma_total_of_zeros, lemma_total_update, total};

verus! {

/// A summary on its way into buckets.
#[derive(Debug)]
pub struct Bucketer {
    /// The entries not yet dealt, in ascending order of value.
    pub elements: Vec<QuantileElement>,
    /// The weight of the whole summary.
    pub estimated_element_count: usize,
    /// The weight of the entries dealt so far.
    pub elements_seen: usize,
    /// The buckets, lowest values first.
    pub buckets: Vec<Vec<QuantileElement>>,
}

/// The bucket of an entry that has weight `seen` before it, in a summary of
/// weight `count` cut into `buckets` buckets: `seen / (count / buckets)`, and
/// the last bucket where that is beyond it.
pub open spec fn bucket_of(seen: nat, count: nat, buckets: nat) -> nat
    recommends
        buckets >= 1,
        count >= buckets,
{
    let share = count / buckets;
    let bucket = seen / share;
    if bucket >= buckets {
        (buckets - 1) as nat
    } else {
        bucket
    }
}

/// The bar of one entry in a picture: as high as the entry weighs, to be
/// painted by the entry's value.
#[derive(Clone, Copy, Debug, PartialEq, Eq)]
pub struct Bar {
    pub rect: Rectangle,
    pub element: Element,
}

/// A weight as the pictures take it: cut to 32 bits.
pub open spec fn displayed(weight: nat) -> u32 {
    (weight % 0x1_0000_0000) as u32
}

/// The bar of `entry` in column `column`, with weight `above` over it.
pub open spec fn bar_of(entry: QuantileElement, column: nat, above: nat) -> Bar {
    Bar {
        rect: Rectangle {
            x: (column * (ELEMENT_WIDTH + SPACE_BETWEEN_ELEMENTS)) as u32,
            y: displayed(above),
            w: ELEMENT_WIDTH,
            h: displayed(entry.weight as nat),
        },
        element: entry.element,
    }
}

/// The bars of a row of entries: one column each, all starting at the top.
pub open spec fn row_bars(entries: Seq<QuantileElement>) -> Seq<Bar> {
    Seq::new(entries.len(), |i: int| bar_of(entries[i], i as nat, 0))
}

/// The bars of one bucket: a stack in the bucket's column, every entry
/// under those dealt before it.
pub open spec fn stack_bars(bucket: Seq<QuantileElement>, column: nat) -> Seq<Bar> {
    Seq::new(
        bucket.len(),
        |j: int| bar_of(bucket[j], column, total_weight(bucket.take(j))),
    )
}

/// The bars of the first `count` buckets, bucket after bucket.
pub open spec fn bucket_bars(buckets: Seq<Seq<QuantileElement>>, count: nat) -> Seq<Bar>
    decreases count,
{
    if count == 0 {
        Seq::empty()
    } else {
        bucket_bars(buckets, (count - 1) as nat) + stack_bars(
            buckets[count - 1],
            (count - 1) as nat,
        )
    }
}

/// The weight of each bucket.
pub open spec fn bucket_weights(buckets: Seq<Seq<QuantileElement>>) -> Seq<nat> {
    Seq::new(buckets.len(), |i: int| total_weight(buckets[i]))
}

/// A weight cut to 32 bits.
fn cut(weight: usize) -> (shown: u32)
    ensures
        shown == displayed(weight as nat),
{
    ((weight as u64) % 0x1_0000_0000u64) as u32
}

/// The left edge of a column that is one of `count` columns which fit the
/// picture.
proof fn lemma_column(column: nat, count: nat)
    requires
        column < count,
        count * (ELEMENT_WIDTH + SPACE_BETWEEN_ELEMENTS) <= u32::MAX,
    ensures
        column * (ELEMENT_WIDTH + SPACE_BETWEEN_ELEMENTS) == 12 * column,
        column * (ELEMENT_WIDTH + SPACE_BETWEEN_ELEMENTS) <= u32::MAX,
{
    assert(column * (ELEMENT_WIDTH + SPACE_BETWEEN_ELEMENTS) == 12 * column) by (nonlinear_arith)
        requires
            ELEMENT_WIDTH + SPACE_BETWEEN_ELEMENTS == 12,
    ;
    assert(count * (ELEMENT_WIDTH + SPACE_BETWEEN_ELEMENTS) == 12 * count) by (nonlinear_arith)
        requires
            ELEMENT_WIDTH + SPACE_BETWEEN_ELEMENTS == 12,
    ;
}

impl Bucketer {
    /// The states that `step` is defined on: while entries are left to deal
    /// there is a bucket and no bucket's share is zero, and the weights seen
    /// and to come fit `usize` together.
    pub open spec fn wf(&self) -> bool {
        &&& self.elements@.len() > 0 ==> 1 <= self.buckets@.len()
            <= self.estimated_element_count
        &&& self.elements_seen + total_weight(self.elements@) <= usize::MAX
        &&& total(bucket_weights(self.dealt())) == self.elements_seen
    }

    /// The entries of the buckets.
    pub open spec fn dealt(&self) -> Seq<Seq<QuantileElement>> {
        Seq::new(self.buckets@.len(), |i: int| self.buckets@[i]@)
    }

    /// Whether `step` is defined on this state.
    pub fn is_wf(&self) -> (ok: bool)
        ensures
            ok == self.wf(),
    {
        let count: usize = self.buckets.len();
        if self.elements.len() > 0 && (count < 1 || count > self.estimated_element_count) {
            return false;
        }
        match checked_weight(&self.elements) {
            None => {
                return false;
            },
            Some(remaining) => {
                if usize::MAX - self.elements_seen < remaining {
                    return false;
                }
            },
        }
        let ghost weights = bucket_weights(self.dealt());
        let mut dealt: usize = 0;
        let mut column: usize = 0;
        while column < count
            invariant
                column <= count,
                count == self.buckets@.len(),
                weights == bucket_weights(self.dealt()),
                dealt == total(weights.take(column as int)),
                dealt <= self.elements_seen,
            decreases count - column,
        {
            proof {
                assert(weights.take(column + 1).drop_last() =~= weights.take(column as int));
                assert(weights =~= weights.take(column + 1) + weights.skip(column + 1));
                crate::sums::lemma_total_add(weights.take(column + 1), weights.skip(column + 1));
                assert(weights[column as int] == total_weight(self.buckets@[column as int]@));
            }
            match checked_weight(&self.buckets[column]) {
                None => {
                    return false;
                },
                Some(weight) => {
                    if self.elements_seen - dealt < weight {
                        return false;
                    }
                    dealt = dealt + weight;
                },
            }
            column += 1;
        }
        assert(weights.take(column as int) =~= weights);
        dealt == self.elements_seen
    }

    /// Starts dealing a summary into `buckets` empty buckets.
    pub fn new(summary: EstimatedQuantiles, buckets: usize) -> (bucketer: Self)
        requires
            summary.wf(),
            summary.elements@.len() > 0 ==> 1 <= buckets <= total_weight(summary.elements@),
        ensures
            bucketer.wf(),
            bucketer.elements@ == summary.elements@,
            bucketer.estimated_element_count == total_weight(summary.elements@),
            bucketer.elements_seen == 0,
            bucketer.dealt() == Seq::new(buckets as nat, |i: int| Seq::<QuantileElement>::empty()),
    {
        let estimated_element_count = summary.estimated_element_count();
        let mut empty: Vec<Vec<QuantileElement>> = Vec::new();
        while empty.len() < buckets
            invariant
                empty@.len() <= buckets,
                forall|i: int| 0 <= i < empty@.len() ==> empty@[i]@ == Seq::<
                    QuantileElement,
                >::empty(),
            decreases buckets - empty.len(),
        {
            empty.push(Vec::new());
        }
        let bucketer = Bucketer {
            elements: summary.elements,
            estimated_element_count,
            elements_seen: 0,
            buckets: empty,
        };
        assert(bucketer.dealt() =~= Seq::new(
            buckets as nat,
            |i: int| Seq::<QuantileElement>::empty(),
        ));
        proof {
            lemma_total_of_zeros(bucket_weights(bucketer.dealt()));
        }
        bucketer
    }

    /// Deals the lowest remaining entry into its bucket, which the weight
    /// seen before it decides. Does nothing once all entries are dealt.
    pub fn step(&mut self)
        requires
            old(self).wf(),
        ensures
            final(self).wf(),
            final(self).estimated_element_count == old(self).estimated_element_count,
            old(self).elements@.len() == 0 ==> final(self).elements@ == old(self).elements@
                && final(self).elements_seen == old(self).elements_seen && final(self).dealt()
                == old(self).dealt(),
            old(self).elements@.len() > 0 ==> ({
                let entry = old(self).elements@[0];
                let bucket = bucket_of(
                    old(self).elements_seen as nat,
                    old(self).estimated_element_count as nat,
                    old(self).buckets@.len(),
                ) as int;
                &&& final(self).elements@ == old(self).elements@.drop_first()
                &&& final(self).elements_seen == old(self).elements_seen + entry.weight
                &&& final(self).dealt() == old(self).dealt().update(
                    bucket,
                    old(self).dealt()[bucket].push(entry),
                )
            }),
    {
        if self.elements.len() > 0 {
            proof {
                let entries = old(self).elements@;
                assert(entries =~= seq![entries[0]] + entries.drop_first());
                lemma_total_weight_add(
                    seq![entries[0]],
                    entries.drop_first(),
                );
                assert(seq![entries[0]].drop_last() =~= Seq::empty());
                assert(total_weight(Seq::<QuantileElement>::empty()) == 0);
                assert(total_weight(seq![entries[0]]) == entries[0].weight);
            }
            let current_element = self.elements.remove(0);
            let count: usize = self.buckets.len();
            let share: usize = self.estimated_element_count / count;
            assert(share >= 1) by (nonlinear_arith)
                requires
                    share == self.estimated_element_count as int / count as int,
                    self.estimated_element_count >= count,
                    count >= 1,
            ;
            let current_bucket: usize = self.elements_seen / share;
            let current_bucket: usize = if current_bucket >= count {
                count - 1
            } else {
                current_bucket
            };
            self.elements_seen = self.elements_seen + current_element.weight;
            self.buckets[current_bucket].push(current_element);
            assert(self.elements@ =~= old(self).elements@.drop_first());
            assert(self.dealt() =~= old(self).dealt().update(
                current_bucket as int,
                old(self).dealt()[current_bucket as int].push(current_element),
            ));
            proof {
                let before = old(self).dealt();
                let bucket = before[current_bucket as int];
                assert(bucket.push(current_element).drop_last() =~= bucket);
                assert(bucket_weights(self.dealt()) =~= bucket_weights(before).update(
                    current_bucket as int,
                    total_weight(bucket) + current_element.weight as nat,
                ));
                lemma_total_update(
                    bucket_weights(before),
                    current_bucket as int,
                    total_weight(bucket) + current_element.weight as nat,
                );
            }
        } else {
            assert(self.dealt() =~= old(self).dealt());
        }
    }

    /// The bars of the entries not yet dealt, side by side.
    pub fn render_elements(&self) -> (bars: Vec<Bar>)
        requires
            self.elements@.len() * (ELEMENT_WIDTH + SPACE_BETWEEN_ELEMENTS) <= u32::MAX,
        ensures
            bars@ == row_bars(self.elements@),
    {
        let pitch: u32 = ELEMENT_WIDTH + SPACE_BETWEEN_ELEMENTS;
        let mut bars: Vec<Bar> = Vec::new();
        let mut index: usize = 0;
        while index < self.elements.len()
            invariant
                index <= self.elements.len(),
                pitch == ELEMENT_WIDTH + SPACE_BETWEEN_ELEMENTS,
                self.elements@.len() * (ELEMENT_WIDTH + SPACE_BETWEEN_ELEMENTS) <= u32::MAX,
                bars@ == row_bars(self.elements@).take(index as int),
            decreases self.elements.len() - index,
        {
            let entry = self.elements[index];
            proof {
                lemma_column(index as nat, self.elements@.len());
            }
            let bar = Bar {
                rect: Rectangle {
                    x: (index as u32) * pitch,
                    y: 0,
                    w: ELEMENT_WIDTH,
                    h: cut(entry.weight),
                },
                element: entry.element,
            };
            bars.push(bar);
            index += 1;
            assert(bars@ =~= row_bars(self.elements@).take(index as int));
        }
        assert(row_bars(self.elements@).take(index as int) =~= row_bars(self.elements@));
        bars
    }

    /// The bars of the buckets: every bucket a stack in its column.
    pub fn render_bucket(&self) -> (bars: Vec<Bar>)
        requires
            self.wf(),
            self.buckets@.len() * (ELEMENT_WIDTH + SPACE_BETWEEN_ELEMENTS) <= u32::MAX,
        ensures
            bars@ == bucket_bars(self.dealt(), self.buckets@.len()),
    {
        let pitch: u32 = ELEMENT_WIDTH + SPACE_BETWEEN_ELEMENTS;
        let ghost dealt = self.dealt();
        let mut bars: Vec<Bar> = Vec::new();
        let mut column: usize = 0;
        while column < self.buckets.len()
            invariant
                column <= self.buckets.len(),
                pitch == ELEMENT_WIDTH + SPACE_BETWEEN_ELEMENTS,
                self.buckets@.len() * (ELEMENT_WIDTH + SPACE_BETWEEN_ELEMENTS) <= u32::MAX,
                dealt == self.dealt(),
                total(bucket_weights(dealt)) <= usize::MAX,
                bars@ == bucket_bars(dealt, column as nat),
            decreases self.buckets.len() - column,
        {
            let ghost bucket = dealt[column as int];
            let ghost earlier = bucket_bars(dealt, column as nat);
            proof {
                lemma_column(column as nat, self.buckets@.len());
                lemma_total_covers(bucket_weights(dealt), column as int);
            }
            let mut y: usize = 0;
            let mut index: usize = 0;
            while index < self.buckets[column].len()
                invariant
                    column < self.buckets.len(),
                    dealt == self.dealt(),
                    bucket == dealt[column as int],
                    bucket == self.buckets@[column as int]@,
                    index <= bucket.len(),
                    pitch == ELEMENT_WIDTH + SPACE_BETWEEN_ELEMENTS,
                    column * (ELEMENT_WIDTH + SPACE_BETWEEN_ELEMENTS) == 12 * column,
                    12 * column <= u32::MAX,
                    total_weight(bucket) <= usize::MAX,
                    y == total_weight(bucket.take(index as int)),
                    bars@ == earlier + stack_bars(bucket, column as nat).take(index as int),
                decreases bucket.len() - index,
            {
                let entry = self.buckets[column][index];
                proof {
                    assert(bucket.take(index + 1).drop_last() =~= bucket.take(index as int));
                    assert(bucket =~= bucket.take(index + 1) + bucket.skip(index + 1));
                    lemma_total_weight_add(bucket.take(index + 1), bucket.skip(index + 1));
                }
                let bar = Bar {
                    rect: Rectangle {
                        x: (column as u32) * pitch,
                        y: cut(y),
                        w: ELEMENT_WIDTH,
                        h: cut(entry.weight),
                    },
                    element: entry.element,
                };
                bars.push(bar);
                y = y + entry.weight;
                index += 1;
                assert(bars@ =~= earlier + stack_bars(bucket, column as nat).take(
                    index as int,
                ));
            }
            assert(stack_bars(bucket, column as nat).take(index as int) =~= stack_bars(
                bucket,
                column as nat,
            ));
            column += 1;
        }
        bars
    }

    /// The width and height of the row of entries not yet dealt: one cell and
    /// one gap for each of them, one row high.
    pub fn elements_size(&self) -> (size: (u32, u32))
        requires
            self.elements@.len() * (ELEMENT_WIDTH + SPACE_BETWEEN_ELEMENTS) <= u32::MAX,
        ensures
            size.0 == self.elements@.len() * (ELEMENT_WIDTH + SPACE_BETWEEN_ELEMENTS),
            size.1 == MAX_ELEMENT_HEIGHT,
    {
        let pitch: u32 = ELEMENT_WIDTH + SPACE_BETWEEN_ELEMENTS;
        assert(self.elements@.len() * (ELEMENT_WIDTH + SPACE_BETWEEN_ELEMENTS)
            == self.elements@.len() * 12) by (nonlinear_arith)
            requires
                ELEMENT_WIDTH + SPACE_BETWEEN_ELEMENTS == 12,
        ;
        ((self.elements.len() as u32) * pitch, MAX_ELEMENT_HEIGHT)
    }

    /// The width and height of the picture of the buckets: one cell and one
    /// gap for each bucket, and as high as the weight not yet dealt, cut to
    /// 32 bits.
    pub fn buckets_size(&self) -> (size: (u32, u32))
        requires
            self.wf(),
            self.buckets@.len() * (ELEMENT_WIDTH + SPACE_BETWEEN_ELEMENTS) <= u32::MAX,
        ensures
            size.0 == self.buckets@.len() * (ELEMENT_WIDTH + SPACE_BETWEEN_ELEMENTS),
            size.1 == displayed(total_weight(self.elements@)),
    {
        let mut weight: usize = 0;
        let mut index: usize = 0;
        while index < self.elements.len()
            invariant
                index <= self.elements.len(),
                weight == total_weight(self.elements@.take(index as int)),
                total_weight(self.elements@) <= usize::MAX,
            decreases self.elements.len() - index,
        {
            proof {
                let entries = self.elements@;
                assert(entries.take(index + 1).drop_last() =~= entries.take(index as int));
                assert(entries =~= entries.take(index + 1) + entries.skip(index + 1));
                lemma_total_weight_add(
                    entries.take(index + 1),
                    entries.skip(index + 1),
                );
            }
            weight = weight + self.elements[index].weight;
            index += 1;
        }
        assert(self.elements@.take(index as int) =~= self.elements@);
        let pitch: u32 = ELEMENT_WIDTH + SPACE_BETWEEN_ELEMENTS;
        assert(self.buckets@.len() * (ELEMENT_WIDTH + SPACE_BETWEEN_ELEMENTS)
            == self.buckets@.len() * 12) by (nonlinear_arith)
            requires
                ELEMENT_WIDTH + SPACE_BETWEEN_ELEMENTS == 12,
        ;
        ((self.buckets.len() as u32) * pitch, cut(weight))
    }
}

} // verus!

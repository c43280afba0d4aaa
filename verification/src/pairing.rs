//! Positional pairing of two sequences of unequal length.

use itertools::{EitherOrBoth, Itertools};
use vstd::prelude::*;

verus! {

/// What stands at one position of two sequences laid side by side.
pub enum Paired<A, B> {
    /// Both sequences reach this position.
    Both(A, B),
    /// Only the first sequence reaches this position.
    Left(A),
    /// Only the second sequence reaches this position.
    Right(B),
}

/// Two sequences laid side by side, as long as the longer one.
pub open spec fn zip_longest_spec<A, B>(left: Seq<A>, right: Seq<B>) -> Seq<Paired<A, B>> {
    Seq::new(
        if left.len() >= right.len() {
            left.len()
        } else {
            right.len()
        },
        |i: int|
            if i < left.len() && i < right.len() {
                Paired::Both(left[i], right[i])
            } else if i < left.len() {
                Paired::Left(left[i])
            } else {
                Paired::Right(right[i])
            },
    )
}

/// Pairs two vectors with `Itertools::zip_longest`. While neither is
/// exhausted the adaptor yields both items of a position; after that it
/// yields the items of the longer one alone, on the side they came from.
#[verifier::external_body]
pub(crate) fn zip_longest<A, B>(left: Vec<A>, right: Vec<B>) -> (pairs: Vec<Paired<A, B>>)
    ensures
        pairs@ == zip_longest_spec(left@, right@),
{
    left.into_iter().zip_longest(right.into_iter()).map(
        |pair| match pair {
            EitherOrBoth::Both(a, b) => Paired::Both(a, b),
            EitherOrBoth::Left(a) => Paired::Left(a),
            EitherOrBoth::Right(b) => Paired::Right(b),
        },
    ).collect()
}

/// Cuts a vector into runs of `size` items with `Itertools::chunks`: every
/// chunk holds the next `size` items, and the last chunk those that are
/// left, where fewer are left.
#[verifier::external_body]
pub(crate) fn chunks<T>(items: Vec<T>, size: usize) -> (chunks: Vec<Vec<T>>)
    requires
        size > 0,
    ensures
        chunks@.len() == (items@.len() + size - 1) / (size as int),
        forall|c: int|
            0 <= c < chunks@.len() ==> (#[trigger] chunks@[c])@ == items@.subrange(
                c * size,
                if c * size + size <= items@.len() {
                    c * size + size
                } else {
                    items@.len() as int
                },
            ),
{
    items.into_iter().chunks(size).into_iter().map(|chunk| chunk.collect()).collect()
}

} // verus!

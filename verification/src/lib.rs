//! A streaming, mergeable approximate-quantile sketch built from a stack of
//! level buffers, together with the weighted summary it is finalized into.
//!
//! Values enter a [`compactors::Compactors`] at level 0. A level that has
//! reached its capacity is sorted, hands every other element to the next
//! level and drops the rest, so that an element of level `i` stands for `2^i`
//! values. Two sketches with the same size parameter can be merged, and a
//! sketch is given up for an [`estimated_quantiles::EstimatedQuantiles`]:
//! its values with their weights, in ascending order.
//!
//! What the operations do is stated on [`model::SketchView`], the sketch as
//! mathematics; [`invariants`] and [`summary`] hold what follows from there.
//! An observer of a sketch is served by value: where a sketch is observed,
//! every operation hands back the snapshots of all levels that it took on
//! the way, in order, each an independent copy.
//!
//! [`layout`], [`buckets`], [`recording`] and [`parallel`] serve pictures of
//! a sketch at work.

pub mod buckets;
pub mod capacity;
pub mod compactor;
pub mod compactors;
pub mod estimated_quantiles;
pub mod invariants;
pub mod layout;
pub mod model;
pub mod pairing;
pub mod parallel;
pub mod recording;
pub mod sorting;
pub mod summary;
pub mod sums;

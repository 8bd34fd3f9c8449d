//! A fixed-capacity weighted-sampling container: an array-backed sum tree in
//! which every internal node caches the sum of its two children's weights.
//! Weights are exact unsigned integers; updates and cumulative-sum lookups run
//! in logarithmic time, and proportional as well as stratified sampling are
//! built on top of a deterministic pseudo-random generator.

use vstd::prelude::*;

pub mod laws;
pub mod model;
pub mod rng;
pub mod shape;

pub use model::SumTree;

verus! {

/// Errors reported by the tree's fallible operations.
#[derive(Clone, Copy, Debug, PartialEq, Eq, Structural)]
pub enum SumTreeError {
    /// An index-based access named a leaf outside the valid range; carries the
    /// requested leaf number and the number of leaves the tree actually has.
    OutOfRange { index: usize, len: usize },
    /// A sampling operation was asked of a tree whose total weight is zero.
    ZeroTotal,
    /// A snapshot handed to `restore` does not describe a well-formed tree.
    InvalidSnapshot,
}

} // verus!

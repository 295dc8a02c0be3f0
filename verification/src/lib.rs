//! A hierarchical navigable small-world graph for approximate nearest-neighbour search.
//!
//! The library holds the graph and the decisions that build and search it. Distances
//! are handed in by the caller as callbacks that return an order key for each pair of
//! points (see [`metric::distance_key`]); the vectors themselves and the floating-point
//! arithmetic that measures them stay with the caller.
use vstd::prelude::*;

pub mod metric;
pub mod oracle;
pub mod index;
pub mod order;
pub mod search;
pub mod select;
pub mod insert;

verus! {
} // verus!

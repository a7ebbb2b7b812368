//! An in-memory approximate nearest-neighbour index: a layered proximity
//! graph over dense vectors, kept in chunked arenas and addressed by 32-bit
//! handles.
//!
//! Scores and vector components are carried as the bit patterns of
//! single-precision numbers; the library orders them, stores them and moves
//! them, and leaves the arithmetic on them to the scoring functions that its
//! callers hand in.
use vstd::prelude::*;

pub mod arena;
pub mod fixedset;
pub mod graph;
pub mod handle;
pub mod heap;
pub mod mem_project;
pub mod metric;
pub mod node;
pub mod random;
pub mod select;
pub mod storage;
pub mod walk;
pub mod wire;

pub use crate::graph::Graph;
pub use crate::graph::InternalSearchResult;
pub use crate::mem_project::mem_project;
pub use crate::metric::DistanceMetricKind;
pub use crate::storage::Quantization;

verus! {

/// The identifier of an inserted vector as callers see it: the vector's
/// arena index minus one, so that the graph's root stays hidden.
#[derive(Debug, Clone, Copy, Hash, PartialEq, Eq, PartialOrd, Ord)]
pub struct NodeId(pub u32);

} // verus!

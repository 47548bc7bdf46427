//! A temporal property graph store: timestamped vertex and edge events held in
//! per-shard adjacency structures, queried through time windows.
use vstd::prelude::*;

pub mod window;
pub mod tcell;
pub mod tadjset;
pub mod props;
pub mod tgraph;
pub mod graph;
pub mod view;
pub mod state;

verus! {

/// The direction in which a vertex's adjacency is read.
#[derive(Clone, Copy, PartialEq, Eq, Structural, Debug)]
pub enum Direction {
    OUT,
    IN,
    BOTH,
}

/// What the store reports when a request cannot be served.
#[derive(Clone, Copy, PartialEq, Eq, Structural, Debug)]
pub enum GraphError {
    /// A state column's length differs from the number of vertices.
    StateSizeError,
    /// A property was written with a variant other than its first one.
    PropTypeMismatch,
    /// A property read names a property never written on that entity.
    UnknownProperty,
    /// A handle names a vertex that does not exist.
    UnknownVertex,
    /// A vertex was routed to a shard that does not own it.
    ShardMismatch,
}

} // verus!

//! Core engine for an append-mostly, acyclic graph of content-addressed
//! blocks, with confidence propagation from parent blocks and adaptive
//! selection of a top-scoring k-cluster as network conditions change.
//!
//! Every insertion of an edge is gated by a reachability search so that the
//! stored relation graph can never contain a cycle; confidence scores stay
//! within `[0, 100]`; and the cluster size parameter stays within `[5, 50]`.
//! The HTTP layer, durability layer and visualization client drive this core
//! from outside and carry no decision logic of their own.

use vstd::prelude::*;

pub mod types;
pub mod reach;
pub mod score;
pub mod dag;

verus! {

/// A unique identifier for a block or a network node.
pub type NodeId = String;

/// Failure taxonomy of the core. Every variant is an expected, recoverable
/// condition returned to the immediate caller, never a reason to abort.
#[derive(Debug)]
pub enum Error {
    /// An opaque failure of the durability collaborator.
    Database(String),
    /// A block id that is not present in the store.
    NodeNotFound(String),
    /// No edge is stored between the two given blocks.
    EdgeNotFound { from: String, to: String },
    /// Storing the edge would close a directed cycle.
    CycleDetected { from: String, to: String },
    /// A declared parent id is absent from the store.
    ParentNotFound(String),
    /// A network-node (peer) id that is not present in the directory.
    PeerNotFound(String),
}

/// Wraps a durability failure, already rendered to text by the caller,
/// as the core's opaque storage error.
pub fn map_db_error(detail: String) -> (r: Error)
    ensures
        r matches Error::Database(d) && d@ == detail@,
{
    Error::Database(detail)
}

} // verus!

//! Graph construction with memory ceilings, node deduplication,
//! post-filtering and edge composition.
//!
//! The generator ([`gen`]) expands a seed graph by repeatedly applying a
//! caller-supplied rule to every node, deduplicating structurally equal
//! nodes, bounding growth by node and edge ceilings, then filtering nodes
//! and composing edges across removed nodes so that reachability through a
//! removed node is kept as a direct edge.
//!
//! The symmetrizer ([`bidir`]) keeps only edges whose two orientations
//! between an unordered node pair carry equal labels, producing an edge set
//! that is safe to read as undirected.

use vstd::prelude::*;

pub mod generate;
pub mod symmetrize;

pub use generate::gen;
pub use symmetrize::bidir;
pub use symmetrize::bidir_supported;

verus! {

/// A graph is a tuple of nodes and labeled edges between node indices.
///
/// A node's position in the node vector is its identity; an edge is a
/// directed pair of node indices together with an opaque label.
pub type Graph<T, U> = (Vec<T>, Vec<([usize; 2], U)>);

/// Stores settings for generating a graph.
#[derive(Clone, Debug, PartialEq, Eq)]
pub struct GenerateSettings {
    /// The maximum number of nodes before terminating expansion.
    pub max_nodes: usize,
    /// The maximum number of edges before terminating expansion.
    pub max_edges: usize,
}

/// Stores a graph generating error: which ceiling was hit.
#[derive(Debug, Clone, Copy, PartialEq, Eq, PartialOrd, Ord, Hash)]
pub enum GenerateError {
    /// Hit limit maximum number of nodes.
    MaxNodes,
    /// Hit limit maximum number of edges.
    MaxEdges,
}

impl GenerateError {
    /// A human-readable description of the error.
    pub fn message(&self) -> (s: &'static str)
        ensures
            *self == GenerateError::MaxNodes ==> s@ == "Reached limit maximum number of nodes"@,
            *self == GenerateError::MaxEdges ==> s@ == "Reached limit maximum number of edges"@,
    {
        match *self {
            GenerateError::MaxNodes => "Reached limit maximum number of nodes",
            GenerateError::MaxEdges => "Reached limit maximum number of edges",
        }
    }
}

impl From<GenerateError> for () {
    /// The unit type can stand for the error type when no error handling is
    /// needed.
    fn from(_e: GenerateError) -> () {
        ()
    }
}

impl vstd::std_specs::convert::FromSpecImpl<GenerateError> for () {
    open spec fn obeys_from_spec() -> bool {
        true
    }

    open spec fn from_spec(_e: GenerateError) -> Self {
        ()
    }
}

/// The source index of an edge.
pub open spec fn edge_from<U>(e: ([usize; 2], U)) -> usize {
    e.0[0]
}

/// The target index of an edge.
pub open spec fn edge_to<U>(e: ([usize; 2], U)) -> usize {
    e.0[1]
}

/// Every edge endpoint refers to an index below `n`.
pub open spec fn edges_within<U>(edges: Seq<([usize; 2], U)>, n: int) -> bool {
    forall|k: int|
        0 <= k < edges.len() ==> #[trigger] edge_from(edges[k]) < n && edge_to(edges[k]) < n
}

/// The nodes are pairwise distinct, so that an index identifies a node.
pub open spec fn distinct_nodes<T>(nodes: Seq<T>) -> bool {
    forall|i: int, j: int| 0 <= i < j < nodes.len() ==> nodes[i] != nodes[j]
}

} // verus!

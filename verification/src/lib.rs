//! Undirected graphs built from edge lists, with verified breadth-first
//! shortest-path search.
//!
//! The crate builds a symmetric adjacency map from a sequence of edge
//! records and finds a path with the fewest edges between two nodes.

use vstd::prelude::*;

pub mod graph;
pub mod parse;
pub mod search;

pub use graph::Graph;
pub use graph::build_graph;
pub use parse::parse_edge_record;
pub use parse::parse_u32;
pub use search::bfs;

verus! {

/// Why an edge record could not be turned into a pair of node identifiers.
#[derive(Clone, Copy, Debug, PartialEq, Eq, Structural)]
pub enum ParseError {
    /// The record does not have exactly two fields, or a field is not an
    /// unsigned 32-bit decimal integer.
    MalformedRecord,
    /// The input source failed while producing this record.
    ReadFailure,
}

/// Why a shortest-path search could not run to completion.
#[derive(Clone, Copy, Debug, PartialEq, Eq, Structural)]
pub enum SearchError {
    /// The search tried to expand a node that has no entry in the graph.
    UnknownNode(u32),
}

} // verus!

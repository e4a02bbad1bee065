//! Monte-Carlo estimation of the mean message-hop distance in fixed network
//! topologies: per-topology distance tables, a trial sampler that lets every
//! node send one message to a uniformly random other node, and a parallel
//! estimator that averages many independent trials.

use vstd::prelude::*;

pub mod cost_matrix;
pub mod graph;
pub mod laws;
pub mod topology;
pub mod reduce;

verus! {

/// Errors that can arise while selecting a topology or building its
/// distance table.
#[derive(Clone, Copy, Debug, PartialEq, Eq, Structural)]
pub enum ConstructionError {
    /// The node count was not greater than 1.
    InvalidNodeCount,
    /// The requested topology name is not one of the supported kinds.
    UnknownTopology,
}

/// Errors that can arise while assembling a graph from the lines of a
/// 0-1 adjacency-matrix description.
#[derive(Clone, Copy, Debug, PartialEq, Eq, Structural)]
pub enum GraphError {
    /// No lines were given at all.
    EmptyGraph,
    /// A row held no matrix entries.
    EmptyRow,
    /// A character other than `0`, `1` or whitespace was met.
    InvalidCharacter,
    /// A row held a different number of entries than the first row.
    UnequalRowLengths,
    /// The number of rows differs from the number of columns.
    NotSquare,
}

} // verus!

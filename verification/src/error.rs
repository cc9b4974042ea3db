use vstd::prelude::*;

verus! {

/// Errors reported by graph construction, validation and algorithms.
#[derive(Debug, Clone, PartialEq, Eq)]
#[non_exhaustive]
pub enum GraphError {
    EmptyNodeId,
    InvalidKind { category: &'static str, value: String },
    ConflictingNode { id: String },
    MissingEdgeSource { id: String },
    MissingEdgeTarget { id: String },
    EmptyExtractor,
    InvalidSpan { file: String, reason: &'static str },
    IndexCapacityExceeded { category: &'static str, count: usize },
    InvalidNodeIndex { node: usize, node_count: usize },
    ArithmeticOverflow { operation: &'static str },
    NegativeCycle { algorithm: &'static str },
    InvalidProbability { numerator: u64, denominator: u64 },
    InvalidAlgorithmParameter { algorithm: &'static str, parameter: &'static str, value: String },
}

/// Result type used throughout the crate.
pub type Result<T> = core::result::Result<T, GraphError>;

} // verus!

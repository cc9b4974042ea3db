//! Deterministic, typed, evidence-carrying graphs with verified algorithms.
use vstd::prelude::*;

pub mod digraph;
pub mod reach;
mod algo;
mod attribute;
mod error;
mod filter;
mod generator;
mod graph;
mod ident;
mod index;
mod kind;
mod legacy;
mod matrix;
mod model;
mod mutable;
mod random;
mod text;
mod topology;
mod undirected;
mod validate;
mod store;
mod working;

pub use algo::{
    astar, astar_filtered, condensation, condensation_filtered, Condensation, dominators, dominators_filtered, Dominators, bellman_ford, bellman_ford_filtered, BellmanFord, SignedPath,
    component_positions, dag_transitive_reduction_closure, dijkstra, dijkstra_filtered, Direction, WeightedPath, dag_transitive_reduction_closure_filtered, edge_mask, find_cycle,
    find_cycle_filtered, full_edge_mask, maximum_flow, MaxFlow, has_cycle, has_cycle_filtered, topological_sort, topological_sort_filtered,
    weakly_connected_components, weakly_connected_components_filtered, DagTransitive,
    strongly_connected_components, strongly_connected_components_filtered, minimum_spanning_forest, SpanningForest,
};
pub use attribute::{AttributeValue, FiniteF64};
pub use error::{GraphError, Result};
pub use filter::{at_least_as_sure, lemma_minimum_confidence, lemma_with_kind_idempotent, EdgeFilter};
pub use kind::{EdgeKind, EvidenceKind, Language, NodeKind};
pub use legacy::{confidence_name, lemma_confidence_aliases, lemma_confidence_from_evidence, lemma_named_confidence, LegacyLink, LegacyNode, LegacyPoint, LegacyRange};
pub use matrix::{count_some, lemma_count_update, lemma_edges_counted, some_slots, DenseMatrix};
pub use model::{Confidence, Edge, Node, NodeId, Provenance, SourcePosition, SourceSpan};
pub use generator::{complete_topology, cycle_topology, path_topology};
pub use graph::{elements_valid, compare_text, find_node, lemma_canonical_node_order, resolve_edges, sort_nodes_by_id, strictly_sorted_nodes, Graph, GraphNodeIndex};
pub use random::{lemma_probability_one, lemma_probability_one_complete, lemma_probability_zero, RandomGraphGenerator};
pub use index::{EdgeEndpoints, EdgeIndex, NodeIndex};
pub use topology::{IndexGraphView, Topology};
pub use undirected::{IndexUndirectedGraphView, UndirectedTopology};
pub use validate::{lemma_span_order, lemma_span_refusal_order, validate_edge, validate_node, validate_span};
pub use store::{SlotError, WorkingStore};
pub use mutable::{renamed, WorkingGraph};
pub use working::{FreezeMap, StableEdgeKey, StableNodeKey};

verus! {

} // verus!

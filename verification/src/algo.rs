//! Graph algorithms over compact indexed graphs.
pub(crate) mod dag;
mod astar;
mod bellman;
mod condense;
mod dominators;
mod flow;
mod mask;
mod shortest;
mod spanning;
mod strong;
mod transitive;
pub(crate) mod walk;
pub(crate) mod weak;

pub use dag::{find_cycle, find_cycle_filtered, has_cycle, has_cycle_filtered, topological_sort, topological_sort_filtered};
pub use astar::{admissible, astar, astar_filtered, entry_before, lemma_least_entry_least_total};
pub use dominators::{dominates_in, dominators, dominators_filtered, is_dominator_tree, is_immediate_dominator, Dominators};
pub use condense::{condensation, condensation_filtered, is_condensation, Condensation};
pub use bellman::{bellman_ford, bellman_ford_filtered, BellmanFord, SignedPath};
pub use flow::{cut_capacity, is_flow_result, lemma_flow_is_maximum, lemma_residual_cut_is_minimum, maximum_flow, MaxFlow};
pub use mask::{edge_mask, full_edge_mask};
pub use shortest::{dijkstra, dijkstra_filtered, WeightedPath};
pub use spanning::{is_kruskal_forest, minimum_spanning_forest, SpanningForest};
pub use strong::{is_backward_cover, is_strong_components, lemma_same_list_iff_mutual, strongly_connected_components, strongly_connected_components_filtered};
pub use transitive::{dag_transitive_reduction_closure, dag_transitive_reduction_closure_filtered, DagTransitive};
pub use walk::Direction;
pub use weak::{component_positions, weakly_connected_components, weakly_connected_components_filtered};

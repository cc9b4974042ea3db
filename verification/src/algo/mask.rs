//! Tabulating an edge predicate once per edge.
use crate::digraph::{is_edge_mask, valid_model};
use crate::index::EdgeIndex;
use crate::topology::IndexGraphView;
use vstd::prelude::*;

verus! {

/// Evaluates `allows_edge` once for every edge, in edge order.
pub fn edge_mask<G: IndexGraphView, F: Fn(EdgeIndex) -> bool>(graph: &G, allows_edge: &F) -> (mask: Vec<bool>)
    requires
        forall|e: EdgeIndex| allows_edge.requires((e,)),
    ensures
        is_edge_mask(*allows_edge, graph.spec_edges().len(), mask@),
{
    let count = graph.edge_bound();
    let mut mask: Vec<bool> = Vec::new();
    let mut i: usize = 0;
    while i < count
        invariant
            i <= count,
            count == graph.spec_edges().len(),
            count <= u32::MAX,
            forall|e: EdgeIndex| allows_edge.requires((e,)),
            mask@.len() == i,
            forall|e: EdgeIndex| e@ < i ==> #[trigger] allows_edge.ensures((e,), mask@[e@ as int]),
        decreases count - i,
    {
        let edge = EdgeIndex::new(i as u32);
        let allowed = allows_edge(edge);
        mask.push(allowed);
        proof {
            assert forall|e: EdgeIndex| e@ < i + 1 implies #[trigger] allows_edge.ensures((e,), mask@[e@ as int]) by {
                if e@ == i {
                    crate::index::lemma_edge_index_view(e, edge);
                }
            }
        }
        i = i + 1;
    }
    mask
}

/// A mask that allows every edge.
pub fn full_edge_mask<G: IndexGraphView>(graph: &G) -> (mask: Vec<bool>)
    ensures
        mask@ == crate::digraph::full_mask(graph.spec_edges().len()),
{
    let count = graph.edge_bound();
    let mut mask: Vec<bool> = Vec::new();
    let mut i: usize = 0;
    while i < count
        invariant
            i <= count,
            count == graph.spec_edges().len(),
            mask@.len() == i,
            forall|e: int| 0 <= e < i ==> mask@[e],
        decreases count - i,
    {
        mask.push(true);
        i = i + 1;
    }
    assert(mask@ =~= crate::digraph::full_mask(graph.spec_edges().len()));
    mask
}

} // verus!

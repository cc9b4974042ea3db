//! Compact directed topology with incoming and outgoing adjacency.
use crate::digraph::{in_list, in_prefix, lemma_in_list, lemma_out_list, out_list, out_prefix, valid_model};
use crate::error::{GraphError, Result};
use crate::index::{EdgeEndpoints, EdgeIndex, NodeIndex};
use vstd::prelude::*;

verus! {

broadcast use crate::index::group_index_lemmas;

/// The `(source, target)` pairs of a sequence of endpoints.
pub open spec fn endpoint_pairs(endpoints: Seq<EdgeEndpoints>) -> Seq<(nat, nat)> {
    endpoints.map_values(|e: EdgeEndpoints| e@)
}

/// The positions of a sequence of edge indices.
pub open spec fn edge_positions(s: Seq<EdgeIndex>) -> Seq<nat> {
    s.map_values(|e: EdgeIndex| e@)
}

/// The positions of a sequence of node indices.
pub open spec fn node_positions(s: Seq<NodeIndex>) -> Seq<nat> {
    s.map_values(|n: NodeIndex| n@)
}

/// A graph whose nodes and edges are addressed by compact indices.
///
/// Node positions are `0..node_count`, edge positions are
/// `0..edge_count`, and edge `e` goes from `spec_edges()[e].0` to
/// `spec_edges()[e].1`.
pub trait IndexGraphView {
    spec fn spec_node_count(&self) -> nat;

    spec fn spec_edges(&self) -> Seq<(nat, nat)>;

    fn node_count(&self) -> (r: usize)
        ensures
            r == self.spec_node_count(),
            valid_model(self.spec_node_count(), self.spec_edges()),
    ;

    fn edge_count(&self) -> (r: usize)
        ensures
            r == self.spec_edges().len(),
            valid_model(self.spec_node_count(), self.spec_edges()),
    ;

    /// One more than the largest node position.
    fn node_bound(&self) -> (r: usize)
        ensures
            r == self.spec_node_count(),
            valid_model(self.spec_node_count(), self.spec_edges()),
    ;

    /// One more than the largest edge position.
    fn edge_bound(&self) -> (r: usize)
        ensures
            r == self.spec_edges().len(),
            valid_model(self.spec_node_count(), self.spec_edges()),
    ;

    fn contains_node(&self, node: NodeIndex) -> (r: bool)
        ensures
            r == (node@ < self.spec_node_count()),
    ;

    fn contains_edge(&self, edge: EdgeIndex) -> (r: bool)
        ensures
            r == (edge@ < self.spec_edges().len()),
    ;

    fn edge_endpoints(&self, edge: EdgeIndex) -> (r: Option<EdgeEndpoints>)
        ensures
            edge@ < self.spec_edges().len() ==> (r matches Some(p) && p@ == self.spec_edges()[edge@ as int]),
            edge@ >= self.spec_edges().len() ==> r is None,
    ;

    /// The edges leaving `node`, in edge order.
    fn outgoing_edges(&self, node: NodeIndex) -> (r: &[EdgeIndex])
        ensures
            edge_positions(r@) == out_list(self.spec_edges(), node@),
    ;

    /// The edges entering `node`, in edge order.
    fn incoming_edges(&self, node: NodeIndex) -> (r: &[EdgeIndex])
        ensures
            edge_positions(r@) == in_list(self.spec_edges(), node@),
    ;
}

/// A validated directed topology with incoming and outgoing adjacency.
#[derive(Debug)]
pub struct Topology {
    node_count: u32,
    endpoints: Vec<EdgeEndpoints>,
    outgoing: Vec<Vec<EdgeIndex>>,
    incoming: Vec<Vec<EdgeIndex>>,
}

impl Topology {
    #[verifier::type_invariant]
    spec fn inv(self) -> bool {
        &&& valid_model(self.node_count as nat, endpoint_pairs(self.endpoints@))
        &&& self.outgoing@.len() == self.node_count
        &&& self.incoming@.len() == self.node_count
        &&& forall|v: int| 0 <= v < self.node_count ==>
            edge_positions(#[trigger] self.outgoing@[v]@) == out_list(endpoint_pairs(self.endpoints@), v as nat)
        &&& forall|v: int| 0 <= v < self.node_count ==>
            edge_positions(#[trigger] self.incoming@[v]@) == in_list(endpoint_pairs(self.endpoints@), v as nat)
    }

    pub closed spec fn view_node_count(&self) -> nat {
        self.node_count as nat
    }

    pub closed spec fn view_edges(&self) -> Seq<(nat, nat)> {
        endpoint_pairs(self.endpoints@)
    }

    /// The graph view of a topology is its own node count and edges.
    pub proof fn lemma_views(&self)
        ensures
            self.spec_node_count() == self.view_node_count(),
            self.spec_edges() == self.view_edges(),
            self.view_node_count() <= u32::MAX,
    {
    }

    /// Builds a validated directed topology.
    ///
    /// Fails when `node_count` or the number of edges does not fit a
    /// compact `u32` index, or when an endpoint is not below `node_count`
    /// (the first such endpoint in edge order, source before target).
    pub fn try_from_edges(node_count: usize, edges: Vec<EdgeEndpoints>) -> (r: Result<Topology>)
        ensures
            node_count > u32::MAX ==> r == Err::<Topology, GraphError>(
                GraphError::IndexCapacityExceeded { category: "nodes", count: node_count },
            ),
            node_count <= u32::MAX && edges@.len() > u32::MAX ==> r == Err::<Topology, GraphError>(
                GraphError::IndexCapacityExceeded { category: "edges", count: edges@.len() as usize },
            ),
            r is Ok <==> valid_model(node_count as nat, endpoint_pairs(edges@)),
            r matches Ok(t) ==> t.view_node_count() == node_count && t.view_edges() == endpoint_pairs(edges@),
            r matches Err(GraphError::InvalidNodeIndex { node, node_count: count }) ==> count == node_count
                && first_invalid_endpoint(node_count as nat, endpoint_pairs(edges@), node as nat),
    {
        if node_count > u32::MAX as usize {
            return Err(GraphError::IndexCapacityExceeded { category: "nodes", count: node_count });
        }
        if edges.len() > u32::MAX as usize {
            return Err(GraphError::IndexCapacityExceeded { category: "edges", count: edges.len() });
        }
        let ghost pairs = endpoint_pairs(edges@);
        let mut outgoing: Vec<Vec<EdgeIndex>> = Vec::new();
        let mut incoming: Vec<Vec<EdgeIndex>> = Vec::new();
        let mut v: usize = 0;
        while v < node_count
            invariant
                v <= node_count,
                outgoing@.len() == v,
                incoming@.len() == v,
                forall|w: int| 0 <= w < v ==> (#[trigger] outgoing@[w])@.len() == 0,
                forall|w: int| 0 <= w < v ==> (#[trigger] incoming@[w])@.len() == 0,
            decreases node_count - v,
        {
            outgoing.push(Vec::new());
            incoming.push(Vec::new());
            v = v + 1;
        }
        let mut e: usize = 0;
        while e < edges.len()
            invariant
                e <= edges@.len() <= u32::MAX,
                node_count <= u32::MAX,
                pairs == endpoint_pairs(edges@),
                outgoing@.len() == node_count,
                incoming@.len() == node_count,
                forall|w: int| 0 <= w < node_count ==>
                    edge_positions(#[trigger] outgoing@[w]@) == out_prefix(pairs, w as nat, e as nat),
                forall|w: int| 0 <= w < node_count ==>
                    edge_positions(#[trigger] incoming@[w]@) == in_prefix(pairs, w as nat, e as nat),
                forall|f: int| 0 <= f < e ==> (#[trigger] pairs[f]).0 < node_count && pairs[f].1 < node_count,
            decreases edges@.len() - e,
        {
            let endpoints = edges[e];
            let source = endpoints.source().index();
            let target = endpoints.target().index();
            assert(pairs[e as int] == (source as nat, target as nat));
            if source >= node_count {
                assert(!valid_model(node_count as nat, pairs));
                assert(first_invalid_endpoint(node_count as nat, pairs, source as nat));
                return Err(GraphError::InvalidNodeIndex { node: source, node_count });
            }
            if target >= node_count {
                assert(!valid_model(node_count as nat, pairs));
                assert(first_invalid_endpoint(node_count as nat, pairs, target as nat));
                return Err(GraphError::InvalidNodeIndex { node: target, node_count });
            }
            let index = EdgeIndex::new(e as u32);
            let ghost old_out = outgoing@;
            let ghost old_in = incoming@;
            outgoing[source].push(index);
            incoming[target].push(index);
            assert forall|w: int| 0 <= w < node_count implies edge_positions(#[trigger] outgoing@[w]@)
                == out_prefix(pairs, w as nat, (e + 1) as nat) by {
                if w == source {
                    assert(edge_positions(outgoing@[w]@) =~= edge_positions(old_out[w]@).push(e as nat));
                } else {
                    assert(outgoing@[w] == old_out[w]);
                }
            }
            assert forall|w: int| 0 <= w < node_count implies edge_positions(#[trigger] incoming@[w]@)
                == in_prefix(pairs, w as nat, (e + 1) as nat) by {
                if w == target {
                    assert(edge_positions(incoming@[w]@) =~= edge_positions(old_in[w]@).push(e as nat));
                } else {
                    assert(incoming@[w] == old_in[w]);
                }
            }
            e = e + 1;
        }
        Ok(Topology { node_count: node_count as u32, endpoints: edges, outgoing, incoming })
    }
}

/// `node` is the first endpoint, in edge order and source before target,
/// that is not below `node_count`.
pub open spec fn first_invalid_endpoint(node_count: nat, edges: Seq<(nat, nat)>, node: nat) -> bool {
    exists|e: int| #![trigger edges[e]]
        0 <= e < edges.len()
        && (forall|f: int| 0 <= f < e ==> (#[trigger] edges[f]).0 < node_count && edges[f].1 < node_count)
        && if edges[e].0 >= node_count { node == edges[e].0 } else { edges[e].1 >= node_count && node == edges[e].1 }
}

impl IndexGraphView for Topology {
    closed spec fn spec_node_count(&self) -> nat {
        self.node_count as nat
    }

    closed spec fn spec_edges(&self) -> Seq<(nat, nat)> {
        endpoint_pairs(self.endpoints@)
    }

    fn node_count(&self) -> (r: usize) {
        proof { use_type_invariant(self); }
        self.node_count as usize
    }

    fn edge_count(&self) -> (r: usize) {
        proof { use_type_invariant(self); }
        self.endpoints.len()
    }

    fn node_bound(&self) -> (r: usize) {
        proof { use_type_invariant(self); }
        self.node_count as usize
    }

    fn edge_bound(&self) -> (r: usize) {
        proof { use_type_invariant(self); }
        self.endpoints.len()
    }

    fn contains_node(&self, node: NodeIndex) -> (r: bool) {
        node.index() < self.node_count as usize
    }

    fn contains_edge(&self, edge: EdgeIndex) -> (r: bool) {
        edge.index() < self.endpoints.len()
    }

    fn edge_endpoints(&self, edge: EdgeIndex) -> (r: Option<EdgeEndpoints>) {
        if edge.index() < self.endpoints.len() {
            Some(self.endpoints[edge.index()])
        } else {
            None
        }
    }

    fn outgoing_edges(&self, node: NodeIndex) -> (r: &[EdgeIndex]) {
        proof { use_type_invariant(self); }
        if node.index() < self.outgoing.len() {
            self.outgoing[node.index()].as_slice()
        } else {
            proof {
                lemma_out_list(self.spec_edges(), node@);
                if out_list(self.spec_edges(), node@).len() > 0 {
                    let x = out_list(self.spec_edges(), node@)[0];
                    assert(self.spec_edges()[x as int].0 < self.spec_node_count());
                }
                assert(out_list(self.spec_edges(), node@) =~= Seq::<nat>::empty());
            }
            &[]
        }
    }

    fn incoming_edges(&self, node: NodeIndex) -> (r: &[EdgeIndex]) {
        proof { use_type_invariant(self); }
        if node.index() < self.incoming.len() {
            self.incoming[node.index()].as_slice()
        } else {
            proof {
                lemma_in_list(self.spec_edges(), node@);
                if in_list(self.spec_edges(), node@).len() > 0 {
                    let x = in_list(self.spec_edges(), node@)[0];
                    assert(self.spec_edges()[x as int].0 < self.spec_node_count());
                }
                assert(in_list(self.spec_edges(), node@) =~= Seq::<nat>::empty());
            }
            &[]
        }
    }
}

} // verus!

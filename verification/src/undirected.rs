//! Compact undirected topology: each edge joins its two endpoints, and a
//! node's incidence list holds every edge that touches it once.
use crate::digraph::valid_model;
use crate::error::{GraphError, Result};
use crate::index::{EdgeEndpoints, EdgeIndex, NodeIndex};
use crate::topology::{edge_positions, endpoint_pairs, first_invalid_endpoint};
use vstd::prelude::*;

verus! {

broadcast use crate::index::group_index_lemmas;

/// Indices among the first `k` edges that touch `v`, in increasing order.
pub open spec fn incident_prefix(edges: Seq<(nat, nat)>, v: nat, k: nat) -> Seq<nat>
    decreases k,
{
    if k == 0 {
        Seq::empty()
    } else {
        let rest = incident_prefix(edges, v, (k - 1) as nat);
        if edges[k - 1].0 == v || edges[k - 1].1 == v {
            rest.push((k - 1) as nat)
        } else {
            rest
        }
    }
}

/// The edges that touch `v`, in edge order; a self-loop appears once.
pub open spec fn incident_list(edges: Seq<(nat, nat)>, v: nat) -> Seq<nat> {
    incident_prefix(edges, v, edges.len())
}

/// The number of edges among the first `k` whose source is `v`.
pub open spec fn source_count(edges: Seq<(nat, nat)>, v: nat, k: nat) -> nat
    decreases k,
{
    if k == 0 {
        0
    } else {
        source_count(edges, v, (k - 1) as nat) + if edges[k - 1].0 == v { 1nat } else { 0nat }
    }
}

/// The number of edges among the first `k` whose target is `v`.
pub open spec fn target_count(edges: Seq<(nat, nat)>, v: nat, k: nat) -> nat
    decreases k,
{
    if k == 0 {
        0
    } else {
        target_count(edges, v, (k - 1) as nat) + if edges[k - 1].1 == v { 1nat } else { 0nat }
    }
}

/// The degree of `v`: the number of edge ends at `v`, so that a self-loop
/// counts twice.
pub open spec fn degree_of(edges: Seq<(nat, nat)>, v: nat) -> nat {
    source_count(edges, v, edges.len()) + target_count(edges, v, edges.len())
}

/// The self-loops at `v` among the listed edges.
pub open spec fn loops_among(edges: Seq<(nat, nat)>, v: nat, s: Seq<nat>) -> nat
    decreases s.len(),
{
    if s.len() == 0 {
        0
    } else {
        loops_among(edges, v, s.drop_last()) + if edges[s.last() as int] == (v, v) { 1nat } else { 0nat }
    }
}

/// The endpoint of `pair` across from `v` (the other end when `v` is the
/// source, the source otherwise).
pub open spec fn across(pair: (nat, nat), v: nat) -> nat {
    if pair.0 == v { pair.1 } else { pair.0 }
}

pub proof fn lemma_incident_prefix(edges: Seq<(nat, nat)>, v: nat, k: nat)
    requires
        k <= edges.len(),
    ensures
        forall|i: int| 0 <= i < incident_prefix(edges, v, k).len() ==> #[trigger] incident_prefix(edges, v, k)[i] < k
            && (edges[incident_prefix(edges, v, k)[i] as int].0 == v || edges[incident_prefix(edges, v, k)[i] as int].1 == v),
        forall|i: int, j: int| 0 <= i < j < incident_prefix(edges, v, k).len()
            ==> incident_prefix(edges, v, k)[i] < incident_prefix(edges, v, k)[j],
        forall|e: nat| e < k && (edges[e as int].0 == v || edges[e as int].1 == v) ==> #[trigger] incident_prefix(edges, v, k).contains(e),
        incident_prefix(edges, v, k).len() + loops_among(edges, v, incident_prefix(edges, v, k))
            == source_count(edges, v, k) + target_count(edges, v, k),
    decreases k,
{
    if k > 0 {
        lemma_incident_prefix(edges, v, (k - 1) as nat);
        let rest = incident_prefix(edges, v, (k - 1) as nat);
        let cur = incident_prefix(edges, v, k);
        if edges[k - 1].0 == v || edges[k - 1].1 == v {
            assert(cur.drop_last() =~= rest);
        }
        assert forall|e: nat| e < k && (edges[e as int].0 == v || edges[e as int].1 == v) implies #[trigger] cur.contains(e) by {
            if e < k - 1 {
                assert(rest.contains(e));
                let j = choose|j: int| 0 <= j < rest.len() && rest[j] == e;
                assert(cur[j] == e);
            } else {
                assert(cur[cur.len() - 1] == e);
            }
        }
    }
}

/// An undirected view whose nodes and edges are addressed by compact
/// indices: edge `e` joins `spec_edges()[e].0` and `spec_edges()[e].1`.
pub trait IndexUndirectedGraphView {
    spec fn spec_node_count(&self) -> nat;

    spec fn spec_edges(&self) -> Seq<(nat, nat)>;

    fn node_count(&self) -> (r: usize)
        ensures
            r == self.spec_node_count(),
            valid_model(self.spec_node_count(), self.spec_edges()),
    ;

    fn edge_count(&self) -> (r: usize)
        ensures
            r == self.spec_edges().len(),
            valid_model(self.spec_node_count(), self.spec_edges()),
    ;

    /// One more than the largest node position.
    fn node_bound(&self) -> (r: usize)
        ensures
            r == self.spec_node_count(),
            valid_model(self.spec_node_count(), self.spec_edges()),
    ;

    /// One more than the largest edge position.
    fn edge_bound(&self) -> (r: usize)
        ensures
            r == self.spec_edges().len(),
            valid_model(self.spec_node_count(), self.spec_edges()),
    ;

    fn contains_node(&self, node: NodeIndex) -> (r: bool)
        ensures
            r == (node@ < self.spec_node_count()),
    ;

    fn contains_edge(&self, edge: EdgeIndex) -> (r: bool)
        ensures
            r == (edge@ < self.spec_edges().len()),
    ;

    fn edge_endpoints(&self, edge: EdgeIndex) -> (r: Option<EdgeEndpoints>)
        ensures
            edge@ < self.spec_edges().len() ==> (r matches Some(p) && p@ == self.spec_edges()[edge@ as int]),
            edge@ >= self.spec_edges().len() ==> r is None,
    ;

    /// The edges touching `node`, in edge order; a self-loop appears once.
    fn incident_edges(&self, node: NodeIndex) -> (r: &[EdgeIndex])
        ensures
            edge_positions(r@) == incident_list(self.spec_edges(), node@),
    ;

    /// The end of `edge` across from `node`; `None` when the edge does not
    /// exist or does not touch `node`.
    fn opposite(&self, edge: EdgeIndex, node: NodeIndex) -> (r: Option<NodeIndex>)
        ensures
            r is Some <==> edge@ < self.spec_edges().len() && (self.spec_edges()[edge@ as int].0 == node@
                || self.spec_edges()[edge@ as int].1 == node@),
            r matches Some(o) ==> o@ == across(self.spec_edges()[edge@ as int], node@),
    {
        match self.edge_endpoints(edge) {
            None => None,
            Some(endpoints) => {
                if endpoints.source() == node {
                    Some(endpoints.target())
                } else if endpoints.target() == node {
                    Some(endpoints.source())
                } else {
                    None
                }
            },
        }
    }
}

/// A validated undirected topology with an incidence list per node.
#[derive(Debug)]
pub struct UndirectedTopology {
    node_count: u32,
    endpoints: Vec<EdgeEndpoints>,
    incidence: Vec<Vec<EdgeIndex>>,
}

impl UndirectedTopology {
    #[verifier::type_invariant]
    spec fn inv(self) -> bool {
        &&& valid_model(self.node_count as nat, endpoint_pairs(self.endpoints@))
        &&& self.incidence@.len() == self.node_count
        &&& forall|v: int| 0 <= v < self.node_count ==>
            edge_positions(#[trigger] self.incidence@[v]@) == incident_list(endpoint_pairs(self.endpoints@), v as nat)
    }

    pub closed spec fn view_node_count(&self) -> nat {
        self.node_count as nat
    }

    pub closed spec fn view_edges(&self) -> Seq<(nat, nat)> {
        endpoint_pairs(self.endpoints@)
    }

    /// The undirected view of a topology is its own node count and edges.
    pub proof fn lemma_views(&self)
        ensures
            self.spec_node_count() == self.view_node_count(),
            self.spec_edges() == self.view_edges(),
            self.view_node_count() <= u32::MAX,
    {
    }

    /// Builds a validated undirected topology.
    ///
    /// Fails when `node_count` or the number of edges does not fit a
    /// compact `u32` index, or when an endpoint is not below `node_count`
    /// (the first such endpoint in edge order, source before target).
    pub fn try_from_edges(node_count: usize, edges: Vec<EdgeEndpoints>) -> (r: Result<UndirectedTopology>)
        ensures
            node_count > u32::MAX ==> r == Err::<UndirectedTopology, GraphError>(
                GraphError::IndexCapacityExceeded { category: "nodes", count: node_count },
            ),
            node_count <= u32::MAX && edges@.len() > u32::MAX ==> r == Err::<UndirectedTopology, GraphError>(
                GraphError::IndexCapacityExceeded { category: "edges", count: edges@.len() as usize },
            ),
            r is Ok <==> valid_model(node_count as nat, endpoint_pairs(edges@)),
            r matches Ok(t) ==> t.view_node_count() == node_count && t.view_edges() == endpoint_pairs(edges@),
            r matches Err(GraphError::InvalidNodeIndex { node, node_count: count }) ==> count == node_count
                && first_invalid_endpoint(node_count as nat, endpoint_pairs(edges@), node as nat),
    {
        if node_count > u32::MAX as usize {
            return Err(GraphError::IndexCapacityExceeded { category: "nodes", count: node_count });
        }
        if edges.len() > u32::MAX as usize {
            return Err(GraphError::IndexCapacityExceeded { category: "edges", count: edges.len() });
        }
        let ghost pairs = endpoint_pairs(edges@);
        let mut incidence: Vec<Vec<EdgeIndex>> = Vec::new();
        let mut v: usize = 0;
        while v < node_count
            invariant
                v <= node_count,
                incidence@.len() == v,
                forall|w: int| 0 <= w < v ==> (#[trigger] incidence@[w])@.len() == 0,
            decreases node_count - v,
        {
            incidence.push(Vec::new());
            v = v + 1;
        }
        let mut e: usize = 0;
        while e < edges.len()
            invariant
                e <= edges@.len() <= u32::MAX,
                node_count <= u32::MAX,
                pairs == endpoint_pairs(edges@),
                incidence@.len() == node_count,
                forall|w: int| 0 <= w < node_count ==>
                    edge_positions(#[trigger] incidence@[w]@) == incident_prefix(pairs, w as nat, e as nat),
                forall|f: int| 0 <= f < e ==> (#[trigger] pairs[f]).0 < node_count && pairs[f].1 < node_count,
            decreases edges@.len() - e,
        {
            let endpoints = edges[e];
            let source = endpoints.source().index();
            let target = endpoints.target().index();
            assert(pairs[e as int] == (source as nat, target as nat));
            if source >= node_count {
                assert(!valid_model(node_count as nat, pairs));
                assert(first_invalid_endpoint(node_count as nat, pairs, source as nat));
                return Err(GraphError::InvalidNodeIndex { node: source, node_count });
            }
            if target >= node_count {
                assert(!valid_model(node_count as nat, pairs));
                assert(first_invalid_endpoint(node_count as nat, pairs, target as nat));
                return Err(GraphError::InvalidNodeIndex { node: target, node_count });
            }
            let index = EdgeIndex::new(e as u32);
            let ghost before = incidence@;
            incidence[source].push(index);
            if target != source {
                incidence[target].push(index);
            }
            assert forall|w: int| 0 <= w < node_count implies edge_positions(#[trigger] incidence@[w]@)
                == incident_prefix(pairs, w as nat, (e + 1) as nat) by {
                if w == source || w == target {
                    assert(edge_positions(incidence@[w]@) =~= edge_positions(before[w]@).push(e as nat));
                } else {
                    assert(incidence@[w] == before[w]);
                }
            }
            e = e + 1;
        }
        Ok(UndirectedTopology { node_count: node_count as u32, endpoints: edges, incidence })
    }

    /// The ends of the edges touching `node`, across from `node`, in edge
    /// order; empty when `node` does not exist.
    pub fn neighbors(&self, node: NodeIndex) -> (r: Vec<NodeIndex>)
        ensures
            r@.len() == incident_list(self.view_edges(), node@).len(),
            forall|i: int| 0 <= i < r@.len() ==> (#[trigger] r@[i])@
                == across(self.view_edges()[incident_list(self.view_edges(), node@)[i] as int], node@),
    {
        let incident = self.incident_edges(node);
        let ghost list = incident_list(self.view_edges(), node@);
        proof {
            lemma_incident_prefix(self.view_edges(), node@, self.view_edges().len());
            assert(edge_positions(incident@) == list);
        }
        let mut out: Vec<NodeIndex> = Vec::new();
        let mut i: usize = 0;
        while i < incident.len()
            invariant
                i <= incident@.len(),
                edge_positions(incident@) == list,
                list == incident_list(self.view_edges(), node@),
                forall|j: int| 0 <= j < list.len() ==> #[trigger] list[j] < self.view_edges().len(),
                self.view_edges() == endpoint_pairs(self.endpoints@),
                out@.len() == i,
                forall|j: int| 0 <= j < i ==> (#[trigger] out@[j])@ == across(self.view_edges()[list[j] as int], node@),
            decreases incident@.len() - i,
        {
            let edge = incident[i];
            assert(edge@ == list[i as int]);
            let endpoints = self.endpoints[edge.index()];
            if endpoints.source() == node {
                out.push(endpoints.target());
            } else {
                out.push(endpoints.source());
            }
            i = i + 1;
        }
        out
    }

    /// The number of edge ends at `node`, a self-loop counting twice;
    /// `None` when `node` does not exist. (A count beyond `usize::MAX`,
    /// possible only where `usize` is narrower than 33 bits, saturates.)
    pub fn degree(&self, node: NodeIndex) -> (r: Option<usize>)
        ensures
            r is Some <==> node@ < self.view_node_count(),
            r matches Some(d) ==> d == if degree_of(self.view_edges(), node@) <= usize::MAX {
                degree_of(self.view_edges(), node@)
            } else {
                usize::MAX as nat
            },
    {
        proof {
            use_type_invariant(self);
        }
        if node.index() >= self.node_count as usize {
            return None;
        }
        let incident = self.incident_edges(node);
        let ghost edges = self.view_edges();
        let ghost list = incident_list(edges, node@);
        proof {
            lemma_incident_prefix(edges, node@, edges.len());
            lemma_counts_bounded(edges, node@, edges.len());
        }
        let mut loops: usize = 0;
        let mut i: usize = 0;
        while i < incident.len()
            invariant
                i <= incident@.len(),
                edge_positions(incident@) == list,
                edges == self.view_edges(),
                edges == endpoint_pairs(self.endpoints@),
                edges.len() <= u32::MAX,
                forall|j: int| 0 <= j < list.len() ==> #[trigger] list[j] < edges.len(),
                loops == loops_among(edges, node@, list.take(i as int)),
                loops <= i,
            decreases incident@.len() - i,
        {
            let edge = incident[i];
            assert(edge@ == list[i as int]);
            assert(list.take(i + 1).drop_last() =~= list.take(i as int));
            let endpoints = self.endpoints[edge.index()];
            if endpoints.source() == node && endpoints.target() == node {
                loops = loops + 1;
            }
            i = i + 1;
        }
        proof {
            assert(list.take(list.len() as int) =~= list);
        }
        Some(loops.saturating_add(incident.len()))
    }
}

/// Each count is at most the number of edges considered.
proof fn lemma_counts_bounded(edges: Seq<(nat, nat)>, v: nat, k: nat)
    ensures
        source_count(edges, v, k) <= k,
        target_count(edges, v, k) <= k,
    decreases k,
{
    if k > 0 {
        lemma_counts_bounded(edges, v, (k - 1) as nat);
    }
}

impl IndexUndirectedGraphView for UndirectedTopology {
    closed spec fn spec_node_count(&self) -> nat {
        self.node_count as nat
    }

    closed spec fn spec_edges(&self) -> Seq<(nat, nat)> {
        endpoint_pairs(self.endpoints@)
    }

    fn node_count(&self) -> (r: usize) {
        proof { use_type_invariant(self); }
        self.node_count as usize
    }

    fn edge_count(&self) -> (r: usize) {
        proof { use_type_invariant(self); }
        self.endpoints.len()
    }

    fn node_bound(&self) -> (r: usize) {
        proof { use_type_invariant(self); }
        self.node_count as usize
    }

    fn edge_bound(&self) -> (r: usize) {
        proof { use_type_invariant(self); }
        self.endpoints.len()
    }

    fn contains_node(&self, node: NodeIndex) -> (r: bool) {
        node.index() < self.node_count as usize
    }

    fn contains_edge(&self, edge: EdgeIndex) -> (r: bool) {
        edge.index() < self.endpoints.len()
    }

    fn edge_endpoints(&self, edge: EdgeIndex) -> (r: Option<EdgeEndpoints>) {
        if edge.index() < self.endpoints.len() {
            Some(self.endpoints[edge.index()])
        } else {
            None
        }
    }

    fn incident_edges(&self, node: NodeIndex) -> (r: &[EdgeIndex]) {
        proof { use_type_invariant(self); }
        if node.index() < self.incidence.len() {
            self.incidence[node.index()].as_slice()
        } else {
            proof {
                let edges = self.spec_edges();
                lemma_incident_prefix(edges, node@, edges.len());
                if incident_list(edges, node@).len() > 0 {
                    let x = incident_list(edges, node@)[0];
                    assert(edges[x as int].0 < self.spec_node_count());
                }
                assert(incident_list(edges, node@) =~= Seq::<nat>::empty());
            }
            &[]
        }
    }
}

} // verus!

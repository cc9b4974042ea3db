//! The canonical graph: nodes in increasing identifier order, edges whose
//! endpoints name existing nodes, and a compact topology over node
//! positions for traversal.
use crate::digraph::valid_model;
use crate::error::{GraphError, Result};
use crate::index::{EdgeEndpoints, EdgeIndex, NodeIndex};
use crate::model::{Edge, Node, NodeId};
use crate::topology::{endpoint_pairs, IndexGraphView, Topology};
use crate::validate::{edge_error, node_error};
use vstd::prelude::*;

verus! {

broadcast use crate::index::group_index_lemmas;

/// A graph node position, as handed out by [`Graph::node_index`].
pub type GraphNodeIndex = NodeIndex;

/// `a` comes strictly before `b` in the lexicographic order of their
/// characters (which is the byte order of their UTF-8 encodings).
pub open spec fn text_less(a: Seq<char>, b: Seq<char>) -> bool
    decreases a.len(),
{
    if a.len() == 0 {
        b.len() > 0
    } else if b.len() == 0 {
        false
    } else if a[0] != b[0] {
        (a[0] as int) < (b[0] as int)
    } else {
        text_less(a.drop_first(), b.drop_first())
    }
}

/// The node identifiers, in order.
pub open spec fn node_ids(nodes: Seq<Node>) -> Seq<Seq<char>> {
    nodes.map_values(|n: Node| n.id@)
}

/// Each identifier comes strictly before the next.
pub open spec fn strictly_sorted(ids: Seq<Seq<char>>) -> bool {
    forall|i: int, j: int| 0 <= i < j < ids.len() ==> text_less(#[trigger] ids[i], #[trigger] ids[j])
}

/// The position of `id` among the identifiers, if it is one of them.
pub open spec fn id_position(ids: Seq<Seq<char>>, id: Seq<char>, p: nat) -> bool {
    p < ids.len() && ids[p as int] == id
}

/// The edges as pairs of node positions, when every endpoint names one of
/// the identifiers.
pub open spec fn resolved(ids: Seq<Seq<char>>, edges: Seq<Edge>, pairs: Seq<(nat, nat)>) -> bool {
    &&& pairs.len() == edges.len()
    &&& forall|e: int| 0 <= e < edges.len() ==> id_position(ids, (#[trigger] edges[e]).source@, pairs[e].0)
        && id_position(ids, edges[e].target@, pairs[e].1)
}

/// Some identifier equals `id`.
pub open spec fn has_id(ids: Seq<Seq<char>>, id: Seq<char>) -> bool {
    exists|p: nat| #[trigger] id_position(ids, id, p)
}

/// Every endpoint of the first `k` edges names a node.
pub open spec fn endpoints_known(ids: Seq<Seq<char>>, edges: Seq<Edge>, k: int) -> bool {
    forall|e: int| 0 <= e < k ==> has_id(ids, (#[trigger] edges[e]).source@) && has_id(ids, edges[e].target@)
}

/// The error for the first edge, in order, with an endpoint that names no
/// node: its source if that is unknown, else its target.
pub open spec fn first_missing(ids: Seq<Seq<char>>, edges: Seq<Edge>, err: GraphError) -> bool {
    exists|e: int| #![trigger edges[e]]
        0 <= e < edges.len() && endpoints_known(ids, edges, e) && if !has_id(ids, edges[e].source@) {
            err matches GraphError::MissingEdgeSource { id } && id@ == edges[e].source@
        } else {
            !has_id(ids, edges[e].target@) && (err matches GraphError::MissingEdgeTarget { id } && id@ == edges[e].target@)
        }
}

/// Text order is irreflexive.
pub(crate) proof fn lemma_text_less_irreflexive(a: Seq<char>)
    ensures
        !text_less(a, a),
    decreases a.len(),
{
    if a.len() > 0 {
        lemma_text_less_irreflexive(a.drop_first());
    }
}

/// Text order is transitive.
pub(crate) proof fn lemma_text_less_trans(a: Seq<char>, b: Seq<char>, c: Seq<char>)
    requires
        text_less(a, b),
        text_less(b, c),
    ensures
        text_less(a, c),
    decreases a.len(),
{
    if a.len() > 0 && b.len() > 0 && c.len() > 0 {
        if a[0] == b[0] && b[0] == c[0] {
            lemma_text_less_trans(a.drop_first(), b.drop_first(), c.drop_first());
        }
    }
}

/// Text order is total: of two different texts one comes first.
pub(crate) proof fn lemma_text_less_total(a: Seq<char>, b: Seq<char>)
    requires
        a != b,
    ensures
        text_less(a, b) || text_less(b, a),
    decreases a.len(),
{
    if a.len() > 0 && b.len() > 0 && a[0] == b[0] {
        if a.drop_first() == b.drop_first() {
            assert(a =~= seq![a[0]] + a.drop_first());
            assert(b =~= seq![b[0]] + b.drop_first());
        }
        lemma_text_less_total(a.drop_first(), b.drop_first());
    } else if a.len() > 0 && b.len() > 0 {
        assert((a[0] as int) != (b[0] as int));
    } else if a.len() == 0 && b.len() == 0 {
        assert(a =~= b);
    }
}

/// Compares two texts: `-1`, `0` or `1` as `a` comes before, equals or
/// comes after `b`.
pub fn compare_text(a: &str, b: &str) -> (r: i8)
    ensures
        r == -1 || r == 0 || r == 1,
        r == -1 <==> text_less(a@, b@),
        r == 0 <==> a@ == b@,
        r == 1 <==> text_less(b@, a@),
{
    let la = a.unicode_len();
    let lb = b.unicode_len();
    let mut i: usize = 0;
    while i < la && i < lb
        invariant
            la == a@.len(),
            lb == b@.len(),
            i <= la,
            i <= lb,
            a@.take(i as int) == b@.take(i as int),
        decreases la - i,
    {
        let x = a.get_char(i);
        let y = b.get_char(i);
        if x != y {
            proof {
                lemma_text_less_at(a@, b@, i as nat);
                lemma_text_less_at(b@, a@, i as nat);
                lemma_text_less_irreflexive(a@);
                if a@ == b@ {
                    assert(a@[i as int] == b@[i as int]);
                }
            }
            if (x as u32) < (y as u32) {
                return -1;
            } else {
                return 1;
            }
        }
        proof {
            assert(a@.take(i + 1) =~= a@.take(i as int).push(x));
            assert(b@.take(i + 1) =~= b@.take(i as int).push(y));
        }
        i = i + 1;
    }
    proof {
        lemma_text_less_at(a@, b@, i as nat);
        lemma_text_less_at(b@, a@, i as nat);
        lemma_text_less_irreflexive(a@);
        if la == lb {
            assert(a@ =~= a@.take(i as int));
            assert(b@ =~= b@.take(i as int));
        } else if a@ == b@ {
            assert(false);
        }
    }
    if la < lb {
        -1
    } else if la > lb {
        1
    } else {
        0
    }
}

/// Two texts that agree on their first `i` characters compare as their
/// rests do.
proof fn lemma_text_less_at(a: Seq<char>, b: Seq<char>, i: nat)
    requires
        i <= a.len(),
        i <= b.len(),
        a.take(i as int) == b.take(i as int),
    ensures
        text_less(a, b) == if i < a.len() && i < b.len() && a[i as int] != b[i as int] {
            (a[i as int] as int) < (b[i as int] as int)
        } else if i < a.len() && i < b.len() {
            text_less(a.skip(i as int), b.skip(i as int))
        } else {
            a.len() < b.len()
        },
    decreases i,
{
    if i == 0 {
        assert(a.skip(0) =~= a);
        assert(b.skip(0) =~= b);
        if a.len() > 0 && b.len() > 0 && a[0] == b[0] {
        }
    } else {
        assert(a[0] == a.take(i as int)[0]);
        assert(b[0] == b.take(i as int)[0]);
        assert(a.drop_first().take(i - 1) =~= a.take(i as int).drop_first());
        assert(b.drop_first().take(i - 1) =~= b.take(i as int).drop_first());
        lemma_text_less_at(a.drop_first(), b.drop_first(), (i - 1) as nat);
        assert(a.drop_first().skip(i - 1) =~= a.skip(i as int));
        assert(b.drop_first().skip(i - 1) =~= b.skip(i as int));
        if i < a.len() {
            assert(a.drop_first()[i - 1] == a[i as int]);
        }
        if i < b.len() {
            assert(b.drop_first()[i - 1] == b[i as int]);
        }
    }
}

/// Whether each node identifier comes strictly before the next.
pub fn strictly_sorted_nodes(nodes: &[Node]) -> (r: bool)
    ensures
        r == strictly_sorted(node_ids(nodes@)),
{
    let ghost ids = node_ids(nodes@);
    let mut i: usize = 1;
    while i < nodes.len()
        invariant
            ids == node_ids(nodes@),
            1 <= i,
            nodes@.len() > 0 ==> i <= nodes@.len(),
            forall|a: int, b: int| 0 <= a < b < i && b < ids.len() ==> text_less(#[trigger] ids[a], #[trigger] ids[b]),
        decreases nodes@.len() - i,
    {
        let c = compare_text(nodes[i - 1].id.as_str(), nodes[i].id.as_str());
        if c != -1 {
            proof {
                assert(!text_less(ids[i - 1], ids[i as int]));
            }
            return false;
        }
        proof {
            assert forall|a: int, b: int| 0 <= a < b < i + 1 && b < ids.len() implies text_less(#[trigger] ids[a], #[trigger] ids[b]) by {
                if b == i && a < i - 1 {
                    lemma_text_less_trans(ids[a], ids[i - 1], ids[b]);
                }
            }
        }
        i = i + 1;
    }
    true
}

/// The position of the node whose identifier is `id`, by binary search.
pub fn find_node(nodes: &[Node], id: &str) -> (r: Option<usize>)
    requires
        strictly_sorted(node_ids(nodes@)),
    ensures
        r matches Some(p) ==> id_position(node_ids(nodes@), id@, p as nat),
        r is None ==> !has_id(node_ids(nodes@), id@),
{
    let ghost ids = node_ids(nodes@);
    let mut lo: usize = 0;
    let mut hi: usize = nodes.len();
    while lo < hi
        invariant
            ids == node_ids(nodes@),
            strictly_sorted(ids),
            lo <= hi <= ids.len(),
            forall|p: int| 0 <= p < lo ==> text_less(#[trigger] ids[p], id@),
            forall|p: int| hi <= p < ids.len() ==> text_less(id@, #[trigger] ids[p]),
        decreases hi - lo,
    {
        let mid = lo + (hi - lo) / 2;
        let c = compare_text(nodes[mid].id.as_str(), id);
        proof {
            assert(ids[mid as int] == nodes@[mid as int].id@);
        }
        if c == 0 {
            return Some(mid);
        } else if c == -1 {
            proof {
                assert forall|p: int| 0 <= p < mid + 1 implies text_less(#[trigger] ids[p], id@) by {
                    if p < mid {
                        lemma_text_less_trans(ids[p], ids[mid as int], id@);
                    }
                }
            }
            lo = mid + 1;
        } else {
            proof {
                assert forall|p: int| mid <= p < ids.len() implies text_less(id@, #[trigger] ids[p]) by {
                    if p > mid {
                        lemma_text_less_trans(id@, ids[mid as int], ids[p]);
                    }
                }
            }
            hi = mid;
        }
    }
    proof {
        if has_id(ids, id@) {
            let p = choose|p: nat| #[trigger] id_position(ids, id@, p);
            lemma_text_less_irreflexive(id@);
            if p < lo {
                assert(text_less(ids[p as int], id@));
            } else {
                assert(text_less(id@, ids[p as int]));
            }
        }
    }
    None
}

/// Resolves every edge endpoint to the position of its node, in edge
/// order; fails on the first endpoint that names no node, the source of
/// an edge before its target.
pub fn resolve_edges(nodes: &[Node], edges: &[Edge]) -> (r: Result<Vec<EdgeEndpoints>>)
    requires
        strictly_sorted(node_ids(nodes@)),
        nodes@.len() <= u32::MAX,
    ensures
        r is Ok <==> endpoints_known(node_ids(nodes@), edges@, edges@.len() as int),
        r matches Ok(v) ==> resolved(node_ids(nodes@), edges@, endpoint_pairs(v@)),
        r matches Err(e) ==> first_missing(node_ids(nodes@), edges@, e),
{
    let ghost ids = node_ids(nodes@);
    let mut out: Vec<EdgeEndpoints> = Vec::new();
    let mut e: usize = 0;
    while e < edges.len()
        invariant
            ids == node_ids(nodes@),
            strictly_sorted(ids),
            nodes@.len() <= u32::MAX,
            e <= edges@.len(),
            endpoints_known(ids, edges@, e as int),
            out@.len() == e,
            forall|f: int| 0 <= f < e ==> id_position(ids, (#[trigger] edges@[f]).source@, out@[f]@.0)
                && id_position(ids, edges@[f].target@, out@[f]@.1),
        decreases edges@.len() - e,
    {
        let edge = &edges[e];
        let source = match find_node(nodes, edge.source.as_str()) {
            Some(p) => p,
            None => {
                proof {
                    assert(edges@[e as int] == *edge);
                }
                return Err(GraphError::MissingEdgeSource { id: edge.source.as_str().to_owned() });
            },
        };
        let target = match find_node(nodes, edge.target.as_str()) {
            Some(p) => p,
            None => {
                proof {
                    assert(edges@[e as int] == *edge);
                    assert(has_id(ids, edge.source@));
                }
                return Err(GraphError::MissingEdgeTarget { id: edge.target.as_str().to_owned() });
            },
        };
        out.push(EdgeEndpoints::new(NodeIndex::new(source as u32), NodeIndex::new(target as u32)));
        proof {
            assert(id_position(ids, edge.source@, source as nat));
            assert(id_position(ids, edge.target@, target as nat));
            assert forall|f: int| 0 <= f < e + 1 implies has_id(ids, (#[trigger] edges@[f]).source@) && has_id(ids, edges@[f].target@) by {
                if f < e {
                    assert(id_position(ids, edges@[f].source@, out@[f]@.0));
                    assert(id_position(ids, edges@[f].target@, out@[f]@.1));
                }
            }
        }
        e = e + 1;
    }
    proof {
        assert forall|f: int| 0 <= f < edges@.len() implies id_position(ids, (#[trigger] edges@[f]).source@, endpoint_pairs(out@)[f].0)
            && id_position(ids, edges@[f].target@, endpoint_pairs(out@)[f].1) by {
            assert(endpoint_pairs(out@)[f] == out@[f]@);
        }
    }
    Ok(out)
}

/// Every node and every edge passes validation.
pub open spec fn elements_valid(nodes: Seq<Node>, edges: Seq<Edge>) -> bool {
    &&& forall|i: int| 0 <= i < nodes.len() ==> node_error(&#[trigger] nodes[i], Ok::<(), GraphError>(()))
    &&& forall|e: int| 0 <= e < edges.len() ==> edge_error(&#[trigger] edges[e], Ok::<(), GraphError>(()))
}

/// A validated graph: every node and edge valid, nodes in strictly
/// increasing identifier order, each edge's endpoints naming nodes, and
/// the topology of node positions.
#[derive(Debug)]
pub struct Graph {
    nodes: Vec<Node>,
    edges: Vec<Edge>,
    topology: Topology,
}

impl Graph {
    #[verifier::type_invariant]
    spec fn inv(self) -> bool {
        &&& elements_valid(self.nodes@, self.edges@)
        &&& strictly_sorted(node_ids(self.nodes@))
        &&& self.topology.view_node_count() == self.nodes@.len()
        &&& resolved(node_ids(self.nodes@), self.edges@, self.topology.view_edges())
    }

    /// The nodes, in identifier order.
    pub closed spec fn node_list(self) -> Seq<Node> {
        self.nodes@
    }

    /// The edges, in their canonical order.
    pub closed spec fn edge_list(self) -> Seq<Edge> {
        self.edges@
    }

    /// Edge `e` as a pair of node positions.
    pub closed spec fn position_pairs(self) -> Seq<(nat, nat)> {
        self.topology.view_edges()
    }

    /// Builds a graph from nodes already in strictly increasing identifier
    /// order and edges already in canonical order, resolving each edge's
    /// endpoints.
    ///
    /// Fails when there are more nodes than compact indices hold, on the
    /// first edge endpoint (in edge order, source first) that names no
    /// node, or when there are more edges than compact indices hold.
    pub fn from_validated_sorted_parts(nodes: Vec<Node>, edges: Vec<Edge>) -> (r: Result<Graph>)
        requires
            elements_valid(nodes@, edges@),
            strictly_sorted(node_ids(nodes@)),
        ensures
            nodes@.len() > u32::MAX ==> r == Err::<Graph, GraphError>(
                GraphError::IndexCapacityExceeded { category: "nodes", count: nodes@.len() as usize },
            ),
            nodes@.len() <= u32::MAX && !endpoints_known(node_ids(nodes@), edges@, edges@.len() as int) ==> (r matches Err(e)
                && first_missing(node_ids(nodes@), edges@, e)),
            nodes@.len() <= u32::MAX && endpoints_known(node_ids(nodes@), edges@, edges@.len() as int) && edges@.len() > u32::MAX
                ==> r == Err::<Graph, GraphError>(GraphError::IndexCapacityExceeded { category: "edges", count: edges@.len() as usize }),
            r is Ok <==> nodes@.len() <= u32::MAX && edges@.len() <= u32::MAX
                && endpoints_known(node_ids(nodes@), edges@, edges@.len() as int),
            r matches Ok(g) ==> g.node_list() == nodes@ && g.edge_list() == edges@,
    {
        if nodes.len() > u32::MAX as usize {
            return Err(GraphError::IndexCapacityExceeded { category: "nodes", count: nodes.len() });
        }
        let ends = resolve_edges(nodes.as_slice(), edges.as_slice())?;
        proof {
            let ids = node_ids(nodes@);
            assert forall|e: int| 0 <= e < endpoint_pairs(ends@).len() implies (#[trigger] endpoint_pairs(ends@)[e]).0 < nodes@.len()
                && endpoint_pairs(ends@)[e].1 < nodes@.len() by {
                assert(id_position(ids, edges@[e].source@, endpoint_pairs(ends@)[e].0));
            }
        }
        let topology = Topology::try_from_edges(nodes.len(), ends)?;
        Ok(Graph { nodes, edges, topology })
    }

    /// The nodes, each valid, in strictly increasing identifier order.
    pub fn nodes(&self) -> (r: &[Node])
        ensures
            r@ == self.node_list(),
            strictly_sorted(node_ids(r@)),
            forall|i: int| 0 <= i < r@.len() ==> node_error(&#[trigger] r@[i], Ok::<(), GraphError>(())),
    {
        proof {
            use_type_invariant(self);
        }
        self.nodes.as_slice()
    }

    /// The edges, each valid, in their canonical order.
    pub fn edges(&self) -> (r: &[Edge])
        ensures
            r@ == self.edge_list(),
            forall|e: int| 0 <= e < r@.len() ==> edge_error(&#[trigger] r@[e], Ok::<(), GraphError>(())),
    {
        proof {
            use_type_invariant(self);
        }
        self.edges.as_slice()
    }

    /// The topology over node positions.
    pub fn topology(&self) -> (r: &Topology)
        ensures
            r.view_node_count() == self.node_list().len(),
            r.view_edges() == self.position_pairs(),
    {
        proof {
            use_type_invariant(self);
        }
        &self.topology
    }

    /// The position of the node whose identifier is `id`.
    pub fn node_index(&self, id: &str) -> (r: Option<GraphNodeIndex>)
        ensures
            r matches Some(i) ==> id_position(node_ids(self.node_list()), id@, i@),
            r is None <==> !has_id(node_ids(self.node_list()), id@),
    {
        proof {
            use_type_invariant(self);
            self.topology.lemma_views();
        }
        match find_node(self.nodes.as_slice(), id) {
            Some(p) => {
                proof {
                    assert(id_position(node_ids(self.nodes@), id@, p as nat));
                }
                Some(NodeIndex::new(p as u32))
            },
            None => None,
        }
    }

    /// The node at position `index`.
    pub fn node_at(&self, index: GraphNodeIndex) -> (r: Option<&Node>)
        ensures
            r is Some <==> index@ < self.node_list().len(),
            r matches Some(n) ==> *n == self.node_list()[index@ as int],
    {
        if index.index() < self.nodes.len() {
            Some(&self.nodes[index.index()])
        } else {
            None
        }
    }

    /// The node whose identifier is `id`.
    pub fn node(&self, id: &str) -> (r: Option<&Node>)
        ensures
            r is None <==> !has_id(node_ids(self.node_list()), id@),
            r matches Some(n) ==> n.id@ == id@ && self.node_list().contains(*n),
    {
        match self.node_index(id) {
            Some(index) => {
                let r = self.node_at(index);
                proof {
                    assert(node_ids(self.nodes@)[index@ as int] == self.nodes@[index@ as int].id@);
                }
                r
            },
            None => None,
        }
    }

    /// The edge at position `index`.
    pub fn edge_at(&self, index: EdgeIndex) -> (r: Option<&Edge>)
        ensures
            r is Some <==> index@ < self.edge_list().len(),
            r matches Some(e) ==> *e == self.edge_list()[index@ as int],
    {
        if index.index() < self.edges.len() {
            Some(&self.edges[index.index()])
        } else {
            None
        }
    }

    pub fn node_count(&self) -> (r: usize)
        ensures
            r == self.node_list().len(),
    {
        self.nodes.len()
    }

    pub fn edge_count(&self) -> (r: usize)
        ensures
            r == self.edge_list().len(),
    {
        self.edges.len()
    }

    pub fn is_empty(&self) -> (r: bool)
        ensures
            r == (self.node_list().len() == 0 && self.edge_list().len() == 0),
    {
        self.nodes.len() == 0 && self.edges.len() == 0
    }

    pub fn into_parts(self) -> (r: (Vec<Node>, Vec<Edge>))
        ensures
            r.0@ == self.node_list(),
            r.1@ == self.edge_list(),
    {
        (self.nodes, self.edges)
    }

    /// The edges leaving the node at `index`, in edge order; empty when
    /// there is no such node.
    pub fn outgoing_at(&self, index: GraphNodeIndex) -> (r: Vec<&Edge>)
        ensures
            r@.len() == crate::digraph::out_list(self.position_pairs(), index@).len(),
            forall|i: int| 0 <= i < r@.len() ==> *(#[trigger] r@[i])
                == self.edge_list()[crate::digraph::out_list(self.position_pairs(), index@)[i] as int],
    {
        proof {
            use_type_invariant(self);
        }
        let list = self.topology.outgoing_edges(index);
        proof {
            self.topology.lemma_views();
            crate::digraph::lemma_out_list(self.position_pairs(), index@);
        }
        self.edges_listed(list, Ghost(crate::digraph::out_list(self.position_pairs(), index@)))
    }

    /// The edges entering the node at `index`, in edge order; empty when
    /// there is no such node.
    pub fn incoming_at(&self, index: GraphNodeIndex) -> (r: Vec<&Edge>)
        ensures
            r@.len() == crate::digraph::in_list(self.position_pairs(), index@).len(),
            forall|i: int| 0 <= i < r@.len() ==> *(#[trigger] r@[i])
                == self.edge_list()[crate::digraph::in_list(self.position_pairs(), index@)[i] as int],
    {
        proof {
            use_type_invariant(self);
        }
        let list = self.topology.incoming_edges(index);
        proof {
            self.topology.lemma_views();
            crate::digraph::lemma_in_list(self.position_pairs(), index@);
        }
        self.edges_listed(list, Ghost(crate::digraph::in_list(self.position_pairs(), index@)))
    }

    /// The edges leaving the node whose identifier is `id`; empty when
    /// there is none.
    pub fn outgoing(&self, id: &NodeId) -> (r: Vec<&Edge>)
        ensures
            !has_id(node_ids(self.node_list()), id@) ==> r@.len() == 0,
            forall|p: nat| #[trigger] id_position(node_ids(self.node_list()), id@, p) ==> {
                &&& r@.len() == crate::digraph::out_list(self.position_pairs(), p).len()
                &&& forall|i: int| 0 <= i < r@.len() ==> *(#[trigger] r@[i])
                    == self.edge_list()[crate::digraph::out_list(self.position_pairs(), p)[i] as int]
            },
    {
        proof {
            use_type_invariant(self);
        }
        match self.node_index(id.as_str()) {
            Some(index) => {
                proof {
                    assert forall|p: nat| #[trigger] id_position(node_ids(self.nodes@), id@, p) implies p == index@ by {
                        lemma_unique_position(node_ids(self.nodes@), id@, p, index@);
                    }
                }
                self.outgoing_at(index)
            },
            None => Vec::new(),
        }
    }

    /// The edges entering the node whose identifier is `id`; empty when
    /// there is none.
    pub fn incoming(&self, id: &NodeId) -> (r: Vec<&Edge>)
        ensures
            !has_id(node_ids(self.node_list()), id@) ==> r@.len() == 0,
            forall|p: nat| #[trigger] id_position(node_ids(self.node_list()), id@, p) ==> {
                &&& r@.len() == crate::digraph::in_list(self.position_pairs(), p).len()
                &&& forall|i: int| 0 <= i < r@.len() ==> *(#[trigger] r@[i])
                    == self.edge_list()[crate::digraph::in_list(self.position_pairs(), p)[i] as int]
            },
    {
        proof {
            use_type_invariant(self);
        }
        match self.node_index(id.as_str()) {
            Some(index) => {
                proof {
                    assert forall|p: nat| #[trigger] id_position(node_ids(self.nodes@), id@, p) implies p == index@ by {
                        lemma_unique_position(node_ids(self.nodes@), id@, p, index@);
                    }
                }
                self.incoming_at(index)
            },
            None => Vec::new(),
        }
    }

    /// The number of edges leaving the node at `index`; `None` when there
    /// is no such node.
    pub fn out_degree(&self, index: GraphNodeIndex) -> (r: Option<usize>)
        ensures
            r is Some <==> index@ < self.node_list().len(),
            r matches Some(d) ==> d == crate::digraph::out_list(self.position_pairs(), index@).len(),
    {
        proof {
            use_type_invariant(self);
        }
        proof {
            self.topology.lemma_views();
        }
        if index.index() < self.nodes.len() {
            Some(self.topology.outgoing_edges(index).len())
        } else {
            None
        }
    }

    /// The number of edges entering the node at `index`; `None` when there
    /// is no such node.
    pub fn in_degree(&self, index: GraphNodeIndex) -> (r: Option<usize>)
        ensures
            r is Some <==> index@ < self.node_list().len(),
            r matches Some(d) ==> d == crate::digraph::in_list(self.position_pairs(), index@).len(),
    {
        proof {
            use_type_invariant(self);
        }
        proof {
            self.topology.lemma_views();
        }
        if index.index() < self.nodes.len() {
            Some(self.topology.incoming_edges(index).len())
        } else {
            None
        }
    }

    /// The edges at the listed positions.
    fn edges_listed(&self, list: &[EdgeIndex], Ghost(positions): Ghost<Seq<nat>>) -> (r: Vec<&Edge>)
        requires
            crate::topology::edge_positions(list@) == positions,
            forall|i: int| 0 <= i < positions.len() ==> #[trigger] positions[i] < self.edge_list().len(),
        ensures
            r@.len() == positions.len(),
            forall|i: int| 0 <= i < r@.len() ==> *(#[trigger] r@[i]) == self.edge_list()[positions[i] as int],
    {
        let mut out: Vec<&Edge> = Vec::new();
        let mut i: usize = 0;
        while i < list.len()
            invariant
                i <= list@.len(),
                crate::topology::edge_positions(list@) == positions,
                forall|j: int| 0 <= j < positions.len() ==> #[trigger] positions[j] < self.edge_list().len(),
                out@.len() == i,
                forall|j: int| 0 <= j < i ==> *(#[trigger] out@[j]) == self.edge_list()[positions[j] as int],
            decreases list@.len() - i,
        {
            let e = list[i];
            proof {
                assert(positions[i as int] == e@);
            }
            out.push(&self.edges[e.index()]);
            i = i + 1;
        }
        out
    }
}

impl IndexGraphView for Graph {
    closed spec fn spec_node_count(&self) -> nat {
        self.nodes@.len()
    }

    closed spec fn spec_edges(&self) -> Seq<(nat, nat)> {
        self.topology.view_edges()
    }

    fn node_count(&self) -> (r: usize) {
        proof { use_type_invariant(self); self.topology.lemma_views(); }
        let r = self.topology.node_count();
        r
    }

    fn edge_count(&self) -> (r: usize) {
        proof { use_type_invariant(self); self.topology.lemma_views(); }
        self.topology.edge_count()
    }

    fn node_bound(&self) -> (r: usize) {
        proof { use_type_invariant(self); self.topology.lemma_views(); }
        self.topology.node_bound()
    }

    fn edge_bound(&self) -> (r: usize) {
        proof { use_type_invariant(self); self.topology.lemma_views(); }
        self.topology.edge_bound()
    }

    fn contains_node(&self, node: NodeIndex) -> (r: bool) {
        proof { use_type_invariant(self); self.topology.lemma_views(); }
        self.topology.contains_node(node)
    }

    fn contains_edge(&self, edge: EdgeIndex) -> (r: bool) {
        proof { use_type_invariant(self); self.topology.lemma_views(); }
        self.topology.contains_edge(edge)
    }

    fn edge_endpoints(&self, edge: EdgeIndex) -> (r: Option<EdgeEndpoints>) {
        proof { use_type_invariant(self); self.topology.lemma_views(); }
        self.topology.edge_endpoints(edge)
    }

    fn outgoing_edges(&self, node: NodeIndex) -> (r: &[EdgeIndex]) {
        proof { use_type_invariant(self); self.topology.lemma_views(); }
        self.topology.outgoing_edges(node)
    }

    fn incoming_edges(&self, node: NodeIndex) -> (r: &[EdgeIndex]) {
        proof { use_type_invariant(self); self.topology.lemma_views(); }
        self.topology.incoming_edges(node)
    }
}

/// `r` holds the elements of `s`, each once, in some order.
pub open spec fn is_permutation_of<T>(r: Seq<T>, s: Seq<T>) -> bool {
    exists|perm: Seq<int>| {
        &&& perm.len() == r.len()
        &&& r.len() == s.len()
        &&& forall|i: int| 0 <= i < perm.len() ==> 0 <= #[trigger] perm[i] < s.len() && r[i] == s[perm[i]]
        &&& forall|i: int, j: int| 0 <= i < j < perm.len() ==> #[trigger] perm[i] != #[trigger] perm[j]
    }
}

/// No identifier comes before an earlier one.
pub open spec fn nondecreasing(ids: Seq<Seq<char>>) -> bool {
    forall|i: int, j: int| 0 <= i < j < ids.len() ==> !text_less(#[trigger] ids[j], #[trigger] ids[i])
}

/// Orders nodes by identifier, by binary insertion; nodes with equal
/// identifiers keep no particular order.
pub fn sort_nodes_by_id(nodes: Vec<Node>) -> (r: Vec<Node>)
    ensures
        is_permutation_of(r@, nodes@),
        nondecreasing(node_ids(r@)),
{
    let ghost orig = nodes@;
    let mut rest = nodes;
    let mut out: Vec<Node> = Vec::new();
    let ghost mut perm: Seq<int> = Seq::empty();
    while rest.len() > 0
        invariant
            rest@ == orig.subrange(0, rest@.len() as int),
            rest@.len() <= orig.len(),
            perm.len() == out@.len(),
            out@.len() + rest@.len() == orig.len(),
            forall|i: int| 0 <= i < perm.len() ==> rest@.len() <= #[trigger] perm[i] < orig.len() && out@[i] == orig[perm[i]],
            forall|i: int, j: int| 0 <= i < j < perm.len() ==> #[trigger] perm[i] != #[trigger] perm[j],
            nondecreasing(node_ids(out@)),
        decreases rest@.len(),
    {
        let node = rest.pop().unwrap();
        let ghost k = rest@.len() as int;
        let ghost ids = node_ids(out@);
        let mut lo: usize = 0;
        let mut hi: usize = out.len();
        while lo < hi
            invariant
                ids == node_ids(out@),
                nondecreasing(ids),
                lo <= hi <= ids.len(),
                forall|p: int| 0 <= p < lo ==> !text_less(node.id@, #[trigger] ids[p]),
                forall|p: int| hi <= p < ids.len() ==> text_less(node.id@, #[trigger] ids[p]),
            decreases hi - lo,
        {
            let mid = lo + (hi - lo) / 2;
            let c = compare_text(node.id.as_str(), out[mid].id.as_str());
            proof {
                assert(ids[mid as int] == out@[mid as int].id@);
            }
            if c == -1 {
                proof {
                    assert forall|p: int| mid <= p < ids.len() implies text_less(node.id@, #[trigger] ids[p]) by {
                        if p > mid {
                            assert(!text_less(ids[p], ids[mid as int]));
                            if ids[p] != ids[mid as int] {
                                lemma_text_less_total(ids[p], ids[mid as int]);
                                lemma_text_less_trans(node.id@, ids[mid as int], ids[p]);
                            }
                        }
                    }
                }
                hi = mid;
            } else {
                proof {
                    assert forall|p: int| 0 <= p < mid + 1 implies !text_less(node.id@, #[trigger] ids[p]) by {
                        if p < mid {
                            assert(!text_less(ids[mid as int], ids[p]));
                            if text_less(node.id@, ids[p]) {
                                if ids[p] == ids[mid as int] {
                                } else {
                                    lemma_text_less_total(ids[p], ids[mid as int]);
                                    lemma_text_less_trans(node.id@, ids[p], ids[mid as int]);
                                }
                            }
                        } else {
                            if c == 0 {
                                lemma_text_less_irreflexive(node.id@);
                            }
                        }
                    }
                }
                lo = mid + 1;
            }
        }
        let ghost before = out@;
        let ghost node_id = node.id@;
        out.insert(lo, node);
        proof {
            let old_perm = perm;
            perm = perm.insert(lo as int, k);
            let nids = node_ids(out@);
            assert(nids =~= ids.insert(lo as int, node_id));
            assert forall|i: int, j: int| 0 <= i < j < nids.len() implies !text_less(#[trigger] nids[j], #[trigger] nids[i]) by {
                if i < lo && j < lo {
                    assert(nids[i] == ids[i] && nids[j] == ids[j]);
                } else if i < lo && j == lo {
                    assert(nids[i] == ids[i]);
                } else if i < lo {
                    assert(nids[i] == ids[i] && nids[j] == ids[j - 1]);
                } else if i == lo {
                    assert(nids[j] == ids[j - 1]);
                    lemma_text_less_irreflexive(node_id);
                    if text_less(ids[j - 1], node_id) {
                        lemma_text_less_trans(node_id, ids[j - 1], node_id);
                    }
                } else {
                    assert(nids[i] == ids[i - 1] && nids[j] == ids[j - 1]);
                }
            }
            assert forall|i: int| 0 <= i < perm.len() implies rest@.len() <= #[trigger] perm[i] < orig.len() && out@[i] == orig[perm[i]] by {
                if i < lo {
                    assert(perm[i] == old_perm[i]);
                } else if i > lo {
                    assert(perm[i] == old_perm[i - 1]);
                }
            }
            assert forall|i: int, j: int| 0 <= i < j < perm.len() implies #[trigger] perm[i] != #[trigger] perm[j] by {
                if i != lo && j != lo {
                    let a = if i < lo { i } else { i - 1 };
                    let b = if j < lo { j } else { j - 1 };
                    assert(perm[i] == old_perm[a] && perm[j] == old_perm[b]);
                } else if i == lo {
                    let b = j - 1;
                    assert(perm[j] == old_perm[b]);
                } else {
                    assert(perm[i] == old_perm[i]);
                }
            }
        }
    }
    proof {
        assert(perm.len() == out@.len() && out@.len() == orig.len());
    }
    out
}

/// Canonical node order: two node lists in strictly increasing identifier
/// order that hold the same nodes are the same list, whatever order the
/// nodes were first given in.
pub proof fn lemma_canonical_node_order(a: Seq<Node>, b: Seq<Node>)
    requires
        strictly_sorted(node_ids(a)),
        strictly_sorted(node_ids(b)),
        forall|x: Node| a.contains(x) <==> b.contains(x),
    ensures
        a == b,
    decreases a.len(),
{
    let ia = node_ids(a);
    let ib = node_ids(b);
    if a.len() == 0 {
        if b.len() > 0 {
            assert(b.contains(b[0]));
        }
        assert(a =~= b);
    } else {
        assert(a.contains(a[0]));
        assert(b.len() > 0);
        assert(b.contains(b[0]));
        let j = choose|j: int| 0 <= j < b.len() && b[j] == a[0];
        let i = choose|i: int| 0 <= i < a.len() && a[i] == b[0];
        assert(ia[0] == a[0].id@ && ib[0] == b[0].id@ && ia[i] == a[i].id@ && ib[j] == b[j].id@);
        if j > 0 {
            assert(text_less(ib[0], ib[j]));
            if i > 0 {
                assert(text_less(ia[0], ia[i]));
                lemma_text_less_trans(ia[0], ia[i], ia[0]);
                lemma_text_less_irreflexive(ia[0]);
            } else {
                lemma_text_less_irreflexive(ib[0]);
            }
        }
        assert(a[0] == b[0]);
        let ta = a.drop_first();
        let tb = b.drop_first();
        assert(node_ids(ta) =~= ia.drop_first());
        assert(node_ids(tb) =~= ib.drop_first());
        assert forall|x: Node| ta.contains(x) implies tb.contains(x) by {
            let p = choose|p: int| 0 <= p < ta.len() && ta[p] == x;
            assert(a[p + 1] == x);
            assert(b.contains(x));
            let q = choose|q: int| 0 <= q < b.len() && b[q] == x;
            assert(text_less(ia[0], ia[p + 1]));
            if q == 0 {
                lemma_text_less_irreflexive(ia[0]);
            }
            assert(tb[q - 1] == x);
        }
        assert forall|x: Node| tb.contains(x) implies ta.contains(x) by {
            let p = choose|p: int| 0 <= p < tb.len() && tb[p] == x;
            assert(b[p + 1] == x);
            assert(a.contains(x));
            let q = choose|q: int| 0 <= q < a.len() && a[q] == x;
            assert(text_less(ib[0], ib[p + 1]));
            if q == 0 {
                lemma_text_less_irreflexive(ib[0]);
            }
            assert(ta[q - 1] == x);
        }
        lemma_canonical_node_order(ta, tb);
        assert(a =~= seq![a[0]] + ta);
        assert(b =~= seq![b[0]] + tb);
    }
}

/// Identifiers in strictly increasing order name at most one position.
proof fn lemma_unique_position(ids: Seq<Seq<char>>, id: Seq<char>, p: nat, q: nat)
    requires
        strictly_sorted(ids),
        id_position(ids, id, p),
        id_position(ids, id, q),
    ensures
        p == q,
{
    if p < q {
        assert(text_less(ids[p as int], ids[q as int]));
        lemma_text_less_irreflexive(id);
    } else if q < p {
        assert(text_less(ids[q as int], ids[p as int]));
        lemma_text_less_irreflexive(id);
    }
}

} // verus!

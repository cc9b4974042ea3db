//! A mutable graph whose keys stay valid until their element is removed:
//! the slot store of nodes and edges, and the index from identifiers to
//! node keys.
use crate::error::{GraphError, Result};
use crate::ident::IdIndex;
use crate::model::{Edge, Node, NodeId};
use crate::store::{node_held, node_kept, edge_kept, retired_kept, SlotError, WorkingStore};
use crate::validate::{edge_error, node_error, validate_edge, validate_node};
use crate::working::{StableEdgeKey, StableNodeKey};
use vstd::prelude::*;

verus! {

broadcast use crate::digraph::lemma_push_contains;

/// A mutable graph: nodes and edges under stable keys, each node found by
/// its identifier, each edge naming the identifiers of its endpoints.
pub struct WorkingGraph {
    store: WorkingStore<Node, Edge>,
    index: IdIndex,
}

/// `e` is `old` with its source identifier set to `id` where `src`, its
/// target identifier set to `id` where `tgt`, and nothing else changed.
pub open spec fn renamed(old: Edge, e: Edge, id: Seq<char>, src: bool, tgt: bool) -> bool {
    &&& e.source@ == if src { id } else { old.source@ }
    &&& e.target@ == if tgt { id } else { old.target@ }
    &&& e.kind == old.kind
    &&& e.provenance == old.provenance
    &&& e.attributes == old.attributes
}

impl WorkingGraph {
    /// The nodes and edges under their keys.
    pub closed spec fn store(&self) -> WorkingStore<Node, Edge> {
        self.store
    }

    /// The key of each node's identifier.
    pub closed spec fn ids(&self) -> Map<Seq<char>, (nat, nat)> {
        self.index.map()
    }

    /// The store and the index agree: the identifiers indexed are those
    /// of the nodes held, each under its node's key, and every edge names
    /// the identifiers of the nodes it joins.
    pub closed spec fn wf(&self) -> bool {
        &&& self.store.wf()
        &&& self.index.wf()
        &&& forall|id: Seq<char>| #[trigger] self.index.map().contains_key(id) ==> self.store.node_live(self.index.map()[id])
            && self.store.node_value(self.index.map()[id]).id@ == id
        &&& forall|k: (nat, nat)| #[trigger] self.store.node_live(k) ==> self.index.map().contains_key(self.store.node_value(k).id@)
            && self.index.map()[self.store.node_value(k).id@] == k
        &&& forall|e: (nat, nat)| #[trigger] self.store.edge_live(e) ==> self.store.edge_value(e).source@
            == self.store.node_value(self.store.edge_source(e)).id@ && self.store.edge_value(e).target@
            == self.store.node_value(self.store.edge_target(e)).id@
    }

    /// An empty working graph.
    pub fn new() -> (r: Self)
        ensures
            r.wf(),
            r.store().node_total() == 0,
            r.store().edge_total() == 0,
    {
        let r = WorkingGraph { store: WorkingStore::new(), index: IdIndex::new() };
        proof {
            assert forall|k: (nat, nat)| #[trigger] r.store.node_live(k) implies false by {
                r.store.lemma_empty_slots(k);
            }
            assert forall|k: (nat, nat)| #[trigger] r.store.edge_live(k) implies false by {
                r.store.lemma_empty_slots(k);
            }
            assert forall|x: Seq<char>| !(#[trigger] r.index.map().contains_key(x)) by {}
        }
        r
    }

    /// An empty working graph with room reserved.
    pub fn with_capacity(nodes: usize, edges: usize) -> (r: Self)
        ensures
            r.wf(),
            r.store().node_total() == 0,
            r.store().edge_total() == 0,
    {
        let r = WorkingGraph { store: WorkingStore::with_capacity(nodes, edges), index: IdIndex::new() };
        proof {
            assert forall|k: (nat, nat)| #[trigger] r.store.node_live(k) implies false by {
                r.store.lemma_empty_slots(k);
            }
            assert forall|k: (nat, nat)| #[trigger] r.store.edge_live(k) implies false by {
                r.store.lemma_empty_slots(k);
            }
            assert forall|x: Seq<char>| !(#[trigger] r.index.map().contains_key(x)) by {}
        }
        r
    }

    /// The key of the node whose identifier is `id`, if there is one.
    pub fn node_key(&self, id: &str) -> (r: Option<StableNodeKey>)
        requires
            self.wf(),
        ensures
            r is Some <==> self.ids().contains_key(id@),
            r matches Some(k) ==> k@ == self.ids()[id@] && self.store().node_live(k@) && self.store().node_value(k@).id@ == id@,
            r is None ==> forall|k: (nat, nat)| #[trigger] self.store().node_live(k) ==> self.store().node_value(k).id@ != id@,
    {
        self.index.find(id)
    }

    /// The node that `key` names, if any.
    pub fn node(&self, key: StableNodeKey) -> (r: Option<&Node>)
        ensures
            r is Some <==> self.store().node_live(key@),
            r matches Some(v) ==> *v == self.store().node_value(key@),
    {
        self.store.node(key)
    }

    /// The edge that `key` names, if any.
    pub fn edge(&self, key: StableEdgeKey) -> (r: Option<&Edge>)
        ensures
            r is Some <==> self.store().edge_live(key@),
            r matches Some(v) ==> *v == self.store().edge_value(key@),
    {
        self.store.edge(key)
    }

    /// The source and target node keys of the edge that `key` names.
    pub fn edge_endpoints(&self, key: StableEdgeKey) -> (r: Option<(StableNodeKey, StableNodeKey)>)
        ensures
            r is Some <==> self.store().edge_live(key@),
            r matches Some(p) ==> p.0@ == self.store().edge_source(key@) && p.1@ == self.store().edge_target(key@),
    {
        self.store.edge_endpoints(key)
    }

    /// The edges leaving the node that `key` names, in attachment order.
    pub fn outgoing_edges(&self, key: StableNodeKey) -> (r: Vec<StableEdgeKey>)
        ensures
            crate::store::key_views(r@) == self.store().outgoing_of(key@),
    {
        self.store.outgoing_edges(key)
    }

    /// The edges entering the node that `key` names, in attachment order.
    pub fn incoming_edges(&self, key: StableNodeKey) -> (r: Vec<StableEdgeKey>)
        ensures
            crate::store::key_views(r@) == self.store().incoming_of(key@),
    {
        self.store.incoming_edges(key)
    }

    /// The keys of the nodes, in slot order.
    pub fn node_keys(&self) -> (r: Vec<StableNodeKey>)
        requires
            self.wf(),
        ensures
            forall|t: int| 0 <= t < r@.len() ==> self.store().node_live(#[trigger] r@[t]@),
            forall|q: (nat, nat)| #[trigger] self.store().node_live(q) ==> exists|t: int| 0 <= t < r@.len() && r@[t]@ == q,
    {
        self.store.node_keys()
    }

    /// The keys of the edges, in slot order.
    pub fn edge_keys(&self) -> (r: Vec<StableEdgeKey>)
        requires
            self.wf(),
        ensures
            forall|t: int| 0 <= t < r@.len() ==> self.store().edge_live(#[trigger] r@[t]@),
            forall|q: (nat, nat)| #[trigger] self.store().edge_live(q) ==> exists|t: int| 0 <= t < r@.len() && r@[t]@ == q,
    {
        self.store.edge_keys()
    }

    /// The number of nodes.
    pub fn node_count(&self) -> (r: usize)
        requires
            self.wf(),
        ensures
            r == self.store().node_total(),
    {
        self.store.node_count()
    }

    /// The number of edges.
    pub fn edge_count(&self) -> (r: usize)
        requires
            self.wf(),
        ensures
            r == self.store().edge_total(),
    {
        self.store.edge_count()
    }

    /// Whether there are neither nodes nor edges.
    pub fn is_empty(&self) -> (r: bool)
        requires
            self.wf(),
        ensures
            r == (self.store().node_total() == 0 && self.store().edge_total() == 0),
    {
        self.store.node_count() == 0 && self.store.edge_count() == 0
    }

    /// Adds a node under a new key. Refused, changing nothing: an invalid
    /// node with its validation error; a node whose identifier is taken
    /// with `ConflictingNode`; and a full store.
    pub fn insert_node(&mut self, node: Node) -> (r: Result<StableNodeKey>)
        requires
            old(self).wf(),
        ensures
            final(self).wf(),
            r is Err ==> *final(self) == *old(self),
            !node_error(&node, Ok::<(), GraphError>(())) ==> (r matches Err(e) && node_error(&node, Err::<(), GraphError>(e))),
            node_error(&node, Ok::<(), GraphError>(())) && old(self).ids().contains_key(node.id@) ==> (r matches Err(
                GraphError::ConflictingNode { id },
            ) && id@ == node.id@),
            node_error(&node, Ok::<(), GraphError>(())) && !old(self).ids().contains_key(node.id@) ==> (r is Ok
                <==> old(self).store().node_room()),
            r matches Ok(k) ==> {
                &&& k@ == old(self).store().next_node_key()
                &&& final(self).store().node_live(k@) && final(self).store().node_value(k@) == node
                &&& final(self).store().node_total() == old(self).store().node_total() + 1
                &&& forall|q: (nat, nat)| q != k@ ==> #[trigger] node_kept(old(self).store(), final(self).store(), q)
                &&& forall|q: (nat, nat)| #[trigger] edge_kept(old(self).store(), final(self).store(), q)
                &&& retired_kept(old(self).store(), final(self).store())
                &&& final(self).ids() == old(self).ids().insert(node.id@, k@)
            },
    {
        match validate_node(&node) {
            Err(e) => return Err(e),
            Ok(()) => {},
        }
        if self.index.find(node.id.as_str()).is_some() {
            return Err(GraphError::ConflictingNode { id: node.id.as_str().to_owned() });
        }
        let id = node.id.as_str().to_owned();
        let ghost before = *self;
        let ghost value = node;
        let key = match self.store.insert_node(node) {
            Ok(k) => k,
            Err(SlotError::Full { count }) => return Err(GraphError::IndexCapacityExceeded { category: "working nodes", count }),
            Err(_) => return Err(GraphError::IndexCapacityExceeded { category: "working nodes", count: 0 }),
        };
        self.index.insert(id, key);
        proof {
            let s0 = before.store;
            let s1 = self.store;
            assert forall|x: Seq<char>| #[trigger] self.index.map().contains_key(x) implies s1.node_live(self.index.map()[x])
                && s1.node_value(self.index.map()[x]).id@ == x by {
                if x != value.id@ {
                    let k0 = before.index.map()[x];
                    assert(s0.node_live(k0));
                    assert(k0 != key@);
                    assert(node_kept(s0, s1, k0));
                }
            }
            assert forall|k: (nat, nat)| #[trigger] s1.node_live(k) implies self.index.map().contains_key(s1.node_value(k).id@)
                && self.index.map()[s1.node_value(k).id@] == k by {
                if k != key@ {
                    assert(node_kept(s0, s1, k));
                    assert(s0.node_live(k));
                    assert(s0.node_value(k).id@ != value.id@);
                }
            }
            assert forall|e: (nat, nat)| #[trigger] s1.edge_live(e) implies s1.edge_value(e).source@
                == s1.node_value(s1.edge_source(e)).id@ && s1.edge_value(e).target@ == s1.node_value(s1.edge_target(e)).id@ by {
                assert(edge_kept(s0, s1, e));
                s0.lemma_lists();
                assert(s0.node_live(s0.edge_source(e)) && s0.node_live(s0.edge_target(e)));
                assert(node_kept(s0, s1, s0.edge_source(e)));
                assert(node_kept(s0, s1, s0.edge_target(e)));
            }
        }
        Ok(key)
    }

    /// Adds an edge between the nodes its identifiers name. Refused,
    /// changing nothing and in this order: an invalid edge with its
    /// validation error; an unknown source with `MissingEdgeSource`; an
    /// unknown target with `MissingEdgeTarget`; a full store.
    pub fn insert_edge(&mut self, edge: Edge) -> (r: Result<StableEdgeKey>)
        requires
            old(self).wf(),
        ensures
            final(self).wf(),
            r is Err ==> *final(self) == *old(self),
            !edge_error(&edge, Ok::<(), GraphError>(())) ==> (r matches Err(e) && edge_error(&edge, Err::<(), GraphError>(e))),
            edge_error(&edge, Ok::<(), GraphError>(())) && !old(self).ids().contains_key(edge.source@) ==> (r matches Err(
                GraphError::MissingEdgeSource { id },
            ) && id@ == edge.source@),
            edge_error(&edge, Ok::<(), GraphError>(())) && old(self).ids().contains_key(edge.source@) && !old(self).ids().contains_key(
                edge.target@,
            ) ==> (r matches Err(GraphError::MissingEdgeTarget { id }) && id@ == edge.target@),
            edge_error(&edge, Ok::<(), GraphError>(())) && old(self).ids().contains_key(edge.source@) && old(self).ids().contains_key(
                edge.target@,
            ) ==> (r is Ok <==> old(self).store().edge_room()),
            r matches Ok(k) ==> {
                &&& k@ == old(self).store().next_edge_key()
                &&& final(self).store().edge_live(k@) && final(self).store().edge_value(k@) == edge
                &&& final(self).store().edge_source(k@) == old(self).ids()[edge.source@]
                &&& final(self).store().edge_target(k@) == old(self).ids()[edge.target@]
                &&& final(self).store().edge_total() == old(self).store().edge_total() + 1
                &&& forall|q: (nat, nat)| q != k@ ==> #[trigger] edge_kept(old(self).store(), final(self).store(), q)
                &&& forall|q: (nat, nat)| #[trigger] node_held(old(self).store(), final(self).store(), q)
                &&& retired_kept(old(self).store(), final(self).store())
                &&& final(self).ids() == old(self).ids()
            },
    {
        match validate_edge(&edge) {
            Err(e) => return Err(e),
            Ok(()) => {},
        }
        let source = match self.index.find(edge.source.as_str()) {
            Some(k) => k,
            None => return Err(GraphError::MissingEdgeSource { id: edge.source.as_str().to_owned() }),
        };
        let target = match self.index.find(edge.target.as_str()) {
            Some(k) => k,
            None => return Err(GraphError::MissingEdgeTarget { id: edge.target.as_str().to_owned() }),
        };
        let ghost before = *self;
        let ghost value = edge;
        let key = match self.store.insert_edge(source, target, edge) {
            Ok(k) => k,
            Err(SlotError::Full { count }) => return Err(GraphError::IndexCapacityExceeded { category: "working edges", count }),
            Err(_) => return Err(GraphError::IndexCapacityExceeded { category: "working edges", count: 0 }),
        };
        proof {
            assert(before.store.node_value(source@).id@ == value.source@);
            assert(before.store.node_value(target@).id@ == value.target@);
            assert(node_held(before.store, self.store, source@));
            assert(node_held(before.store, self.store, target@));
            assert forall|e: (nat, nat)| set![key@].contains(e) && #[trigger] self.store.edge_live(e) implies self.store.edge_value(e).source@
                == self.store.node_value(self.store.edge_source(e)).id@ && self.store.edge_value(e).target@
                == self.store.node_value(self.store.edge_target(e)).id@ by {
                assert(e == key@);
            }
            self.lemma_edges_changed(before, set![key@]);
        }
        Ok(key)
    }

    /// The bookkeeping holds again after an edge operation that held
    /// every node, kept every edge outside `changed`, and left each edge
    /// of `changed` that is held naming its endpoints' identifiers.
    proof fn lemma_edges_changed(&self, before: Self, changed: Set<(nat, nat)>)
        requires
            before.wf(),
            self.store.wf(),
            self.index == before.index,
            forall|q: (nat, nat)| #[trigger] node_held(before.store, self.store, q),
            forall|q: (nat, nat)| !changed.contains(q) ==> #[trigger] edge_kept(before.store, self.store, q),
            forall|e: (nat, nat)| changed.contains(e) && #[trigger] self.store.edge_live(e) ==> self.store.edge_value(e).source@
                == self.store.node_value(self.store.edge_source(e)).id@ && self.store.edge_value(e).target@
                == self.store.node_value(self.store.edge_target(e)).id@,
        ensures
            self.wf(),
    {
        let s0 = before.store;
        let s1 = self.store;
        assert forall|x: Seq<char>| #[trigger] self.index.map().contains_key(x) implies s1.node_live(self.index.map()[x])
            && s1.node_value(self.index.map()[x]).id@ == x by {
            assert(node_held(s0, s1, self.index.map()[x]));
        }
        assert forall|k: (nat, nat)| #[trigger] s1.node_live(k) implies self.index.map().contains_key(s1.node_value(k).id@)
            && self.index.map()[s1.node_value(k).id@] == k by {
            assert(node_held(s0, s1, k));
        }
        assert forall|e: (nat, nat)| #[trigger] s1.edge_live(e) implies s1.edge_value(e).source@
            == s1.node_value(s1.edge_source(e)).id@ && s1.edge_value(e).target@ == s1.node_value(s1.edge_target(e)).id@ by {
            if !changed.contains(e) {
                assert(edge_kept(s0, s1, e));
                s0.lemma_lists();
                assert(node_held(s0, s1, s0.edge_source(e)));
                assert(node_held(s0, s1, s0.edge_target(e)));
            }
        }
    }

    /// Removes the edge that `key` names; `None`, changing nothing, when
    /// it names none.
    pub fn remove_edge(&mut self, key: StableEdgeKey) -> (r: Option<Edge>)
        requires
            old(self).wf(),
        ensures
            final(self).wf(),
            r is Some <==> old(self).store().edge_live(key@),
            r is None ==> *final(self) == *old(self),
            r matches Some(v) ==> {
                &&& v == old(self).store().edge_value(key@)
                &&& !final(self).store().edge_live(key@) && final(self).store().edge_retired(key@)
                &&& final(self).store().edge_total() + 1 == old(self).store().edge_total()
                &&& forall|q: (nat, nat)| q != key@ ==> #[trigger] edge_kept(old(self).store(), final(self).store(), q)
                &&& forall|q: (nat, nat)| #[trigger] node_held(old(self).store(), final(self).store(), q)
                &&& retired_kept(old(self).store(), final(self).store())
                &&& final(self).ids() == old(self).ids()
            },
    {
        let ghost before = *self;
        let r = self.store.remove_edge(key);
        proof {
            if r is Some {
                self.lemma_edges_changed(before, set![key@]);
            }
        }
        r
    }

    /// Removes the node that `key` names, with every edge that leaves or
    /// enters it, and drops its identifier; `None`, changing nothing, when
    /// `key` names no node.
    pub fn remove_node(&mut self, key: StableNodeKey) -> (r: Option<Node>)
        requires
            old(self).wf(),
        ensures
            final(self).wf(),
            r is Some <==> old(self).store().node_live(key@),
            r is None ==> *final(self) == *old(self),
            r matches Some(v) ==> {
                &&& v == old(self).store().node_value(key@)
                &&& !final(self).store().node_live(key@) && final(self).store().node_retired(key@)
                &&& forall|q: (nat, nat)| q != key@ ==> #[trigger] node_held(old(self).store(), final(self).store(), q)
                &&& forall|e: (nat, nat)| #[trigger] final(self).store().edge_live(e) == (old(self).store().edge_live(e)
                    && old(self).store().edge_source(e) != key@ && old(self).store().edge_target(e) != key@)
                &&& final(self).ids() == old(self).ids().remove(v.id@)
            },
    {
        let ghost before = *self;
        let removed = self.store.remove_node(key);
        match removed {
            None => None,
            Some(node) => {
                self.index.remove(node.id.as_str());
                proof {
                    let s0 = before.store;
                    let s1 = self.store;
                    let gone = crate::store::touching(s0, key@);
                    assert forall|x: Seq<char>| #[trigger] self.index.map().contains_key(x) implies s1.node_live(self.index.map()[x])
                        && s1.node_value(self.index.map()[x]).id@ == x by {
                        let k0 = before.index.map()[x];
                        assert(k0 != key@);
                        assert(node_held(s0, s1, k0));
                    }
                    assert forall|k: (nat, nat)| #[trigger] s1.node_live(k) implies self.index.map().contains_key(s1.node_value(k).id@)
                        && self.index.map()[s1.node_value(k).id@] == k by {
                        if k != key@ {
                            assert(node_held(s0, s1, k));
                        }
                    }
                    assert forall|e: (nat, nat)| #[trigger] s1.edge_live(e) implies s1.edge_value(e).source@
                        == s1.node_value(s1.edge_source(e)).id@ && s1.edge_value(e).target@ == s1.node_value(s1.edge_target(e)).id@ by {
                        s0.lemma_lists();
                        assert(s0.edge_live(e) && !gone.contains(e));
                        assert(node_held(s0, s1, s0.edge_source(e)));
                        assert(node_held(s0, s1, s0.edge_target(e)));
                    }
                    assert forall|e: (nat, nat)| #[trigger] s1.edge_live(e) == (s0.edge_live(e) && s0.edge_source(e) != key@
                        && s0.edge_target(e) != key@) by {}
                }
                Some(node)
            },
        }
    }

    /// Replaces the node that `key` names, keeping its key; a new
    /// identifier is renamed in the endpoints of its edges and in the
    /// index. Refused, changing nothing: an invalid node with its
    /// validation error; a node whose identifier another node holds with
    /// `ConflictingNode`. `Ok(None)`, changing nothing, when `key` names no
    /// node.
    pub fn replace_node(&mut self, key: StableNodeKey, node: Node) -> (r: Result<Option<Node>>)
        requires
            old(self).wf(),
        ensures
            final(self).wf(),
            !(r matches Ok(Some(_))) ==> *final(self) == *old(self),
            !node_error(&node, Ok::<(), GraphError>(())) ==> (r matches Err(e) && node_error(&node, Err::<(), GraphError>(e))),
            node_error(&node, Ok::<(), GraphError>(())) && !old(self).store().node_live(key@) ==> r matches Ok(None),
            node_error(&node, Ok::<(), GraphError>(())) && old(self).store().node_live(key@) && old(self).ids().contains_key(node.id@)
                && old(self).ids()[node.id@] != key@ ==> (r matches Err(GraphError::ConflictingNode { id }) && id@ == node.id@),
            node_error(&node, Ok::<(), GraphError>(())) && old(self).store().node_live(key@) && !(old(self).ids().contains_key(node.id@)
                && old(self).ids()[node.id@] != key@) ==> r matches Ok(Some(_)),
            r matches Ok(Some(v)) ==> {
                &&& v == old(self).store().node_value(key@)
                &&& final(self).store().node_live(key@) && final(self).store().node_value(key@) == node
                &&& final(self).store().outgoing_of(key@) == old(self).store().outgoing_of(key@)
                &&& final(self).store().incoming_of(key@) == old(self).store().incoming_of(key@)
                &&& forall|q: (nat, nat)| q != key@ ==> #[trigger] node_kept(old(self).store(), final(self).store(), q)
                &&& forall|e: (nat, nat)| #[trigger] final(self).store().edge_live(e) == old(self).store().edge_live(e)
                &&& forall|e: (nat, nat)| #[trigger] old(self).store().edge_live(e) ==> renamed(old(self).store().edge_value(e),
                    final(self).store().edge_value(e), node.id@, old(self).store().edge_source(e) == key@,
                    old(self).store().edge_target(e) == key@)
                    && final(self).store().edge_source(e) == old(self).store().edge_source(e)
                    && final(self).store().edge_target(e) == old(self).store().edge_target(e)
                &&& final(self).ids() == old(self).ids().remove(v.id@).insert(node.id@, key@)
            },
    {
        match validate_node(&node) {
            Err(e) => return Err(e),
            Ok(()) => {},
        }
        let old_id = match self.store.node(key) {
            None => return Ok(None),
            Some(current) => current.id.clone(),
        };
        match self.index.find(node.id.as_str()) {
            Some(existing) => {
                if existing != key {
                    proof {
                        crate::working::lemma_node_key_view(existing, key);
                    }
                    return Err(GraphError::ConflictingNode { id: node.id.as_str().to_owned() });
                }
            },
            None => {},
        }
        let ghost before = *self;
        let ghost nid = node.id@;
        let incident = self.store.incident_edges(key);
        let mut t: usize = 0;
        while t < incident.len()
            invariant
                before.wf(),
                self.store.wf(),
                self.index == before.index,
                before.store.node_live(key@),
                nid == node.id@,
                forall|x: (nat, nat)| #[trigger] crate::store::key_views(incident@).contains(x) <==> before.store.outgoing_of(key@).contains(x)
                    || before.store.incoming_of(key@).contains(x),
                crate::store::keys_ascending(crate::store::key_views(incident@)),
                t <= incident@.len(),
                forall|q: (nat, nat)| #[trigger] node_kept(before.store, self.store, q),
                forall|e: (nat, nat)| #[trigger] self.store.edge_live(e) == before.store.edge_live(e),
                forall|e: (nat, nat)| #[trigger] before.store.edge_live(e) ==> self.store.edge_source(e) == before.store.edge_source(e)
                    && self.store.edge_target(e) == before.store.edge_target(e),
                forall|e: (nat, nat)| #[trigger] before.store.edge_live(e) ==> if crate::store::key_views(incident@.take(t as int)).contains(e) {
                    renamed(before.store.edge_value(e), self.store.edge_value(e), nid, before.store.edge_source(e) == key@,
                        before.store.edge_target(e) == key@)
                } else {
                    self.store.edge_value(e) == before.store.edge_value(e)
                },
                retired_kept(before.store, self.store),
            decreases incident@.len() - t,
        {
            let edge_key = incident[t];
            let ends = self.store.edge_endpoints(edge_key);
            let ghost mid = self.store;
            let ghost done = crate::store::key_views(incident@.take(t as int));
            proof {
                assert(crate::store::key_views(incident@).contains(edge_key@)) by {
                    assert(crate::store::key_views(incident@)[t as int] == edge_key@);
                }
                before.store.lemma_lists();
                assert(before.store.edge_live(edge_key@));
                assert(!done.contains(edge_key@)) by {
                    if done.contains(edge_key@) {
                        let u = choose|u: int| 0 <= u < done.len() && done[u] == edge_key@;
                        assert(done[u] == crate::store::key_views(incident@)[u]);
                        assert(crate::store::key_before(crate::store::key_views(incident@)[u], crate::store::key_views(incident@)[t as int]));
                    }
                }
            }
            match ends {
                Some((source, target)) => {
                    let from = source == key;
                    let to = target == key;
                    proof {
                        crate::working::lemma_node_key_view(source, key);
                        crate::working::lemma_node_key_view(target, key);
                    }
                    let id = node.id.clone();
                    let rename = move |e: Edge| -> (out: Edge)
                        ensures
                            renamed(e, out, nid, from, to),
                        {
                            let s = if from {
                                id.clone()
                            } else {
                                e.source
                            };
                            let g = if to {
                                id
                            } else {
                                e.target
                            };
                            Edge { source: s, target: g, kind: e.kind, provenance: e.provenance, attributes: e.attributes }
                        };
                    self.store.update_edge_value(edge_key, rename);
                },
                None => {},
            }
            proof {
                let after = self.store;
                let next = crate::store::key_views(incident@.take(t as int + 1));
                assert(next =~= done.push(edge_key@));
                assert forall|q: (nat, nat)| #[trigger] node_kept(before.store, after, q) by {
                    assert(node_kept(before.store, mid, q));
                    assert(node_kept(mid, after, q));
                }
                assert forall|e: (nat, nat)| #[trigger] before.store.edge_live(e) implies if next.contains(e) {
                    renamed(before.store.edge_value(e), after.edge_value(e), nid, before.store.edge_source(e) == key@,
                        before.store.edge_target(e) == key@)
                } else {
                    after.edge_value(e) == before.store.edge_value(e)
                } by {
                    if e != edge_key@ {
                        assert(edge_kept(mid, after, e));
                        assert(next.contains(e) <==> done.contains(e));
                    } else {
                        assert(next[t as int] == e);
                    }
                }
                assert forall|e: (nat, nat)| #[trigger] before.store.edge_live(e) implies after.edge_source(e) == before.store.edge_source(e)
                    && after.edge_target(e) == before.store.edge_target(e) by {
                    if e != edge_key@ {
                        assert(edge_kept(mid, after, e));
                    }
                }
                assert forall|x: (nat, nat)| #[trigger] before.store.node_retired(x) implies after.node_retired(x) by {
                    assert(mid.node_retired(x));
                }
                assert forall|x: (nat, nat)| #[trigger] before.store.edge_retired(x) implies after.edge_retired(x) by {
                    assert(mid.edge_retired(x));
                }
                assert forall|e: (nat, nat)| #[trigger] after.edge_live(e) == before.store.edge_live(e) by {
                    if e != edge_key@ {
                        assert(edge_kept(mid, after, e));
                    }
                }
            }
            t = t + 1;
        }
        proof {
            assert(incident@.take(incident@.len() as int) =~= incident@);
        }
        let ghost renamed_store = self.store;
        if crate::graph::compare_text(old_id.as_str(), node.id.as_str()) != 0 {
            proof {
                if before.index.map().contains_key(nid) {
                    assert(before.index.map()[nid] == key@);
                }
            }
            self.index.remove(old_id.as_str());
            self.index.insert(node.id.as_str().to_owned(), key);
        }
        let previous = self.store.replace_node_value(key, node);
        proof {
            let s0 = before.store;
            let s1 = self.store;
            before.store.lemma_lists();
            assert(node_kept(s0, renamed_store, key@));
            assert(previous matches Some(v) && v == s0.node_value(key@));
            assert forall|q: (nat, nat)| q != key@ implies #[trigger] node_kept(s0, s1, q) by {
                assert(node_kept(s0, renamed_store, q));
                assert(node_kept(renamed_store, s1, q));
            }
            assert forall|e: (nat, nat)| #[trigger] s1.edge_live(e) == s0.edge_live(e) by {
                assert(edge_kept(renamed_store, s1, e));
            }
            assert forall|e: (nat, nat)| #[trigger] s0.edge_live(e) implies renamed(s0.edge_value(e), s1.edge_value(e), nid,
                s0.edge_source(e) == key@, s0.edge_target(e) == key@) && s1.edge_source(e) == s0.edge_source(e)
                && s1.edge_target(e) == s0.edge_target(e) by {
                assert(edge_kept(renamed_store, s1, e));
                let touched = s0.edge_source(e) == key@ || s0.edge_target(e) == key@;
                if touched {
                    if s0.edge_source(e) == key@ {
                        assert(s0.outgoing_of(key@).contains(e));
                    } else {
                        assert(s0.incoming_of(key@).contains(e));
                    }
                }
            }
            assert(self.index.map() == before.index.map().remove(old_id@).insert(nid, key@)) by {
                if old_id@ == nid {
                    assert(before.index.map().contains_key(nid));
                    assert(before.index.map().remove(old_id@).insert(nid, key@) =~= before.index.map());
                }
            }
            assert forall|x: Seq<char>| #[trigger] self.index.map().contains_key(x) implies s1.node_live(self.index.map()[x])
                && s1.node_value(self.index.map()[x]).id@ == x by {
                if x != nid {
                    let k0 = before.index.map()[x];
                    assert(k0 != key@);
                    assert(node_kept(s0, s1, k0));
                }
            }
            assert forall|k: (nat, nat)| #[trigger] s1.node_live(k) implies self.index.map().contains_key(s1.node_value(k).id@)
                && self.index.map()[s1.node_value(k).id@] == k by {
                if k != key@ {
                    assert(node_kept(s0, s1, k));
                    assert(s0.node_value(k).id@ != old_id@);
                }
            }
            assert forall|e: (nat, nat)| #[trigger] s1.edge_live(e) implies s1.edge_value(e).source@
                == s1.node_value(s1.edge_source(e)).id@ && s1.edge_value(e).target@ == s1.node_value(s1.edge_target(e)).id@ by {
                assert(s0.edge_live(e));
                assert(node_kept(s0, s1, s0.edge_source(e)) || s0.edge_source(e) == key@);
                assert(node_kept(s0, s1, s0.edge_target(e)) || s0.edge_target(e) == key@);
            }
        }
        Ok(previous)
    }

    /// Replaces the edge that `key` names, keeping its key, and moves it
    /// to the nodes its new identifiers name. Refused, changing nothing
    /// and in this order: an invalid edge with its validation error;
    /// `Ok(None)` when `key` names no edge; an unknown source with
    /// `MissingEdgeSource`; an unknown target with `MissingEdgeTarget`.
    pub fn replace_edge(&mut self, key: StableEdgeKey, edge: Edge) -> (r: Result<Option<Edge>>)
        requires
            old(self).wf(),
        ensures
            final(self).wf(),
            !(r matches Ok(Some(_))) ==> *final(self) == *old(self),
            !edge_error(&edge, Ok::<(), GraphError>(())) ==> (r matches Err(e) && edge_error(&edge, Err::<(), GraphError>(e))),
            edge_error(&edge, Ok::<(), GraphError>(())) && !old(self).store().edge_live(key@) ==> r matches Ok(None),
            edge_error(&edge, Ok::<(), GraphError>(())) && old(self).store().edge_live(key@) && !old(self).ids().contains_key(edge.source@)
                ==> (r matches Err(GraphError::MissingEdgeSource { id }) && id@ == edge.source@),
            edge_error(&edge, Ok::<(), GraphError>(())) && old(self).store().edge_live(key@) && old(self).ids().contains_key(edge.source@)
                && !old(self).ids().contains_key(edge.target@) ==> (r matches Err(GraphError::MissingEdgeTarget { id }) && id@
                == edge.target@),
            edge_error(&edge, Ok::<(), GraphError>(())) && old(self).store().edge_live(key@) && old(self).ids().contains_key(edge.source@)
                && old(self).ids().contains_key(edge.target@) ==> r matches Ok(Some(_)),
            r matches Ok(Some(v)) ==> {
                &&& v == old(self).store().edge_value(key@)
                &&& final(self).store().edge_live(key@) && final(self).store().edge_value(key@) == edge
                &&& final(self).store().edge_source(key@) == old(self).ids()[edge.source@]
                &&& final(self).store().edge_target(key@) == old(self).ids()[edge.target@]
                &&& forall|q: (nat, nat)| q != key@ ==> #[trigger] edge_kept(old(self).store(), final(self).store(), q)
                &&& forall|q: (nat, nat)| #[trigger] node_held(old(self).store(), final(self).store(), q)
                &&& retired_kept(old(self).store(), final(self).store())
                &&& final(self).ids() == old(self).ids()
            },
    {
        match validate_edge(&edge) {
            Err(e) => return Err(e),
            Ok(()) => {},
        }
        if !self.store.contains_edge(key) {
            return Ok(None);
        }
        let source = match self.index.find(edge.source.as_str()) {
            Some(k) => k,
            None => return Err(GraphError::MissingEdgeSource { id: edge.source.as_str().to_owned() }),
        };
        let target = match self.index.find(edge.target.as_str()) {
            Some(k) => k,
            None => return Err(GraphError::MissingEdgeTarget { id: edge.target.as_str().to_owned() }),
        };
        let ghost before = *self;
        let ghost value = edge;
        let r = self.store.replace_edge(key, source, target, edge);
        match r {
            Ok(v) => {
                proof {
                    assert(before.store.node_value(source@).id@ == value.source@);
                    assert(before.store.node_value(target@).id@ == value.target@);
                    assert(node_held(before.store, self.store, source@));
                    assert(node_held(before.store, self.store, target@));
                    assert forall|e: (nat, nat)| set![key@].contains(e) && #[trigger] self.store.edge_live(e) implies self.store.edge_value(e).source@
                        == self.store.node_value(self.store.edge_source(e)).id@ && self.store.edge_value(e).target@
                        == self.store.node_value(self.store.edge_target(e)).id@ by {
                        assert(e == key@);
                    }
                    self.lemma_edges_changed(before, set![key@]);
                }
                Ok(v)
            },
            Err(_) => Ok(None),
        }
    }

    /// Hands over every node and edge, each with its key, in slot order.
    pub fn into_entries(self) -> (r: (Vec<(StableNodeKey, Node)>, Vec<(StableEdgeKey, Edge)>))
        requires
            self.wf(),
        ensures
            forall|t: int| 0 <= t < r.0@.len() ==> self.store().node_live((#[trigger] r.0@[t]).0@) && r.0@[t].1
                == self.store().node_value(r.0@[t].0@),
            forall|q: (nat, nat)| #[trigger] self.store().node_live(q) ==> exists|t: int| 0 <= t < r.0@.len() && r.0@[t].0@ == q,
            forall|t: int| 0 <= t < r.1@.len() ==> self.store().edge_live((#[trigger] r.1@[t]).0@) && r.1@[t].1
                == self.store().edge_value(r.1@[t].0@),
            forall|q: (nat, nat)| #[trigger] self.store().edge_live(q) ==> exists|t: int| 0 <= t < r.1@.len() && r.1@[t].0@ == q,
    {
        self.store.into_entries()
    }
}

} // verus!

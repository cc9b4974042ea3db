//! The slot store under a working graph: elements in generation-checked
//! slots, each node with the lists of its outgoing and incoming edges, and
//! retired slots handed out again.
use crate::working::{lemma_edge_key_view, lemma_node_key_view, StableEdgeKey, StableNodeKey};
use vstd::prelude::*;

verus! {

/// Why a store refused to place an element.
#[derive(Debug, Clone, Copy, PartialEq, Eq, Structural)]
pub enum SlotError {
    /// The source key names no live node.
    MissingSource,
    /// The target key names no live node.
    MissingTarget,
    /// Every slot number is taken; `count` slots exist.
    Full { count: usize },
}

struct NodeSlot<N> {
    generation: u32,
    value: Option<N>,
    outgoing: Vec<StableEdgeKey>,
    incoming: Vec<StableEdgeKey>,
}

struct EdgeSlot<E> {
    generation: u32,
    value: Option<E>,
    source: StableNodeKey,
    target: StableNodeKey,
}

/// Nodes and edges in numbered slots. A key names a slot and the
/// generation of its occupant; a slot's generation grows each time its
/// element is removed, so a key never names a later occupant.
pub struct WorkingStore<N, E> {
    nodes: Vec<NodeSlot<N>>,
    edges: Vec<EdgeSlot<E>>,
    free_nodes: Vec<u32>,
    free_edges: Vec<u32>,
    node_count: usize,
    edge_count: usize,
}

/// The keys of a list, as (slot, generation) pairs.
pub open spec fn key_views(s: Seq<StableEdgeKey>) -> Seq<(nat, nat)> {
    s.map_values(|k: StableEdgeKey| k@)
}

/// `s` without the keys in `gone`, the rest in their order.
pub open spec fn drop_keys(s: Seq<(nat, nat)>, gone: Set<(nat, nat)>) -> Seq<(nat, nat)>
    decreases s.len(),
{
    if s.len() == 0 {
        s
    } else {
        let rest = drop_keys(s.drop_last(), gone);
        if gone.contains(s.last()) {
            rest
        } else {
            rest.push(s.last())
        }
    }
}

/// What dropping keys keeps: the entries not dropped, each once if it was
/// once, and everything when nothing listed is dropped.
pub proof fn lemma_drop_keys(s: Seq<(nat, nat)>, gone: Set<(nat, nat)>)
    ensures
        forall|x: (nat, nat)| #[trigger] drop_keys(s, gone).contains(x) <==> s.contains(x) && !gone.contains(x),
        s.no_duplicates() ==> drop_keys(s, gone).no_duplicates(),
        (forall|t: int| 0 <= t < s.len() ==> !gone.contains(#[trigger] s[t])) ==> drop_keys(s, gone) == s,
    decreases s.len(),
{
    if s.len() > 0 {
        let init = s.drop_last();
        lemma_drop_keys(init, gone);
        let rest = drop_keys(init, gone);
        let d = drop_keys(s, gone);
        let last = s[s.len() - 1];
        assert(s.last() == last);
        assert(d == if gone.contains(last) { rest } else { rest.push(last) });
        assert forall|x: (nat, nat)| #[trigger] d.contains(x) implies s.contains(x) && !gone.contains(x) by {
            let t = choose|t: int| 0 <= t < d.len() && d[t] == x;
            if t < rest.len() {
                assert(rest[t] == x);
                assert(rest.contains(x));
                let u = choose|u: int| 0 <= u < init.len() && init[u] == x;
                assert(s[u] == x);
            } else {
                assert(!gone.contains(last));
                assert(d[t] == last);
                assert(s[s.len() - 1] == x);
            }
        }
        assert forall|x: (nat, nat)| s.contains(x) && !gone.contains(x) implies #[trigger] d.contains(x) by {
            let t = choose|t: int| 0 <= t < s.len() && s[t] == x;
            if t < s.len() - 1 {
                assert(init[t] == x);
                assert(init.contains(x));
                assert(rest.contains(x));
                let u = choose|u: int| 0 <= u < rest.len() && rest[u] == x;
                if !gone.contains(last) {
                    assert(d[u] == x);
                }
            } else {
                assert(x == last);
                assert(d[rest.len() as int] == x);
            }
        }
        if s.no_duplicates() {
            assert(init.no_duplicates()) by {
                assert forall|a: int, b: int| 0 <= a < b < init.len() implies init[a] != init[b] by {
                    assert(init[a] == s[a] && init[b] == s[b]);
                }
            }
            if !gone.contains(s.last()) {
                assert(!rest.contains(s.last())) by {
                    if rest.contains(s.last()) {
                        let u = choose|u: int| 0 <= u < init.len() && init[u] == s.last();
                        assert(s[u] == s[s.len() - 1]);
                    }
                }
                let r = rest.push(s.last());
                assert forall|a: int, b: int| 0 <= a < b < r.len() implies r[a] != r[b] by {
                    if b == r.len() - 1 {
                        assert(rest.contains(r[a]));
                    } else {
                        assert(r[a] == rest[a] && r[b] == rest[b]);
                    }
                }
            }
        }
        if forall|t: int| 0 <= t < s.len() ==> !gone.contains(#[trigger] s[t]) {
            assert forall|t: int| 0 <= t < init.len() implies !gone.contains(#[trigger] init[t]) by {
                assert(init[t] == s[t]);
            }
            assert(!gone.contains(s[s.len() - 1]));
            assert(s =~= init.push(s.last()));
        }
    }
}

/// Dropping keys in two rounds drops them all at once.
pub proof fn lemma_drop_keys_twice(s: Seq<(nat, nat)>, gone: Set<(nat, nat)>, more: Set<(nat, nat)>)
    ensures
        drop_keys(drop_keys(s, gone), more) == drop_keys(s, gone.union(more)),
    decreases s.len(),
{
    if s.len() > 0 {
        lemma_drop_keys_twice(s.drop_last(), gone, more);
        let rest = drop_keys(s.drop_last(), gone);
        if !gone.contains(s.last()) {
            assert(rest.push(s.last()).drop_last() =~= rest);
        }
    }
}

/// `a` comes before `b` in key order: by slot, then by generation.
pub open spec fn key_before(a: (nat, nat), b: (nat, nat)) -> bool {
    a.0 < b.0 || (a.0 == b.0 && a.1 < b.1)
}

/// Each key comes strictly before the next.
pub open spec fn keys_ascending(s: Seq<(nat, nat)>) -> bool {
    forall|a: int, b: int| 0 <= a < b < s.len() ==> key_before(#[trigger] s[a], #[trigger] s[b])
}

/// Adds `key` to a list in ascending key order, unless it is there.
fn insert_ascending(list: &mut Vec<StableEdgeKey>, key: StableEdgeKey)
    requires
        keys_ascending(key_views(old(list)@)),
    ensures
        keys_ascending(key_views(final(list)@)),
        forall|x: (nat, nat)| #[trigger] key_views(final(list)@).contains(x) <==> key_views(old(list)@).contains(x) || x == key@,
{
    let ghost l0 = key_views(list@);
    let mut p: usize = 0;
    while p < list.len() && (list[p].slot() < key.slot() || (list[p].slot() == key.slot() && list[p].generation() < key.generation()))
        invariant
            p <= list@.len(),
            list@ == old(list)@,
            l0 == key_views(list@),
            forall|t: int| 0 <= t < p ==> key_before(#[trigger] l0[t], key@),
        decreases list@.len() - p,
    {
        p = p + 1;
    }
    if p < list.len() && list[p].slot() == key.slot() && list[p].generation() == key.generation() {
        proof {
            assert(l0[p as int] == key@);
        }
        return;
    }
    let ghost before = list@;
    list.insert(p, key);
    proof {
        let l1 = key_views(list@);
        assert(list@ =~= before.subrange(0, p as int).push(key).add(before.subrange(p as int, before.len() as int)));
        assert forall|t: int| 0 <= t < l1.len() implies #[trigger] l1[t] == if t < p {
            l0[t]
        } else if t == p {
            key@
        } else {
            l0[t - 1]
        } by {}
        if p < l0.len() {
            assert(!key_before(l0[p as int], key@));
            assert(l0[p as int] != key@);
            assert(key_before(key@, l0[p as int]));
        }
        assert forall|a: int, b: int| 0 <= a < b < l1.len() implies key_before(#[trigger] l1[a], #[trigger] l1[b]) by {
            if b < p {
            } else if a < p && b == p {
            } else if a < p {
                assert(key_before(l0[a], l0[b - 1]));
            } else if a == p {
                if b - 1 > p {
                    assert(key_before(l0[p as int], l0[b - 1]));
                }
            } else {
                assert(key_before(l0[a - 1], l0[b - 1]));
            }
        }
        assert forall|x: (nat, nat)| #[trigger] l1.contains(x) <==> l0.contains(x) || x == key@ by {
            if l1.contains(x) {
                let t = choose|t: int| 0 <= t < l1.len() && l1[t] == x;
                if t < p {
                    assert(l0[t] == x);
                } else if t > p {
                    assert(l0[t - 1] == x);
                }
            }
            if l0.contains(x) {
                let t = choose|t: int| 0 <= t < l0.len() && l0[t] == x;
                if t < p {
                    assert(l1[t] == x);
                } else {
                    assert(l1[t + 1] == x);
                }
            }
            if x == key@ {
                assert(l1[p as int] == x);
            }
        }
    }
}

/// How many entries are `true`.
pub open spec fn true_count(s: Seq<bool>) -> nat
    decreases s.len(),
{
    if s.len() == 0 {
        0
    } else {
        true_count(s.drop_last()) + if s.last() {
            1nat
        } else {
            0nat
        }
    }
}

proof fn lemma_true_count_push(s: Seq<bool>, b: bool)
    ensures
        true_count(s.push(b)) == true_count(s) + if b {
            1int
        } else {
            0int
        },
{
    assert(s.push(b).drop_last() =~= s);
}

proof fn lemma_true_count_update(s: Seq<bool>, i: int, b: bool)
    requires
        0 <= i < s.len(),
    ensures
        true_count(s.update(i, b)) == true_count(s) - (if s[i] {
            1int
        } else {
            0int
        }) + if b {
            1int
        } else {
            0int
        },
    decreases s.len(),
{
    if i == s.len() - 1 {
        assert(s.update(i, b).drop_last() =~= s.drop_last());
    } else {
        lemma_true_count_update(s.drop_last(), i, b);
        assert(s.update(i, b).drop_last() =~= s.drop_last().update(i, b));
    }
}

proof fn lemma_true_count_bound(s: Seq<bool>)
    ensures
        true_count(s) <= s.len(),
    decreases s.len(),
{
    if s.len() > 0 {
        lemma_true_count_bound(s.drop_last());
    }
}

/// `b` holds the node that `k` names in `a`, if any, unchanged and with the
/// same edge lists; and `k` names a node in `b` only if it does in `a`.
pub open spec fn node_kept<N, E>(a: WorkingStore<N, E>, b: WorkingStore<N, E>, k: (nat, nat)) -> bool {
    &&& b.node_live(k) == a.node_live(k)
    &&& a.node_live(k) ==> b.node_value(k) == a.node_value(k)
    &&& b.outgoing_of(k) == a.outgoing_of(k)
    &&& b.incoming_of(k) == a.incoming_of(k)
}

/// `b` holds the edge that `k` names in `a`, if any, unchanged, with the
/// same endpoints; and `k` names an edge in `b` only if it does in `a`.
pub open spec fn edge_kept<N, E>(a: WorkingStore<N, E>, b: WorkingStore<N, E>, k: (nat, nat)) -> bool {
    &&& b.edge_live(k) == a.edge_live(k)
    &&& a.edge_live(k) ==> b.edge_value(k) == a.edge_value(k) && b.edge_source(k) == a.edge_source(k)
        && b.edge_target(k) == a.edge_target(k)
}

/// `k` names a node in `b` exactly when it does in `a`, the same node.
pub open spec fn node_held<N, E>(a: WorkingStore<N, E>, b: WorkingStore<N, E>, k: (nat, nat)) -> bool {
    &&& b.node_live(k) == a.node_live(k)
    &&& a.node_live(k) ==> b.node_value(k) == a.node_value(k)
}

/// The edges of `s` that leave or enter the node `k` names.
pub open spec fn touching<N, E>(s: WorkingStore<N, E>, k: (nat, nat)) -> Set<(nat, nat)> {
    Set::new(|e: (nat, nat)| s.edge_live(e) && (s.edge_source(e) == k || s.edge_target(e) == k))
}

/// Every key retired in `a` stays retired in `b`.
pub open spec fn retired_kept<N, E>(a: WorkingStore<N, E>, b: WorkingStore<N, E>) -> bool {
    &&& forall|k: (nat, nat)| #[trigger] a.node_retired(k) ==> b.node_retired(k)
    &&& forall|k: (nat, nat)| #[trigger] a.edge_retired(k) ==> b.edge_retired(k)
}

/// `list` without `key`, the rest in order.
fn without_key(list: &Vec<StableEdgeKey>, key: StableEdgeKey) -> (r: Vec<StableEdgeKey>)
    ensures
        key_views(r@) == drop_keys(key_views(list@), set![key@]),
{
    let mut r: Vec<StableEdgeKey> = Vec::new();
    let mut i: usize = 0;
    while i < list.len()
        invariant
            i <= list@.len(),
            key_views(r@) == drop_keys(key_views(list@.take(i as int)), set![key@]),
        decreases list@.len() - i,
    {
        let k = list[i];
        proof {
            lemma_edge_key_view(k, key);
            assert(key_views(list@.take(i as int + 1)).drop_last() =~= key_views(list@.take(i as int)));
            assert(key_views(list@.take(i as int + 1)).last() == k@);
        }
        if k != key {
            let ghost r0 = r@;
            r.push(k);
            proof {
                assert(key_views(r@) =~= key_views(r0).push(k@));
            }
        }
        i = i + 1;
    }
    proof {
        assert(list@.take(list@.len() as int) =~= list@);
    }
    r
}

spec fn node_lives<N>(slots: Seq<NodeSlot<N>>) -> Seq<bool> {
    slots.map_values(|s: NodeSlot<N>| s.value is Some)
}

spec fn edge_lives<E>(slots: Seq<EdgeSlot<E>>) -> Seq<bool> {
    slots.map_values(|s: EdgeSlot<E>| s.value is Some)
}

impl<N, E> WorkingStore<N, E> {
    /// The node key `k` names a node of the store.
    pub closed spec fn node_live(&self, k: (nat, nat)) -> bool {
        k.0 < self.nodes@.len() && self.nodes@[k.0 as int].value is Some && self.nodes@[k.0 as int].generation == k.1
    }

    /// The node that `k` names.
    pub closed spec fn node_value(&self, k: (nat, nat)) -> N {
        self.nodes@[k.0 as int].value->0
    }

    /// The edge key `k` names an edge of the store.
    pub closed spec fn edge_live(&self, k: (nat, nat)) -> bool {
        k.0 < self.edges@.len() && self.edges@[k.0 as int].value is Some && self.edges@[k.0 as int].generation == k.1
    }

    /// The edge that `k` names.
    pub closed spec fn edge_value(&self, k: (nat, nat)) -> E {
        self.edges@[k.0 as int].value->0
    }

    /// The key of the source node of the edge that `k` names.
    pub closed spec fn edge_source(&self, k: (nat, nat)) -> (nat, nat) {
        self.edges@[k.0 as int].source@
    }

    /// The key of the target node of the edge that `k` names.
    pub closed spec fn edge_target(&self, k: (nat, nat)) -> (nat, nat) {
        self.edges@[k.0 as int].target@
    }

    /// The edges leaving the node that `k` names, in the order they were
    /// attached; empty for a key that names no node.
    pub closed spec fn outgoing_of(&self, k: (nat, nat)) -> Seq<(nat, nat)> {
        if self.node_live(k) {
            key_views(self.nodes@[k.0 as int].outgoing@)
        } else {
            Seq::empty()
        }
    }

    /// The edges entering the node that `k` names, in the order they were
    /// attached; empty for a key that names no node.
    pub closed spec fn incoming_of(&self, k: (nat, nat)) -> Seq<(nat, nat)> {
        if self.node_live(k) {
            key_views(self.nodes@[k.0 as int].incoming@)
        } else {
            Seq::empty()
        }
    }

    /// The node key `k` was handed out and its node removed: it can never
    /// name a node again.
    pub closed spec fn node_retired(&self, k: (nat, nat)) -> bool {
        &&& k.0 < self.nodes@.len()
        &&& self.nodes@[k.0 as int].generation > k.1 || (self.nodes@[k.0 as int].generation == k.1
            && self.nodes@[k.0 as int].value is None && !self.free_nodes@.contains(k.0 as u32))
    }

    /// The edge key `k` was handed out and its edge removed: it can never
    /// name an edge again.
    pub closed spec fn edge_retired(&self, k: (nat, nat)) -> bool {
        &&& k.0 < self.edges@.len()
        &&& self.edges@[k.0 as int].generation > k.1 || (self.edges@[k.0 as int].generation == k.1
            && self.edges@[k.0 as int].value is None && !self.free_edges@.contains(k.0 as u32))
    }

    /// How many nodes the store holds.
    pub closed spec fn node_total(&self) -> nat {
        true_count(node_lives(self.nodes@))
    }

    /// How many edges the store holds.
    pub closed spec fn edge_total(&self) -> nat {
        true_count(edge_lives(self.edges@))
    }

    /// How many node slots exist.
    pub closed spec fn node_slots(&self) -> nat {
        self.nodes@.len()
    }

    /// How many edge slots exist.
    pub closed spec fn edge_slots(&self) -> nat {
        self.edges@.len()
    }

    spec fn slots_ok(&self) -> bool {
        &&& self.nodes@.len() <= u32::MAX as nat + 1
        &&& self.edges@.len() <= u32::MAX as nat + 1
        &&& self.free_nodes@.no_duplicates()
        &&& self.free_edges@.no_duplicates()
        &&& forall|t: int| 0 <= t < self.free_nodes@.len() ==> (#[trigger] self.free_nodes@[t]) < self.nodes@.len()
            && self.nodes@[self.free_nodes@[t] as int].value is None
        &&& forall|t: int| 0 <= t < self.free_edges@.len() ==> (#[trigger] self.free_edges@[t]) < self.edges@.len()
            && self.edges@[self.free_edges@[t] as int].value is None
        &&& self.node_count == self.node_total()
        &&& self.edge_count == self.edge_total()
    }

    spec fn lists_ok(&self) -> bool {
        &&& forall|i: int| 0 <= i < self.nodes@.len() && (#[trigger] self.nodes@[i]).value is None
            ==> self.nodes@[i].outgoing@.len() == 0 && self.nodes@[i].incoming@.len() == 0
        &&& forall|i: int| 0 <= i < self.nodes@.len() && (#[trigger] self.nodes@[i]).value is Some
            ==> key_views(self.nodes@[i].outgoing@).no_duplicates() && key_views(self.nodes@[i].incoming@).no_duplicates()
        &&& forall|i: int, t: int| 0 <= i < self.nodes@.len() && 0 <= t < self.nodes@[i].outgoing@.len()
            ==> self.edge_live(#[trigger] self.nodes@[i].outgoing@[t]@)
            && self.edge_source(self.nodes@[i].outgoing@[t]@) == (i as nat, self.nodes@[i].generation as nat)
        &&& forall|i: int, t: int| 0 <= i < self.nodes@.len() && 0 <= t < self.nodes@[i].incoming@.len()
            ==> self.edge_live(#[trigger] self.nodes@[i].incoming@[t]@)
            && self.edge_target(self.nodes@[i].incoming@[t]@) == (i as nat, self.nodes@[i].generation as nat)
        &&& forall|j: int| 0 <= j < self.edges@.len() && (#[trigger] self.edges@[j]).value is Some ==> {
            let k = (j as nat, self.edges@[j].generation as nat);
            &&& self.node_live(self.edges@[j].source@)
            &&& self.node_live(self.edges@[j].target@)
            &&& self.outgoing_of(self.edges@[j].source@).contains(k)
            &&& self.incoming_of(self.edges@[j].target@).contains(k)
        }
    }

    /// Whether a node can be placed: a slot is free or a new slot number
    /// is left.
    pub closed spec fn node_room(&self) -> bool {
        self.free_nodes@.len() > 0 || self.nodes@.len() <= u32::MAX as nat
    }

    /// The key the next node placed gets: the most recently freed slot at
    /// its current generation, else a new slot at generation 0.
    pub closed spec fn next_node_key(&self) -> (nat, nat) {
        if self.free_nodes@.len() > 0 {
            let s = self.free_nodes@.last();
            (s as nat, self.nodes@[s as int].generation as nat)
        } else {
            (self.nodes@.len(), 0)
        }
    }

    /// Whether an edge can be placed: a slot is free or a new slot number
    /// is left.
    pub closed spec fn edge_room(&self) -> bool {
        self.free_edges@.len() > 0 || self.edges@.len() <= u32::MAX as nat
    }

    /// The key the next edge placed gets: the most recently freed slot at
    /// its current generation, else a new slot at generation 0.
    pub closed spec fn next_edge_key(&self) -> (nat, nat) {
        if self.free_edges@.len() > 0 {
            let s = self.free_edges@.last();
            (s as nat, self.edges@[s as int].generation as nat)
        } else {
            (self.edges@.len(), 0)
        }
    }

    /// The store's own bookkeeping is consistent: free slots are empty and
    /// listed once, the counts match the slots held, and each edge appears
    /// once in the lists of its two endpoints and nowhere else.
    pub closed spec fn wf(&self) -> bool {
        self.slots_ok() && self.lists_ok()
    }

    /// An empty store.
    pub fn new() -> (r: Self)
        ensures
            r.wf(),
            r.node_slots() == 0,
            r.edge_slots() == 0,
            r.node_total() == 0,
            r.edge_total() == 0,
    {
        let r = WorkingStore {
            nodes: Vec::new(),
            edges: Vec::new(),
            free_nodes: Vec::new(),
            free_edges: Vec::new(),
            node_count: 0,
            edge_count: 0,
        };
        r
    }

    /// An empty store with room reserved for `nodes` nodes and `edges`
    /// edges.
    pub fn with_capacity(nodes: usize, edges: usize) -> (r: Self)
        ensures
            r.wf(),
            r.node_slots() == 0,
            r.edge_slots() == 0,
            r.node_total() == 0,
            r.edge_total() == 0,
    {
        let r = WorkingStore {
            nodes: Vec::with_capacity(nodes),
            edges: Vec::with_capacity(edges),
            free_nodes: Vec::new(),
            free_edges: Vec::new(),
            node_count: 0,
            edge_count: 0,
        };
        r
    }

    /// Places `value` in the most recently freed node slot, or in a new
    /// one; fails when no slot is free and every slot number is taken.
    pub fn insert_node(&mut self, value: N) -> (r: Result<StableNodeKey, SlotError>)
        requires
            old(self).wf(),
        ensures
            final(self).wf(),
            r is Ok <==> old(self).node_room(),
            r matches Err(e) ==> (e matches SlotError::Full { count } && count == old(self).node_slots())
                && *final(self) == *old(self),
            r matches Ok(k) ==> {
                &&& k@ == old(self).next_node_key()
                &&& !old(self).node_live(k@) && !old(self).node_retired(k@)
                &&& final(self).node_live(k@) && final(self).node_value(k@) == value
                &&& final(self).outgoing_of(k@).len() == 0 && final(self).incoming_of(k@).len() == 0
                &&& final(self).node_total() == old(self).node_total() + 1
                &&& forall|q: (nat, nat)| q != k@ ==> #[trigger] node_kept(*old(self), *final(self), q)
                &&& forall|q: (nat, nat)| #[trigger] edge_kept(*old(self), *final(self), q)
                &&& retired_kept(*old(self), *final(self))
            },
    {
        let ghost before = *self;
        if self.free_nodes.len() > 0 {
            let slot = self.free_nodes.pop().unwrap();
            let i = slot as usize;
            proof {
                assert(self.free_nodes@ =~= before.free_nodes@.drop_last());
                assert(before.free_nodes@[before.free_nodes@.len() - 1] == slot);
                assert(before.nodes@[i as int].value is None);
                lemma_true_count_update(node_lives(before.nodes@), i as int, true);
            }
            let generation = self.nodes[i].generation;
            let fresh = NodeSlot { generation, value: Some(value), outgoing: Vec::new(), incoming: Vec::new() };
            self.nodes.set(i, fresh);
            let _slots = self.nodes.len();
            proof {
                assert(node_lives(self.nodes@) =~= node_lives(before.nodes@).update(i as int, true));
                assert(node_lives(before.nodes@)[i as int] == false);
                assert(true_count(node_lives(self.nodes@)) == before.node_count + 1);
                lemma_true_count_bound(node_lives(self.nodes@));
                assert(node_lives(self.nodes@).len() == self.nodes@.len());
                assert(before.node_count + 1 <= _slots);
            }
            self.node_count = self.node_count + 1;
            let key = StableNodeKey::new(slot, generation);
            proof {
                self.lemma_insert_node_frame(before, i as int);
            }
            Ok(key)
        } else if self.nodes.len() <= 0xffff_ffff {
            let slot = self.nodes.len() as u32;
            let fresh = NodeSlot { generation: 0, value: Some(value), outgoing: Vec::new(), incoming: Vec::new() };
            self.nodes.push(fresh);
            let _grown = self.nodes.len();
            proof {
                assert(node_lives(self.nodes@) =~= node_lives(before.nodes@).push(true));
                lemma_true_count_push(node_lives(before.nodes@), true);
                lemma_true_count_bound(node_lives(self.nodes@));
            }
            self.node_count = self.node_count + 1;
            let key = StableNodeKey::new(slot, 0);
            proof {
                self.lemma_insert_node_frame(before, slot as int);
            }
            Ok(key)
        } else {
            Err(SlotError::Full { count: self.nodes.len() })
        }
    }

    /// After a node was placed in slot `i`, which held none before,
    /// everything else is as it was and the bookkeeping still holds.
    proof fn lemma_insert_node_frame(&self, before: Self, i: int)
        requires
            before.wf(),
            0 <= i < self.nodes@.len(),
            self.nodes@.len() == before.nodes@.len() || (self.nodes@.len() == before.nodes@.len() + 1 && i == before.nodes@.len()),
            i < before.nodes@.len() ==> before.nodes@[i].value is None && self.nodes@[i].generation == before.nodes@[i].generation,
            i < before.nodes@.len() ==> self.free_nodes@ == before.free_nodes@.drop_last() && before.free_nodes@.len() > 0
                && before.free_nodes@.last() == i,
            i == before.nodes@.len() ==> self.free_nodes@ == before.free_nodes@,
            self.nodes@.len() <= u32::MAX as nat + 1,
            self.nodes@[i].value is Some,
            self.nodes@[i].outgoing@.len() == 0,
            self.nodes@[i].incoming@.len() == 0,
            forall|j: int| 0 <= j < before.nodes@.len() && j != i ==> self.nodes@[j] == before.nodes@[j],
            self.edges@ == before.edges@,
            self.free_edges@ == before.free_edges@,
            self.node_count == self.node_total(),
            self.edge_count == before.edge_count,
        ensures
            self.wf(),
            forall|q: (nat, nat)| q.0 != i ==> #[trigger] node_kept(before, *self, q),
            forall|q: (nat, nat)| #[trigger] edge_kept(before, *self, q),
            retired_kept(before, *self),
            !before.node_live((i as nat, self.nodes@[i].generation as nat)),
            !before.node_retired((i as nat, self.nodes@[i].generation as nat)),
    {
        assert(edge_lives(self.edges@) == edge_lives(before.edges@));
        assert forall|t: int| 0 <= t < self.free_nodes@.len() implies (#[trigger] self.free_nodes@[t]) < self.nodes@.len()
            && self.nodes@[self.free_nodes@[t] as int].value is None by {
            assert(self.free_nodes@[t] == before.free_nodes@[t]);
            if i < before.nodes@.len() {
                assert(before.free_nodes@[t] != before.free_nodes@[before.free_nodes@.len() - 1]);
            }
        }
        assert forall|j: int| 0 <= j < self.edges@.len() && (#[trigger] self.edges@[j]).value is Some implies {
            let k = (j as nat, self.edges@[j].generation as nat);
            &&& self.node_live(self.edges@[j].source@)
            &&& self.node_live(self.edges@[j].target@)
            &&& self.outgoing_of(self.edges@[j].source@).contains(k)
            &&& self.incoming_of(self.edges@[j].target@).contains(k)
        } by {
            assert(before.edges@[j] == self.edges@[j]);
            let src = self.edges@[j].source@;
            let tgt = self.edges@[j].target@;
            assert(before.node_live(src));
            assert(before.node_live(tgt));
            assert(self.nodes@[src.0 as int] == before.nodes@[src.0 as int]);
            assert(self.nodes@[tgt.0 as int] == before.nodes@[tgt.0 as int]);
        }
        assert forall|q: (nat, nat)| #[trigger] before.node_retired(q) implies self.node_retired(q) by {
            if q.0 == i && i < before.nodes@.len() {
                assert(before.free_nodes@.contains(i as u32));
            }
            if q.0 != i && before.free_nodes@.len() > 0 && i < before.nodes@.len() {
                if self.free_nodes@.contains(q.0 as u32) {
                    let t = choose|t: int| 0 <= t < self.free_nodes@.len() && self.free_nodes@[t] == q.0 as u32;
                    assert(before.free_nodes@[t] == q.0 as u32);
                }
            }
        }
        if i < before.nodes@.len() {
            assert(before.free_nodes@.contains(i as u32));
        }
    }

    /// Places `value` as an edge from the node `source` names to the node
    /// `target` names, in the most recently freed edge slot or a new one,
    /// and appends it to the source's outgoing and the target's incoming
    /// list. Fails, changing nothing, when `source` or then `target` names
    /// no node, or when no slot is free and every slot number is taken.
    pub fn insert_edge(&mut self, source: StableNodeKey, target: StableNodeKey, value: E) -> (r: Result<StableEdgeKey, SlotError>)
        requires
            old(self).wf(),
        ensures
            final(self).wf(),
            !old(self).node_live(source@) ==> r == Err::<StableEdgeKey, SlotError>(SlotError::MissingSource),
            old(self).node_live(source@) && !old(self).node_live(target@) ==> r == Err::<StableEdgeKey, SlotError>(SlotError::MissingTarget),
            old(self).node_live(source@) && old(self).node_live(target@) ==> (r is Ok <==> old(self).edge_room()),
            r matches Err(e) ==> *final(self) == *old(self),
            r matches Err(SlotError::Full { count }) ==> count == old(self).edge_slots(),
            r matches Ok(k) ==> {
                &&& k@ == old(self).next_edge_key()
                &&& !old(self).edge_live(k@) && !old(self).edge_retired(k@)
                &&& final(self).edge_live(k@) && final(self).edge_value(k@) == value
                &&& final(self).edge_source(k@) == source@ && final(self).edge_target(k@) == target@
                &&& final(self).edge_total() == old(self).edge_total() + 1
                &&& forall|q: (nat, nat)| q != k@ ==> #[trigger] edge_kept(*old(self), *final(self), q)
                &&& forall|q: (nat, nat)| #[trigger] node_held(*old(self), *final(self), q)
                &&& forall|q: (nat, nat)| #[trigger] final(self).outgoing_of(q) == if q == source@ {
                    old(self).outgoing_of(q).push(k@)
                } else {
                    old(self).outgoing_of(q)
                }
                &&& forall|q: (nat, nat)| #[trigger] final(self).incoming_of(q) == if q == target@ {
                    old(self).incoming_of(q).push(k@)
                } else {
                    old(self).incoming_of(q)
                }
                &&& retired_kept(*old(self), *final(self))
            },
    {
        if !self.contains_node(source) {
            return Err(SlotError::MissingSource);
        }
        if !self.contains_node(target) {
            return Err(SlotError::MissingTarget);
        }
        let ghost before = *self;
        let key;
        if self.free_edges.len() > 0 {
            let slot = self.free_edges.pop().unwrap();
            let j = slot as usize;
            proof {
                assert(self.free_edges@ =~= before.free_edges@.drop_last());
                assert(before.free_edges@[before.free_edges@.len() - 1] == slot);
                assert(before.edges@[j as int].value is None);
                lemma_true_count_update(edge_lives(before.edges@), j as int, true);
            }
            let generation = self.edges[j].generation;
            self.edges.set(j, EdgeSlot { generation, value: Some(value), source, target });
            proof {
                assert(edge_lives(self.edges@) =~= edge_lives(before.edges@).update(j as int, true));
                lemma_true_count_bound(edge_lives(self.edges@));
            }
            key = StableEdgeKey::new(slot, generation);
        } else if self.edges.len() <= 0xffff_ffff {
            let slot = self.edges.len() as u32;
            self.edges.push(EdgeSlot { generation: 0, value: Some(value), source, target });
            let _grown = self.edges.len();
            proof {
                assert(edge_lives(self.edges@) =~= edge_lives(before.edges@).push(true));
                lemma_true_count_push(edge_lives(before.edges@), true);
                lemma_true_count_bound(edge_lives(self.edges@));
            }
            key = StableEdgeKey::new(slot, 0);
        } else {
            return Err(SlotError::Full { count: self.edges.len() });
        }
        let _slots = self.edges.len();
        proof {
            lemma_true_count_bound(edge_lives(self.edges@));
        }
        self.edge_count = self.edge_count + 1;
        let si = source.index();
        let ti = target.index();
        let ghost n0 = self.nodes@;
        self.nodes[si].outgoing.push(key);
        let ghost n1 = self.nodes@;
        proof {
            assert(n1.len() == n0.len());
            assert(n1[si as int].outgoing@ == n0[si as int].outgoing@.push(key));
            assert(n1[si as int].incoming@ == n0[si as int].incoming@);
            assert(n1[si as int].generation == n0[si as int].generation && n1[si as int].value == n0[si as int].value);
            assert(forall|i: int| 0 <= i < n0.len() && i != si ==> n1[i] == n0[i]);
        }
        self.nodes[ti].incoming.push(key);
        proof {
            let n2 = self.nodes@;
            assert(n2.len() == n1.len());
            assert(n2[ti as int].incoming@ == n1[ti as int].incoming@.push(key));
            assert(n2[ti as int].outgoing@ == n1[ti as int].outgoing@);
            assert(n2[ti as int].generation == n1[ti as int].generation && n2[ti as int].value == n1[ti as int].value);
            assert(forall|i: int| 0 <= i < n1.len() && i != ti ==> n2[i] == n1[i]);
            assert forall|i: int| 0 <= i < n2.len() implies (#[trigger] n2[i]).generation == before.nodes@[i].generation
                && n2[i].value == before.nodes@[i].value
                && key_views(n2[i].outgoing@) == (if i == source@.0 {
                    key_views(before.nodes@[i].outgoing@).push(key@)
                } else {
                    key_views(before.nodes@[i].outgoing@)
                })
                && key_views(n2[i].incoming@) == (if i == target@.0 {
                    key_views(before.nodes@[i].incoming@).push(key@)
                } else {
                    key_views(before.nodes@[i].incoming@)
                }) by {
                assert(key_views(before.nodes@[i].outgoing@.push(key)) =~= key_views(before.nodes@[i].outgoing@).push(key@));
                assert(key_views(before.nodes@[i].incoming@.push(key)) =~= key_views(before.nodes@[i].incoming@).push(key@));
            }
            self.lemma_insert_edge_frame(before, source@, target@, key@);
        }
        Ok(key)
    }

    /// After an edge was placed under `k` and appended to its endpoints'
    /// lists, everything else is as it was and the bookkeeping still holds.
    proof fn lemma_insert_edge_frame(&self, before: Self, src: (nat, nat), tgt: (nat, nat), k: (nat, nat))
        requires
            before.wf(),
            before.node_live(src),
            before.node_live(tgt),
            k.0 < self.edges@.len(),
            self.edges@.len() == before.edges@.len() || (self.edges@.len() == before.edges@.len() + 1 && k.0 == before.edges@.len()
                && k.1 == 0),
            k.0 < before.edges@.len() ==> before.edges@[k.0 as int].value is None && k.1 == before.edges@[k.0 as int].generation
                && self.free_edges@ == before.free_edges@.drop_last() && before.free_edges@.len() > 0 && before.free_edges@.last() == k.0,
            k.0 == before.edges@.len() ==> self.free_edges@ == before.free_edges@,
            self.edges@.len() <= u32::MAX as nat + 1,
            self.edges@[k.0 as int].value is Some,
            self.edges@[k.0 as int].generation == k.1,
            self.edges@[k.0 as int].source@ == src,
            self.edges@[k.0 as int].target@ == tgt,
            forall|j: int| 0 <= j < before.edges@.len() && j != k.0 ==> self.edges@[j] == before.edges@[j],
            self.nodes@.len() == before.nodes@.len(),
            forall|i: int| 0 <= i < self.nodes@.len() ==> (#[trigger] self.nodes@[i]).generation == before.nodes@[i].generation
                && self.nodes@[i].value == before.nodes@[i].value
                && key_views(self.nodes@[i].outgoing@) == if i == src.0 {
                    key_views(before.nodes@[i].outgoing@).push(k)
                } else {
                    key_views(before.nodes@[i].outgoing@)
                }
                && key_views(self.nodes@[i].incoming@) == if i == tgt.0 {
                    key_views(before.nodes@[i].incoming@).push(k)
                } else {
                    key_views(before.nodes@[i].incoming@)
                },
            self.free_nodes@ == before.free_nodes@,
            self.node_count == before.node_count,
            self.edge_count == self.edge_total(),
        ensures
            self.wf(),
            !before.edge_live(k),
            !before.edge_retired(k),
            forall|q: (nat, nat)| q != k ==> #[trigger] edge_kept(before, *self, q),
            forall|q: (nat, nat)| #[trigger] node_held(before, *self, q),
            forall|q: (nat, nat)| #[trigger] self.outgoing_of(q) == if q == src {
                before.outgoing_of(q).push(k)
            } else {
                before.outgoing_of(q)
            },
            forall|q: (nat, nat)| #[trigger] self.incoming_of(q) == if q == tgt {
                before.incoming_of(q).push(k)
            } else {
                before.incoming_of(q)
            },
            retired_kept(before, *self),
    {
        assert(node_lives(self.nodes@) =~= node_lives(before.nodes@));
        if k.0 < before.edges@.len() {
            assert(before.free_edges@.contains(k.0 as u32));
        }
        assert forall|q: (nat, nat)| #[trigger] self.node_live(q) == before.node_live(q) by {
            if q.0 < self.nodes@.len() {
                assert(self.nodes@[q.0 as int].generation == before.nodes@[q.0 as int].generation);
            }
        }
        assert forall|q: (nat, nat)| q != k implies #[trigger] self.edge_live(q) == before.edge_live(q) by {
            if q.0 < self.edges@.len() && q.0 != k.0 {
                assert(self.edges@[q.0 as int] == before.edges@[q.0 as int]);
            }
        }
        // Keys in the old lists are edges other than `k`.
        assert forall|i: int, t: int| 0 <= i < before.nodes@.len() && 0 <= t < before.nodes@[i].outgoing@.len()
            implies #[trigger] before.nodes@[i].outgoing@[t]@ != k by {
            assert(before.edge_live(before.nodes@[i].outgoing@[t]@));
        }
        assert forall|i: int, t: int| 0 <= i < before.nodes@.len() && 0 <= t < before.nodes@[i].incoming@.len()
            implies #[trigger] before.nodes@[i].incoming@[t]@ != k by {
            assert(before.edge_live(before.nodes@[i].incoming@[t]@));
        }
        assert forall|t: int| 0 <= t < self.free_edges@.len() implies (#[trigger] self.free_edges@[t]) < self.edges@.len()
            && self.edges@[self.free_edges@[t] as int].value is None by {
            assert(self.free_edges@[t] == before.free_edges@[t]);
            if k.0 < before.edges@.len() {
                assert(before.free_edges@[t] != before.free_edges@[before.free_edges@.len() - 1]);
            }
        }
        assert forall|i: int| 0 <= i < self.nodes@.len() && (#[trigger] self.nodes@[i]).value is None
            implies self.nodes@[i].outgoing@.len() == 0 && self.nodes@[i].incoming@.len() == 0 by {
            assert(key_views(self.nodes@[i].outgoing@).len() == self.nodes@[i].outgoing@.len());
            assert(key_views(self.nodes@[i].incoming@).len() == self.nodes@[i].incoming@.len());
            if i == src.0 {
                assert(before.node_live(src));
            }
            if i == tgt.0 {
                assert(before.node_live(tgt));
            }
        }
        assert forall|i: int| 0 <= i < self.nodes@.len() && (#[trigger] self.nodes@[i]).value is Some
            implies key_views(self.nodes@[i].outgoing@).no_duplicates() && key_views(self.nodes@[i].incoming@).no_duplicates() by {
            let bo = key_views(before.nodes@[i].outgoing@);
            let bi = key_views(before.nodes@[i].incoming@);
            assert forall|t: int| 0 <= t < bo.len() implies bo[t] != k by {
                assert(bo[t] == before.nodes@[i].outgoing@[t]@);
            }
            assert forall|t: int| 0 <= t < bi.len() implies bi[t] != k by {
                assert(bi[t] == before.nodes@[i].incoming@[t]@);
            }
        }
        assert forall|i: int, t: int| 0 <= i < self.nodes@.len() && 0 <= t < self.nodes@[i].outgoing@.len()
            implies self.edge_live(#[trigger] self.nodes@[i].outgoing@[t]@)
            && self.edge_source(self.nodes@[i].outgoing@[t]@) == (i as nat, self.nodes@[i].generation as nat) by {
            let e = self.nodes@[i].outgoing@[t]@;
            assert(key_views(self.nodes@[i].outgoing@)[t] == e);
            assert(key_views(self.nodes@[i].outgoing@).len() == self.nodes@[i].outgoing@.len());
            assert(key_views(before.nodes@[i].outgoing@).len() == before.nodes@[i].outgoing@.len());
            if i == src.0 && t == before.nodes@[i].outgoing@.len() {
                assert(e == k);
            } else {
                assert(key_views(before.nodes@[i].outgoing@)[t] == e);
                assert(e == before.nodes@[i].outgoing@[t]@);
                assert(before.edge_live(e));
                assert(self.edges@[e.0 as int] == before.edges@[e.0 as int]);
            }
        }
        assert forall|i: int, t: int| 0 <= i < self.nodes@.len() && 0 <= t < self.nodes@[i].incoming@.len()
            implies self.edge_live(#[trigger] self.nodes@[i].incoming@[t]@)
            && self.edge_target(self.nodes@[i].incoming@[t]@) == (i as nat, self.nodes@[i].generation as nat) by {
            let e = self.nodes@[i].incoming@[t]@;
            assert(key_views(self.nodes@[i].incoming@)[t] == e);
            assert(key_views(self.nodes@[i].incoming@).len() == self.nodes@[i].incoming@.len());
            assert(key_views(before.nodes@[i].incoming@).len() == before.nodes@[i].incoming@.len());
            if i == tgt.0 && t == before.nodes@[i].incoming@.len() {
                assert(e == k);
            } else {
                assert(key_views(before.nodes@[i].incoming@)[t] == e);
                assert(e == before.nodes@[i].incoming@[t]@);
                assert(before.edge_live(e));
                assert(self.edges@[e.0 as int] == before.edges@[e.0 as int]);
            }
        }
        assert forall|q: (nat, nat)| #[trigger] self.outgoing_of(q) == if q == src {
            before.outgoing_of(q).push(k)
        } else {
            before.outgoing_of(q)
        } by {
            if q.0 < self.nodes@.len() {
                assert(self.nodes@[q.0 as int].generation == before.nodes@[q.0 as int].generation);
            }
        }
        assert forall|q: (nat, nat)| #[trigger] self.incoming_of(q) == if q == tgt {
            before.incoming_of(q).push(k)
        } else {
            before.incoming_of(q)
        } by {
            if q.0 < self.nodes@.len() {
                assert(self.nodes@[q.0 as int].generation == before.nodes@[q.0 as int].generation);
            }
        }
        assert forall|j: int| 0 <= j < self.edges@.len() && (#[trigger] self.edges@[j]).value is Some implies {
            let e = (j as nat, self.edges@[j].generation as nat);
            &&& self.node_live(self.edges@[j].source@)
            &&& self.node_live(self.edges@[j].target@)
            &&& self.outgoing_of(self.edges@[j].source@).contains(e)
            &&& self.incoming_of(self.edges@[j].target@).contains(e)
        } by {
            let e = (j as nat, self.edges@[j].generation as nat);
            if j == k.0 {
                assert(self.outgoing_of(src) == before.outgoing_of(src).push(k));
                assert(self.outgoing_of(src)[before.outgoing_of(src).len() as int] == k);
                assert(self.incoming_of(tgt) == before.incoming_of(tgt).push(k));
                assert(self.incoming_of(tgt)[before.incoming_of(tgt).len() as int] == k);
            } else {
                assert(self.edges@[j] == before.edges@[j]);
                let es = self.edges@[j].source@;
                let et = self.edges@[j].target@;
                assert(before.outgoing_of(es).contains(e));
                assert(before.incoming_of(et).contains(e));
                let a = choose|a: int| 0 <= a < before.outgoing_of(es).len() && before.outgoing_of(es)[a] == e;
                let b = choose|b: int| 0 <= b < before.incoming_of(et).len() && before.incoming_of(et)[b] == e;
                assert(self.outgoing_of(es)[a] == e);
                assert(self.incoming_of(et)[b] == e);
            }
        }
        assert forall|q: (nat, nat)| #[trigger] before.edge_retired(q) implies self.edge_retired(q) by {
            if q.0 != k.0 && before.free_edges@.len() > 0 && k.0 < before.edges@.len() {
                if self.free_edges@.contains(q.0 as u32) {
                    let t = choose|t: int| 0 <= t < self.free_edges@.len() && self.free_edges@[t] == q.0 as u32;
                    assert(before.free_edges@[t] == q.0 as u32);
                }
            }
            if q.0 < before.edges@.len() && q.0 != k.0 {
                assert(self.edges@[q.0 as int] == before.edges@[q.0 as int]);
            }
        }
        assert forall|q: (nat, nat)| #[trigger] before.node_retired(q) implies self.node_retired(q) by {
            if q.0 < before.nodes@.len() {
                assert(self.nodes@[q.0 as int].generation == before.nodes@[q.0 as int].generation);
            }
        }
    }

    /// Removes the edge that `key` names, detaching it from its endpoints'
    /// lists and retiring its key; the slot is freed for reuse unless its
    /// generation can grow no further. `None`, changing nothing, when
    /// `key` names no edge.
    pub fn remove_edge(&mut self, key: StableEdgeKey) -> (r: Option<E>)
        requires
            old(self).wf(),
        ensures
            final(self).wf(),
            r is Some <==> old(self).edge_live(key@),
            r is None ==> *final(self) == *old(self),
            r matches Some(v) ==> {
                &&& v == old(self).edge_value(key@)
                &&& !final(self).edge_live(key@) && final(self).edge_retired(key@)
                &&& final(self).edge_total() + 1 == old(self).edge_total()
                &&& final(self).node_total() == old(self).node_total()
                &&& final(self).next_edge_key() == if key@.1 < u32::MAX as nat {
                    (key@.0, key@.1 + 1)
                } else {
                    old(self).next_edge_key()
                }
                &&& forall|q: (nat, nat)| q != key@ ==> #[trigger] edge_kept(*old(self), *final(self), q)
                &&& forall|q: (nat, nat)| #[trigger] node_held(*old(self), *final(self), q)
                &&& forall|q: (nat, nat)| #[trigger] final(self).outgoing_of(q) == drop_keys(old(self).outgoing_of(q), set![key@])
                &&& forall|q: (nat, nat)| #[trigger] final(self).incoming_of(q) == drop_keys(old(self).incoming_of(q), set![key@])
                &&& retired_kept(*old(self), *final(self))
            },
    {
        if !self.contains_edge(key) {
            return None;
        }
        let ghost before = *self;
        let j = key.index();
        let source = self.edges[j].source;
        let target = self.edges[j].target;
        let taken = self.edges[j].value.take();
        let g = self.edges[j].generation;
        proof {
            if before.free_edges@.contains(j as u32) {
                let t = choose|t: int| 0 <= t < before.free_edges@.len() && before.free_edges@[t] == j as u32;
            }
        }
        if g < 0xffff_ffff {
            self.edges[j].generation = g + 1;
            self.free_edges.push(key.slot());
        }
        proof {
            lemma_true_count_update(edge_lives(before.edges@), j as int, false);
            assert(edge_lives(self.edges@) =~= edge_lives(before.edges@).update(j as int, false));
        }
        self.edge_count = self.edge_count - 1;
        let si = source.index();
        let ti = target.index();
        let ghost n0 = self.nodes@;
        proof {
            assert(before.node_live(source@));
            assert(before.node_live(target@));
        }
        let out = without_key(&self.nodes[si].outgoing, key);
        self.nodes[si].outgoing = out;
        let ghost n1 = self.nodes@;
        proof {
            assert(n1.len() == n0.len());
            assert(n1[si as int].incoming@ == n0[si as int].incoming@);
            assert(n1[si as int].generation == n0[si as int].generation && n1[si as int].value == n0[si as int].value);
            assert(forall|i: int| 0 <= i < n0.len() && i != si ==> n1[i] == n0[i]);
        }
        let inc = without_key(&self.nodes[ti].incoming, key);
        self.nodes[ti].incoming = inc;
        proof {
            let n2 = self.nodes@;
            assert(n2.len() == n1.len());
            assert(n2[ti as int].outgoing@ == n1[ti as int].outgoing@);
            assert(n2[ti as int].generation == n1[ti as int].generation && n2[ti as int].value == n1[ti as int].value);
            assert(forall|i: int| 0 <= i < n1.len() && i != ti ==> n2[i] == n1[i]);
            self.lemma_remove_edge_frame(before, source@, target@, key@);
        }
        taken
    }

    /// After the edge `k` was taken out of its slot and its endpoints'
    /// lists, everything else is as it was and the bookkeeping still holds.
    proof fn lemma_remove_edge_frame(&self, before: Self, src: (nat, nat), tgt: (nat, nat), k: (nat, nat))
        requires
            before.wf(),
            before.edge_live(k),
            before.edge_source(k) == src,
            before.edge_target(k) == tgt,
            self.edges@.len() == before.edges@.len(),
            forall|j: int| 0 <= j < before.edges@.len() && j != k.0 ==> self.edges@[j] == before.edges@[j],
            self.edges@[k.0 as int].value is None,
            self.edges@[k.0 as int].generation == if k.1 < u32::MAX as nat { k.1 + 1 } else { k.1 },
            self.free_edges@ == if k.1 < u32::MAX as nat { before.free_edges@.push(k.0 as u32) } else { before.free_edges@ },
            self.nodes@.len() == before.nodes@.len(),
            forall|i: int| 0 <= i < self.nodes@.len() ==> (#[trigger] self.nodes@[i]).generation == before.nodes@[i].generation
                && self.nodes@[i].value == before.nodes@[i].value
                && key_views(self.nodes@[i].outgoing@) == if i == src.0 {
                    drop_keys(key_views(before.nodes@[i].outgoing@), set![k])
                } else {
                    key_views(before.nodes@[i].outgoing@)
                }
                && key_views(self.nodes@[i].incoming@) == if i == tgt.0 {
                    drop_keys(key_views(before.nodes@[i].incoming@), set![k])
                } else {
                    key_views(before.nodes@[i].incoming@)
                },
            self.free_nodes@ == before.free_nodes@,
            self.node_count == before.node_count,
            self.edge_count == self.edge_total(),
        ensures
            self.wf(),
            self.node_total() == before.node_total(),
            !self.edge_live(k),
            self.edge_retired(k),
            forall|q: (nat, nat)| q != k ==> #[trigger] edge_kept(before, *self, q),
            forall|q: (nat, nat)| #[trigger] node_held(before, *self, q),
            forall|q: (nat, nat)| #[trigger] self.outgoing_of(q) == drop_keys(before.outgoing_of(q), set![k]),
            forall|q: (nat, nat)| #[trigger] self.incoming_of(q) == drop_keys(before.incoming_of(q), set![k]),
            retired_kept(before, *self),
    {
        assert(node_lives(self.nodes@) =~= node_lives(before.nodes@));
        assert(!before.free_edges@.contains(k.0 as u32)) by {
            if before.free_edges@.contains(k.0 as u32) {
                let t = choose|t: int| 0 <= t < before.free_edges@.len() && before.free_edges@[t] == k.0 as u32;
            }
        }
        assert forall|q: (nat, nat)| #[trigger] self.node_live(q) == before.node_live(q) by {
            if q.0 < self.nodes@.len() {
                assert(self.nodes@[q.0 as int].generation == before.nodes@[q.0 as int].generation);
            }
        }
        assert forall|q: (nat, nat)| q != k implies #[trigger] self.edge_live(q) == before.edge_live(q) by {
            if q.0 < self.edges@.len() && q.0 != k.0 {
                assert(self.edges@[q.0 as int] == before.edges@[q.0 as int]);
            }
        }
        // Every list of the old store loses exactly `k`.
        assert forall|q: (nat, nat)| #[trigger] self.outgoing_of(q) == drop_keys(before.outgoing_of(q), set![k]) by {
            let bo = before.outgoing_of(q);
            lemma_drop_keys(bo, set![k]);
            if before.node_live(q) && q != src {
                assert forall|t: int| 0 <= t < bo.len() implies !set![k].contains(#[trigger] bo[t]) by {
                    assert(bo[t] == before.nodes@[q.0 as int].outgoing@[t]@);
                    assert(before.edge_source(bo[t]) == q);
                }
            }
            if q.0 < self.nodes@.len() {
                assert(self.nodes@[q.0 as int].generation == before.nodes@[q.0 as int].generation);
            }
        }
        assert forall|q: (nat, nat)| #[trigger] self.incoming_of(q) == drop_keys(before.incoming_of(q), set![k]) by {
            let bi = before.incoming_of(q);
            lemma_drop_keys(bi, set![k]);
            if before.node_live(q) && q != tgt {
                assert forall|t: int| 0 <= t < bi.len() implies !set![k].contains(#[trigger] bi[t]) by {
                    assert(bi[t] == before.nodes@[q.0 as int].incoming@[t]@);
                    assert(before.edge_target(bi[t]) == q);
                }
            }
            if q.0 < self.nodes@.len() {
                assert(self.nodes@[q.0 as int].generation == before.nodes@[q.0 as int].generation);
            }
        }
        assert forall|t: int| 0 <= t < self.free_edges@.len() implies (#[trigger] self.free_edges@[t]) < self.edges@.len()
            && self.edges@[self.free_edges@[t] as int].value is None by {
            if t < before.free_edges@.len() {
                assert(self.free_edges@[t] == before.free_edges@[t]);
            }
        }
        if k.1 < u32::MAX as nat {
            assert(self.free_edges@.no_duplicates()) by {
                let f = self.free_edges@;
                assert forall|a: int, b: int| 0 <= a < b < f.len() implies f[a] != f[b] by {
                    if b == f.len() - 1 {
                        assert(before.free_edges@.contains(f[a]));
                    } else {
                        assert(f[a] == before.free_edges@[a] && f[b] == before.free_edges@[b]);
                    }
                }
            }
        }
        assert forall|i: int| 0 <= i < self.nodes@.len() && (#[trigger] self.nodes@[i]).value is None
            implies self.nodes@[i].outgoing@.len() == 0 && self.nodes@[i].incoming@.len() == 0 by {
            assert(key_views(self.nodes@[i].outgoing@).len() == self.nodes@[i].outgoing@.len());
            assert(key_views(self.nodes@[i].incoming@).len() == self.nodes@[i].incoming@.len());
            assert(before.node_live(src));
            assert(before.node_live(tgt));
        }
        assert forall|i: int| 0 <= i < self.nodes@.len() && (#[trigger] self.nodes@[i]).value is Some
            implies key_views(self.nodes@[i].outgoing@).no_duplicates() && key_views(self.nodes@[i].incoming@).no_duplicates() by {
            lemma_drop_keys(key_views(before.nodes@[i].outgoing@), set![k]);
            lemma_drop_keys(key_views(before.nodes@[i].incoming@), set![k]);
        }
        assert forall|i: int, t: int| 0 <= i < self.nodes@.len() && 0 <= t < self.nodes@[i].outgoing@.len()
            implies self.edge_live(#[trigger] self.nodes@[i].outgoing@[t]@)
            && self.edge_source(self.nodes@[i].outgoing@[t]@) == (i as nat, self.nodes@[i].generation as nat) by {
            let e = self.nodes@[i].outgoing@[t]@;
            let bo = key_views(before.nodes@[i].outgoing@);
            lemma_drop_keys(bo, set![k]);
            assert(key_views(self.nodes@[i].outgoing@)[t] == e);
            assert(key_views(self.nodes@[i].outgoing@).contains(e));
            assert(bo.contains(e) && e != k);
            let u = choose|u: int| 0 <= u < bo.len() && bo[u] == e;
            assert(e == before.nodes@[i].outgoing@[u]@);
            assert(before.edge_live(e));
            if e.0 == k.0 {
                assert(e.1 == k.1);
            }
            assert(self.edges@[e.0 as int] == before.edges@[e.0 as int]);
        }
        assert forall|i: int, t: int| 0 <= i < self.nodes@.len() && 0 <= t < self.nodes@[i].incoming@.len()
            implies self.edge_live(#[trigger] self.nodes@[i].incoming@[t]@)
            && self.edge_target(self.nodes@[i].incoming@[t]@) == (i as nat, self.nodes@[i].generation as nat) by {
            let e = self.nodes@[i].incoming@[t]@;
            let bi = key_views(before.nodes@[i].incoming@);
            lemma_drop_keys(bi, set![k]);
            assert(key_views(self.nodes@[i].incoming@)[t] == e);
            assert(key_views(self.nodes@[i].incoming@).contains(e));
            assert(bi.contains(e) && e != k);
            let u = choose|u: int| 0 <= u < bi.len() && bi[u] == e;
            assert(e == before.nodes@[i].incoming@[u]@);
            assert(before.edge_live(e));
            if e.0 == k.0 {
                assert(e.1 == k.1);
            }
            assert(self.edges@[e.0 as int] == before.edges@[e.0 as int]);
        }
        assert forall|j: int| 0 <= j < self.edges@.len() && (#[trigger] self.edges@[j]).value is Some implies {
            let e = (j as nat, self.edges@[j].generation as nat);
            &&& self.node_live(self.edges@[j].source@)
            &&& self.node_live(self.edges@[j].target@)
            &&& self.outgoing_of(self.edges@[j].source@).contains(e)
            &&& self.incoming_of(self.edges@[j].target@).contains(e)
        } by {
            let e = (j as nat, self.edges@[j].generation as nat);
            assert(self.edges@[j] == before.edges@[j]);
            let es = self.edges@[j].source@;
            let et = self.edges@[j].target@;
            lemma_drop_keys(before.outgoing_of(es), set![k]);
            lemma_drop_keys(before.incoming_of(et), set![k]);
            assert(e != k);
        }
        assert forall|q: (nat, nat)| #[trigger] before.edge_retired(q) implies self.edge_retired(q) by {
            if q.0 == k.0 {
                assert(before.edges@[k.0 as int].generation == k.1);
            } else {
                assert(self.edges@[q.0 as int] == before.edges@[q.0 as int]);
                if self.free_edges@.contains(q.0 as u32) {
                    let t = choose|t: int| 0 <= t < self.free_edges@.len() && self.free_edges@[t] == q.0 as u32;
                    assert(t < before.free_edges@.len());
                    assert(before.free_edges@[t] == q.0 as u32);
                }
            }
        }
        assert forall|q: (nat, nat)| #[trigger] before.node_retired(q) implies self.node_retired(q) by {
            if q.0 < before.nodes@.len() {
                assert(self.nodes@[q.0 as int].generation == before.nodes@[q.0 as int].generation);
            }
        }
        if k.1 >= u32::MAX as nat {
            assert(!self.free_edges@.contains(k.0 as u32));
        }
    }

    /// The edges leaving the node that `key` names, in attachment order.
    pub fn outgoing_edges(&self, key: StableNodeKey) -> (r: Vec<StableEdgeKey>)
        ensures
            key_views(r@) == self.outgoing_of(key@),
    {
        if self.contains_node(key) {
            self.nodes[key.index()].outgoing.clone()
        } else {
            Vec::new()
        }
    }

    /// The edges entering the node that `key` names, in attachment order.
    pub fn incoming_edges(&self, key: StableNodeKey) -> (r: Vec<StableEdgeKey>)
        ensures
            key_views(r@) == self.incoming_of(key@),
    {
        if self.contains_node(key) {
            self.nodes[key.index()].incoming.clone()
        } else {
            Vec::new()
        }
    }

    /// The edges leaving or entering the node that `key` names, each once,
    /// in ascending key order.
    pub fn incident_edges(&self, key: StableNodeKey) -> (r: Vec<StableEdgeKey>)
        ensures
            keys_ascending(key_views(r@)),
            forall|x: (nat, nat)| #[trigger] key_views(r@).contains(x) <==> self.outgoing_of(key@).contains(x)
                || self.incoming_of(key@).contains(x),
    {
        let out = self.outgoing_edges(key);
        let inc = self.incoming_edges(key);
        let mut r: Vec<StableEdgeKey> = Vec::new();
        let mut i: usize = 0;
        while i < out.len()
            invariant
                i <= out@.len(),
                keys_ascending(key_views(r@)),
                forall|x: (nat, nat)| #[trigger] key_views(r@).contains(x) <==> key_views(out@.take(i as int)).contains(x),
            decreases out@.len() - i,
        {
            let ghost r0 = key_views(r@);
            insert_ascending(&mut r, out[i]);
            proof {
                assert(key_views(out@.take(i as int + 1)) =~= key_views(out@.take(i as int)).push(out@[i as int]@));
                assert forall|x: (nat, nat)| key_views(out@.take(i as int)).push(out@[i as int]@).contains(x)
                    <==> key_views(out@.take(i as int)).contains(x) || x == out@[i as int]@ by {
                    let s0 = key_views(out@.take(i as int));
                    if s0.push(out@[i as int]@).contains(x) {
                        let t = choose|t: int| 0 <= t < s0.len() + 1 && s0.push(out@[i as int]@)[t] == x;
                        if t < s0.len() {
                            assert(s0[t] == x);
                        }
                    }
                    if s0.contains(x) {
                        let t = choose|t: int| 0 <= t < s0.len() && s0[t] == x;
                        assert(s0.push(out@[i as int]@)[t] == x);
                    }
                    if x == out@[i as int]@ {
                        assert(s0.push(out@[i as int]@)[s0.len() as int] == x);
                    }
                }
                assert forall|x: (nat, nat)| #[trigger] key_views(r@).contains(x) <==> key_views(out@.take(i as int + 1)).contains(x) by {
                    assert(key_views(r@).contains(x) <==> r0.contains(x) || x == out@[i as int]@);
                    assert(r0.contains(x) <==> key_views(out@.take(i as int)).contains(x));
                }
            }
            i = i + 1;
        }
        proof {
            assert(out@.take(out@.len() as int) =~= out@);
            assert(inc@.take(0) =~= Seq::<StableEdgeKey>::empty());
            assert(key_views(inc@.take(0)) =~= Seq::<(nat, nat)>::empty());
        }
        let mut j: usize = 0;
        while j < inc.len()
            invariant
                j <= inc@.len(),
                keys_ascending(key_views(r@)),
                forall|x: (nat, nat)| #[trigger] key_views(r@).contains(x) <==> key_views(out@).contains(x)
                    || key_views(inc@.take(j as int)).contains(x),
            decreases inc@.len() - j,
        {
            let ghost r0 = key_views(r@);
            insert_ascending(&mut r, inc[j]);
            proof {
                assert(key_views(inc@.take(j as int + 1)) =~= key_views(inc@.take(j as int)).push(inc@[j as int]@));
                assert forall|x: (nat, nat)| key_views(inc@.take(j as int)).push(inc@[j as int]@).contains(x)
                    <==> key_views(inc@.take(j as int)).contains(x) || x == inc@[j as int]@ by {
                    let s0 = key_views(inc@.take(j as int));
                    if s0.push(inc@[j as int]@).contains(x) {
                        let t = choose|t: int| 0 <= t < s0.len() + 1 && s0.push(inc@[j as int]@)[t] == x;
                        if t < s0.len() {
                            assert(s0[t] == x);
                        }
                    }
                    if s0.contains(x) {
                        let t = choose|t: int| 0 <= t < s0.len() && s0[t] == x;
                        assert(s0.push(inc@[j as int]@)[t] == x);
                    }
                    if x == inc@[j as int]@ {
                        assert(s0.push(inc@[j as int]@)[s0.len() as int] == x);
                    }
                }
                assert forall|x: (nat, nat)| #[trigger] key_views(r@).contains(x) <==> key_views(out@).contains(x)
                    || key_views(inc@.take(j as int + 1)).contains(x) by {
                    assert(key_views(r@).contains(x) <==> r0.contains(x) || x == inc@[j as int]@);
                    assert(r0.contains(x) <==> key_views(out@).contains(x) || key_views(inc@.take(j as int)).contains(x));
                }
            }
            j = j + 1;
        }
        proof {
            assert(out@.take(out@.len() as int) =~= out@);
            assert(inc@.take(inc@.len() as int) =~= inc@);
        }
        r
    }

    /// The keys of the nodes held, in slot order.
    pub fn node_keys(&self) -> (r: Vec<StableNodeKey>)
        requires
            self.wf(),
        ensures
            forall|a: int, b: int| 0 <= a < b < r@.len() ==> (#[trigger] r@[a])@.0 < (#[trigger] r@[b])@.0,
            forall|t: int| 0 <= t < r@.len() ==> self.node_live(#[trigger] r@[t]@),
            forall|q: (nat, nat)| #[trigger] self.node_live(q) ==> exists|t: int| 0 <= t < r@.len() && r@[t]@ == q,
    {
        let mut r: Vec<StableNodeKey> = Vec::new();
        let mut i: usize = 0;
        while i < self.nodes.len()
            invariant
                self.wf(),
                i <= self.nodes@.len(),
                forall|a: int, b: int| 0 <= a < b < r@.len() ==> (#[trigger] r@[a])@.0 < (#[trigger] r@[b])@.0,
                forall|t: int| 0 <= t < r@.len() ==> self.node_live(#[trigger] r@[t]@) && r@[t]@.0 < i,
                forall|q: (nat, nat)| #[trigger] self.node_live(q) && q.0 < i ==> exists|t: int| 0 <= t < r@.len() && r@[t]@ == q,
            decreases self.nodes@.len() - i,
        {
            if self.nodes[i].value.is_some() {
                let k = StableNodeKey::new(i as u32, self.nodes[i].generation);
                let ghost r0 = r@;
                r.push(k);
                proof {
                    assert(r@[r@.len() - 1]@ == k@);
                    assert forall|q: (nat, nat)| #[trigger] self.node_live(q) && q.0 < i + 1 implies exists|t: int| 0 <= t < r@.len() && r@[t]@ == q by {
                        if q.0 < i {
                            let t = choose|t: int| 0 <= t < r0.len() && r0[t]@ == q;
                            assert(r@[t] == r0[t]);
                        }
                    }
                }
            }
            i = i + 1;
        }
        r
    }

    /// The keys of the edges held, in slot order.
    pub fn edge_keys(&self) -> (r: Vec<StableEdgeKey>)
        requires
            self.wf(),
        ensures
            forall|a: int, b: int| 0 <= a < b < r@.len() ==> (#[trigger] r@[a])@.0 < (#[trigger] r@[b])@.0,
            forall|t: int| 0 <= t < r@.len() ==> self.edge_live(#[trigger] r@[t]@),
            forall|q: (nat, nat)| #[trigger] self.edge_live(q) ==> exists|t: int| 0 <= t < r@.len() && r@[t]@ == q,
    {
        let mut r: Vec<StableEdgeKey> = Vec::new();
        let mut i: usize = 0;
        while i < self.edges.len()
            invariant
                self.wf(),
                i <= self.edges@.len(),
                forall|a: int, b: int| 0 <= a < b < r@.len() ==> (#[trigger] r@[a])@.0 < (#[trigger] r@[b])@.0,
                forall|t: int| 0 <= t < r@.len() ==> self.edge_live(#[trigger] r@[t]@) && r@[t]@.0 < i,
                forall|q: (nat, nat)| #[trigger] self.edge_live(q) && q.0 < i ==> exists|t: int| 0 <= t < r@.len() && r@[t]@ == q,
            decreases self.edges@.len() - i,
        {
            if self.edges[i].value.is_some() {
                let k = StableEdgeKey::new(i as u32, self.edges[i].generation);
                let ghost r0 = r@;
                r.push(k);
                proof {
                    assert(r@[r@.len() - 1]@ == k@);
                    assert forall|q: (nat, nat)| #[trigger] self.edge_live(q) && q.0 < i + 1 implies exists|t: int| 0 <= t < r@.len() && r@[t]@ == q by {
                        if q.0 < i {
                            let t = choose|t: int| 0 <= t < r0.len() && r0[t]@ == q;
                            assert(r@[t] == r0[t]);
                        }
                    }
                }
            }
            i = i + 1;
        }
        r
    }

    /// Puts `value` in place of the node that `key` names and hands back
    /// the one it held; `None`, changing nothing, when `key` names no node.
    pub fn replace_node_value(&mut self, key: StableNodeKey, value: N) -> (r: Option<N>)
        requires
            old(self).wf(),
        ensures
            final(self).wf(),
            r is Some <==> old(self).node_live(key@),
            r is None ==> *final(self) == *old(self),
            r matches Some(v) ==> {
                &&& v == old(self).node_value(key@)
                &&& final(self).node_live(key@) && final(self).node_value(key@) == value
                &&& final(self).outgoing_of(key@) == old(self).outgoing_of(key@)
                &&& final(self).incoming_of(key@) == old(self).incoming_of(key@)
                &&& final(self).node_total() == old(self).node_total()
                &&& forall|q: (nat, nat)| q != key@ ==> #[trigger] node_kept(*old(self), *final(self), q)
                &&& forall|q: (nat, nat)| #[trigger] edge_kept(*old(self), *final(self), q)
                &&& retired_kept(*old(self), *final(self))
            },
    {
        if !self.contains_node(key) {
            return None;
        }
        let ghost before = *self;
        let i = key.index();
        let old_value = self.nodes[i].value.take();
        self.nodes[i].value = Some(value);
        proof {
            assert(self.nodes@.len() == before.nodes@.len());
            assert(forall|j: int| 0 <= j < before.nodes@.len() && j != i ==> self.nodes@[j] == before.nodes@[j]);
            assert(node_lives(self.nodes@) =~= node_lives(before.nodes@));
            assert forall|q: (nat, nat)| #[trigger] self.node_live(q) == before.node_live(q) by {}
            assert forall|q: (nat, nat)| #[trigger] before.node_retired(q) implies self.node_retired(q) by {}
        }
        old_value
    }

    /// Moves the edge that `key` names to run from the node `source` names
    /// to the node `target` names, appending it to their lists, and puts
    /// `value` in place of the edge, handing back the old one. `Ok(None)`
    /// when `key` names no edge; an error when `source` or then `target`
    /// names no node; either way nothing changes.
    pub fn replace_edge(&mut self, key: StableEdgeKey, source: StableNodeKey, target: StableNodeKey, value: E)
        -> (r: Result<Option<E>, SlotError>)
        requires
            old(self).wf(),
        ensures
            final(self).wf(),
            !old(self).edge_live(key@) ==> r matches Ok(None),
            old(self).edge_live(key@) && !old(self).node_live(source@) ==> r == Err::<Option<E>, SlotError>(SlotError::MissingSource),
            old(self).edge_live(key@) && old(self).node_live(source@) && !old(self).node_live(target@)
                ==> r == Err::<Option<E>, SlotError>(SlotError::MissingTarget),
            old(self).edge_live(key@) && old(self).node_live(source@) && old(self).node_live(target@) ==> r matches Ok(Some(_)),
            !(r matches Ok(Some(_))) ==> *final(self) == *old(self),
            r matches Ok(Some(v)) ==> {
                &&& v == old(self).edge_value(key@)
                &&& final(self).edge_live(key@) && final(self).edge_value(key@) == value
                &&& final(self).edge_source(key@) == source@ && final(self).edge_target(key@) == target@
                &&& final(self).edge_total() == old(self).edge_total()
                &&& forall|q: (nat, nat)| q != key@ ==> #[trigger] edge_kept(*old(self), *final(self), q)
                &&& forall|q: (nat, nat)| #[trigger] node_held(*old(self), *final(self), q)
                &&& forall|q: (nat, nat)| #[trigger] final(self).outgoing_of(q) == if q == source@ {
                    drop_keys(old(self).outgoing_of(q), set![key@]).push(key@)
                } else {
                    drop_keys(old(self).outgoing_of(q), set![key@])
                }
                &&& forall|q: (nat, nat)| #[trigger] final(self).incoming_of(q) == if q == target@ {
                    drop_keys(old(self).incoming_of(q), set![key@]).push(key@)
                } else {
                    drop_keys(old(self).incoming_of(q), set![key@])
                }
                &&& retired_kept(*old(self), *final(self))
            },
    {
        if !self.contains_edge(key) {
            return Ok(None);
        }
        if !self.contains_node(source) {
            return Err(SlotError::MissingSource);
        }
        if !self.contains_node(target) {
            return Err(SlotError::MissingTarget);
        }
        let ghost before = *self;
        let j = key.index();
        let os = self.edges[j].source;
        let ot = self.edges[j].target;
        proof {
            assert(before.node_live(os@));
            assert(before.node_live(ot@));
        }
        let osi = os.index();
        let oti = ot.index();
        let si = source.index();
        let ti = target.index();
        let ghost n0 = self.nodes@;
        let out = without_key(&self.nodes[osi].outgoing, key);
        self.nodes[osi].outgoing = out;
        let ghost n1 = self.nodes@;
        proof {
            assert(n1.len() == n0.len());
            assert(n1[osi as int].incoming@ == n0[osi as int].incoming@);
            assert(n1[osi as int].generation == n0[osi as int].generation && n1[osi as int].value == n0[osi as int].value);
            assert(forall|i: int| 0 <= i < n0.len() && i != osi ==> n1[i] == n0[i]);
        }
        let inc = without_key(&self.nodes[oti].incoming, key);
        self.nodes[oti].incoming = inc;
        let ghost n2 = self.nodes@;
        proof {
            assert(n2.len() == n1.len());
            assert(n2[oti as int].outgoing@ == n1[oti as int].outgoing@);
            assert(n2[oti as int].generation == n1[oti as int].generation && n2[oti as int].value == n1[oti as int].value);
            assert(forall|i: int| 0 <= i < n1.len() && i != oti ==> n2[i] == n1[i]);
        }
        self.nodes[si].outgoing.push(key);
        let ghost n3 = self.nodes@;
        proof {
            assert(n3.len() == n2.len());
            assert(n3[si as int].outgoing@ == n2[si as int].outgoing@.push(key));
            assert(n3[si as int].incoming@ == n2[si as int].incoming@);
            assert(n3[si as int].generation == n2[si as int].generation && n3[si as int].value == n2[si as int].value);
            assert(forall|i: int| 0 <= i < n2.len() && i != si ==> n3[i] == n2[i]);
        }
        self.nodes[ti].incoming.push(key);
        let ghost n4 = self.nodes@;
        proof {
            assert(n4.len() == n3.len());
            assert(n4[ti as int].incoming@ == n3[ti as int].incoming@.push(key));
            assert(n4[ti as int].outgoing@ == n3[ti as int].outgoing@);
            assert(n4[ti as int].generation == n3[ti as int].generation && n4[ti as int].value == n3[ti as int].value);
            assert(forall|i: int| 0 <= i < n3.len() && i != ti ==> n4[i] == n3[i]);
            assert forall|i: int| 0 <= i < n4.len() implies (#[trigger] n4[i]).generation == before.nodes@[i].generation
                && n4[i].value == before.nodes@[i].value
                && key_views(n4[i].outgoing@) == (if i == source@.0 {
                    (if i == os@.0 {
                        drop_keys(key_views(before.nodes@[i].outgoing@), set![key@])
                    } else {
                        key_views(before.nodes@[i].outgoing@)
                    }).push(key@)
                } else if i == os@.0 {
                    drop_keys(key_views(before.nodes@[i].outgoing@), set![key@])
                } else {
                    key_views(before.nodes@[i].outgoing@)
                })
                && key_views(n4[i].incoming@) == (if i == target@.0 {
                    (if i == ot@.0 {
                        drop_keys(key_views(before.nodes@[i].incoming@), set![key@])
                    } else {
                        key_views(before.nodes@[i].incoming@)
                    }).push(key@)
                } else if i == ot@.0 {
                    drop_keys(key_views(before.nodes@[i].incoming@), set![key@])
                } else {
                    key_views(before.nodes@[i].incoming@)
                }) by {
                assert(key_views(n2[i].outgoing@.push(key)) =~= key_views(n2[i].outgoing@).push(key@));
                assert(key_views(n3[i].incoming@.push(key)) =~= key_views(n3[i].incoming@).push(key@));
            }
        }
        let old_value = self.edges[j].value.take();
        self.edges[j].value = Some(value);
        self.edges[j].source = source;
        self.edges[j].target = target;
        proof {
            assert(self.edges@.len() == before.edges@.len());
            assert(forall|e: int| 0 <= e < before.edges@.len() && e != j ==> self.edges@[e] == before.edges@[e]);
            assert(edge_lives(self.edges@) =~= edge_lives(before.edges@));
            self.lemma_replace_edge_frame(before, os@, ot@, source@, target@, key@);
        }
        Ok(old_value)
    }

    /// After the edge `k` moved from `os`–`ot` to `src`–`tgt`, everything
    /// else is as it was and the bookkeeping still holds.
    proof fn lemma_replace_edge_frame(&self, before: Self, os: (nat, nat), ot: (nat, nat), src: (nat, nat), tgt: (nat, nat), k: (nat, nat))
        requires
            before.wf(),
            before.edge_live(k),
            before.edge_source(k) == os,
            before.edge_target(k) == ot,
            before.node_live(src),
            before.node_live(tgt),
            self.edges@.len() == before.edges@.len(),
            forall|j: int| 0 <= j < before.edges@.len() && j != k.0 ==> self.edges@[j] == before.edges@[j],
            self.edges@[k.0 as int].value is Some,
            self.edges@[k.0 as int].generation == k.1,
            self.edges@[k.0 as int].source@ == src,
            self.edges@[k.0 as int].target@ == tgt,
            self.free_edges@ == before.free_edges@,
            self.nodes@.len() == before.nodes@.len(),
            forall|i: int| 0 <= i < self.nodes@.len() ==> (#[trigger] self.nodes@[i]).generation == before.nodes@[i].generation
                && self.nodes@[i].value == before.nodes@[i].value
                && key_views(self.nodes@[i].outgoing@) == (if i == src.0 {
                    (if i == os.0 {
                        drop_keys(key_views(before.nodes@[i].outgoing@), set![k])
                    } else {
                        key_views(before.nodes@[i].outgoing@)
                    }).push(k)
                } else if i == os.0 {
                    drop_keys(key_views(before.nodes@[i].outgoing@), set![k])
                } else {
                    key_views(before.nodes@[i].outgoing@)
                })
                && key_views(self.nodes@[i].incoming@) == (if i == tgt.0 {
                    (if i == ot.0 {
                        drop_keys(key_views(before.nodes@[i].incoming@), set![k])
                    } else {
                        key_views(before.nodes@[i].incoming@)
                    }).push(k)
                } else if i == ot.0 {
                    drop_keys(key_views(before.nodes@[i].incoming@), set![k])
                } else {
                    key_views(before.nodes@[i].incoming@)
                }),
            self.free_nodes@ == before.free_nodes@,
            self.node_count == before.node_count,
            self.edge_count == self.edge_total(),
        ensures
            self.wf(),
            forall|q: (nat, nat)| q != k ==> #[trigger] edge_kept(before, *self, q),
            forall|q: (nat, nat)| #[trigger] node_held(before, *self, q),
            forall|q: (nat, nat)| #[trigger] self.outgoing_of(q) == if q == src {
                drop_keys(before.outgoing_of(q), set![k]).push(k)
            } else {
                drop_keys(before.outgoing_of(q), set![k])
            },
            forall|q: (nat, nat)| #[trigger] self.incoming_of(q) == if q == tgt {
                drop_keys(before.incoming_of(q), set![k]).push(k)
            } else {
                drop_keys(before.incoming_of(q), set![k])
            },
            retired_kept(before, *self),
    {
        assert(node_lives(self.nodes@) =~= node_lives(before.nodes@));
        assert forall|q: (nat, nat)| #[trigger] self.node_live(q) == before.node_live(q) by {
            if q.0 < self.nodes@.len() {
                assert(self.nodes@[q.0 as int].generation == before.nodes@[q.0 as int].generation);
            }
        }
        assert forall|q: (nat, nat)| #[trigger] self.edge_live(q) == before.edge_live(q) by {
            if q.0 < self.edges@.len() && q.0 != k.0 {
                assert(self.edges@[q.0 as int] == before.edges@[q.0 as int]);
            }
        }
        // Lists of nodes other than the old endpoints never held `k`.
        assert forall|i: int| 0 <= i < before.nodes@.len() && i != os.0 implies
            drop_keys(key_views(before.nodes@[i].outgoing@), set![k]) == key_views(before.nodes@[i].outgoing@) by {
            let bo = key_views(before.nodes@[i].outgoing@);
            lemma_drop_keys(bo, set![k]);
            assert forall|t: int| 0 <= t < bo.len() implies !set![k].contains(#[trigger] bo[t]) by {
                assert(bo[t] == before.nodes@[i].outgoing@[t]@);
                assert(before.edge_source(bo[t]) == (i as nat, before.nodes@[i].generation as nat));
            }
        }
        assert forall|i: int| 0 <= i < before.nodes@.len() && i != ot.0 implies
            drop_keys(key_views(before.nodes@[i].incoming@), set![k]) == key_views(before.nodes@[i].incoming@) by {
            let bi = key_views(before.nodes@[i].incoming@);
            lemma_drop_keys(bi, set![k]);
            assert forall|t: int| 0 <= t < bi.len() implies !set![k].contains(#[trigger] bi[t]) by {
                assert(bi[t] == before.nodes@[i].incoming@[t]@);
                assert(before.edge_target(bi[t]) == (i as nat, before.nodes@[i].generation as nat));
            }
        }
        assert forall|i: int| 0 <= i < self.nodes@.len() implies
            #[trigger] key_views(self.nodes@[i].outgoing@) == (if i == src.0 {
                drop_keys(key_views(before.nodes@[i].outgoing@), set![k]).push(k)
            } else {
                drop_keys(key_views(before.nodes@[i].outgoing@), set![k])
            }) && key_views(self.nodes@[i].incoming@) == (if i == tgt.0 {
                drop_keys(key_views(before.nodes@[i].incoming@), set![k]).push(k)
            } else {
                drop_keys(key_views(before.nodes@[i].incoming@), set![k])
            }) by {
            assert(self.nodes@[i].generation == before.nodes@[i].generation);
        }
        assert forall|q: (nat, nat)| #[trigger] self.outgoing_of(q) == if q == src {
            drop_keys(before.outgoing_of(q), set![k]).push(k)
        } else {
            drop_keys(before.outgoing_of(q), set![k])
        } by {
            if q.0 < self.nodes@.len() {
                assert(self.nodes@[q.0 as int].generation == before.nodes@[q.0 as int].generation);
                assert(key_views(self.nodes@[q.0 as int].outgoing@) == (if q.0 == src.0 {
                    drop_keys(key_views(before.nodes@[q.0 as int].outgoing@), set![k]).push(k)
                } else {
                    drop_keys(key_views(before.nodes@[q.0 as int].outgoing@), set![k])
                }));
            }
        }
        assert forall|q: (nat, nat)| #[trigger] self.incoming_of(q) == if q == tgt {
            drop_keys(before.incoming_of(q), set![k]).push(k)
        } else {
            drop_keys(before.incoming_of(q), set![k])
        } by {
            if q.0 < self.nodes@.len() {
                assert(self.nodes@[q.0 as int].generation == before.nodes@[q.0 as int].generation);
                assert(key_views(self.nodes@[q.0 as int].incoming@) == (if q.0 == tgt.0 {
                    drop_keys(key_views(before.nodes@[q.0 as int].incoming@), set![k]).push(k)
                } else {
                    drop_keys(key_views(before.nodes@[q.0 as int].incoming@), set![k])
                }));
            }
        }
        assert forall|i: int| 0 <= i < self.nodes@.len() && (#[trigger] self.nodes@[i]).value is None
            implies self.nodes@[i].outgoing@.len() == 0 && self.nodes@[i].incoming@.len() == 0 by {
            assert(key_views(self.nodes@[i].outgoing@).len() == self.nodes@[i].outgoing@.len());
            assert(key_views(self.nodes@[i].incoming@).len() == self.nodes@[i].incoming@.len());
            assert(key_views(before.nodes@[i].outgoing@).len() == before.nodes@[i].outgoing@.len());
            assert(key_views(before.nodes@[i].incoming@).len() == before.nodes@[i].incoming@.len());
            lemma_drop_keys(key_views(before.nodes@[i].outgoing@), set![k]);
            lemma_drop_keys(key_views(before.nodes@[i].incoming@), set![k]);
        }
        assert forall|i: int| 0 <= i < self.nodes@.len() && (#[trigger] self.nodes@[i]).value is Some
            implies key_views(self.nodes@[i].outgoing@).no_duplicates() && key_views(self.nodes@[i].incoming@).no_duplicates() by {
            let d_o = drop_keys(key_views(before.nodes@[i].outgoing@), set![k]);
            let d_i = drop_keys(key_views(before.nodes@[i].incoming@), set![k]);
            lemma_drop_keys(key_views(before.nodes@[i].outgoing@), set![k]);
            lemma_drop_keys(key_views(before.nodes@[i].incoming@), set![k]);
            if i == src.0 {
                let r = d_o.push(k);
                assert(!d_o.contains(k));
                assert forall|a: int, b: int| 0 <= a < b < r.len() implies r[a] != r[b] by {
                    if b == r.len() - 1 {
                        assert(d_o.contains(r[a]));
                    } else {
                        assert(r[a] == d_o[a] && r[b] == d_o[b]);
                    }
                }
            }
            if i == tgt.0 {
                let r = d_i.push(k);
                assert(!d_i.contains(k));
                assert forall|a: int, b: int| 0 <= a < b < r.len() implies r[a] != r[b] by {
                    if b == r.len() - 1 {
                        assert(d_i.contains(r[a]));
                    } else {
                        assert(r[a] == d_i[a] && r[b] == d_i[b]);
                    }
                }
            }
        }
        assert forall|i: int, t: int| 0 <= i < self.nodes@.len() && 0 <= t < self.nodes@[i].outgoing@.len()
            implies self.edge_live(#[trigger] self.nodes@[i].outgoing@[t]@)
            && self.edge_source(self.nodes@[i].outgoing@[t]@) == (i as nat, self.nodes@[i].generation as nat) by {
            let e = self.nodes@[i].outgoing@[t]@;
            let bo = key_views(before.nodes@[i].outgoing@);
            let d = drop_keys(bo, set![k]);
            lemma_drop_keys(bo, set![k]);
            assert(key_views(self.nodes@[i].outgoing@)[t] == e);
            assert(key_views(self.nodes@[i].outgoing@).len() == self.nodes@[i].outgoing@.len());
            if i == src.0 && t == d.len() {
                assert(e == k);
            } else {
                assert(d[t] == e);
                assert(d.contains(e));
                assert(bo.contains(e) && e != k);
                let u = choose|u: int| 0 <= u < bo.len() && bo[u] == e;
                assert(e == before.nodes@[i].outgoing@[u]@);
                assert(before.edge_live(e));
                if e.0 == k.0 {
                    assert(e.1 == k.1);
                }
                assert(self.edges@[e.0 as int] == before.edges@[e.0 as int]);
            }
        }
        assert forall|i: int, t: int| 0 <= i < self.nodes@.len() && 0 <= t < self.nodes@[i].incoming@.len()
            implies self.edge_live(#[trigger] self.nodes@[i].incoming@[t]@)
            && self.edge_target(self.nodes@[i].incoming@[t]@) == (i as nat, self.nodes@[i].generation as nat) by {
            let e = self.nodes@[i].incoming@[t]@;
            let bi = key_views(before.nodes@[i].incoming@);
            let d = drop_keys(bi, set![k]);
            lemma_drop_keys(bi, set![k]);
            assert(key_views(self.nodes@[i].incoming@)[t] == e);
            assert(key_views(self.nodes@[i].incoming@).len() == self.nodes@[i].incoming@.len());
            if i == tgt.0 && t == d.len() {
                assert(e == k);
            } else {
                assert(d[t] == e);
                assert(d.contains(e));
                assert(bi.contains(e) && e != k);
                let u = choose|u: int| 0 <= u < bi.len() && bi[u] == e;
                assert(e == before.nodes@[i].incoming@[u]@);
                assert(before.edge_live(e));
                if e.0 == k.0 {
                    assert(e.1 == k.1);
                }
                assert(self.edges@[e.0 as int] == before.edges@[e.0 as int]);
            }
        }
        assert forall|j: int| 0 <= j < self.edges@.len() && (#[trigger] self.edges@[j]).value is Some implies {
            let e = (j as nat, self.edges@[j].generation as nat);
            &&& self.node_live(self.edges@[j].source@)
            &&& self.node_live(self.edges@[j].target@)
            &&& self.outgoing_of(self.edges@[j].source@).contains(e)
            &&& self.incoming_of(self.edges@[j].target@).contains(e)
        } by {
            let e = (j as nat, self.edges@[j].generation as nat);
            if j == k.0 {
                let d_o = drop_keys(before.outgoing_of(src), set![k]);
                let d_i = drop_keys(before.incoming_of(tgt), set![k]);
                assert(self.outgoing_of(src) == d_o.push(k));
                assert(self.outgoing_of(src)[d_o.len() as int] == k);
                assert(self.incoming_of(tgt) == d_i.push(k));
                assert(self.incoming_of(tgt)[d_i.len() as int] == k);
            } else {
                assert(self.edges@[j] == before.edges@[j]);
                let es = self.edges@[j].source@;
                let et = self.edges@[j].target@;
                lemma_drop_keys(before.outgoing_of(es), set![k]);
                lemma_drop_keys(before.incoming_of(et), set![k]);
                assert(e != k);
                let d_o = drop_keys(before.outgoing_of(es), set![k]);
                let d_i = drop_keys(before.incoming_of(et), set![k]);
                assert(d_o.contains(e));
                assert(d_i.contains(e));
                let a = choose|a: int| 0 <= a < d_o.len() && d_o[a] == e;
                let b = choose|b: int| 0 <= b < d_i.len() && d_i[b] == e;
                assert(self.outgoing_of(es)[a] == e);
                assert(self.incoming_of(et)[b] == e);
            }
        }
        assert forall|q: (nat, nat)| #[trigger] before.edge_retired(q) implies self.edge_retired(q) by {
            if q.0 < before.edges@.len() && q.0 != k.0 {
                assert(self.edges@[q.0 as int] == before.edges@[q.0 as int]);
            }
        }
        assert forall|q: (nat, nat)| #[trigger] before.node_retired(q) implies self.node_retired(q) by {
            if q.0 < before.nodes@.len() {
                assert(self.nodes@[q.0 as int].generation == before.nodes@[q.0 as int].generation);
            }
        }
    }

    /// Removes the node that `key` names together with every edge that
    /// leaves or enters it, the edges first in ascending key order, and
    /// retires its key; the slot is freed for reuse unless its generation
    /// can grow no further. `None`, changing nothing, when `key` names no
    /// node.
    pub fn remove_node(&mut self, key: StableNodeKey) -> (r: Option<N>)
        requires
            old(self).wf(),
        ensures
            final(self).wf(),
            r is Some <==> old(self).node_live(key@),
            r is None ==> *final(self) == *old(self),
            r matches Some(v) ==> {
                &&& v == old(self).node_value(key@)
                &&& !final(self).node_live(key@) && final(self).node_retired(key@)
                &&& final(self).node_total() + 1 == old(self).node_total()
                &&& forall|q: (nat, nat)| q != key@ ==> #[trigger] node_held(*old(self), *final(self), q)
                &&& forall|e: (nat, nat)| #[trigger] final(self).edge_live(e) == (old(self).edge_live(e)
                    && !touching(*old(self), key@).contains(e))
                &&& forall|e: (nat, nat)| #[trigger] final(self).edge_live(e) ==> final(self).edge_value(e) == old(self).edge_value(e)
                    && final(self).edge_source(e) == old(self).edge_source(e) && final(self).edge_target(e) == old(self).edge_target(e)
                &&& forall|q: (nat, nat)| q != key@ ==> #[trigger] final(self).outgoing_of(q) == drop_keys(old(self).outgoing_of(q),
                    touching(*old(self), key@))
                &&& forall|q: (nat, nat)| q != key@ ==> #[trigger] final(self).incoming_of(q) == drop_keys(old(self).incoming_of(q),
                    touching(*old(self), key@))
                &&& retired_kept(*old(self), *final(self))
            },
    {
        if !self.contains_node(key) {
            return None;
        }
        let ghost before = *self;
        let incident = self.incident_edges(key);
        let ghost all = key_views(incident@);
        proof {
            assert forall|e: (nat, nat)| #[trigger] all.contains(e) <==> touching(before, key@).contains(e) by {
                if before.outgoing_of(key@).contains(e) {
                    let t = choose|t: int| 0 <= t < before.outgoing_of(key@).len() && before.outgoing_of(key@)[t] == e;
                    assert(e == before.nodes@[key@.0 as int].outgoing@[t]@);
                }
                if before.incoming_of(key@).contains(e) {
                    let t = choose|t: int| 0 <= t < before.incoming_of(key@).len() && before.incoming_of(key@)[t] == e;
                    assert(e == before.nodes@[key@.0 as int].incoming@[t]@);
                }
                if touching(before, key@).contains(e) {
                    assert(before.edges@[e.0 as int].value is Some);
                }
            }
            assert(all.take(0).to_set() =~= Set::<(nat, nat)>::empty());
            assert forall|q: (nat, nat)| #[trigger] before.outgoing_of(q) == drop_keys(before.outgoing_of(q), Set::<(nat, nat)>::empty()) by {
                lemma_drop_keys(before.outgoing_of(q), Set::<(nat, nat)>::empty());
            }
            assert forall|q: (nat, nat)| #[trigger] before.incoming_of(q) == drop_keys(before.incoming_of(q), Set::<(nat, nat)>::empty()) by {
                lemma_drop_keys(before.incoming_of(q), Set::<(nat, nat)>::empty());
            }
        }
        let mut t: usize = 0;
        while t < incident.len()
            invariant
                self.wf(),
                before.wf(),
                t <= incident@.len(),
                all == key_views(incident@),
                keys_ascending(all),
                forall|e: (nat, nat)| #[trigger] all.contains(e) <==> touching(before, key@).contains(e),
                before.node_live(key@),
                forall|q: (nat, nat)| #[trigger] node_held(before, *self, q),
                forall|e: (nat, nat)| #[trigger] self.edge_live(e) == (before.edge_live(e) && !all.take(t as int).to_set().contains(e)),
                forall|e: (nat, nat)| #[trigger] self.edge_live(e) ==> self.edge_value(e) == before.edge_value(e)
                    && self.edge_source(e) == before.edge_source(e) && self.edge_target(e) == before.edge_target(e),
                forall|q: (nat, nat)| #[trigger] self.outgoing_of(q) == drop_keys(before.outgoing_of(q), all.take(t as int).to_set()),
                forall|q: (nat, nat)| #[trigger] self.incoming_of(q) == drop_keys(before.incoming_of(q), all.take(t as int).to_set()),
                retired_kept(before, *self),
                self.edge_total() + t == before.edge_total(),
                self.node_total() == before.node_total(),
            decreases incident@.len() - t,
        {
            let e = incident[t];
            let ghost mid = *self;
            let ghost done = all.take(t as int).to_set();
            proof {
                assert(all[t as int] == e@);
                assert(all.contains(e@));
                assert(!done.contains(e@)) by {
                    let dx = all.take(t as int);
                    if done.contains(e@) {
                        assert(dx.contains(e@));
                        let u = choose|u: int| 0 <= u < dx.len() && dx[u] == e@;
                        assert(all[u] == dx[u]);
                        assert(key_before(all[u], all[t as int]));
                    }
                }
                assert(before.edge_live(e@));
            }
            let _removed = self.remove_edge(e);
            proof {
                let next = all.take(t as int + 1).to_set();
                assert(next =~= done.union(set![e@])) by {
                    let nx = all.take(t as int + 1);
                    let dx = all.take(t as int);
                    assert forall|x: (nat, nat)| next.contains(x) <==> done.contains(x) || x == e@ by {
                        if next.contains(x) {
                            assert(nx.contains(x));
                            let u = choose|u: int| 0 <= u < nx.len() && nx[u] == x;
                            if u < t {
                                assert(dx[u] == x);
                                assert(dx.contains(x));
                            }
                        }
                        if done.contains(x) {
                            assert(dx.contains(x));
                            let u = choose|u: int| 0 <= u < dx.len() && dx[u] == x;
                            assert(nx[u] == x);
                            assert(nx.contains(x));
                        }
                        if x == e@ {
                            assert(nx[t as int] == x);
                            assert(nx.contains(x));
                        }
                    }
                }
                assert forall|q: (nat, nat)| #[trigger] self.outgoing_of(q) == drop_keys(before.outgoing_of(q), next) by {
                    lemma_drop_keys_twice(before.outgoing_of(q), done, set![e@]);
                    assert(self.outgoing_of(q) == drop_keys(mid.outgoing_of(q), set![e@]));
                }
                assert forall|q: (nat, nat)| #[trigger] self.incoming_of(q) == drop_keys(before.incoming_of(q), next) by {
                    lemma_drop_keys_twice(before.incoming_of(q), done, set![e@]);
                    assert(self.incoming_of(q) == drop_keys(mid.incoming_of(q), set![e@]));
                }
                assert forall|x: (nat, nat)| #[trigger] self.edge_live(x) == (before.edge_live(x) && !next.contains(x)) by {
                    if x != e@ {
                        assert(edge_kept(mid, *self, x));
                    }
                }
                assert forall|x: (nat, nat)| #[trigger] self.edge_live(x) implies self.edge_value(x) == before.edge_value(x)
                    && self.edge_source(x) == before.edge_source(x) && self.edge_target(x) == before.edge_target(x) by {
                    assert(edge_kept(mid, *self, x));
                }
                assert forall|q: (nat, nat)| #[trigger] node_held(before, *self, q) by {
                    assert(node_held(mid, *self, q));
                    assert(node_held(before, mid, q));
                }
                assert forall|x: (nat, nat)| #[trigger] before.node_retired(x) implies self.node_retired(x) by {
                    assert(mid.node_retired(x));
                }
                assert forall|x: (nat, nat)| #[trigger] before.edge_retired(x) implies self.edge_retired(x) by {
                    assert(mid.edge_retired(x));
                }
            }
            t = t + 1;
        }
        let ghost mid = *self;
        proof {
            assert(all.take(all.len() as int) =~= all);
            let gone = all.to_set();
            assert(gone =~= touching(before, key@));
            lemma_drop_keys(before.outgoing_of(key@), gone);
            lemma_drop_keys(before.incoming_of(key@), gone);
            let o = self.outgoing_of(key@);
            let n = self.incoming_of(key@);
            if o.len() > 0 {
                assert(o.contains(o[0]));
            }
            if n.len() > 0 {
                assert(n.contains(n[0]));
            }
            assert(node_held(before, *self, key@));
        }
        let i = key.index();
        let taken = self.nodes[i].value.take();
        let g = self.nodes[i].generation;
        proof {
            if mid.free_nodes@.contains(i as u32) {
                let u = choose|u: int| 0 <= u < mid.free_nodes@.len() && mid.free_nodes@[u] == i as u32;
            }
        }
        if g < 0xffff_ffff {
            self.nodes[i].generation = g + 1;
            self.free_nodes.push(key.slot());
        }
        proof {
            lemma_true_count_update(node_lives(mid.nodes@), i as int, false);
            assert(node_lives(self.nodes@) =~= node_lives(mid.nodes@).update(i as int, false));
        }
        self.node_count = self.node_count - 1;
        proof {
            self.lemma_retire_node_frame(mid, key@);
            assert forall|q: (nat, nat)| q != key@ implies #[trigger] node_held(before, *self, q) by {
                assert(node_kept(mid, *self, q));
                assert(node_held(before, mid, q));
            }
            assert forall|x: (nat, nat)| #[trigger] before.node_retired(x) implies self.node_retired(x) by {
                assert(mid.node_retired(x));
            }
            assert forall|x: (nat, nat)| #[trigger] before.edge_retired(x) implies self.edge_retired(x) by {
                assert(mid.edge_retired(x));
            }
            assert forall|e: (nat, nat)| #[trigger] self.edge_live(e) == (before.edge_live(e) && !touching(before, key@).contains(e)) by {
                assert(edge_kept(mid, *self, e));
            }
            assert forall|e: (nat, nat)| #[trigger] self.edge_live(e) implies self.edge_value(e) == before.edge_value(e)
                && self.edge_source(e) == before.edge_source(e) && self.edge_target(e) == before.edge_target(e) by {
                assert(edge_kept(mid, *self, e));
            }
            assert forall|q: (nat, nat)| q != key@ implies #[trigger] self.outgoing_of(q) == drop_keys(before.outgoing_of(q),
                touching(before, key@)) by {
                assert(node_kept(mid, *self, q));
            }
            assert forall|q: (nat, nat)| q != key@ implies #[trigger] self.incoming_of(q) == drop_keys(before.incoming_of(q),
                touching(before, key@)) by {
                assert(node_kept(mid, *self, q));
            }
        }
        taken
    }

    /// After the node `k`, with no edges left, was taken out of its slot,
    /// everything else is as it was and the bookkeeping still holds.
    proof fn lemma_retire_node_frame(&self, before: Self, k: (nat, nat))
        requires
            before.wf(),
            before.node_live(k),
            before.outgoing_of(k).len() == 0,
            before.incoming_of(k).len() == 0,
            self.nodes@.len() == before.nodes@.len(),
            forall|i: int| 0 <= i < before.nodes@.len() && i != k.0 ==> self.nodes@[i] == before.nodes@[i],
            self.nodes@[k.0 as int].value is None,
            self.nodes@[k.0 as int].outgoing@ == before.nodes@[k.0 as int].outgoing@,
            self.nodes@[k.0 as int].incoming@ == before.nodes@[k.0 as int].incoming@,
            self.nodes@[k.0 as int].generation == if k.1 < u32::MAX as nat { k.1 + 1 } else { k.1 },
            self.free_nodes@ == if k.1 < u32::MAX as nat { before.free_nodes@.push(k.0 as u32) } else { before.free_nodes@ },
            self.edges@ == before.edges@,
            self.free_edges@ == before.free_edges@,
            self.edge_count == before.edge_count,
            self.node_count == self.node_total(),
        ensures
            self.wf(),
            !self.node_live(k),
            self.node_retired(k),
            forall|q: (nat, nat)| q != k ==> #[trigger] node_kept(before, *self, q),
            forall|q: (nat, nat)| #[trigger] edge_kept(before, *self, q),
            retired_kept(before, *self),
    {
        assert(edge_lives(self.edges@) =~= edge_lives(before.edges@));
        assert(key_views(before.nodes@[k.0 as int].outgoing@).len() == before.nodes@[k.0 as int].outgoing@.len());
        assert(key_views(before.nodes@[k.0 as int].incoming@).len() == before.nodes@[k.0 as int].incoming@.len());
        assert(!before.free_nodes@.contains(k.0 as u32)) by {
            if before.free_nodes@.contains(k.0 as u32) {
                let t = choose|t: int| 0 <= t < before.free_nodes@.len() && before.free_nodes@[t] == k.0 as u32;
            }
        }
        assert forall|q: (nat, nat)| q != k implies #[trigger] self.node_live(q) == before.node_live(q) by {
            if q.0 < self.nodes@.len() && q.0 != k.0 {
                assert(self.nodes@[q.0 as int] == before.nodes@[q.0 as int]);
            }
        }
        assert forall|q: (nat, nat)| q != k implies #[trigger] node_kept(before, *self, q) by {
            if q.0 < self.nodes@.len() && q.0 != k.0 {
                assert(self.nodes@[q.0 as int] == before.nodes@[q.0 as int]);
            }
        }
        // No edge touched `k`: its lists were empty.
        assert forall|j: int| 0 <= j < before.edges@.len() && (#[trigger] before.edges@[j]).value is Some implies
            before.edges@[j].source@ != k && before.edges@[j].target@ != k by {
            let e = (j as nat, before.edges@[j].generation as nat);
            if before.edges@[j].source@ == k {
                assert(before.outgoing_of(k).contains(e));
            }
            if before.edges@[j].target@ == k {
                assert(before.incoming_of(k).contains(e));
            }
        }
        assert forall|t: int| 0 <= t < self.free_nodes@.len() implies (#[trigger] self.free_nodes@[t]) < self.nodes@.len()
            && self.nodes@[self.free_nodes@[t] as int].value is None by {
            if t < before.free_nodes@.len() {
                assert(self.free_nodes@[t] == before.free_nodes@[t]);
            }
        }
        if k.1 < u32::MAX as nat {
            assert(self.free_nodes@.no_duplicates()) by {
                let f = self.free_nodes@;
                assert forall|a: int, b: int| 0 <= a < b < f.len() implies f[a] != f[b] by {
                    if b == f.len() - 1 {
                        assert(before.free_nodes@.contains(f[a]));
                    } else {
                        assert(f[a] == before.free_nodes@[a] && f[b] == before.free_nodes@[b]);
                    }
                }
            }
        }
        assert forall|i: int, t: int| 0 <= i < self.nodes@.len() && 0 <= t < self.nodes@[i].outgoing@.len()
            implies self.edge_live(#[trigger] self.nodes@[i].outgoing@[t]@)
            && self.edge_source(self.nodes@[i].outgoing@[t]@) == (i as nat, self.nodes@[i].generation as nat) by {
            assert(i != k.0);
            assert(self.nodes@[i] == before.nodes@[i]);
        }
        assert forall|i: int, t: int| 0 <= i < self.nodes@.len() && 0 <= t < self.nodes@[i].incoming@.len()
            implies self.edge_live(#[trigger] self.nodes@[i].incoming@[t]@)
            && self.edge_target(self.nodes@[i].incoming@[t]@) == (i as nat, self.nodes@[i].generation as nat) by {
            assert(i != k.0);
            assert(self.nodes@[i] == before.nodes@[i]);
        }
        assert forall|j: int| 0 <= j < self.edges@.len() && (#[trigger] self.edges@[j]).value is Some implies {
            let e = (j as nat, self.edges@[j].generation as nat);
            &&& self.node_live(self.edges@[j].source@)
            &&& self.node_live(self.edges@[j].target@)
            &&& self.outgoing_of(self.edges@[j].source@).contains(e)
            &&& self.incoming_of(self.edges@[j].target@).contains(e)
        } by {
            assert(self.edges@[j] == before.edges@[j]);
            let es = self.edges@[j].source@;
            let et = self.edges@[j].target@;
            assert(es != k && et != k);
            assert(node_kept(before, *self, es));
            assert(node_kept(before, *self, et));
        }
        assert forall|q: (nat, nat)| #[trigger] before.node_retired(q) implies self.node_retired(q) by {
            if q.0 == k.0 {
                assert(before.nodes@[k.0 as int].generation == k.1);
            } else {
                assert(self.nodes@[q.0 as int] == before.nodes@[q.0 as int]);
                if self.free_nodes@.contains(q.0 as u32) {
                    let t = choose|t: int| 0 <= t < self.free_nodes@.len() && self.free_nodes@[t] == q.0 as u32;
                    assert(t < before.free_nodes@.len());
                    assert(before.free_nodes@[t] == q.0 as u32);
                }
            }
        }
        if k.1 >= u32::MAX as nat {
            assert(!self.free_nodes@.contains(k.0 as u32));
        }
    }

    /// Puts `value` in place of the edge that `key` names, keeping its
    /// endpoints and its place in their lists, and hands back the old one;
    /// `None`, changing nothing, when `key` names no edge.
    pub fn replace_edge_value(&mut self, key: StableEdgeKey, value: E) -> (r: Option<E>)
        requires
            old(self).wf(),
        ensures
            final(self).wf(),
            r is Some <==> old(self).edge_live(key@),
            r is None ==> *final(self) == *old(self),
            r matches Some(v) ==> {
                &&& v == old(self).edge_value(key@)
                &&& final(self).edge_live(key@) && final(self).edge_value(key@) == value
                &&& final(self).edge_source(key@) == old(self).edge_source(key@)
                &&& final(self).edge_target(key@) == old(self).edge_target(key@)
                &&& final(self).edge_total() == old(self).edge_total()
                &&& forall|q: (nat, nat)| q != key@ ==> #[trigger] edge_kept(*old(self), *final(self), q)
                &&& forall|q: (nat, nat)| #[trigger] node_kept(*old(self), *final(self), q)
                &&& retired_kept(*old(self), *final(self))
            },
    {
        if !self.contains_edge(key) {
            return None;
        }
        let ghost before = *self;
        let j = key.index();
        let old_value = self.edges[j].value.take();
        self.edges[j].value = Some(value);
        proof {
            assert(self.edges@.len() == before.edges@.len());
            assert(forall|e: int| 0 <= e < before.edges@.len() && e != j ==> self.edges@[e] == before.edges@[e]);
            assert(edge_lives(self.edges@) =~= edge_lives(before.edges@));
            assert forall|q: (nat, nat)| #[trigger] self.edge_live(q) == before.edge_live(q) by {}
            assert forall|q: (nat, nat)| #[trigger] before.edge_retired(q) implies self.edge_retired(q) by {}
            assert forall|q: (nat, nat)| #[trigger] node_kept(before, *self, q) by {}
        }
        old_value
    }

    /// Passes the edge that `key` names through `f` and keeps what comes
    /// back in its place, with the same endpoints and list positions;
    /// `false`, changing nothing and not calling `f`, when `key` names no
    /// edge.
    pub fn update_edge_value<F: FnOnce(E) -> E>(&mut self, key: StableEdgeKey, f: F) -> (r: bool)
        requires
            old(self).wf(),
            forall|e: E| #[trigger] f.requires((e,)),
        ensures
            final(self).wf(),
            r == old(self).edge_live(key@),
            !r ==> *final(self) == *old(self),
            r ==> {
                &&& final(self).edge_live(key@)
                &&& f.ensures((old(self).edge_value(key@),), final(self).edge_value(key@))
                &&& final(self).edge_source(key@) == old(self).edge_source(key@)
                &&& final(self).edge_target(key@) == old(self).edge_target(key@)
                &&& final(self).edge_total() == old(self).edge_total()
                &&& forall|q: (nat, nat)| q != key@ ==> #[trigger] edge_kept(*old(self), *final(self), q)
                &&& forall|q: (nat, nat)| #[trigger] node_kept(*old(self), *final(self), q)
                &&& retired_kept(*old(self), *final(self))
            },
    {
        if !self.contains_edge(key) {
            return false;
        }
        let ghost before = *self;
        let j = key.index();
        match self.edges[j].value.take() {
            Some(v) => {
                let w = f(v);
                self.edges[j].value = Some(w);
            },
            None => {},
        }
        proof {
            assert(self.edges@.len() == before.edges@.len());
            assert(forall|e: int| 0 <= e < before.edges@.len() && e != j ==> self.edges@[e] == before.edges@[e]);
            assert(edge_lives(self.edges@) =~= edge_lives(before.edges@));
            assert forall|q: (nat, nat)| #[trigger] self.edge_live(q) == before.edge_live(q) by {}
            assert forall|q: (nat, nat)| #[trigger] before.edge_retired(q) implies self.edge_retired(q) by {}
            assert forall|q: (nat, nat)| #[trigger] node_kept(before, *self, q) by {}
        }
        true
    }

    /// Hands over every node and edge held, each with its key, in
    /// ascending slot order.
    pub fn into_entries(self) -> (r: (Vec<(StableNodeKey, N)>, Vec<(StableEdgeKey, E)>))
        requires
            self.wf(),
        ensures
            forall|a: int, b: int| 0 <= a < b < r.0@.len() ==> (#[trigger] r.0@[a]).0@.0 < (#[trigger] r.0@[b]).0@.0,
            forall|t: int| 0 <= t < r.0@.len() ==> self.node_live((#[trigger] r.0@[t]).0@) && r.0@[t].1 == self.node_value(r.0@[t].0@),
            forall|q: (nat, nat)| #[trigger] self.node_live(q) ==> exists|t: int| 0 <= t < r.0@.len() && r.0@[t].0@ == q,
            forall|a: int, b: int| 0 <= a < b < r.1@.len() ==> (#[trigger] r.1@[a]).0@.0 < (#[trigger] r.1@[b]).0@.0,
            forall|t: int| 0 <= t < r.1@.len() ==> self.edge_live((#[trigger] r.1@[t]).0@) && r.1@[t].1 == self.edge_value(r.1@[t].0@),
            forall|q: (nat, nat)| #[trigger] self.edge_live(q) ==> exists|t: int| 0 <= t < r.1@.len() && r.1@[t].0@ == q,
    {
        let ghost whole = self;
        let WorkingStore { nodes, edges, .. } = self;
        let node_entries = node_entries::<N, E>(nodes, Ghost(whole));
        let edge_entries = edge_entries::<N, E>(edges, Ghost(whole));
        let r = (node_entries, edge_entries);
        proof {
            assert forall|q: (nat, nat)| #[trigger] whole.node_live(q) implies exists|t: int| 0 <= t < r.0@.len() && r.0@[t].0@ == q by {
                let t = choose|t: int| 0 <= t < node_entries@.len() && node_entries@[t].0@ == q;
                assert(r.0@[t].0@ == q);
            }
            assert forall|q: (nat, nat)| #[trigger] whole.edge_live(q) implies exists|t: int| 0 <= t < r.1@.len() && r.1@[t].0@ == q by {
                let t = choose|t: int| 0 <= t < edge_entries@.len() && edge_entries@[t].0@ == q;
                assert(r.1@[t].0@ == q);
            }
        }
        r
    }

    /// What the lists of a well-formed store hold: each edge appears in its
    /// source's outgoing and its target's incoming list, both endpoints are
    /// held, and every listed edge is held and leaves (or enters) the node
    /// whose list holds it.
    pub proof fn lemma_lists(&self)
        requires
            self.wf(),
        ensures
            forall|e: (nat, nat)| #[trigger] self.edge_live(e) ==> self.node_live(self.edge_source(e)) && self.node_live(self.edge_target(e))
                && self.outgoing_of(self.edge_source(e)).contains(e) && self.incoming_of(self.edge_target(e)).contains(e),
            forall|k: (nat, nat), e: (nat, nat)| #[trigger] self.outgoing_of(k).contains(e) ==> self.edge_live(e) && self.edge_source(e) == k,
            forall|k: (nat, nat), e: (nat, nat)| #[trigger] self.incoming_of(k).contains(e) ==> self.edge_live(e) && self.edge_target(e) == k,
    {
        assert forall|e: (nat, nat)| #[trigger] self.edge_live(e) implies self.node_live(self.edge_source(e)) && self.node_live(self.edge_target(e))
            && self.outgoing_of(self.edge_source(e)).contains(e) && self.incoming_of(self.edge_target(e)).contains(e) by {
            assert(self.edges@[e.0 as int].value is Some);
        }
        assert forall|k: (nat, nat), e: (nat, nat)| #[trigger] self.outgoing_of(k).contains(e) implies self.edge_live(e) && self.edge_source(e) == k by {
            let t = choose|t: int| 0 <= t < self.outgoing_of(k).len() && self.outgoing_of(k)[t] == e;
            assert(self.outgoing_of(k)[t] == self.nodes@[k.0 as int].outgoing@[t]@);
        }
        assert forall|k: (nat, nat), e: (nat, nat)| #[trigger] self.incoming_of(k).contains(e) implies self.edge_live(e) && self.edge_target(e) == k by {
            let t = choose|t: int| 0 <= t < self.incoming_of(k).len() && self.incoming_of(k)[t] == e;
            assert(self.incoming_of(k)[t] == self.nodes@[k.0 as int].incoming@[t]@);
        }
    }

    /// A store without slots holds nothing.
    pub proof fn lemma_empty_slots(&self, k: (nat, nat))
        requires
            self.node_slots() == 0,
            self.edge_slots() == 0,
        ensures
            !self.node_live(k),
            !self.edge_live(k),
    {
    }

    /// A key names at most the elements the store holds: a node key that
    /// names a node is not retired.
    pub proof fn lemma_retired_not_live(&self, k: (nat, nat))
        ensures
            self.node_retired(k) ==> !self.node_live(k),
            self.edge_retired(k) ==> !self.edge_live(k),
    {
    }

    /// The number of nodes held.
    pub fn node_count(&self) -> (r: usize)
        requires
            self.wf(),
        ensures
            r == self.node_total(),
    {
        self.node_count
    }

    /// The number of edges held.
    pub fn edge_count(&self) -> (r: usize)
        requires
            self.wf(),
        ensures
            r == self.edge_total(),
    {
        self.edge_count
    }

    /// The number of node slots, held or free.
    pub fn node_slot_count(&self) -> (r: usize)
        ensures
            r == self.node_slots(),
    {
        self.nodes.len()
    }

    /// The number of edge slots, held or free.
    pub fn edge_slot_count(&self) -> (r: usize)
        ensures
            r == self.edge_slots(),
    {
        self.edges.len()
    }

    /// The node that `key` names, if it names one.
    pub fn node(&self, key: StableNodeKey) -> (r: Option<&N>)
        ensures
            r is Some <==> self.node_live(key@),
            r matches Some(v) ==> *v == self.node_value(key@),
    {
        let i = key.index();
        if i < self.nodes.len() && self.nodes[i].generation == key.generation() {
            match &self.nodes[i].value {
                Some(v) => Some(v),
                None => None,
            }
        } else {
            None
        }
    }

    /// The edge that `key` names, if it names one.
    pub fn edge(&self, key: StableEdgeKey) -> (r: Option<&E>)
        ensures
            r is Some <==> self.edge_live(key@),
            r matches Some(v) ==> *v == self.edge_value(key@),
    {
        let i = key.index();
        if i < self.edges.len() && self.edges[i].generation == key.generation() {
            match &self.edges[i].value {
                Some(v) => Some(v),
                None => None,
            }
        } else {
            None
        }
    }

    /// Whether `key` names a node.
    pub fn contains_node(&self, key: StableNodeKey) -> (r: bool)
        ensures
            r == self.node_live(key@),
    {
        let i = key.index();
        i < self.nodes.len() && self.nodes[i].generation == key.generation() && self.nodes[i].value.is_some()
    }

    /// Whether `key` names an edge.
    pub fn contains_edge(&self, key: StableEdgeKey) -> (r: bool)
        ensures
            r == self.edge_live(key@),
    {
        let i = key.index();
        i < self.edges.len() && self.edges[i].generation == key.generation() && self.edges[i].value.is_some()
    }

    /// The source and target node keys of the edge that `key` names.
    pub fn edge_endpoints(&self, key: StableEdgeKey) -> (r: Option<(StableNodeKey, StableNodeKey)>)
        ensures
            r is Some <==> self.edge_live(key@),
            r matches Some(p) ==> p.0@ == self.edge_source(key@) && p.1@ == self.edge_target(key@),
    {
        if self.contains_edge(key) {
            let i = key.index();
            Some((self.edges[i].source, self.edges[i].target))
        } else {
            None
        }
    }
}

/// The nodes held in `nodes`, the slots of `whole`, each with its key, in
/// ascending slot order.
fn node_entries<N, E>(nodes: Vec<NodeSlot<N>>, Ghost(whole): Ghost<WorkingStore<N, E>>) -> (r: Vec<(StableNodeKey, N)>)
    requires
        nodes@ == whole.nodes@,
        whole.wf(),
    ensures
        forall|a: int, b: int| 0 <= a < b < r@.len() ==> (#[trigger] r@[a]).0@.0 < (#[trigger] r@[b]).0@.0,
        forall|t: int| 0 <= t < r@.len() ==> whole.node_live((#[trigger] r@[t]).0@) && r@[t].1 == whole.node_value(r@[t].0@),
        forall|q: (nat, nat)| #[trigger] whole.node_live(q) ==> exists|t: int| 0 <= t < r@.len() && r@[t].0@ == q,
{
    let mut nodes = nodes;
    let mut rev: Vec<(StableNodeKey, N)> = Vec::new();
    while nodes.len() > 0
        invariant
            nodes@ == whole.nodes@.take(nodes@.len() as int),
            nodes@.len() <= whole.nodes@.len(),
            whole.nodes@.len() <= u32::MAX as nat + 1,
            forall|a: int, b: int| 0 <= a < b < rev@.len() ==> (#[trigger] rev@[a]).0@.0 > (#[trigger] rev@[b]).0@.0,
            forall|t: int| 0 <= t < rev@.len() ==> whole.node_live((#[trigger] rev@[t]).0@) && rev@[t].1 == whole.node_value(rev@[t].0@)
                && rev@[t].0@.0 >= nodes@.len(),
            forall|q: (nat, nat)| #[trigger] whole.node_live(q) && q.0 >= nodes@.len() ==> exists|t: int| 0 <= t < rev@.len()
                && rev@[t].0@ == q,
        decreases nodes@.len(),
    {
        let ghost before = nodes@;
        let slot = nodes.pop().unwrap();
        let i = nodes.len();
        proof {
            assert(slot == whole.nodes@[i as int]);
            assert(nodes@ =~= whole.nodes@.take(i as int));
        }
        let NodeSlot { generation, value, .. } = slot;
        match value {
            Some(v) => {
                let key = StableNodeKey::new(i as u32, generation);
                let ghost r0 = rev@;
                rev.push((key, v));
                proof {
                    assert(rev@[r0.len() as int].0@ == key@);
                    assert forall|q: (nat, nat)| #[trigger] whole.node_live(q) && q.0 >= i implies exists|t: int| 0 <= t < rev@.len()
                        && rev@[t].0@ == q by {
                        if q.0 > i {
                            let t = choose|t: int| 0 <= t < r0.len() && r0[t].0@ == q;
                            assert(rev@[t] == r0[t]);
                        }
                    }
                }
            },
            None => {},
        }
    }
    let mut r: Vec<(StableNodeKey, N)> = Vec::new();
    let ghost all = rev@;
    while rev.len() > 0
        invariant
            rev@ == all.take(rev@.len() as int),
            rev@.len() + r@.len() == all.len(),
            forall|t: int| 0 <= t < r@.len() ==> #[trigger] r@[t] == all[all.len() - 1 - t],
            forall|a: int, b: int| 0 <= a < b < all.len() ==> (#[trigger] all[a]).0@.0 > (#[trigger] all[b]).0@.0,
        decreases rev@.len(),
    {
        let e = rev.pop().unwrap();
        proof {
            assert(e == all[rev@.len() as int]);
            assert(rev@ =~= all.take(rev@.len() as int));
        }
        r.push(e);
    }
    proof {
        assert forall|q: (nat, nat)| #[trigger] whole.node_live(q) implies exists|t: int| 0 <= t < r@.len() && r@[t].0@ == q by {
            let t = choose|t: int| 0 <= t < all.len() && all[t].0@ == q;
            assert(r@[all.len() - 1 - t] == all[t]);
        }
        assert forall|t: int| 0 <= t < r@.len() implies whole.node_live((#[trigger] r@[t]).0@) && r@[t].1 == whole.node_value(r@[t].0@) by {
            assert(r@[t] == all[all.len() - 1 - t]);
        }
        assert forall|a: int, b: int| 0 <= a < b < r@.len() implies (#[trigger] r@[a]).0@.0 < (#[trigger] r@[b]).0@.0 by {
            assert(r@[a] == all[all.len() - 1 - a]);
            assert(r@[b] == all[all.len() - 1 - b]);
        }
    }
    r
}

/// The edges held in `edges`, the slots of `whole`, each with its key, in
/// ascending slot order.
fn edge_entries<N, E>(edges: Vec<EdgeSlot<E>>, Ghost(whole): Ghost<WorkingStore<N, E>>) -> (r: Vec<(StableEdgeKey, E)>)
    requires
        edges@ == whole.edges@,
        whole.wf(),
    ensures
        forall|a: int, b: int| 0 <= a < b < r@.len() ==> (#[trigger] r@[a]).0@.0 < (#[trigger] r@[b]).0@.0,
        forall|t: int| 0 <= t < r@.len() ==> whole.edge_live((#[trigger] r@[t]).0@) && r@[t].1 == whole.edge_value(r@[t].0@),
        forall|q: (nat, nat)| #[trigger] whole.edge_live(q) ==> exists|t: int| 0 <= t < r@.len() && r@[t].0@ == q,
{
    let mut edges = edges;
    let mut rev: Vec<(StableEdgeKey, E)> = Vec::new();
    while edges.len() > 0
        invariant
            edges@ == whole.edges@.take(edges@.len() as int),
            edges@.len() <= whole.edges@.len(),
            whole.edges@.len() <= u32::MAX as nat + 1,
            forall|a: int, b: int| 0 <= a < b < rev@.len() ==> (#[trigger] rev@[a]).0@.0 > (#[trigger] rev@[b]).0@.0,
            forall|t: int| 0 <= t < rev@.len() ==> whole.edge_live((#[trigger] rev@[t]).0@) && rev@[t].1 == whole.edge_value(rev@[t].0@)
                && rev@[t].0@.0 >= edges@.len(),
            forall|q: (nat, nat)| #[trigger] whole.edge_live(q) && q.0 >= edges@.len() ==> exists|t: int| 0 <= t < rev@.len()
                && rev@[t].0@ == q,
        decreases edges@.len(),
    {
        let slot = edges.pop().unwrap();
        let i = edges.len();
        proof {
            assert(slot == whole.edges@[i as int]);
            assert(edges@ =~= whole.edges@.take(i as int));
        }
        let EdgeSlot { generation, value, .. } = slot;
        match value {
            Some(v) => {
                let key = StableEdgeKey::new(i as u32, generation);
                let ghost r0 = rev@;
                rev.push((key, v));
                proof {
                    assert(rev@[r0.len() as int].0@ == key@);
                    assert forall|q: (nat, nat)| #[trigger] whole.edge_live(q) && q.0 >= i implies exists|t: int| 0 <= t < rev@.len()
                        && rev@[t].0@ == q by {
                        if q.0 > i {
                            let t = choose|t: int| 0 <= t < r0.len() && r0[t].0@ == q;
                            assert(rev@[t] == r0[t]);
                        }
                    }
                }
            },
            None => {},
        }
    }
    let mut r: Vec<(StableEdgeKey, E)> = Vec::new();
    let ghost all = rev@;
    while rev.len() > 0
        invariant
            rev@ == all.take(rev@.len() as int),
            rev@.len() + r@.len() == all.len(),
            forall|t: int| 0 <= t < r@.len() ==> #[trigger] r@[t] == all[all.len() - 1 - t],
            forall|a: int, b: int| 0 <= a < b < all.len() ==> (#[trigger] all[a]).0@.0 > (#[trigger] all[b]).0@.0,
        decreases rev@.len(),
    {
        let e = rev.pop().unwrap();
        proof {
            assert(e == all[rev@.len() as int]);
            assert(rev@ =~= all.take(rev@.len() as int));
        }
        r.push(e);
    }
    proof {
        assert forall|q: (nat, nat)| #[trigger] whole.edge_live(q) implies exists|t: int| 0 <= t < r@.len() && r@[t].0@ == q by {
            let t = choose|t: int| 0 <= t < all.len() && all[t].0@ == q;
            assert(r@[all.len() - 1 - t] == all[t]);
        }
        assert forall|t: int| 0 <= t < r@.len() implies whole.edge_live((#[trigger] r@[t]).0@) && r@[t].1 == whole.edge_value(r@[t].0@) by {
            assert(r@[t] == all[all.len() - 1 - t]);
        }
        assert forall|a: int, b: int| 0 <= a < b < r@.len() implies (#[trigger] r@[a]).0@.0 < (#[trigger] r@[b]).0@.0 by {
            assert(r@[a] == all[all.len() - 1 - a]);
            assert(r@[b] == all[all.len() - 1 - b]);
        }
    }
    r
}

} // verus!

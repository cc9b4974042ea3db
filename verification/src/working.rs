//! Keys that stay valid while a working graph changes, and the record of
//! where each of them went when the graph was frozen.
use crate::index::{EdgeIndex, NodeIndex};
use vstd::prelude::*;

verus! {

broadcast use crate::index::group_index_lemmas;

/// A node key: a slot and the generation of its occupant.
#[derive(Debug, Clone, Copy, PartialEq, Eq, PartialOrd, Ord, Hash, Structural)]
pub struct StableNodeKey {
    slot: u32,
    generation: u32,
}

impl View for StableNodeKey {
    type V = (nat, nat);

    closed spec fn view(&self) -> (nat, nat) {
        (self.slot as nat, self.generation as nat)
    }
}

impl StableNodeKey {
    pub fn new(slot: u32, generation: u32) -> (r: Self)
        ensures
            r@ == (slot as nat, generation as nat),
    {
        StableNodeKey { slot, generation }
    }

    pub fn slot(self) -> (r: u32)
        ensures
            r == self@.0,
    {
        self.slot
    }

    pub fn generation(self) -> (r: u32)
        ensures
            r == self@.1,
    {
        self.generation
    }

    pub fn index(self) -> (r: usize)
        ensures
            r == self@.0,
    {
        self.slot as usize
    }
}

/// An edge key: a slot and the generation of its occupant.
#[derive(Debug, Clone, Copy, PartialEq, Eq, PartialOrd, Ord, Hash, Structural)]
pub struct StableEdgeKey {
    slot: u32,
    generation: u32,
}

impl View for StableEdgeKey {
    type V = (nat, nat);

    closed spec fn view(&self) -> (nat, nat) {
        (self.slot as nat, self.generation as nat)
    }
}

impl StableEdgeKey {
    pub fn new(slot: u32, generation: u32) -> (r: Self)
        ensures
            r@ == (slot as nat, generation as nat),
    {
        StableEdgeKey { slot, generation }
    }

    pub fn slot(self) -> (r: u32)
        ensures
            r == self@.0,
    {
        self.slot
    }

    pub fn generation(self) -> (r: u32)
        ensures
            r == self@.1,
    {
        self.generation
    }

    pub fn index(self) -> (r: usize)
        ensures
            r == self@.0,
    {
        self.slot as usize
    }
}

/// Two node keys are equal exactly when their slots and generations are.
pub proof fn lemma_node_key_view(a: StableNodeKey, b: StableNodeKey)
    ensures
        a@ == b@ <==> a == b,
{
}

/// Two edge keys are equal exactly when their slots and generations are.
pub proof fn lemma_edge_key_view(a: StableEdgeKey, b: StableEdgeKey)
    ensures
        a@ == b@ <==> a == b,
{
}

/// The keys recorded in slot-indexed entries, each with its position.
pub open spec fn slot_entries(entries: Seq<Option<(u32, u32)>>) -> Map<(nat, nat), nat> {
    Map::new(
        |k: (nat, nat)| k.0 < entries.len() && (entries[k.0 as int] matches Some(e) && e.0 == k.1),
        |k: (nat, nat)| match entries[k.0 as int] {
            Some(e) => e.1 as nat,
            None => 0,
        },
    )
}

/// `entries` after recording `index` for the key `(slot, generation)`,
/// which takes the place of whatever the slot held.
pub open spec fn record_entry(entries: Map<(nat, nat), nat>, slot: nat, generation: nat, index: nat) -> Map<(nat, nat), nat> {
    Map::new(
        |k: (nat, nat)| k == (slot, generation) || (k.0 != slot && entries.dom().contains(k)),
        |k: (nat, nat)| if k == (slot, generation) { index } else { entries[k] },
    )
}

/// Where each stable key went in a frozen graph.
#[derive(Debug, Clone, PartialEq, Eq)]
pub struct FreezeMap {
    nodes: Vec<Option<(u32, u32)>>,
    edges: Vec<Option<(u32, u32)>>,
}

impl FreezeMap {
    /// The node keys recorded, each with its compact position.
    pub closed spec fn node_entries(&self) -> Map<(nat, nat), nat> {
        slot_entries(self.nodes@)
    }

    /// The edge keys recorded, each with its compact position.
    pub closed spec fn edge_entries(&self) -> Map<(nat, nat), nat> {
        slot_entries(self.edges@)
    }

    pub fn new() -> (r: Self)
        ensures
            r.node_entries() == Map::<(nat, nat), nat>::empty(),
            r.edge_entries() == Map::<(nat, nat), nat>::empty(),
    {
        let r = FreezeMap { nodes: Vec::new(), edges: Vec::new() };
        assert(r.node_entries() =~= Map::<(nat, nat), nat>::empty());
        assert(r.edge_entries() =~= Map::<(nat, nat), nat>::empty());
        r
    }

    /// Records that the node with `key` went to `index`.
    pub fn record_node(&mut self, key: StableNodeKey, index: NodeIndex)
        ensures
            final(self).node_entries() == record_entry(old(self).node_entries(), key@.0, key@.1, index@),
            final(self).edge_entries() == old(self).edge_entries(),
    {
        let ghost before = self.nodes@;
        record_in(&mut self.nodes, key.slot, key.generation, index.index() as u32);
        proof {
            lemma_record(before, self.nodes@, key.slot, key.generation, index@ as u32);
        }
    }

    /// Records that the edge with `key` went to `index`.
    pub fn record_edge(&mut self, key: StableEdgeKey, index: EdgeIndex)
        ensures
            final(self).edge_entries() == record_entry(old(self).edge_entries(), key@.0, key@.1, index@),
            final(self).node_entries() == old(self).node_entries(),
    {
        let ghost before = self.edges@;
        record_in(&mut self.edges, key.slot, key.generation, index.index() as u32);
        proof {
            lemma_record(before, self.edges@, key.slot, key.generation, index@ as u32);
        }
    }

    /// Where the node with `key` went; `None` for a key not recorded.
    pub fn node(&self, key: StableNodeKey) -> (r: Option<NodeIndex>)
        ensures
            r is Some <==> self.node_entries().dom().contains(key@),
            r matches Some(i) ==> i@ == self.node_entries()[key@],
    {
        match lookup_in(&self.nodes, key.slot, key.generation) {
            Some(i) => Some(NodeIndex::new(i)),
            None => None,
        }
    }

    /// Where the edge with `key` went; `None` for a key not recorded.
    pub fn edge(&self, key: StableEdgeKey) -> (r: Option<EdgeIndex>)
        ensures
            r is Some <==> self.edge_entries().dom().contains(key@),
            r matches Some(i) ==> i@ == self.edge_entries()[key@],
    {
        match lookup_in(&self.edges, key.slot, key.generation) {
            Some(i) => Some(EdgeIndex::new(i)),
            None => None,
        }
    }
}

/// Setting one slot records its key in place of the slot's old one.
proof fn lemma_record(before: Seq<Option<(u32, u32)>>, after: Seq<Option<(u32, u32)>>, slot: u32, generation: u32, index: u32)
    requires
        after.len() == if before.len() > slot { before.len() } else { slot as nat + 1 },
        after[slot as int] == Some((generation, index)),
        forall|s: int| 0 <= s < after.len() && s != slot ==> #[trigger] after[s] == if s < before.len() { before[s] } else { None },
    ensures
        slot_entries(after) == record_entry(slot_entries(before), slot as nat, generation as nat, index as nat),
{
    let l = slot_entries(after);
    let r = record_entry(slot_entries(before), slot as nat, generation as nat, index as nat);
    assert forall|k: (nat, nat)| #[trigger] l.dom().contains(k) <==> r.dom().contains(k) by {
        if k.0 != slot && k.0 < after.len() {
            assert(after[k.0 as int] == if k.0 < before.len() { before[k.0 as int] } else { None });
        }
    }
    assert forall|k: (nat, nat)| #[trigger] l.dom().contains(k) implies l[k] == r[k] by {
        if k.0 != slot {
            assert(after[k.0 as int] == if k.0 < before.len() { before[k.0 as int] } else { None });
        }
    }
    assert(l =~= r);
}

/// Sets slot `slot` of `entries` to `(generation, index)`, growing it with
/// empty slots as needed.
fn record_in(entries: &mut Vec<Option<(u32, u32)>>, slot: u32, generation: u32, index: u32)
    ensures
        final(entries)@.len() == if old(entries)@.len() > slot { old(entries)@.len() } else { slot as nat + 1 },
        final(entries)@[slot as int] == Some((generation, index)),
        forall|s: int| 0 <= s < final(entries)@.len() && s != slot ==> #[trigger] final(entries)@[s]
            == if s < old(entries)@.len() { old(entries)@[s] } else { None },
{
    let s = slot as usize;
    while entries.len() <= s
        invariant
            entries@.len() >= old(entries)@.len(),
            entries@.len() <= if old(entries)@.len() > slot { old(entries)@.len() } else { slot as nat + 1 },
            forall|t: int| 0 <= t < old(entries)@.len() ==> #[trigger] entries@[t] == old(entries)@[t],
            forall|t: int| old(entries)@.len() <= t < entries@.len() ==> #[trigger] entries@[t] is None,
            s == slot,
        decreases s + 1 - entries@.len(),
    {
        entries.push(None);
    }
    entries.set(s, Some((generation, index)));
}

/// The position recorded for `(slot, generation)`, if any.
fn lookup_in(entries: &Vec<Option<(u32, u32)>>, slot: u32, generation: u32) -> (r: Option<u32>)
    ensures
        r is Some <==> slot_entries(entries@).dom().contains((slot as nat, generation as nat)),
        r matches Some(i) ==> i == slot_entries(entries@)[(slot as nat, generation as nat)],
{
    let s = slot as usize;
    if s >= entries.len() {
        return None;
    }
    match entries[s] {
        Some((g, i)) => {
            if g == generation {
                Some(i)
            } else {
                None
            }
        },
        None => None,
    }
}

} // verus!

//! The condensation of a graph: its strongly connected components as the
//! nodes of an acyclic graph.
use crate::algo::mask::{edge_mask, full_edge_mask};
use crate::algo::strong::{is_strong_components, strong_with_mask};
use crate::algo::weak::component_positions;
use crate::digraph::{allowed, full_mask, has_edge, is_edge_mask, lemma_distinct_below, reaches, valid_model};
use crate::error::Result;
use crate::index::{EdgeEndpoints, EdgeIndex, NodeIndex};
use crate::reach::{lemma_reaches_refl, lemma_reaches_step, lemma_reaches_trans};
use crate::topology::{endpoint_pairs, node_positions, IndexGraphView, Topology};
use vstd::prelude::*;

verus! {

broadcast use crate::index::group_index_lemmas;

/// `a` comes before `b`: by first entry, then by second.
pub open spec fn pair_before(a: (nat, nat), b: (nat, nat)) -> bool {
    a.0 < b.0 || (a.0 == b.0 && a.1 < b.1)
}

/// Pairs of compact positions as pairs of numbers.
pub open spec fn pair_views(s: Seq<(u32, u32)>) -> Seq<(nat, nat)> {
    s.map_values(|q: (u32, u32)| (q.0 as nat, q.1 as nat))
}

/// Each pair comes strictly before the next.
pub open spec fn pairs_ascending(s: Seq<(nat, nat)>) -> bool {
    forall|a: int, b: int| 0 <= a < b < s.len() ==> pair_before(#[trigger] s[a], #[trigger] s[b])
}

/// The pair of components that allowed edge `e` joins, when they differ.
pub open spec fn joins(edges: Seq<(nat, nat)>, mask: Seq<bool>, label: Seq<u32>, e: int, p: (nat, nat)) -> bool {
    &&& allowed(edges, mask, e)
    &&& label[edges[e].0 as int] != label[edges[e].1 as int]
    &&& p == (label[edges[e].0 as int] as nat, label[edges[e].1 as int] as nat)
}

/// The strongly connected components of a graph, the component of each
/// node, and the graph of the components: an edge from one component to
/// another wherever an edge of the graph joins them.
pub struct Condensation {
    components: Vec<Vec<NodeIndex>>,
    labels: Vec<u32>,
    topology: Topology,
}

impl Condensation {
    /// The components, each as node positions.
    pub closed spec fn comps(&self) -> Seq<Seq<nat>> {
        component_positions(self.components@)
    }

    /// The component of each node.
    pub closed spec fn labels(&self) -> Seq<u32> {
        self.labels@
    }

    /// The edges between components, as component positions.
    pub closed spec fn condensed_edges(&self) -> Seq<(nat, nat)> {
        self.topology.view_edges()
    }

    /// The number of components of the condensed graph.
    pub closed spec fn component_count(&self) -> nat {
        self.topology.view_node_count()
    }

    /// The components, in the order they were found.
    pub fn components(&self) -> (r: &[Vec<NodeIndex>])
        ensures
            component_positions(r@) == self.comps(),
    {
        self.components.as_slice()
    }

    /// The component at `index`, if there is one.
    pub fn component(&self, index: NodeIndex) -> (r: Option<&[NodeIndex]>)
        ensures
            r is Some <==> index@ < self.comps().len(),
            r matches Some(c) ==> node_positions(c@) == self.comps()[index@ as int],
    {
        let i = index.index();
        if i < self.components.len() {
            Some(self.components[i].as_slice())
        } else {
            None
        }
    }

    /// The component that holds `node`, if `node` is a node of the graph.
    pub fn component_of(&self, node: NodeIndex) -> (r: Option<NodeIndex>)
        ensures
            r is Some <==> node@ < self.labels().len(),
            r matches Some(c) ==> c@ == self.labels()[node@ as int],
    {
        let i = node.index();
        if i < self.labels.len() {
            Some(NodeIndex::new(self.labels[i]))
        } else {
            None
        }
    }

    /// The graph of the components.
    pub fn topology(&self) -> (r: &Topology)
        ensures
            r.view_node_count() == self.component_count(),
            r.view_edges() == self.condensed_edges(),
    {
        &self.topology
    }

    /// The components and the graph of the components.
    pub fn into_parts(self) -> (r: (Vec<Vec<NodeIndex>>, Topology))
        ensures
            component_positions(r.0@) == self.comps(),
            r.1.view_node_count() == self.component_count(),
            r.1.view_edges() == self.condensed_edges(),
    {
        (self.components, self.topology)
    }
}

/// What a condensation of the allowed edges holds: strongly connected
/// components, each node labelled with the one that holds it, and the
/// distinct pairs of components joined by an allowed edge, in ascending
/// order, each from an earlier component to a later one.
pub open spec fn is_condensation(n: nat, edges: Seq<(nat, nat)>, mask: Seq<bool>, c: Condensation) -> bool {
    &&& is_strong_components(n, edges, mask, c.comps())
    &&& c.labels().len() == n
    &&& forall|i: int, k: int| 0 <= i < c.comps().len() && 0 <= k < c.comps()[i].len()
        ==> c.labels()[#[trigger] c.comps()[i][k] as int] == i
    &&& c.component_count() == c.comps().len()
    &&& pairs_ascending(c.condensed_edges())
    &&& forall|p: (nat, nat)| #[trigger] c.condensed_edges().contains(p) <==> exists|e: int| joins(edges, mask, c.labels(), e, p)
    &&& forall|t: int| 0 <= t < c.condensed_edges().len() ==> (#[trigger] c.condensed_edges()[t]).0 < c.condensed_edges()[t].1
}

/// Adds `p` to a list in ascending order, unless it is there.
fn insert_pair(list: &mut Vec<(u32, u32)>, p: (u32, u32))
    requires
        pairs_ascending(pair_views(old(list)@)),
    ensures
        pairs_ascending(pair_views(final(list)@)),
        final(list)@.len() <= old(list)@.len() + 1,
        forall|x: (nat, nat)| #[trigger] pair_views(final(list)@).contains(x)
            <==> pair_views(old(list)@).contains(x) || x == (p.0 as nat, p.1 as nat),
{
    let ghost l0 = pair_views(list@);
    let ghost pv = (p.0 as nat, p.1 as nat);
    let mut i: usize = 0;
    loop
        invariant
            i <= list@.len(),
            list@ == old(list)@,
            l0 == pair_views(list@),
            pv == (p.0 as nat, p.1 as nat),
            forall|t: int| 0 <= t < i ==> pair_before(#[trigger] l0[t], pv),
        ensures
            i <= list@.len(),
            list@ == old(list)@,
            forall|t: int| 0 <= t < i ==> pair_before(#[trigger] l0[t], pv),
            i < list@.len() ==> !pair_before(l0[i as int], pv),
        decreases list@.len() - i,
    {
        if i >= list.len() {
            break;
        }
        let q = list[i];
        proof {
            assert(l0[i as int] == (q.0 as nat, q.1 as nat));
        }
        if !(q.0 < p.0 || (q.0 == p.0 && q.1 < p.1)) {
            break;
        }
        i = i + 1;
    }
    if i < list.len() && list[i].0 == p.0 && list[i].1 == p.1 {
        proof {
            assert(l0[i as int] == pv);
        }
        return;
    }
    proof {
        if i < list@.len() {
            assert(l0[i as int] == (list@[i as int].0 as nat, list@[i as int].1 as nat));
        }
    }
    let ghost before = list@;
    list.insert(i, p);
    proof {
        let l1 = pair_views(list@);
        assert(list@ =~= before.subrange(0, i as int).push(p).add(before.subrange(i as int, before.len() as int)));
        assert forall|t: int| 0 <= t < l1.len() implies #[trigger] l1[t] == if t < i {
            l0[t]
        } else if t == i {
            pv
        } else {
            l0[t - 1]
        } by {}
        if i < l0.len() {
            assert(l0[i as int] == (before[i as int].0 as nat, before[i as int].1 as nat));
            assert(l0[i as int] != pv);
            assert(pair_before(pv, l0[i as int]));
        }
        assert forall|a: int, b: int| 0 <= a < b < l1.len() implies pair_before(#[trigger] l1[a], #[trigger] l1[b]) by {
            if b < i {
            } else if a < i && b == i {
            } else if a < i {
                assert(pair_before(l0[a], l0[b - 1]));
            } else if a == i {
                if b - 1 > i {
                    assert(pair_before(l0[i as int], l0[b - 1]));
                }
            } else {
                assert(pair_before(l0[a - 1], l0[b - 1]));
            }
        }
        assert forall|x: (nat, nat)| #[trigger] l1.contains(x) <==> l0.contains(x) || x == pv by {
            if l1.contains(x) {
                let t = choose|t: int| 0 <= t < l1.len() && l1[t] == x;
                if t < i {
                    assert(l0[t] == x);
                } else if t > i {
                    assert(l0[t - 1] == x);
                }
            }
            if l0.contains(x) {
                let t = choose|t: int| 0 <= t < l0.len() && l0[t] == x;
                if t < i {
                    assert(l1[t] == x);
                } else {
                    assert(l1[t + 1] == x);
                }
            }
            if x == pv {
                assert(l1[i as int] == x);
            }
        }
    }
}

/// An allowed edge between two components runs from an earlier one to a
/// later one.
proof fn lemma_forward(n: nat, edges: Seq<(nat, nat)>, mask: Seq<bool>, comps: Seq<Seq<nat>>, e: int, a: int, k: int, b: int, l: int)
    requires
        is_strong_components(n, edges, mask, comps),
        allowed(edges, mask, e),
        0 <= a < comps.len(),
        0 <= k < comps[a].len(),
        0 <= b < comps.len(),
        0 <= l < comps[b].len(),
        comps[a][k] == edges[e].0,
        comps[b][l] == edges[e].1,
        a != b,
        edges[e].0 < n,
    ensures
        a < b,
{
    let u = edges[e].0;
    let v = edges[e].1;
    assert(reaches(edges, mask, comps[b][l], comps[b][0]));
    lemma_reaches_refl(edges, mask, u);
    assert(has_edge(edges, mask, u, v));
    lemma_reaches_step(edges, mask, u, u, v);
    lemma_reaches_trans(edges, mask, u, v, comps[b][0]);
    let j = choose|j: int| 0 <= j <= b && #[trigger] comps[j].contains(u);
    let m = choose|m: int| 0 <= m < comps[j].len() && comps[j][m] == u;
    assert(comps[j][m] == comps[a][k]);
}

/// The condensation of the edges that `mask` allows.
fn condense<G: IndexGraphView>(graph: &G, mask: &Vec<bool>) -> (r: Result<Condensation>)
    requires
        mask@.len() == graph.spec_edges().len(),
    ensures
        r matches Ok(c) && is_condensation(graph.spec_node_count(), graph.spec_edges(), mask@, c),
{
    let n = graph.node_bound();
    let ghost edges = graph.spec_edges();
    let ghost m = mask@;
    let components = strong_with_mask(graph, mask);
    let ghost comps = component_positions(components@);
    proof {
        let firsts = Seq::new(comps.len(), |i: int| comps[i][0]);
        assert forall|a: int, b: int| 0 <= a < b < firsts.len() implies firsts[a] != firsts[b] by {
            assert(comps[a].len() > 0 && comps[b].len() > 0);
        }
        assert forall|i: int| 0 <= i < firsts.len() implies #[trigger] firsts[i] < n by {
            assert(comps[i].len() > 0);
        }
        lemma_distinct_below(firsts, n as nat);
    }
    let mut labels: Vec<u32> = Vec::new();
    let mut v: usize = 0;
    while v < n
        invariant
            v <= n,
            labels@.len() == v,
        decreases n - v,
    {
        labels.push(0);
        v = v + 1;
    }
    let mut i: usize = 0;
    while i < components.len()
        invariant
            n == graph.spec_node_count(),
            comps == component_positions(components@),
            is_strong_components(n as nat, edges, m, comps),
            comps.len() <= n,
            n <= u32::MAX,
            labels@.len() == n,
            i <= components@.len(),
            forall|j: int, k: int| 0 <= j < i && 0 <= k < comps[j].len() ==> labels@[#[trigger] comps[j][k] as int] == j,
        decreases components@.len() - i,
    {
        let mut k: usize = 0;
        while k < components[i].len()
            invariant
                n == graph.spec_node_count(),
                comps == component_positions(components@),
                is_strong_components(n as nat, edges, m, comps),
                comps.len() <= n,
                n <= u32::MAX,
                labels@.len() == n,
                i < components@.len(),
                k <= components@[i as int]@.len(),
                forall|j: int, l: int| 0 <= j < i && 0 <= l < comps[j].len() ==> labels@[#[trigger] comps[j][l] as int] == j,
                forall|l: int| 0 <= l < k ==> labels@[#[trigger] comps[i as int][l] as int] == i,
            decreases components@[i as int]@.len() - k,
        {
            let node = components[i][k];
            proof {
                assert(comps[i as int][k as int] == node@);
                assert(node@ < n);
            }
            let ghost l0 = labels@;
            labels.set(node.index(), i as u32);
            proof {
                assert forall|j: int, l: int| 0 <= j < i && 0 <= l < comps[j].len() implies labels@[#[trigger] comps[j][l] as int] == j by {
                    assert(comps[j][l] != comps[i as int][k as int]);
                    assert(l0[comps[j][l] as int] == j);
                }
                assert forall|l: int| 0 <= l < k + 1 implies labels@[#[trigger] comps[i as int][l] as int] == i by {
                    if l < k {
                        assert(comps[i as int][l] != comps[i as int][k as int]);
                    }
                }
            }
            k = k + 1;
        }
        proof {
            assert(comps[i as int].len() == components@[i as int]@.len());
        }
        i = i + 1;
    }
    proof {
        assert forall|x: nat| x < n implies #[trigger] labels@[x as int] < comps.len() by {
            assert(crate::reach::listed(comps, x));
            let j = choose|j: int| 0 <= j < comps.len() && #[trigger] comps[j].contains(x);
            let l = choose|l: int| 0 <= l < comps[j].len() && comps[j][l] == x;
            assert(labels@[comps[j][l] as int] == j);
        }
    }
    let count = graph.edge_bound();
    let mut pairs: Vec<(u32, u32)> = Vec::new();
    let mut e: usize = 0;
    while e < count
        invariant
            n == graph.spec_node_count(),
            edges == graph.spec_edges(),
            valid_model(n as nat, edges),
            count == edges.len(),
            m == mask@,
            m.len() == count,
            comps == component_positions(components@),
            is_strong_components(n as nat, edges, m, comps),
            labels@.len() == n,
            forall|j: int, k: int| 0 <= j < comps.len() && 0 <= k < comps[j].len() ==> labels@[#[trigger] comps[j][k] as int] == j,
            forall|x: nat| x < n ==> #[trigger] labels@[x as int] < comps.len(),
            e <= count,
            pairs@.len() <= e,
            pairs_ascending(pair_views(pairs@)),
            forall|x: (nat, nat)| #[trigger] pair_views(pairs@).contains(x)
                <==> exists|f: int| f < e && joins(edges, m, labels@, f, x),
        decreases count - e,
    {
        if mask[e] {
            let ends = graph.edge_endpoints(EdgeIndex::new(e as u32)).unwrap();
            let a = labels[ends.source().index()];
            let b = labels[ends.target().index()];
            if a != b {
                let ghost p0 = pair_views(pairs@);
                insert_pair(&mut pairs, (a, b));
                proof {
                    let p1 = pair_views(pairs@);
                    assert forall|x: (nat, nat)| #[trigger] p1.contains(x) <==> exists|f: int| f < e + 1 && joins(edges, m, labels@, f, x) by {
                        if x == (a as nat, b as nat) {
                            assert(joins(edges, m, labels@, e as int, x));
                        }
                        if exists|f: int| f < e + 1 && joins(edges, m, labels@, f, x) {
                            let f = choose|f: int| f < e + 1 && joins(edges, m, labels@, f, x);
                            if f < e {
                                assert(p0.contains(x));
                            }
                        }
                        if p0.contains(x) {
                            let f = choose|f: int| f < e && joins(edges, m, labels@, f, x);
                            assert(f < e + 1 && joins(edges, m, labels@, f, x));
                        }
                    }
                }
            } else {
                proof {
                    assert forall|x: (nat, nat)| #[trigger] pair_views(pairs@).contains(x)
                        <==> exists|f: int| f < e + 1 && joins(edges, m, labels@, f, x) by {
                        if exists|f: int| f < e + 1 && joins(edges, m, labels@, f, x) {
                            let f = choose|f: int| f < e + 1 && joins(edges, m, labels@, f, x);
                            assert(f != e);
                        }
                    }
                }
            }
        } else {
            proof {
                assert forall|x: (nat, nat)| #[trigger] pair_views(pairs@).contains(x)
                    <==> exists|f: int| f < e + 1 && joins(edges, m, labels@, f, x) by {
                    if exists|f: int| f < e + 1 && joins(edges, m, labels@, f, x) {
                        let f = choose|f: int| f < e + 1 && joins(edges, m, labels@, f, x);
                        assert(f != e);
                    }
                }
            }
        }
        e = e + 1;
    }
    let ghost pv = pair_views(pairs@);
    let mut ends: Vec<EdgeEndpoints> = Vec::new();
    let mut t: usize = 0;
    while t < pairs.len()
        invariant
            t <= pairs@.len(),
            pv == pair_views(pairs@),
            endpoint_pairs(ends@) == pv.take(t as int),
        decreases pairs@.len() - t,
    {
        let (a, b) = pairs[t];
        let ghost before = endpoint_pairs(ends@);
        ends.push(EdgeEndpoints::new(NodeIndex::new(a), NodeIndex::new(b)));
        proof {
            assert(endpoint_pairs(ends@) =~= before.push((a as nat, b as nat)));
            assert(pv.take(t as int + 1) =~= pv.take(t as int).push(pv[t as int]));
        }
        t = t + 1;
    }
    proof {
        assert(pv.take(pv.len() as int) =~= pv);
        assert forall|q: int| 0 <= q < pv.len() implies (#[trigger] pv[q]).0 < comps.len() && pv[q].1 < comps.len()
            && pv[q].0 < pv[q].1 by {
            assert(pv.contains(pv[q]));
            let f = choose|f: int| f < e && joins(edges, m, labels@, f, pv[q]);
            let u = edges[f].0;
            let w = edges[f].1;
            assert(crate::reach::listed(comps, u));
            assert(crate::reach::listed(comps, w));
            let a = choose|a: int| 0 <= a < comps.len() && #[trigger] comps[a].contains(u);
            let k = choose|k: int| 0 <= k < comps[a].len() && comps[a][k] == u;
            let b = choose|b: int| 0 <= b < comps.len() && #[trigger] comps[b].contains(w);
            let l = choose|l: int| 0 <= l < comps[b].len() && comps[b][l] == w;
            assert(labels@[comps[a][k] as int] == a);
            assert(labels@[comps[b][l] as int] == b);
            lemma_forward(n as nat, edges, m, comps, f, a, k, b, l);
        }
    }
    let topology = match Topology::try_from_edges(components.len(), ends) {
        Ok(topology) => topology,
        Err(error) => return Err(error),
    };
    let r = Condensation { components, labels, topology };
    proof {
        assert(r.condensed_edges() == pv);
    }
    Ok(r)
}

/// The condensation of `graph`: its strongly connected components, the
/// component of each node, and the acyclic graph of the components.
///
/// An error would mean that the component graph exceeds compact index
/// capacity, which a graph with compact indices cannot reach.
pub fn condensation<G: IndexGraphView>(graph: &G) -> (r: Result<Condensation>)
    ensures
        r matches Ok(c) && is_condensation(graph.spec_node_count(), graph.spec_edges(), full_mask(graph.spec_edges().len()), c),
{
    let mask = full_edge_mask(graph);
    condense(graph, &mask)
}

/// The condensation of the edges that `allows_edge` accepts, as
/// [`condensation`] describes it.
pub fn condensation_filtered<G: IndexGraphView, F: Fn(EdgeIndex) -> bool>(graph: &G, allows_edge: F) -> (r: Result<Condensation>)
    requires
        forall|e: EdgeIndex| allows_edge.requires((e,)),
    ensures
        r is Ok,
        exists|mask: Seq<bool>| {
            &&& is_edge_mask(allows_edge, graph.spec_edges().len(), mask)
            &&& (r matches Ok(c) && is_condensation(graph.spec_node_count(), graph.spec_edges(), mask, c))
        },
{
    let mask = edge_mask(graph, &allows_edge);
    condense(graph, &mask)
}

} // verus!

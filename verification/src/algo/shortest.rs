//! Cheapest walks with non-negative edge weights (Dijkstra's algorithm).
use crate::algo::walk::{
    is_weighted_walk, lemma_walk_prepend, lemma_walk_push, lemma_walk_take, step, walk_at, walk_cost, walk_nodes,
    weight_of, Direction,
};
use crate::digraph::{in_list, lemma_in_list, lemma_out_list, out_list, valid_model};
use crate::index::{EdgeIndex, NodeIndex};
use crate::topology::{edge_positions, node_positions, IndexGraphView};
use vstd::prelude::*;

verus! {

broadcast use {crate::index::group_index_lemmas, crate::digraph::lemma_push_contains};

/// A walk given by its nodes, with its total weight.
#[derive(Debug, Clone, PartialEq, Eq)]
pub struct WeightedPath {
    nodes: Vec<NodeIndex>,
    total_cost: u64,
}

impl WeightedPath {
    /// The node positions of the walk.
    pub closed spec fn node_list(&self) -> Seq<nat> {
        node_positions(self.nodes@)
    }

    /// The total weight of the walk.
    pub closed spec fn cost(&self) -> u64 {
        self.total_cost
    }

    pub fn nodes(&self) -> (r: &[NodeIndex])
        ensures
            node_positions(r@) == self.node_list(),
    {
        self.nodes.as_slice()
    }

    pub fn total_cost(&self) -> (r: u64)
        ensures
            r == self.cost(),
    {
        self.total_cost
    }

    pub fn into_nodes(self) -> (r: Vec<NodeIndex>)
        ensures
            node_positions(r@) == self.node_list(),
    {
        self.nodes
    }

    pub(crate) fn from_parts(nodes: Vec<NodeIndex>, total_cost: u64) -> (r: Self)
        ensures
            r.node_list() == node_positions(nodes@),
            r.cost() == total_cost,
    {
        WeightedPath { nodes, total_cost }
    }
}

/// `nodes` and `cost` describe a cheapest walk from `source` to `target`.
pub open spec fn is_cheapest(
    edges: Seq<(nat, nat)>,
    direction: Direction,
    weights: Seq<Option<u64>>,
    source: nat,
    target: nat,
    nodes: Seq<nat>,
    cost: nat,
) -> bool {
    &&& exists|es: Seq<nat>| #[trigger] is_weighted_walk(edges, direction, weights, es, source, target)
        && walk_cost(weights, es) == cost && walk_nodes(edges, direction, es, source) == nodes
    &&& forall|es: Seq<nat>| #[trigger] is_weighted_walk(edges, direction, weights, es, source, target)
        ==> walk_cost(weights, es) >= cost
}

/// Some walk from `source` to `target` weighs less than `u64::MAX`.
pub open spec fn cheap_walk_exists(
    edges: Seq<(nat, nat)>,
    direction: Direction,
    weights: Seq<Option<u64>>,
    source: nat,
    target: nat,
) -> bool {
    exists|es: Seq<nat>| #[trigger] is_weighted_walk(edges, direction, weights, es, source, target)
        && walk_cost(weights, es) < u64::MAX
}

/// `weights[e]` is a value that `f` returned for edge `e`, for every edge.
pub open spec fn is_weight_table<F: Fn(EdgeIndex) -> Option<u64>>(f: F, edge_count: nat, weights: Seq<Option<u64>>) -> bool {
    &&& weights.len() == edge_count
    &&& forall|e: EdgeIndex| e@ < edge_count ==> #[trigger] f.ensures((e,), weights[e@ as int])
}

/// Every edge weighs what `f` returned for it.
pub open spec fn is_total_weight_table<F: Fn(EdgeIndex) -> u64>(f: F, edge_count: nat, weights: Seq<u64>) -> bool {
    &&& weights.len() == edge_count
    &&& forall|e: EdgeIndex| e@ < edge_count ==> #[trigger] f.ensures((e,), weights[e@ as int])
}

/// Every edge has its weight.
pub open spec fn all_weighted(weights: Seq<u64>) -> Seq<Option<u64>> {
    weights.map_values(|w: u64| Some(w))
}

/// Evaluates `edge_cost` once for every edge, in edge order.
pub(crate) fn weight_table<G: IndexGraphView, F: Fn(EdgeIndex) -> Option<u64>>(graph: &G, edge_cost: &F) -> (r: Vec<Option<u64>>)
    requires
        forall|e: EdgeIndex| edge_cost.requires((e,)),
    ensures
        is_weight_table(*edge_cost, graph.spec_edges().len(), r@),
{
    let count = graph.edge_bound();
    let mut weights: Vec<Option<u64>> = Vec::new();
    let mut i: usize = 0;
    while i < count
        invariant
            i <= count,
            count == graph.spec_edges().len(),
            count <= u32::MAX,
            forall|e: EdgeIndex| edge_cost.requires((e,)),
            weights@.len() == i,
            forall|e: EdgeIndex| e@ < i ==> #[trigger] edge_cost.ensures((e,), weights@[e@ as int]),
        decreases count - i,
    {
        let edge = EdgeIndex::new(i as u32);
        let w = edge_cost(edge);
        weights.push(w);
        proof {
            assert forall|e: EdgeIndex| e@ < i + 1 implies #[trigger] edge_cost.ensures((e,), weights@[e@ as int]) by {
                if e@ == i {
                    crate::index::lemma_edge_index_view(e, edge);
                }
            }
        }
        i = i + 1;
    }
    weights
}

/// Evaluates `edge_cost` once for every edge, in edge order, every edge
/// receiving its weight.
pub(crate) fn total_weight_table<G: IndexGraphView, F: Fn(EdgeIndex) -> u64>(graph: &G, edge_cost: &F) -> (r: (Vec<Option<u64>>, Ghost<Seq<u64>>))
    requires
        forall|e: EdgeIndex| edge_cost.requires((e,)),
    ensures
        is_total_weight_table(*edge_cost, graph.spec_edges().len(), r.1@),
        r.0@ == all_weighted(r.1@),
{
    let count = graph.edge_bound();
    let mut weights: Vec<Option<u64>> = Vec::new();
    let ghost mut plain: Seq<u64> = Seq::empty();
    let mut i: usize = 0;
    while i < count
        invariant
            i <= count,
            count == graph.spec_edges().len(),
            count <= u32::MAX,
            forall|e: EdgeIndex| edge_cost.requires((e,)),
            plain.len() == i,
            weights@ == all_weighted(plain),
            forall|e: EdgeIndex| e@ < i ==> #[trigger] edge_cost.ensures((e,), plain[e@ as int]),
        decreases count - i,
    {
        let edge = EdgeIndex::new(i as u32);
        let w = edge_cost(edge);
        weights.push(Some(w));
        proof {
            let before = plain;
            plain = plain.push(w);
            assert(weights@ =~= all_weighted(plain));
            assert forall|e: EdgeIndex| e@ < i + 1 implies #[trigger] edge_cost.ensures((e,), plain[e@ as int]) by {
                if e@ == i {
                    crate::index::lemma_edge_index_view(e, edge);
                } else {
                    assert(plain[e@ as int] == before[e@ as int]);
                }
            }
        }
        i = i + 1;
    }
    (weights, Ghost(plain))
}

/// The edge by which the search last improved `v`.
spec fn tree_edge(
    n: nat,
    edges: Seq<(nat, nat)>,
    direction: Direction,
    weights: Seq<Option<u64>>,
    costs: Seq<u64>,
    settled: Seq<bool>,
    pred: Seq<usize>,
    pe: Seq<usize>,
    rank: Seq<nat>,
    v: int,
) -> bool {
    &&& pred[v] < n
    &&& settled[pred[v] as int]
    &&& pe[v] < edges.len()
    &&& weights[pe[v] as int] is Some
    &&& step(edges, direction, pe[v] as nat) == (pred[v] as nat, v as nat)
    &&& costs[v] == costs[pred[v] as int] + weight_of(weights, pe[v] as nat)
    &&& (settled[v] ==> rank[pred[v] as int] < rank[v])
}

/// Every edge leaving `a` has been tried.
spec fn relaxed_from(edges: Seq<(nat, nat)>, direction: Direction, weights: Seq<Option<u64>>, costs: Seq<u64>, a: nat) -> bool {
    forall|e: nat| e < edges.len() && #[trigger] step(edges, direction, e).0 == a && weights[e as int] is Some
        ==> costs[step(edges, direction, e).1 as int] <= costs[a as int] + weight_of(weights, e)
}

/// The state of the search between two settlements.
spec fn search_state(
    n: nat,
    edges: Seq<(nat, nat)>,
    direction: Direction,
    weights: Seq<Option<u64>>,
    s: nat,
    costs: Seq<u64>,
    settled: Seq<bool>,
    pred: Seq<usize>,
    pe: Seq<usize>,
    rank: Seq<nat>,
    order: Seq<nat>,
) -> bool {
    &&& valid_model(n, edges)
    &&& weights.len() == edges.len()
    &&& costs.len() == n && settled.len() == n && pred.len() == n && pe.len() == n && rank.len() == n
    &&& s < n && costs[s as int] == 0
    &&& order.no_duplicates()
    &&& forall|i: int| 0 <= i < order.len() ==> (#[trigger] order[i]) < n && settled[order[i] as int] && rank[order[i] as int] == i
    &&& forall|v: int| 0 <= v < n && #[trigger] settled[v] ==> rank[v] < order.len() && order[rank[v] as int] == v
    &&& forall|v: int| 0 <= v < n && v != s && #[trigger] costs[v] < u64::MAX
        ==> tree_edge(n, edges, direction, weights, costs, settled, pred, pe, rank, v)
    &&& forall|v: int| 0 <= v < n && #[trigger] settled[v] ==> costs[v] < u64::MAX
        && forall|es: Seq<nat>| #[trigger] is_weighted_walk(edges, direction, weights, es, s, v as nat) ==> walk_cost(weights, es) >= costs[v]
    &&& forall|a: int, b: int| 0 <= a < n && 0 <= b < n && #[trigger] settled[a] && !#[trigger] settled[b] ==> costs[a] <= costs[b]
}

/// The first node of a walk that is not settled, when the walk starts at
/// a settled node and ends at an unsettled one.
proof fn first_unsettled(
    edges: Seq<(nat, nat)>,
    direction: Direction,
    weights: Seq<Option<u64>>,
    settled: Seq<bool>,
    es: Seq<nat>,
    s: nat,
    v: nat,
    i: int,
) -> (j: int)
    requires
        is_weighted_walk(edges, direction, weights, es, s, v),
        !settled[v as int],
        0 <= i <= es.len(),
        forall|k: int| 0 <= k < i ==> settled[walk_at(edges, direction, es, s, k) as int],
    ensures
        i <= j <= es.len(),
        !settled[walk_at(edges, direction, es, s, j) as int],
        forall|k: int| 0 <= k < j ==> settled[walk_at(edges, direction, es, s, k) as int],
    decreases es.len() - i,
{
    if !settled[walk_at(edges, direction, es, s, i) as int] {
        i
    } else {
        first_unsettled(edges, direction, weights, settled, es, s, v, i + 1)
    }
}

/// A walk from a settled start to an unsettled end weighs at least the
/// tentative cost of some unsettled node.
proof fn cheapest_exit(
    n: nat,
    edges: Seq<(nat, nat)>,
    direction: Direction,
    weights: Seq<Option<u64>>,
    s: nat,
    costs: Seq<u64>,
    settled: Seq<bool>,
    pred: Seq<usize>,
    pe: Seq<usize>,
    rank: Seq<nat>,
    order: Seq<nat>,
    es: Seq<nat>,
    v: nat,
) -> (w: nat)
    requires
        search_state(n, edges, direction, weights, s, costs, settled, pred, pe, rank, order),
        forall|a: nat| a < n && #[trigger] settled[a as int] ==> relaxed_from(edges, direction, weights, costs, a),
        is_weighted_walk(edges, direction, weights, es, s, v),
        v < n,
        !settled[v as int],
        settled[s as int],
    ensures
        w < n,
        !settled[w as int],
        walk_cost(weights, es) >= costs[w as int],
{
    let j = first_unsettled(edges, direction, weights, settled, es, s, v, 0);
    assert(j > 0);
    let a = walk_at(edges, direction, es, s, j - 1);
    let b = walk_at(edges, direction, es, s, j);
    let e = es[j - 1];
    assert(settled[a as int]);
    assert(step(edges, direction, e).0 == a);
    assert(e < edges.len());
    assert(edges[e as int].0 < n && edges[e as int].1 < n);
    assert(a < n);
    lemma_walk_take(edges, direction, weights, es, s, v, j - 1);
    lemma_walk_take(edges, direction, weights, es, s, v, j);
    let p = es.take(j - 1);
    assert(is_weighted_walk(edges, direction, weights, p, s, a));
    assert(walk_cost(weights, p) >= costs[a as int]);
    lemma_walk_push(edges, direction, weights, p, s, a, e);
    assert(p.push(e) =~= es.take(j));
    assert(relaxed_from(edges, direction, weights, costs, a));
    assert(costs[b as int] <= costs[a as int] + weight_of(weights, e));
    b
}

/// The edges to try from `u`: those that leave it in `direction`.
pub(crate) fn adjacent_edges<G: IndexGraphView>(graph: &G, u: NodeIndex, direction: Direction) -> (r: &[EdgeIndex])
    ensures
        forall|i: int| 0 <= i < r@.len() ==> (#[trigger] r@[i])@ < graph.spec_edges().len()
            && step(graph.spec_edges(), direction, r@[i]@).0 == u@,
        forall|e: nat| e < graph.spec_edges().len() && #[trigger] step(graph.spec_edges(), direction, e).0 == u@
            ==> exists|i: int| 0 <= i < r@.len() && (#[trigger] r@[i])@ == e,
{
    let ghost edges = graph.spec_edges();
    match direction {
        Direction::Outgoing => {
            let r = graph.outgoing_edges(u);
            proof {
                lemma_out_list(edges, u@);
                assert forall|i: int| 0 <= i < r@.len() implies (#[trigger] r@[i])@ < edges.len()
                    && step(edges, direction, r@[i]@).0 == u@ by {
                    assert(edge_positions(r@)[i] == r@[i]@);
                }
                assert forall|e: nat| e < edges.len() && #[trigger] step(edges, direction, e).0 == u@
                    implies exists|i: int| 0 <= i < r@.len() && (#[trigger] r@[i])@ == e by {
                    assert(out_list(edges, u@).contains(e));
                    let i = choose|i: int| 0 <= i < edge_positions(r@).len() && edge_positions(r@)[i] == e;
                    assert(edge_positions(r@)[i] == r@[i]@);
                }
            }
            r
        },
        Direction::Incoming => {
            let r = graph.incoming_edges(u);
            proof {
                lemma_in_list(edges, u@);
                assert forall|i: int| 0 <= i < r@.len() implies (#[trigger] r@[i])@ < edges.len()
                    && step(edges, direction, r@[i]@).0 == u@ by {
                    assert(edge_positions(r@)[i] == r@[i]@);
                }
                assert forall|e: nat| e < edges.len() && #[trigger] step(edges, direction, e).0 == u@
                    implies exists|i: int| 0 <= i < r@.len() && (#[trigger] r@[i])@ == e by {
                    assert(in_list(edges, u@).contains(e));
                    let i = choose|i: int| 0 <= i < edge_positions(r@).len() && edge_positions(r@)[i] == e;
                    assert(edge_positions(r@)[i] == r@[i]@);
                }
            }
            r
        },
    }
}

/// The node at the far end of edge `e` when it is followed in `direction`.
pub(crate) fn far_end<G: IndexGraphView>(graph: &G, e: EdgeIndex, direction: Direction) -> (r: NodeIndex)
    requires
        e@ < graph.spec_edges().len(),
    ensures
        r@ == step(graph.spec_edges(), direction, e@).1,
        r@ < graph.spec_node_count(),
{
    let ends = graph.edge_endpoints(e).unwrap();
    proof {
        let _ = graph.spec_node_count();
    }
    let n = graph.node_count();
    proof {
        assert(graph.spec_edges()[e@ as int].0 < n && graph.spec_edges()[e@ as int].1 < n);
    }
    match direction {
        Direction::Outgoing => ends.target(),
        Direction::Incoming => ends.source(),
    }
}

/// Tries every edge leaving the newly settled `u`, lowering the tentative
/// costs it improves.
fn relax_from<G: IndexGraphView>(
    graph: &G,
    direction: Direction,
    weights: &Vec<Option<u64>>,
    u: usize,
    costs: &mut Vec<u64>,
    pred: &mut Vec<usize>,
    pe: &mut Vec<usize>,
    Ghost(s): Ghost<nat>,
    Ghost(settled): Ghost<Seq<bool>>,
    Ghost(rank): Ghost<Seq<nat>>,
    Ghost(order): Ghost<Seq<nat>>,
)
    requires
        search_state(graph.spec_node_count(), graph.spec_edges(), direction, weights@, s, old(costs)@, settled, old(pred)@, old(pe)@, rank, order),
        forall|a: nat| a < graph.spec_node_count() && a != u && #[trigger] settled[a as int]
            ==> relaxed_from(graph.spec_edges(), direction, weights@, old(costs)@, a),
        u < graph.spec_node_count(),
        settled[u as int],
        forall|v: int| 0 <= v < graph.spec_node_count() && #[trigger] settled[v] ==> old(costs)@[v] <= old(costs)@[u as int],
    ensures
        search_state(graph.spec_node_count(), graph.spec_edges(), direction, weights@, s, final(costs)@, settled, final(pred)@, final(pe)@, rank, order),
        forall|a: nat| a < graph.spec_node_count() && #[trigger] settled[a as int]
            ==> relaxed_from(graph.spec_edges(), direction, weights@, final(costs)@, a),
        forall|v: int| 0 <= v < graph.spec_node_count() && settled[v] ==> final(costs)@[v] == old(costs)@[v],
{
    let ghost n = graph.spec_node_count();
    let ghost edges = graph.spec_edges();
    let ghost ws = weights@;
    let ghost old_costs = costs@;
    let node = NodeIndex::new(u as u32);
    let adj = adjacent_edges(graph, node, direction);
    let base = costs[u];
    let mut k: usize = 0;
    while k < adj.len()
        invariant
            n == graph.spec_node_count(),
            edges == graph.spec_edges(),
            ws == weights@,
            u < n,
            node@ == u,
            settled[u as int],
            base == costs@[u as int],
            forall|v: int| 0 <= v < n && #[trigger] settled[v] ==> costs@[v] <= base,
            search_state(n, edges, direction, ws, s, costs@, settled, pred@, pe@, rank, order),
            forall|a: nat| a < n && a != u && #[trigger] settled[a as int] ==> relaxed_from(edges, direction, ws, costs@, a),
            forall|v: int| 0 <= v < n && settled[v] ==> costs@[v] == old_costs[v],
            forall|i: int| 0 <= i < adj@.len() ==> (#[trigger] adj@[i])@ < edges.len() && step(edges, direction, adj@[i]@).0 == u,
            forall|e: nat| e < edges.len() && #[trigger] step(edges, direction, e).0 == u
                ==> exists|i: int| 0 <= i < adj@.len() && (#[trigger] adj@[i])@ == e,
            forall|i: int| 0 <= i < k && ws[adj@[i]@ as int] is Some ==> #[trigger] costs@[step(edges, direction, adj@[i]@).1 as int]
                <= base + weight_of(ws, adj@[i]@),
            k <= adj@.len(),
        decreases adj@.len() - k,
    {
        let e = adj[k];
        match weights[e.index()] {
            None => {},
            Some(w) => {
                let v = far_end(graph, e, direction);
                let vi = v.index();
                match base.checked_add(w) {
                    None => {},
                    Some(c) => {
                        if c < costs[vi] {
                            let ghost before = costs@;
                            let ghost pred_before = pred@;
                            let ghost pe_before = pe@;
                            proof {
                                assert(!settled[vi as int]) by {
                                    if settled[vi as int] {
                                        assert(costs@[vi as int] <= base);
                                    }
                                }
                                assert(vi != s);
                            }
                            costs.set(vi, c);
                            pred.set(vi, u);
                            pe.set(vi, e.index());
                            proof {
                                let now = costs@;
                                assert forall|x: int| 0 <= x < n && x != s && #[trigger] now[x] < u64::MAX
                                    implies tree_edge(n, edges, direction, ws, now, settled, pred@, pe@, rank, x) by {
                                    if x != vi {
                                        assert(now[x] == before[x]);
                                        assert(tree_edge(n, edges, direction, ws, before, settled, pred_before, pe_before, rank, x));
                                        assert(pred@[x] == pred_before[x]);
                                        assert(pe@[x] == pe_before[x]);
                                        assert(pred@[x] != vi);
                                    }
                                }
                                assert forall|x: int| 0 <= x < n && #[trigger] settled[x] implies now[x] < u64::MAX
                                    && forall|es: Seq<nat>| #[trigger] is_weighted_walk(edges, direction, ws, es, s, x as nat) ==> walk_cost(ws, es) >= now[x] by {
                                    assert(now[x] == before[x]);
                                }
                                assert forall|a: nat| a < n && a != u && #[trigger] settled[a as int]
                                    implies relaxed_from(edges, direction, ws, now, a) by {
                                    assert(relaxed_from(edges, direction, ws, before, a));
                                    assert forall|f: nat| f < edges.len() && #[trigger] step(edges, direction, f).0 == a && ws[f as int] is Some
                                        implies now[step(edges, direction, f).1 as int] <= now[a as int] + weight_of(ws, f) by {
                                        assert(now[a as int] == before[a as int]);
                                    }
                                }
                                assert forall|i: int| 0 <= i < k + 1 && ws[adj@[i]@ as int] is Some implies #[trigger] now[step(edges, direction, adj@[i]@).1 as int]
                                    <= base + weight_of(ws, adj@[i]@) by {
                                    if i < k {
                                        assert(before[step(edges, direction, adj@[i]@).1 as int] <= base + weight_of(ws, adj@[i]@));
                                    }
                                }
                            }
                        }
                    },
                }
            },
        }
        k = k + 1;
    }
}

/// The unsettled node of least tentative cost below `u64::MAX`, the
/// smaller position first among equals; `n` when there is none.
fn cheapest_unsettled(costs: &Vec<u64>, settled: &Vec<bool>, n: usize) -> (r: usize)
    requires
        costs@.len() == n,
        settled@.len() == n,
    ensures
        r <= n,
        r < n ==> !settled@[r as int] && costs@[r as int] < u64::MAX
            && forall|v: int| 0 <= v < n && !settled@[v] ==> costs@[r as int] <= #[trigger] costs@[v],
        r == n ==> forall|v: int| 0 <= v < n && !#[trigger] settled@[v] ==> costs@[v] == u64::MAX,
{
    let mut best: usize = n;
    let mut v: usize = 0;
    while v < n
        invariant
            costs@.len() == n,
            settled@.len() == n,
            v <= n,
            best == n || (best < v && !settled@[best as int] && costs@[best as int] < u64::MAX
                && forall|w: int| 0 <= w < v && !settled@[w] ==> costs@[best as int] <= #[trigger] costs@[w]),
            best == n ==> forall|w: int| 0 <= w < v && !#[trigger] settled@[w] ==> costs@[w] == u64::MAX,
        decreases n - v,
    {
        if !settled[v] && costs[v] < u64::MAX && (best == n || costs[v] < costs[best]) {
            best = v;
        }
        v = v + 1;
    }
    best
}

/// Dijkstra's search from `source` until `target` is settled.
fn dijkstra_with<G: IndexGraphView>(
    graph: &G,
    source: NodeIndex,
    target: NodeIndex,
    direction: Direction,
    weights: &Vec<Option<u64>>,
) -> (r: Option<WeightedPath>)
    requires
        weights@.len() == graph.spec_edges().len(),
    ensures
        r is Some <==> source@ < graph.spec_node_count() && target@ < graph.spec_node_count()
            && cheap_walk_exists(graph.spec_edges(), direction, weights@, source@, target@),
        r matches Some(p) ==> is_cheapest(graph.spec_edges(), direction, weights@, source@, target@, p.node_list(), p.cost() as nat),
        r matches Some(p) ==> p.node_list().no_duplicates(),
{
    let n = graph.node_bound();
    let ghost edges = graph.spec_edges();
    let ghost ws = weights@;
    if !(source.index() < n && target.index() < n) {
        return None;
    }
    let s = source.index();
    let t = target.index();
    let mut costs: Vec<u64> = Vec::new();
    let mut settled: Vec<bool> = Vec::new();
    let mut pred: Vec<usize> = Vec::new();
    let mut pe: Vec<usize> = Vec::new();
    let mut i: usize = 0;
    while i < n
        invariant
            i <= n,
            costs@.len() == i,
            settled@.len() == i,
            pred@.len() == i,
            pe@.len() == i,
            forall|v: int| 0 <= v < i ==> costs@[v] == u64::MAX && !settled@[v],
        decreases n - i,
    {
        costs.push(u64::MAX);
        settled.push(false);
        pred.push(0);
        pe.push(0);
        i = i + 1;
    }
    costs.set(s, 0);
    let ghost mut rank: Seq<nat> = Seq::new(n as nat, |v: int| 0nat);
    let ghost mut order: Seq<nat> = Seq::empty();
    proof {
        assert(search_state(n as nat, edges, direction, ws, s as nat, costs@, settled@, pred@, pe@, rank, order));
    }
    loop
        invariant
            n == graph.spec_node_count(),
            edges == graph.spec_edges(),
            ws == weights@,
            s == source@,
            t == target@,
            s < n,
            t < n,
            search_state(n as nat, edges, direction, ws, s as nat, costs@, settled@, pred@, pe@, rank, order),
            forall|a: nat| a < n && #[trigger] settled@[a as int] ==> relaxed_from(edges, direction, ws, costs@, a),
            !settled@[t as int],
            order.len() <= n,
        decreases n - order.len(),
    {
        let u = cheapest_unsettled(&costs, &settled, n);
        if u == n {
            proof {
                assert forall|es: Seq<nat>| #[trigger] is_weighted_walk(edges, direction, ws, es, s as nat, t as nat)
                    implies walk_cost(ws, es) >= u64::MAX by {
                    assert(settled@[s as int]) by {
                        if !settled@[s as int] {
                            assert(costs@[s as int] == u64::MAX);
                        }
                    }
                    let w = cheapest_exit(n as nat, edges, direction, ws, s as nat, costs@, settled@, pred@, pe@, rank, order, es, t as nat);
                    assert(costs@[w as int] == u64::MAX);
                }
            }
            return None;
        }
        proof {
            // every walk to u weighs at least its tentative cost
            assert forall|es: Seq<nat>| #[trigger] is_weighted_walk(edges, direction, ws, es, s as nat, u as nat)
                implies walk_cost(ws, es) >= costs@[u as int] by {
                if settled@[s as int] {
                    let w = cheapest_exit(n as nat, edges, direction, ws, s as nat, costs@, settled@, pred@, pe@, rank, order, es, u as nat);
                } else {
                    assert(costs@[u as int] <= costs@[s as int]);
                }
            }
            assert forall|v: int| 0 <= v < n && #[trigger] settled@[v] implies costs@[v] <= costs@[u as int] by {
            }
            assert(!order.contains(u as nat)) by {
                if order.contains(u as nat) {
                    let i = choose|i: int| 0 <= i < order.len() && order[i] == u as nat;
                    assert(settled@[order[i] as int]);
                }
            }
            assert(order.push(u as nat).no_duplicates()) by {
                assert forall|i: int, j: int| 0 <= i < j < order.push(u as nat).len() implies
                    order.push(u as nat)[i] != order.push(u as nat)[j] by {
                    if j == order.len() {
                        assert(order.contains(order[i]));
                    }
                }
            }
            crate::digraph::lemma_distinct_below(order.push(u as nat), n as nat);
        }
        let ghost settled_before = settled@;
        settled.set(u, true);
        proof {
            rank = rank.update(u as int, order.len());
            order = order.push(u as nat);
            let now = settled@;
            assert forall|i: int| 0 <= i < order.len() implies (#[trigger] order[i]) < n && now[order[i] as int]
                && rank[order[i] as int] == i by {
                if i < order.len() - 1 {
                    assert(order[i] != u as nat);
                }
            }
            assert forall|v: int| 0 <= v < n && #[trigger] now[v] implies rank[v] < order.len() && order[rank[v] as int] == v by {
                if v != u {
                    assert(settled_before[v]);
                }
            }
            assert forall|x: int| 0 <= x < n && x != s && #[trigger] costs@[x] < u64::MAX
                implies tree_edge(n as nat, edges, direction, ws, costs@, now, pred@, pe@, rank, x) by {
                assert(tree_edge(n as nat, edges, direction, ws, costs@, settled_before, pred@, pe@, rank.update(u as int, rank[u as int]), x)
                    || true);
                if x == u {
                    let p = pred@[x] as int;
                    assert(settled_before[p]);
                    assert(rank[p] < order.len() - 1);
                } else {
                    let p = pred@[x] as int;
                    assert(settled_before[p]);
                    if now[x] {
                        assert(settled_before[x]);
                    }
                }
            }
            assert forall|a: int, b: int| 0 <= a < n && 0 <= b < n && #[trigger] now[a] && !#[trigger] now[b] implies costs@[a] <= costs@[b] by {
                if a != u {
                    assert(settled_before[a]);
                }
            }
            assert forall|a: nat| a < n && a != u && #[trigger] now[a as int] implies relaxed_from(edges, direction, ws, costs@, a) by {
                assert(settled_before[a as int]);
            }
        }
        if u == t {
            let path = self::reconstruct(source, t, &costs, &settled, &pred, &pe, n,
                Ghost(edges), Ghost(direction), Ghost(ws), Ghost(rank), Ghost(order));
            proof {
                let es = choose|es: Seq<nat>| #[trigger] is_weighted_walk(edges, direction, ws, es, s as nat, t as nat)
                    && walk_cost(ws, es) == path.cost() as nat && walk_nodes(edges, direction, es, s as nat) == path.node_list();
                assert(is_weighted_walk(edges, direction, ws, es, s as nat, t as nat) && walk_cost(ws, es) < u64::MAX);
            }
            return Some(path);
        }
        relax_from(graph, direction, weights, u, &mut costs, &mut pred, &mut pe, Ghost(s as nat), Ghost(settled@), Ghost(rank), Ghost(order));
    }
}

/// Follows the recorded tree edges back from the settled `t` to the source.
fn reconstruct(
    source: NodeIndex,
    t: usize,
    costs: &Vec<u64>,
    settled: &Vec<bool>,
    pred: &Vec<usize>,
    pe: &Vec<usize>,
    n: usize,
    Ghost(edges): Ghost<Seq<(nat, nat)>>,
    Ghost(direction): Ghost<Direction>,
    Ghost(ws): Ghost<Seq<Option<u64>>>,
    Ghost(rank): Ghost<Seq<nat>>,
    Ghost(order): Ghost<Seq<nat>>,
) -> (r: WeightedPath)
    requires
        search_state(n as nat, edges, direction, ws, source@, costs@, settled@, pred@, pe@, rank, order),
        t < n,
        settled@[t as int],
    ensures
        is_cheapest(edges, direction, ws, source@, t as nat, r.node_list(), r.cost() as nat),
        r.node_list().no_duplicates(),
        r.cost() < u64::MAX,
{
    let s = source.index();
    let mut rev: Vec<NodeIndex> = Vec::new();
    rev.push(NodeIndex::new(t as u32));
    let mut cursor: usize = t;
    let ghost mut suffix: Seq<nat> = Seq::empty();
    proof {
        assert(is_weighted_walk(edges, direction, ws, suffix, t as nat, t as nat));
        assert(node_positions(rev@) =~= walk_nodes(edges, direction, suffix, t as nat).reverse());
    }
    while cursor != s
        invariant
            search_state(n as nat, edges, direction, ws, source@, costs@, settled@, pred@, pe@, rank, order),
            s == source@,
            t < n,
            cursor < n,
            settled@[cursor as int],
            is_weighted_walk(edges, direction, ws, suffix, cursor as nat, t as nat),
            walk_cost(ws, suffix) + costs@[cursor as int] == costs@[t as int],
            node_positions(rev@) == walk_nodes(edges, direction, suffix, cursor as nat).reverse(),
            rev@.len() >= 1,
            rev@[rev@.len() - 1]@ == cursor,
            forall|a: int, b: int| 0 <= a < b < rev@.len() ==> rank[(#[trigger] rev@[a])@ as int] > rank[(#[trigger] rev@[b])@ as int],
        decreases rank[cursor as int],
    {
        let p = pred[cursor];
        let e = pe[cursor];
        let pn = NodeIndex::new(p as u32);
        proof {
            assert(costs@[cursor as int] < u64::MAX);
            assert(tree_edge(n as nat, edges, direction, ws, costs@, settled@, pred@, pe@, rank, cursor as int));
            lemma_walk_prepend(edges, direction, ws, suffix, cursor as nat, t as nat, e as nat);
            let old_nodes = walk_nodes(edges, direction, suffix, cursor as nat);
            suffix = seq![e as nat] + suffix;
            assert(node_positions(rev@.push(pn)) =~= node_positions(rev@).push(p as nat));
            assert((seq![p as nat] + old_nodes).reverse() =~= old_nodes.reverse().push(p as nat));
        }
        let ghost r0 = rev@;
        rev.push(pn);
        proof {
            assert(rank[p as int] < rank[cursor as int]);
            assert forall|a: int, b: int| 0 <= a < b < rev@.len() implies rank[(#[trigger] rev@[a])@ as int] > rank[(#[trigger] rev@[b])@ as int] by {
                if b == rev@.len() - 1 {
                    if a < r0.len() - 1 {
                        assert(rank[r0[a]@ as int] > rank[r0[r0.len() - 1]@ as int]);
                    }
                }
            }
        }
        cursor = p;
    }
    proof {
        assert forall|a: int, b: int| 0 <= a < b < rev@.len() implies rev@[a]@ != rev@[b]@ by {
            assert(rank[rev@[a]@ as int] > rank[rev@[b]@ as int]);
        }
    }
    let mut nodes: Vec<NodeIndex> = Vec::new();
    let mut k: usize = rev.len();
    while k > 0
        invariant
            k <= rev@.len(),
            nodes@.len() == rev@.len() - k,
            forall|j: int| 0 <= j < nodes@.len() ==> #[trigger] nodes@[j] == rev@[rev@.len() - 1 - j],
        decreases k,
    {
        k = k - 1;
        nodes.push(rev[k]);
    }
    proof {
        assert(node_positions(nodes@) =~= node_positions(rev@).reverse());
        assert forall|a: int, b: int| 0 <= a < b < node_positions(nodes@).len() implies node_positions(nodes@)[a]
            != node_positions(nodes@)[b] by {
            assert(nodes@[a] == rev@[rev@.len() - 1 - a] && nodes@[b] == rev@[rev@.len() - 1 - b]);
            assert(rev@[rev@.len() - 1 - a]@ != rev@[rev@.len() - 1 - b]@);
        }
        assert(walk_nodes(edges, direction, suffix, s as nat).reverse().reverse() =~= walk_nodes(edges, direction, suffix, s as nat));
        assert(costs@[s as int] == 0);
    }
    WeightedPath { nodes, total_cost: costs[t] }
}

/// A cheapest walk from `source` to `target` along outgoing edges, each
/// edge weighing what `edge_cost` returns for it.
///
/// Walks that weigh `u64::MAX` or more are not searched; `None` when the
/// nodes do not exist or no lighter walk joins them.
pub fn dijkstra<G: IndexGraphView, F: Fn(EdgeIndex) -> u64>(
    graph: &G,
    source: NodeIndex,
    target: NodeIndex,
    edge_cost: F,
) -> (r: Option<WeightedPath>)
    requires
        forall|e: EdgeIndex| edge_cost.requires((e,)),
    ensures
        exists|ws: Seq<u64>| {
            &&& is_total_weight_table(edge_cost, graph.spec_edges().len(), ws)
            &&& (r is Some <==> source@ < graph.spec_node_count() && target@ < graph.spec_node_count()
                && cheap_walk_exists(graph.spec_edges(), Direction::Outgoing, all_weighted(ws), source@, target@))
            &&& (r matches Some(p) ==> is_cheapest(graph.spec_edges(), Direction::Outgoing, all_weighted(ws), source@, target@,
                p.node_list(), p.cost() as nat))
            &&& (r matches Some(p) ==> p.node_list().no_duplicates())
        },
{
    let (weights, Ghost(ws)) = total_weight_table(graph, &edge_cost);
    dijkstra_with(graph, source, target, Direction::Outgoing, &weights)
}

/// A cheapest walk from `source` to `target` following edges in
/// `direction`, over the edges for which `edge_cost` returns a weight.
pub fn dijkstra_filtered<G: IndexGraphView, F: Fn(EdgeIndex) -> Option<u64>>(
    graph: &G,
    source: NodeIndex,
    target: NodeIndex,
    direction: Direction,
    edge_cost: F,
) -> (r: Option<WeightedPath>)
    requires
        forall|e: EdgeIndex| edge_cost.requires((e,)),
    ensures
        exists|ws: Seq<Option<u64>>| {
            &&& is_weight_table(edge_cost, graph.spec_edges().len(), ws)
            &&& (r is Some <==> source@ < graph.spec_node_count() && target@ < graph.spec_node_count()
                && cheap_walk_exists(graph.spec_edges(), direction, ws, source@, target@))
            &&& (r matches Some(p) ==> is_cheapest(graph.spec_edges(), direction, ws, source@, target@, p.node_list(), p.cost() as nat))
            &&& (r matches Some(p) ==> p.node_list().no_duplicates())
        },
{
    let weights = weight_table(graph, &edge_cost);
    dijkstra_with(graph, source, target, direction, &weights)
}

} // verus!

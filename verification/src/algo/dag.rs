//! Topological order and cycle detection.
use crate::algo::mask::{edge_mask, full_edge_mask};
use crate::digraph::{is_simple_cycle, 
    allowed, full_mask, has_edge, is_acyclic, is_cycle, is_edge_mask, is_topological_order,
    is_walk, lemma_cycle_not_acyclic, lemma_distinct_below, lemma_out_list, lemma_successors, out_list,
    succ_prefix, successors, valid_model,
};
use crate::index::{EdgeIndex, NodeIndex};
use crate::topology::{edge_positions, node_positions, IndexGraphView};
use vstd::prelude::*;

verus! {

broadcast use {crate::index::group_index_lemmas, crate::digraph::lemma_push_contains};

/// Allowed edges among the first `k` that enter `v` and are not yet consumed.
pub open spec fn pending(edges: Seq<(nat, nat)>, mask: Seq<bool>, consumed: Seq<bool>, v: nat, k: nat) -> nat
    decreases k,
{
    if k == 0 {
        0
    } else {
        pending(edges, mask, consumed, v, (k - 1) as nat) + if allowed(edges, mask, k - 1)
            && edges[k - 1].1 == v && !consumed[k - 1] {
            1nat
        } else {
            0nat
        }
    }
}

proof fn lemma_pending(edges: Seq<(nat, nat)>, mask: Seq<bool>, consumed: Seq<bool>, v: nat, k: nat)
    ensures
        pending(edges, mask, consumed, v, k) <= k,
        pending(edges, mask, consumed, v, k) == 0 <==> forall|e: int|
            0 <= e < k ==> !(#[trigger] allowed(edges, mask, e) && edges[e].1 == v && !consumed[e]),
    decreases k,
{
    if k > 0 {
        lemma_pending(edges, mask, consumed, v, (k - 1) as nat);
    }
}

proof fn lemma_pending_consume(
    edges: Seq<(nat, nat)>,
    mask: Seq<bool>,
    consumed: Seq<bool>,
    e0: int,
    v: nat,
    k: nat,
)
    requires
        0 <= e0 < consumed.len(),
        k <= consumed.len(),
        !consumed[e0],
        allowed(edges, mask, e0),
    ensures
        pending(edges, mask, consumed.update(e0, true), v, k) + (if e0 < k && edges[e0].1 == v { 1nat } else { 0nat })
            == pending(edges, mask, consumed, v, k),
    decreases k,
{
    if k > 0 {
        lemma_pending_consume(edges, mask, consumed, e0, v, (k - 1) as nat);
    }
}

/// Every node that is not in `done` has an allowed edge from a node that is
/// not in `done` either; then no topological order exists.
proof fn lemma_no_order(node_count: nat, edges: Seq<(nat, nat)>, mask: Seq<bool>, done: Seq<nat>)
    requires
        done.no_duplicates(),
        done.len() < node_count,
        forall|i: int| 0 <= i < done.len() ==> #[trigger] done[i] < node_count,
        forall|v: nat| v < node_count && !done.contains(v) ==> exists|e: int|
            #[trigger] allowed(edges, mask, e) && edges[e].1 == v && !done.contains(edges[e].0),
    ensures
        !is_acyclic(node_count, edges, mask),
{
    if is_acyclic(node_count, edges, mask) {
        let order = choose|order: Seq<nat>| is_topological_order(node_count, edges, mask, order);
        lemma_prefix_done(node_count, edges, mask, done, order, order.len());
        lemma_distinct_below(order, node_count);
        assert forall|v: nat| v < node_count implies #[trigger] done.contains(v) by {
            assert(order.contains(v));
            let i = choose|i: int| 0 <= i < order.len() && order[i] == v;
            assert(forall|i: int| 0 <= i < order.len() ==> done.contains(#[trigger] order[i]));
        }
        lemma_distinct_below(done, node_count);
    }
}

proof fn lemma_prefix_done(
    node_count: nat,
    edges: Seq<(nat, nat)>,
    mask: Seq<bool>,
    done: Seq<nat>,
    order: Seq<nat>,
    k: nat,
)
    requires
        is_topological_order(node_count, edges, mask, order),
        k <= order.len(),
        forall|v: nat| v < node_count && !done.contains(v) ==> exists|e: int|
            #[trigger] allowed(edges, mask, e) && edges[e].1 == v && !done.contains(edges[e].0),
    ensures
        forall|i: int| 0 <= i < k ==> done.contains(#[trigger] order[i]),
    decreases k,
{
    if k > 0 {
        lemma_prefix_done(node_count, edges, mask, done, order, (k - 1) as nat);
        let r = order[k - 1];
        if !done.contains(r) {
            let e = choose|e: int| #[trigger] allowed(edges, mask, e) && edges[e].1 == r && !done.contains(edges[e].0);
            let (a, b) = choose|a: int, b: int|
                0 <= a < b < order.len() && order[a] == edges[e].0 && order[b] == edges[e].1;
            assert(b == k - 1) by {
                assert(order.no_duplicates());
            }
            assert(done.contains(order[a]));
        }
    }
}

/// Kahn's algorithm over the edges that `mask` allows.
pub(crate) fn sort_with_mask<G: IndexGraphView>(graph: &G, mask: &Vec<bool>) -> (r: Option<Vec<NodeIndex>>)
    requires
        mask@.len() == graph.spec_edges().len(),
    ensures
        r is Some <==> is_acyclic(graph.spec_node_count(), graph.spec_edges(), mask@),
        r matches Some(order) ==> is_topological_order(
            graph.spec_node_count(),
            graph.spec_edges(),
            mask@,
            node_positions(order@),
        ),
{
    let n = graph.node_bound();
    let edge_count = graph.edge_bound();
    let ghost edges = graph.spec_edges();
    let ghost m = mask@;
    let ghost mut consumed: Seq<bool> = Seq::new(edges.len(), |i: int| false);

    let mut indegree: Vec<usize> = Vec::new();
    let mut v: usize = 0;
    while v < n
        invariant
            v <= n,
            indegree@.len() == v,
            forall|w: int| 0 <= w < v ==> indegree@[w] == 0,
        decreases n - v,
    {
        indegree.push(0);
        v = v + 1;
    }
    let mut e: usize = 0;
    while e < edge_count
        invariant
            e <= edge_count,
            n == graph.spec_node_count(),
            edge_count == edges.len(),
            edges == graph.spec_edges(),
            valid_model(n as nat, edges),
            m == mask@,
            m.len() == edges.len(),
            consumed == Seq::new(edges.len(), |i: int| false),
            indegree@.len() == n,
            forall|w: int| 0 <= w < n ==> #[trigger] indegree@[w] == pending(edges, m, consumed, w as nat, e as nat),
        decreases edge_count - e,
    {
        let edge = EdgeIndex::new(e as u32);
        if mask[e] {
            if let Some(endpoints) = graph.edge_endpoints(edge) {
                let target = endpoints.target().index();
                proof {
                    assert(edges[e as int].1 == target);
                    lemma_pending(edges, m, consumed, target as nat, e as nat);
                }
                indegree[target] = indegree[target] + 1;
            }
        }
        e = e + 1;
    }
    assert forall|w: int| 0 <= w < n implies #[trigger] indegree@[w] == pending(edges, m, consumed, w as nat, edges.len()) by {}

    let mut ready: Vec<NodeIndex> = Vec::new();
    let mut v: usize = 0;
    while v < n
        invariant
            v <= n,
            n == graph.spec_node_count(),
            n <= u32::MAX,
            indegree@.len() == n,
            forall|i: int| 0 <= i < ready@.len() ==> #[trigger] ready@[i]@ < v,
            forall|i: int, j: int| 0 <= i < j < ready@.len() ==> ready@[i]@ < ready@[j]@,
            forall|w: nat| w < n ==> (#[trigger] node_positions(ready@).contains(w) <==> (w < v && indegree@[w as int] == 0)),
        decreases n - v,
    {
        if indegree[v] == 0 {
            let ghost old_ready = ready@;
            ready.push(NodeIndex::new(v as u32));
            proof {
                assert(node_positions(ready@) =~= node_positions(old_ready).push(v as nat));
            }
        }
        v = v + 1;
    }
    assert(node_positions(ready@).no_duplicates());

    assert forall|j: int, f: int| 0 <= j < ready@.len() && #[trigger] allowed(edges, m, f) && edges[f].1 == #[trigger] ready@[j]@
        implies exists|i: int| 0 <= i < j && ready@[i]@ == edges[f].0 by {
        assert(node_positions(ready@)[j] == ready@[j]@);
        assert(node_positions(ready@).contains(ready@[j]@));
        assert(indegree@[ready@[j]@ as int] == 0);
        lemma_pending(edges, m, consumed, ready@[j]@, edges.len());
    }
    let mut order: Vec<NodeIndex> = Vec::new();
    let mut head: usize = 0;
    while head < ready.len()
        invariant
            n == graph.spec_node_count(),
            valid_model(n as nat, edges),
            edges == graph.spec_edges(),
            m == mask@,
            m.len() == edges.len(),
            consumed.len() == edges.len(),
            indegree@.len() == n,
            head <= ready@.len(),
            node_positions(ready@).no_duplicates(),
            forall|i: int| 0 <= i < ready@.len() ==> #[trigger] ready@[i]@ < n,
            order@ == ready@.subrange(0, head as int),
            forall|w: int| 0 <= w < n ==> #[trigger] indegree@[w] == pending(edges, m, consumed, w as nat, edges.len()),
            forall|w: nat| w < n ==> (#[trigger] node_positions(ready@).contains(w) <==> indegree@[w as int] == 0),
            forall|f: int| 0 <= f < edges.len() ==> (#[trigger] consumed[f] <==> (allowed(edges, m, f)
                && node_positions(ready@.subrange(0, head as int)).contains(edges[f].0))),
            forall|j: int, f: int| 0 <= j < ready@.len() && #[trigger] allowed(edges, m, f) && edges[f].1 == #[trigger] ready@[j]@
                ==> exists|i: int| 0 <= i < j && ready@[i]@ == edges[f].0,
        decreases n - head,
    {
        proof {
            lemma_distinct_below(node_positions(ready@), n as nat);
        }
        let node = ready[head];
        head = head + 1;
        order.push(node);
        let outgoing = graph.outgoing_edges(node);
        let ghost list = out_list(edges, node@);
        proof {
            lemma_out_list(edges, node@);
        }
        let ghost before = node_positions(ready@.subrange(0, head - 1));
        proof {
            assert(!before.contains(node@)) by {
                if before.contains(node@) {
                    let i = choose|i: int| 0 <= i < before.len() && before[i] == node@;
                    assert(node_positions(ready@)[i] == node_positions(ready@)[head - 1]);
                }
            }
            assert(node_positions(ready@.subrange(0, head as int)) =~= before.push(node@));
        }
        let mut j: usize = 0;
        while j < outgoing.len()
            invariant
                n == graph.spec_node_count(),
                valid_model(n as nat, edges),
                edges == graph.spec_edges(),
                m == mask@,
                m.len() == edges.len(),
                consumed.len() == edges.len(),
                indegree@.len() == n,
                0 < head <= ready@.len(),
                node == ready@[head - 1],
                order@ == ready@.subrange(0, head as int),
                before == node_positions(ready@.subrange(0, head - 1)),
                !before.contains(node@),
                node_positions(ready@.subrange(0, head as int)) == before.push(node@),
                edge_positions(outgoing@) == list,
                list == out_list(edges, node@),
                crate::digraph::strictly_increasing(list),
                forall|i: int| 0 <= i < list.len() ==> #[trigger] list[i] < edges.len() && edges[list[i] as int].0 == node@,
                forall|f: nat| f < edges.len() && edges[f as int].0 == node@ ==> #[trigger] list.contains(f),
                j <= outgoing@.len(),
                node_positions(ready@).no_duplicates(),
                forall|i: int| 0 <= i < ready@.len() ==> #[trigger] ready@[i]@ < n,
                forall|w: int| 0 <= w < n ==> #[trigger] indegree@[w] == pending(edges, m, consumed, w as nat, edges.len()),
                forall|w: nat| w < n ==> (#[trigger] node_positions(ready@).contains(w) <==> indegree@[w as int] == 0),
                forall|f: int| 0 <= f < edges.len() ==> (#[trigger] consumed[f] <==> (allowed(edges, m, f)
                    && (before.contains(edges[f].0) || list.subrange(0, j as int).contains(f as nat)))),
                forall|jj: int, f: int| 0 <= jj < ready@.len() && #[trigger] allowed(edges, m, f) && edges[f].1 == #[trigger] ready@[jj]@
                    ==> exists|i: int| 0 <= i < jj && ready@[i]@ == edges[f].0,
                head <= ready@.len() || true,
            decreases outgoing@.len() - j,
        {
            let edge = outgoing[j];
            let ghost f = edge@ as int;
            proof {
                assert(list[j as int] == edge@);
            }
            if mask[edge.index()] {
                if let Some(endpoints) = graph.edge_endpoints(edge) {
                    let target = endpoints.target();
                    let t = target.index();
                    proof {
                        assert(edges[f].1 == t);
                        assert(edges[f].0 == node@);
                        assert(!consumed[f]) by {
                            if list.subrange(0, j as int).contains(f as nat) {
                                let i = choose|i: int| 0 <= i < j && list[i] == f;
                            }
                        }
                        assert(allowed(edges, m, f));
                        lemma_pending(edges, m, consumed, t as nat, edges.len());
                        assert(!(allowed(edges, m, f) && edges[f].1 == t && !consumed[f]) == false);
                        assert(pending(edges, m, consumed, t as nat, edges.len()) > 0);
                        assert forall|w: int| 0 <= w < n implies #[trigger] pending(edges, m, consumed.update(f, true), w as nat, edges.len())
                            + (if edges[f].1 == w { 1nat } else { 0nat }) == pending(edges, m, consumed, w as nat, edges.len()) by {
                            lemma_pending_consume(edges, m, consumed, f, w as nat, edges.len());
                        }
                        consumed = consumed.update(f, true);
                    }
                    indegree[t] = indegree[t].saturating_sub(1);
                    if indegree[t] == 0 {
                        proof {
                            lemma_pending(edges, m, consumed, t as nat, edges.len());
                            assert(!node_positions(ready@).contains(t as nat));
                            assert forall|g: int| #[trigger] allowed(edges, m, g) && edges[g].1 == t implies
                                exists|i: int| 0 <= i < ready@.len() && ready@[i]@ == edges[g].0 by {
                                assert(consumed[g]);
                                if before.contains(edges[g].0) {
                                    let i = choose|i: int| 0 <= i < before.len() && before[i] == edges[g].0;
                                    assert(ready@[i]@ == edges[g].0);
                                } else {
                                    assert(ready@[head - 1]@ == edges[g].0);
                                }
                            }
                        }
                        let ghost old_ready = ready@;
                        ready.push(target);
                        proof {
                            assert(ready@.subrange(0, head as int) == old_ready.subrange(0, head as int));
                            assert(ready@.subrange(0, head - 1) == old_ready.subrange(0, head - 1));
                            assert forall|w: nat| w < n implies (#[trigger] node_positions(ready@).contains(w) <==> indegree@[w as int] == 0) by {
                                if w == t {
                                    assert(node_positions(ready@)[ready@.len() - 1] == w);
                                } else {
                                    if node_positions(ready@).contains(w) {
                                        let i = choose|i: int| 0 <= i < ready@.len() && node_positions(ready@)[i] == w;
                                        assert(node_positions(old_ready)[i] == w);
                                    }
                                    if node_positions(old_ready).contains(w) {
                                        let i = choose|i: int| 0 <= i < old_ready.len() && node_positions(old_ready)[i] == w;
                                        assert(node_positions(ready@)[i] == w);
                                    }
                                }
                            }
                            assert(node_positions(ready@) == node_positions(old_ready).push(t as nat));
                            assert forall|jj: int, g: int| 0 <= jj < ready@.len() && #[trigger] allowed(edges, m, g) && edges[g].1 == #[trigger] ready@[jj]@
                                implies exists|i: int| 0 <= i < jj && ready@[i]@ == edges[g].0 by {
                                if jj < old_ready.len() {
                                    assert(old_ready[jj] == ready@[jj]);
                                    let i = choose|i: int| 0 <= i < jj && old_ready[i]@ == edges[g].0;
                                    assert(ready@[i] == old_ready[i]);
                                } else {
                                    let i = choose|i: int| 0 <= i < old_ready.len() && old_ready[i]@ == edges[g].0;
                                    assert(ready@[i] == old_ready[i]);
                                }
                            }
                        }
                    } else {
                        proof {
                            lemma_pending(edges, m, consumed, t as nat, edges.len());
                        }
                    }
                }
            }
            proof {
                assert(list.subrange(0, j + 1) == list.subrange(0, j as int).push(list[j as int]));
                assert forall|g: int| 0 <= g < edges.len() implies (#[trigger] consumed[g] <==> (allowed(edges, m, g)
                    && (before.contains(edges[g].0) || list.subrange(0, j + 1).contains(g as nat)))) by {
                    if list.subrange(0, j as int).contains(g as nat) {
                        let i = choose|i: int| 0 <= i < j && list[i] == g;
                        assert(list.subrange(0, j + 1)[i] == g);
                    }
                }
            }
            j = j + 1;
        }
        proof {
            assert(list.subrange(0, j as int) == list);
            assert forall|f: int| 0 <= f < edges.len() implies (#[trigger] consumed[f] <==> (allowed(edges, m, f)
                && node_positions(ready@.subrange(0, head as int)).contains(edges[f].0))) by {
                let p = node_positions(ready@.subrange(0, head as int));
                if before.contains(edges[f].0) {
                    let i = choose|i: int| 0 <= i < before.len() && before[i] == edges[f].0;
                    assert(p[i] == edges[f].0);
                }
                if p.contains(edges[f].0) {
                    let i = choose|i: int| 0 <= i < p.len() && p[i] == edges[f].0;
                    if i < before.len() {
                        assert(before[i] == edges[f].0);
                    } else {
                        assert(edges[f].0 == node@);
                        if allowed(edges, m, f) {
                            assert(list.contains(f as nat));
                        }
                    }
                }
                if list.contains(f as nat) {
                    let i = choose|i: int| 0 <= i < list.len() && list[i] == f;
                }
            }
        }
    }
    let ghost done = node_positions(ready@);
    proof {
        assert(ready@.subrange(0, head as int) == ready@);
        lemma_distinct_below(done, n as nat);
        assert(order@ == ready@);
    }
    if order.len() == n {
        proof {
            let o = node_positions(order@);
            assert(o == done);
            assert forall|f: int| #[trigger] allowed(edges, m, f) implies exists|i: int, j: int|
                0 <= i < j < o.len() && o[i] == edges[f].0 && o[j] == edges[f].1 by {
                assert(edges[f].1 < n);
                assert(done.contains(edges[f].1));
                let j = choose|j: int| 0 <= j < done.len() && done[j] == edges[f].1;
                assert(ready@[j]@ == edges[f].1);
                let i = choose|i: int| 0 <= i < j && ready@[i]@ == edges[f].0;
                assert(o[i] == edges[f].0);
            }
            assert(is_topological_order(n as nat, edges, m, o));
        }
        Some(order)
    } else {
        proof {
            assert forall|w: nat| w < n && !done.contains(w) implies exists|f: int|
                #[trigger] allowed(edges, m, f) && edges[f].1 == w && !done.contains(edges[f].0) by {
                assert(indegree@[w as int] != 0);
                lemma_pending(edges, m, consumed, w, edges.len());
                let f = choose|f: int| 0 <= f < edges.len() && !!(#[trigger] allowed(edges, m, f) && edges[f].1 == w && !consumed[f]);
                assert(!done.contains(edges[f].0));
            }
            lemma_no_order(n as nat, edges, m, done);
        }
        None
    }
}

/// Orders all nodes so that every edge points forward (Kahn's algorithm,
/// ready nodes served first-in first-out).
///
/// Returns `None` exactly when the graph has a directed cycle.
pub fn topological_sort<G: IndexGraphView>(graph: &G) -> (r: Option<Vec<NodeIndex>>)
    ensures
        r is Some <==> is_acyclic(graph.spec_node_count(), graph.spec_edges(), full_mask(graph.spec_edges().len())),
        r matches Some(order) ==> is_topological_order(
            graph.spec_node_count(),
            graph.spec_edges(),
            full_mask(graph.spec_edges().len()),
            node_positions(order@),
        ),
{
    let mask = full_edge_mask(graph);
    sort_with_mask(graph, &mask)
}

/// Topological order over the edges that `allows_edge` accepts.
///
/// `allows_edge` is asked once per edge; the result is the topological
/// order, or its absence, of the graph of accepted edges.
pub fn topological_sort_filtered<G: IndexGraphView, F: Fn(EdgeIndex) -> bool>(graph: &G, allows_edge: F) -> (r: Option<Vec<NodeIndex>>)
    requires
        forall|e: EdgeIndex| allows_edge.requires((e,)),
    ensures
        exists|mask: Seq<bool>| {
            &&& is_edge_mask(allows_edge, graph.spec_edges().len(), mask)
            &&& (r is Some <==> is_acyclic(graph.spec_node_count(), graph.spec_edges(), mask))
            &&& (r matches Some(order) ==> is_topological_order(
                graph.spec_node_count(),
                graph.spec_edges(),
                mask,
                node_positions(order@),
            ))
        },
{
    let mask = edge_mask(graph, &allows_edge);
    sort_with_mask(graph, &mask)
}

/// Whether the graph has a directed cycle.
pub fn has_cycle<G: IndexGraphView>(graph: &G) -> (r: bool)
    ensures
        r == !is_acyclic(graph.spec_node_count(), graph.spec_edges(), full_mask(graph.spec_edges().len())),
{
    topological_sort(graph).is_none()
}

/// Whether the edges that `allows_edge` accepts form a directed cycle.
pub fn has_cycle_filtered<G: IndexGraphView, F: Fn(EdgeIndex) -> bool>(graph: &G, allows_edge: F) -> (r: bool)
    requires
        forall|e: EdgeIndex| allows_edge.requires((e,)),
    ensures
        exists|mask: Seq<bool>| {
            &&& is_edge_mask(allows_edge, graph.spec_edges().len(), mask)
            &&& r == !is_acyclic(graph.spec_node_count(), graph.spec_edges(), mask)
        },
{
    topological_sort_filtered(graph, allows_edge).is_none()
}


/// Nodes among the first `k` that are still unvisited (color zero).
pub open spec fn white_count(color: Seq<u8>, k: nat) -> nat
    decreases k,
{
    if k == 0 {
        0
    } else {
        white_count(color, (k - 1) as nat) + if color[k - 1] == 0 { 1nat } else { 0nat }
    }
}

proof fn lemma_white_update(color: Seq<u8>, t: int, x: u8, k: nat)
    requires
        0 <= t < color.len(),
        k <= color.len(),
    ensures
        color[t] == 0 && x != 0 ==> white_count(color.update(t, x), k) + (if t < k { 1nat } else { 0nat }) == white_count(color, k),
        (color[t] == 0) == (x == 0) ==> white_count(color.update(t, x), k) == white_count(color, k),
    decreases k,
{
    if k > 0 {
        lemma_white_update(color, t, x, (k - 1) as nat);
    }
}

/// Remaining work of the depth-first stack: unexplored successors plus one per frame.
pub open spec fn frame_work(edges: Seq<(nat, nat)>, mask: Seq<bool>, s: Seq<(NodeIndex, usize)>) -> nat
    decreases s.len(),
{
    if s.len() == 0 {
        0
    } else {
        frame_work(edges, mask, s.drop_last()) + (successors(edges, mask, s.last().0@).len() - s.last().1) as nat + 1
    }
}

/// Rebuilds the cycle that closes at `target` by walking parent links back from `node`.
fn reconstruct_cycle(
    node: NodeIndex,
    target: NodeIndex,
    parent: &Vec<Option<NodeIndex>>,
    Ghost(path): Ghost<Seq<NodeIndex>>,
) -> (r: Option<Vec<NodeIndex>>)
    requires
        path.len() >= 1,
        path[0] == target,
        path[path.len() - 1] == node,
        forall|a: int, b: int| 0 <= a < b < path.len() ==> path[a] != path[b],
        forall|j: int| 0 <= j < path.len() ==> (#[trigger] path[j])@ < parent@.len(),
        forall|j: int| 1 <= j < path.len() ==> parent@[(#[trigger] path[j])@ as int] == Some(path[j - 1]),
    ensures
        r matches Some(c) && c@ == path.push(target),
{
    let mut back: Vec<NodeIndex> = Vec::new();
    back.push(node);
    let mut cursor = node;
    let ghost mut idx: int = path.len() - 1;
    while cursor != target
        invariant
            0 <= idx < path.len(),
            cursor == path[idx],
            back@.len() == path.len() - idx,
            forall|j: int| 0 <= j < back@.len() ==> #[trigger] back@[j] == path[path.len() - 1 - j],
            path.len() >= 1,
            path[0] == target,
            forall|a: int, b: int| 0 <= a < b < path.len() ==> path[a] != path[b],
            forall|j: int| 0 <= j < path.len() ==> (#[trigger] path[j])@ < parent@.len(),
            forall|j: int| 1 <= j < path.len() ==> parent@[(#[trigger] path[j])@ as int] == Some(path[j - 1]),
        decreases idx,
    {
        assert(idx != 0);
        assert(parent@[path[idx]@ as int] == Some(path[idx - 1]));
        match parent[cursor.index()] {
            Some(previous) => {
                cursor = previous;
            },
            None => {
                return None;
            },
        }
        back.push(cursor);
        proof {
            idx = idx - 1;
        }
    }
    assert(idx == 0) by {
        if idx != 0 {
            assert(path[0] != path[idx]);
        }
    }
    let mut cycle: Vec<NodeIndex> = Vec::new();
    let mut i: usize = back.len();
    while i > 0
        invariant
            i <= back@.len(),
            back@.len() == path.len(),
            forall|j: int| 0 <= j < back@.len() ==> #[trigger] back@[j] == path[path.len() - 1 - j],
            cycle@.len() == back@.len() - i,
            forall|j: int| 0 <= j < cycle@.len() ==> #[trigger] cycle@[j] == path[j],
        decreases i,
    {
        i = i - 1;
        cycle.push(back[i]);
    }
    cycle.push(target);
    assert(cycle@ =~= path.push(target));
    Some(cycle)
}

/// Stack frame `k` reached frame `k + 1` through its last explored successor,
/// which recorded frame `k` as its parent.
spec fn frame_link(edges: Seq<(nat, nat)>, m: Seq<bool>, parent: Seq<Option<NodeIndex>>, stack: Seq<(NodeIndex, usize)>, k: int) -> bool {
    &&& stack[k].1 >= 1
    &&& successors(edges, m, stack[k].0@)[stack[k].1 - 1] == stack[k + 1].0@
    &&& parent[stack[k + 1].0@ as int] == Some(stack[k].0)
}

/// The invariant of the colored depth-first search: gray nodes are exactly
/// the stack nodes, each stack frame has explored a prefix of its successor
/// list (all black but the edge to the frame above), and the successors of
/// every black node are black and finished earlier.
#[verifier::opaque]
spec fn dfs_state(
    edges: Seq<(nat, nat)>,
    m: Seq<bool>,
    n: nat,
    color: Seq<u8>,
    parent: Seq<Option<NodeIndex>>,
    stack: Seq<(NodeIndex, usize)>,
    finish: Seq<nat>,
) -> bool {
    &&& color.len() == n
    &&& parent.len() == n
    &&& forall|w: int| 0 <= w < n ==> #[trigger] color[w] <= 2
    &&& forall|w: int| 0 <= w < n ==> (#[trigger] color[w] == 1 <==> exists|k: int| 0 <= k < stack.len() && stack[k].0@ == w)
    &&& forall|k1: int, k2: int| 0 <= k1 < k2 < stack.len() ==> stack[k1].0 != stack[k2].0
    &&& forall|k: int| 0 <= k < stack.len() ==> (#[trigger] stack[k]).0@ < n
        && stack[k].1 <= successors(edges, m, stack[k].0@).len()
    &&& forall|k: int| 0 <= k < stack.len() - 1 ==> #[trigger] frame_link(edges, m, parent, stack, k)
    &&& forall|k: int, i: int| 0 <= k < stack.len() && 0 <= i < (#[trigger] stack[k]).1
        && !(k < stack.len() - 1 && i == stack[k].1 - 1) ==>
        color[#[trigger] successors(edges, m, stack[k].0@)[i] as int] == 2
    &&& finish.no_duplicates()
    &&& forall|a: int| 0 <= a < finish.len() ==> #[trigger] finish[a] < n && color[finish[a] as int] == 2
    &&& forall|w: int| 0 <= w < n && #[trigger] color[w] == 2 ==> finish.contains(w as nat)
    &&& forall|w: int, i: int| 0 <= w < n && color[w] == 2 && 0 <= i < successors(edges, m, w as nat).len() ==>
        color[#[trigger] successors(edges, m, w as nat)[i] as int] == 2
        && exists|a: int, b: int| 0 <= a < b < finish.len() && finish[a] == successors(edges, m, w as nat)[i] && finish[b] == w
}

proof fn lemma_dfs_facts(
    edges: Seq<(nat, nat)>, m: Seq<bool>, n: nat,
    color: Seq<u8>, parent: Seq<Option<NodeIndex>>, stack: Seq<(NodeIndex, usize)>, finish: Seq<nat>,
)
    requires
        valid_model(n, edges),
        dfs_state(edges, m, n, color, parent, stack, finish),
    ensures
        color.len() == n,
        parent.len() == n,
        forall|w: int| 0 <= w < n ==> #[trigger] color[w] <= 2,
        forall|k: int| 0 <= k < stack.len() ==> (#[trigger] stack[k]).0@ < n
            && stack[k].1 <= successors(edges, m, stack[k].0@).len(),
        stack.len() == 0 ==> forall|w: int| 0 <= w < n ==> #[trigger] color[w] != 1,
{
    reveal(dfs_state);
}

proof fn lemma_dfs_start(
    edges: Seq<(nat, nat)>, m: Seq<bool>, n: nat,
    color: Seq<u8>, parent: Seq<Option<NodeIndex>>, finish: Seq<nat>, start: NodeIndex,
)
    requires
        valid_model(n, edges),
        dfs_state(edges, m, n, color, parent, Seq::empty(), finish),
        start@ < n,
        color[start@ as int] == 0,
    ensures
        dfs_state(edges, m, n, color.update(start@ as int, 1), parent, seq![(start, 0usize)], finish),
{
    reveal(dfs_state);
    let c2 = color.update(start@ as int, 1);
    let st = seq![(start, 0usize)];
    assert forall|w: int| 0 <= w < n implies (#[trigger] c2[w] == 1 <==> exists|k: int| 0 <= k < st.len() && st[k].0@ == w) by {
        if w == start@ {
            assert(st[0].0@ == w);
        }
    }
    assert forall|w: int, i: int| 0 <= w < n && c2[w] == 2 && 0 <= i < successors(edges, m, w as nat).len() implies
        c2[#[trigger] successors(edges, m, w as nat)[i] as int] == 2
        && exists|a: int, b: int| 0 <= a < b < finish.len() && finish[a] == successors(edges, m, w as nat)[i] && finish[b] == w by {
        assert(color[w] == 2);
    }
    assert forall|a: int| 0 <= a < finish.len() implies #[trigger] finish[a] < n && c2[finish[a] as int] == 2 by {
        assert(color[finish[a] as int] == 2);
    }
}

proof fn lemma_dfs_pop(
    edges: Seq<(nat, nat)>, m: Seq<bool>, n: nat,
    color: Seq<u8>, parent: Seq<Option<NodeIndex>>, stack: Seq<(NodeIndex, usize)>, finish: Seq<nat>,
)
    requires
        valid_model(n, edges),
        dfs_state(edges, m, n, color, parent, stack, finish),
        stack.len() > 0,
        stack.last().1 >= successors(edges, m, stack.last().0@).len(),
    ensures
        color[stack.last().0@ as int] == 1,
        dfs_state(edges, m, n, color.update(stack.last().0@ as int, 2), parent, stack.drop_last(), finish.push(stack.last().0@)),
        frame_work(edges, m, stack.drop_last()) < frame_work(edges, m, stack),
{
    reveal(dfs_state);
    let top = stack.len() - 1;
    let node = stack[top].0;
    let slot = node@ as int;
    let c2 = color.update(slot, 2);
    let s2 = stack.drop_last();
    let f2 = finish.push(node@);
    lemma_successors(n, edges, m, node@);
    assert(color[slot] == 1) by {
        assert(stack[top].0@ == slot);
    }
    assert(!finish.contains(node@)) by {
        if finish.contains(node@) {
            let a = choose|a: int| 0 <= a < finish.len() && finish[a] == node@;
            assert(color[finish[a] as int] == 2);
        }
    }
    assert forall|w: int| 0 <= w < n implies (#[trigger] c2[w] == 1 <==> exists|k: int| 0 <= k < s2.len() && s2[k].0@ == w) by {
        if w == slot {
            if exists|k: int| 0 <= k < s2.len() && s2[k].0@ == w {
                let k = choose|k: int| 0 <= k < s2.len() && s2[k].0@ == w;
                assert(stack[k].0 == stack[top].0);
            }
        } else {
            if color[w] == 1 {
                let k = choose|k: int| 0 <= k < stack.len() && stack[k].0@ == w;
                assert(k != top);
                assert(s2[k] == stack[k]);
            }
            if exists|k: int| 0 <= k < s2.len() && s2[k].0@ == w {
                let k = choose|k: int| 0 <= k < s2.len() && s2[k].0@ == w;
                assert(s2[k] == stack[k]);
            }
        }
    }
    assert forall|k: int| 0 <= k < s2.len() - 1 implies #[trigger] frame_link(edges, m, parent, s2, k) by {
        assert(frame_link(edges, m, parent, stack, k));
        assert(s2[k] == stack[k]);
        assert(s2[k + 1] == stack[k + 1]);
    }
    assert forall|k: int, i: int| 0 <= k < s2.len() && 0 <= i < (#[trigger] s2[k]).1
        && !(k < s2.len() - 1 && i == s2[k].1 - 1) implies
        c2[#[trigger] successors(edges, m, s2[k].0@)[i] as int] == 2 by {
        assert(s2[k] == stack[k]);
        if k == s2.len() - 1 && i == s2[k].1 - 1 {
            assert(frame_link(edges, m, parent, stack, k));
        } else {
            lemma_successors(n, edges, m, stack[k].0@);
            let s = successors(edges, m, stack[k].0@)[i];
            assert(0 <= i < stack[k].1);
            assert(color[s as int] == 2);
        }
    }
    assert forall|a: int| 0 <= a < f2.len() implies #[trigger] f2[a] < n && c2[f2[a] as int] == 2 by {
        if a < finish.len() {
            assert(color[finish[a] as int] == 2);
        }
    }
    assert forall|w: int| 0 <= w < n && #[trigger] c2[w] == 2 implies f2.contains(w as nat) by {
        if w != slot {
            assert(color[w] == 2);
            assert(finish.contains(w as nat));
        }
    }
    assert forall|w: int, i: int| 0 <= w < n && c2[w] == 2 && 0 <= i < successors(edges, m, w as nat).len() implies
        c2[#[trigger] successors(edges, m, w as nat)[i] as int] == 2
        && exists|a: int, b: int| 0 <= a < b < f2.len() && f2[a] == successors(edges, m, w as nat)[i] && f2[b] == w by {
        let s = successors(edges, m, w as nat)[i];
        if w == slot {
            assert(stack[top] == stack[top]);
            assert(0 <= i < stack[top].1);
            assert(color[s as int] == 2);
            assert(finish.contains(s));
            let a = choose|a: int| 0 <= a < finish.len() && finish[a] == s;
            assert(f2[a] == s && f2[finish.len() as int] == w);
        } else {
            assert(color[w] == 2);
            let (a, b) = choose|a: int, b: int| 0 <= a < b < finish.len() && finish[a] == s && finish[b] == w;
            assert(f2[a] == s && f2[b] == w);
        }
    }
}

#[verifier::spinoff_prover]
#[verifier::rlimit(40)]
proof fn lemma_dfs_skip(
    edges: Seq<(nat, nat)>, m: Seq<bool>, n: nat,
    color: Seq<u8>, parent: Seq<Option<NodeIndex>>, stack: Seq<(NodeIndex, usize)>, finish: Seq<nat>,
)
    requires
        valid_model(n, edges),
        dfs_state(edges, m, n, color, parent, stack, finish),
        stack.len() > 0,
        stack.last().1 < successors(edges, m, stack.last().0@).len(),
        color[successors(edges, m, stack.last().0@)[stack.last().1 as int] as int] == 2,
    ensures
        dfs_state(edges, m, n, color, parent, stack.update(stack.len() - 1, (stack.last().0, (stack.last().1 + 1) as usize)), finish),
        frame_work(edges, m, stack.update(stack.len() - 1, (stack.last().0, (stack.last().1 + 1) as usize))) < frame_work(edges, m, stack),
{
    reveal(dfs_state);
    let top = stack.len() - 1;
    lemma_successors(n, edges, m, stack[top].0@);
    let s2 = stack.update(top, (stack[top].0, (stack[top].1 + 1) as usize));
    assert(s2.drop_last() == stack.drop_last());
    assert(s2.last() == (stack[top].0, (stack[top].1 + 1) as usize));
    assert(frame_work(edges, m, s2) == frame_work(edges, m, s2.drop_last())
        + (successors(edges, m, s2.last().0@).len() - s2.last().1) as nat + 1);
    assert forall|w: int| 0 <= w < n implies (#[trigger] color[w] == 1 <==> exists|k: int| 0 <= k < s2.len() && s2[k].0@ == w) by {
        if color[w] == 1 {
            let k = choose|k: int| 0 <= k < stack.len() && stack[k].0@ == w;
            assert(s2[k].0 == stack[k].0);
        }
        if exists|k: int| 0 <= k < s2.len() && s2[k].0@ == w {
            let k = choose|k: int| 0 <= k < s2.len() && s2[k].0@ == w;
            assert(s2[k].0 == stack[k].0);
        }
    }
    assert forall|k1: int, k2: int| 0 <= k1 < k2 < s2.len() implies s2[k1].0 != s2[k2].0 by {
        assert(s2[k1].0 == stack[k1].0 && s2[k2].0 == stack[k2].0);
    }
    assert forall|k: int| 0 <= k < s2.len() implies (#[trigger] s2[k]).0@ < n
        && s2[k].1 <= successors(edges, m, s2[k].0@).len() by {
        assert(stack[k] == stack[k]);
    }
    assert forall|k: int| 0 <= k < s2.len() - 1 implies #[trigger] frame_link(edges, m, parent, s2, k) by {
        assert(frame_link(edges, m, parent, stack, k));
        assert(s2[k] == stack[k]);
        assert(s2[k + 1].0 == stack[k + 1].0);
    }
    assert forall|k: int, i: int| 0 <= k < s2.len() && 0 <= i < (#[trigger] s2[k]).1
        && !(k < s2.len() - 1 && i == s2[k].1 - 1) implies
        color[#[trigger] successors(edges, m, s2[k].0@)[i] as int] == 2 by {
        if k < top {
            assert(s2[k] == stack[k]);
        } else if i < stack[top].1 {
            assert(stack[top] == stack[top]);
        }
    }
}

#[verifier::spinoff_prover]
#[verifier::rlimit(40)]
proof fn lemma_dfs_push(
    edges: Seq<(nat, nat)>, m: Seq<bool>, n: nat,
    color: Seq<u8>, parent: Seq<Option<NodeIndex>>, stack: Seq<(NodeIndex, usize)>, finish: Seq<nat>,
    target: NodeIndex,
)
    requires
        valid_model(n, edges),
        dfs_state(edges, m, n, color, parent, stack, finish),
        stack.len() > 0,
        stack.last().1 < successors(edges, m, stack.last().0@).len(),
        target@ == successors(edges, m, stack.last().0@)[stack.last().1 as int],
        color[target@ as int] == 0,
    ensures
        target@ < n,
        dfs_state(
            edges, m, n,
            color.update(target@ as int, 1),
            parent.update(target@ as int, Some(stack.last().0)),
            stack.update(stack.len() - 1, (stack.last().0, (stack.last().1 + 1) as usize)).push((target, 0usize)),
            finish,
        ),
{
    reveal(dfs_state);
    let top = stack.len() - 1;
    let node = stack[top].0;
    let next = stack[top].1;
    lemma_successors(n, edges, m, node@);
    let t = target@ as int;
    let c2 = color.update(t, 1);
    let p2 = parent.update(t, Some(node));
    let mid = stack.update(top, (node, (next + 1) as usize));
    let s2 = mid.push((target, 0usize));
    assert forall|k: int| 0 <= k < stack.len() implies stack[k].0 != target by {
        if stack[k].0 == target {
            assert(color[t] == 1);
        }
    }
    assert forall|w: int| 0 <= w < n implies (#[trigger] c2[w] == 1 <==> exists|k: int| 0 <= k < s2.len() && s2[k].0@ == w) by {
        if w == t {
            assert(s2[s2.len() - 1].0@ == w);
        } else {
            if color[w] == 1 {
                let k = choose|k: int| 0 <= k < stack.len() && stack[k].0@ == w;
                assert(s2[k].0 == stack[k].0);
            }
            if exists|k: int| 0 <= k < s2.len() && s2[k].0@ == w {
                let k = choose|k: int| 0 <= k < s2.len() && s2[k].0@ == w;
                assert(k < stack.len());
                assert(s2[k].0 == stack[k].0);
            }
        }
    }
    assert forall|k1: int, k2: int| 0 <= k1 < k2 < s2.len() implies s2[k1].0 != s2[k2].0 by {
        assert(s2[k1].0 == stack[k1].0);
        if k2 < stack.len() {
            assert(s2[k2].0 == stack[k2].0);
        }
    }
    assert forall|k: int| 0 <= k < s2.len() implies (#[trigger] s2[k]).0@ < n
        && s2[k].1 <= successors(edges, m, s2[k].0@).len() by {
        if k < stack.len() {
            assert(stack[k] == stack[k]);
        }
    }
    assert forall|k: int| 0 <= k < s2.len() - 1 implies #[trigger] frame_link(edges, m, p2, s2, k) by {
        if k < top {
            assert(frame_link(edges, m, parent, stack, k));
            assert(s2[k] == stack[k]);
            assert(s2[k + 1].0 == stack[k + 1].0);
            assert(stack[k + 1].0@ != t);
        }
    }
    assert forall|k: int, i: int| 0 <= k < s2.len() && 0 <= i < (#[trigger] s2[k]).1
        && !(k < s2.len() - 1 && i == s2[k].1 - 1) implies
        c2[#[trigger] successors(edges, m, s2[k].0@)[i] as int] == 2 by {
        if k < top {
            assert(s2[k] == stack[k]);
        } else {
            assert(stack[top] == stack[top]);
        }
        lemma_successors(n, edges, m, s2[k].0@);
        let s = successors(edges, m, s2[k].0@)[i];
        assert(color[s as int] == 2);
    }
    assert forall|a: int| 0 <= a < finish.len() implies #[trigger] finish[a] < n && c2[finish[a] as int] == 2 by {
        assert(color[finish[a] as int] == 2);
    }
    assert forall|w: int| 0 <= w < n && #[trigger] c2[w] == 2 implies finish.contains(w as nat) by {
        assert(color[w] == 2);
    }
    assert forall|w: int, i: int| 0 <= w < n && c2[w] == 2 && 0 <= i < successors(edges, m, w as nat).len() implies
        c2[#[trigger] successors(edges, m, w as nat)[i] as int] == 2
        && exists|a: int, b: int| 0 <= a < b < finish.len() && finish[a] == successors(edges, m, w as nat)[i] && finish[b] == w by {
        assert(color[w] == 2);
    }
}

proof fn lemma_dfs_gray(
    edges: Seq<(nat, nat)>, m: Seq<bool>, n: nat,
    color: Seq<u8>, parent: Seq<Option<NodeIndex>>, stack: Seq<(NodeIndex, usize)>, finish: Seq<nat>,
) -> (k: int)
    requires
        valid_model(n, edges),
        dfs_state(edges, m, n, color, parent, stack, finish),
        stack.len() > 0,
        stack.last().1 < successors(edges, m, stack.last().0@).len(),
        color[successors(edges, m, stack.last().0@)[stack.last().1 as int] as int] == 1,
    ensures
        0 <= k < stack.len(),
        stack[k].0@ == successors(edges, m, stack.last().0@)[stack.last().1 as int],
        forall|a: int, b: int| k <= a < b < stack.len() ==> stack[a].0 != stack[b].0,
        forall|j: int| k <= j < stack.len() ==> (#[trigger] stack[j]).0@ < n,
        forall|j: int| k <= j < stack.len() - 1 ==> parent[(#[trigger] stack[j + 1]).0@ as int] == Some(stack[j].0)
            && has_edge(edges, m, stack[j].0@, stack[j + 1].0@),
        has_edge(edges, m, stack.last().0@, successors(edges, m, stack.last().0@)[stack.last().1 as int]),
{
    reveal(dfs_state);
    let t = successors(edges, m, stack.last().0@)[stack.last().1 as int];
    lemma_successors(n, edges, m, stack.last().0@);
    let k = choose|k: int| 0 <= k < stack.len() && stack[k].0@ == t;
    assert forall|j: int| k <= j < stack.len() - 1 implies parent[(#[trigger] stack[j + 1]).0@ as int] == Some(stack[j].0)
        && has_edge(edges, m, stack[j].0@, stack[j + 1].0@) by {
        assert(frame_link(edges, m, parent, stack, j));
        lemma_successors(n, edges, m, stack[j].0@);
        assert(has_edge(edges, m, stack[j].0@, successors(edges, m, stack[j].0@)[stack[j].1 - 1]));
    }
    k
}


/// For every node, the targets of the allowed edges that leave it, in edge
/// order.
pub(crate) fn successor_lists<G: IndexGraphView>(graph: &G, mask: &Vec<bool>) -> (r: Vec<Vec<NodeIndex>>)
    requires
        mask@.len() == graph.spec_edges().len(),
    ensures
        r@.len() == graph.spec_node_count(),
        forall|w: int| 0 <= w < graph.spec_node_count() ==> node_positions(#[trigger] r@[w]@) == successors(graph.spec_edges(), mask@, w as nat),
{
    let n = graph.node_bound();
    let edge_count = graph.edge_bound();
    let ghost edges = graph.spec_edges();
    let ghost m = mask@;
    let mut adjacency: Vec<Vec<NodeIndex>> = Vec::new();
    let mut v: usize = 0;
    while v < n
        invariant
            v <= n,
            adjacency@.len() == v,
            forall|w: int| 0 <= w < v ==> (#[trigger] adjacency@[w])@.len() == 0,
        decreases n - v,
    {
        adjacency.push(Vec::new());
        v = v + 1;
    }
    let mut e: usize = 0;
    while e < edge_count
        invariant
            e <= edge_count,
            n == graph.spec_node_count(),
            edge_count == edges.len(),
            edges == graph.spec_edges(),
            valid_model(n as nat, edges),
            m == mask@,
            m.len() == edges.len(),
            adjacency@.len() == n,
            forall|w: int| 0 <= w < n ==> node_positions(#[trigger] adjacency@[w]@) == succ_prefix(edges, m, w as nat, e as nat),
        decreases edge_count - e,
    {
        if mask[e] {
            if let Some(endpoints) = graph.edge_endpoints(EdgeIndex::new(e as u32)) {
                let source = endpoints.source().index();
                let ghost old_adj = adjacency@;
                adjacency[source].push(endpoints.target());
                proof {
                    assert forall|w: int| 0 <= w < n implies node_positions(#[trigger] adjacency@[w]@)
                        == succ_prefix(edges, m, w as nat, (e + 1) as nat) by {
                        if w == source {
                            assert(node_positions(adjacency@[w]@) =~= node_positions(old_adj[w]@).push(edges[e as int].1));
                        } else {
                            assert(adjacency@[w] == old_adj[w]);
                        }
                    }
                }
            }
        }
        e = e + 1;
    }
    adjacency
}

/// Depth-first search with white/gray/black colors over the allowed edges.
fn find_with_mask<G: IndexGraphView>(graph: &G, mask: &Vec<bool>) -> (r: Option<Vec<NodeIndex>>)
    requires
        mask@.len() == graph.spec_edges().len(),
    ensures
        r matches Some(c) ==> is_cycle(graph.spec_edges(), mask@, node_positions(c@)),
        r matches Some(c) ==> is_simple_cycle(node_positions(c@)),
        r is None ==> is_acyclic(graph.spec_node_count(), graph.spec_edges(), mask@),
{
    let n = graph.node_bound();
    let ghost edges = graph.spec_edges();
    let ghost m = mask@;
    let adjacency = successor_lists(graph, mask);

    let mut color: Vec<u8> = Vec::new();
    let mut parent: Vec<Option<NodeIndex>> = Vec::new();
    let mut v: usize = 0;
    while v < n
        invariant
            v <= n,
            color@.len() == v,
            parent@.len() == v,
            forall|w: int| 0 <= w < v ==> color@[w] == 0,
        decreases n - v,
    {
        color.push(0);
        parent.push(None);
        v = v + 1;
    }
    let ghost mut finish: Seq<nat> = Seq::empty();
    proof {
        reveal(dfs_state);
    }

    let mut start: usize = 0;
    while start < n
        invariant
            start <= n,
            n == graph.spec_node_count(),
            n <= u32::MAX,
            valid_model(n as nat, edges),
            edges == graph.spec_edges(),
            m == mask@,
            m.len() == edges.len(),
            adjacency@.len() == n,
            forall|w: int| 0 <= w < n ==> node_positions(#[trigger] adjacency@[w]@) == successors(edges, m, w as nat),
            color@.len() == n,
            parent@.len() == n,
            dfs_state(edges, m, n as nat, color@, parent@, Seq::empty(), finish),
            forall|w: int| 0 <= w < start ==> #[trigger] color@[w] != 0,
        decreases n - start,
    {
        if color[start] != 0 {
            start = start + 1;
            continue;
        }
        let first = NodeIndex::new(start as u32);
        proof {
            lemma_dfs_start(edges, m, n as nat, color@, parent@, finish, first);
            lemma_white_update(color@, start as int, 1, n as nat);
        }
        color[start] = 1;
        let mut stack: Vec<(NodeIndex, usize)> = Vec::new();
        stack.push((first, 0));
        proof {
            assert(stack@ == seq![(first, 0usize)]);
        }
        while stack.len() > 0
            invariant
                start < n,
                n == graph.spec_node_count(),
                n <= u32::MAX,
                valid_model(n as nat, edges),
                edges == graph.spec_edges(),
                m == mask@,
                m.len() == edges.len(),
                adjacency@.len() == n,
                forall|w: int| 0 <= w < n ==> node_positions(#[trigger] adjacency@[w]@) == successors(edges, m, w as nat),
                color@.len() == n,
                parent@.len() == n,
                dfs_state(edges, m, n as nat, color@, parent@, stack@, finish),
                forall|w: int| 0 <= w <= start ==> #[trigger] color@[w] != 0,
            decreases white_count(color@, n as nat), frame_work(edges, m, stack@),
        {
            let top = stack.len() - 1;
            let (node, next) = stack[top];
            let slot = node.index();
            proof {
                lemma_dfs_facts(edges, m, n as nat, color@, parent@, stack@, finish);
                assert(stack@[top as int].0@ < n);
                assert(node_positions(adjacency@[slot as int]@) == successors(edges, m, node@));
            }
            if next >= adjacency[slot].len() {
                proof {
                    lemma_dfs_pop(edges, m, n as nat, color@, parent@, stack@, finish);
                    lemma_white_update(color@, slot as int, 2, n as nat);
                    finish = finish.push(node@);
                }
                color[slot] = 2;
                stack.pop();
                continue;
            }
            let target = adjacency[slot][next];
            let ts = target.index();
            proof {
                assert(node_positions(adjacency@[slot as int]@)[next as int] == target@);
                lemma_successors(n as nat, edges, m, node@);
            }
            if color[ts] == 0 {
                proof {
                    lemma_dfs_push(edges, m, n as nat, color@, parent@, stack@, finish, target);
                    lemma_white_update(color@, ts as int, 1, n as nat);
                }
                stack.set(top, (node, next + 1));
                parent.set(ts, Some(node));
                color.set(ts, 1);
                stack.push((target, 0));
            } else if color[ts] == 1 {
                let ghost k = lemma_dfs_gray(edges, m, n as nat, color@, parent@, stack@, finish);
                let ghost path = Seq::new((stack@.len() - k) as nat, |j: int| stack@[k + j].0);
                proof {
                    assert(path[0] == target);
                    assert forall|j: int| 1 <= j < path.len() implies parent@[(#[trigger] path[j])@ as int] == Some(path[j - 1]) by {
                        assert(parent@[stack@[(k + j - 1) + 1].0@ as int] == Some(stack@[k + j - 1].0));
                    }
                    assert forall|j: int| 0 <= j < path.len() implies (#[trigger] path[j])@ < parent@.len() by {
                        assert(stack@[k + j].0@ < n);
                    }
                }
                let result = reconstruct_cycle(node, target, &parent, Ghost(path));
                proof {
                    let c = result.unwrap()@;
                    let p = node_positions(c);
                    assert forall|i: int| 0 <= i < p.len() - 1 implies #[trigger] has_edge(edges, m, p[i], p[i + 1]) by {
                        if i < path.len() - 1 {
                            assert(has_edge(edges, m, stack@[k + i].0@, stack@[(k + i) + 1].0@));
                        }
                    }
                    assert forall|a: int, b: int| 0 <= a < b < p.len() - 1 implies p[a] != p[b] by {
                        assert(p[a] == path[a]@ && p[b] == path[b]@);
                        assert(path[a] != path[b]);
                    }
                }
                return result;
            } else {
                proof {
                    lemma_dfs_skip(edges, m, n as nat, color@, parent@, stack@, finish);
                }
                stack.set(top, (node, next + 1));
            }
        }
        proof {
            lemma_dfs_facts(edges, m, n as nat, color@, parent@, stack@, finish);
            assert(stack@ == Seq::<(NodeIndex, usize)>::empty());
        }
        start = start + 1;
    }
    proof {
        reveal(dfs_state);
        lemma_dfs_facts(edges, m, n as nat, color@, parent@, Seq::empty(), finish);
        assert forall|w: nat| w < n implies #[trigger] finish.contains(w) by {
            assert(color@[w as int] == 2);
        }
        lemma_distinct_below(finish, n as nat);
        let order = Seq::new(n as nat, |i: int| finish[n - 1 - i]);
        assert(order.no_duplicates()) by {
            assert forall|i: int, j: int| 0 <= i < j < order.len() implies order[i] != order[j] by {
                assert(finish[n - 1 - i] != finish[n - 1 - j]);
            }
        }
        assert forall|f: int| #[trigger] allowed(edges, m, f) implies exists|i: int, j: int|
            0 <= i < j < order.len() && order[i] == edges[f].0 && order[j] == edges[f].1 by {
            let u = edges[f].0;
            lemma_successors(n as nat, edges, m, u);
            assert(successors(edges, m, u).contains(edges[f].1));
            let i = choose|i: int| 0 <= i < successors(edges, m, u).len() && successors(edges, m, u)[i] == edges[f].1;
            assert(color@[u as int] == 2);
            let (a, b) = choose|a: int, b: int| 0 <= a < b < finish.len() && finish[a] == successors(edges, m, u as nat)[i] && finish[b] == u;
            assert(order[n - 1 - b] == u);
            assert(order[n - 1 - a] == edges[f].1);
        }
        assert(is_topological_order(n as nat, edges, m, order));
    }
    None
}

/// Finds one directed cycle by depth-first search from each unvisited node in
/// node order, or `None` when the graph is acyclic.
///
/// A found cycle lists its nodes along the edges and repeats its first node
/// at the end.
pub fn find_cycle<G: IndexGraphView>(graph: &G) -> (r: Option<Vec<NodeIndex>>)
    ensures
        r matches Some(c) ==> is_cycle(graph.spec_edges(), full_mask(graph.spec_edges().len()), node_positions(c@))
            && is_simple_cycle(node_positions(c@)),
        r is None <==> is_acyclic(graph.spec_node_count(), graph.spec_edges(), full_mask(graph.spec_edges().len())),
{
    let mask = full_edge_mask(graph);
    let r = find_with_mask(graph, &mask);
    proof {
        if r is Some {
            lemma_cycle_not_acyclic(graph.spec_node_count(), graph.spec_edges(), mask@, node_positions(r->0@));
        }
    }
    r
}

/// Finds one directed cycle among the edges that `allows_edge` accepts.
pub fn find_cycle_filtered<G: IndexGraphView, F: Fn(EdgeIndex) -> bool>(graph: &G, allows_edge: F) -> (r: Option<Vec<NodeIndex>>)
    requires
        forall|e: EdgeIndex| allows_edge.requires((e,)),
    ensures
        exists|mask: Seq<bool>| {
            &&& is_edge_mask(allows_edge, graph.spec_edges().len(), mask)
            &&& (r matches Some(c) ==> is_cycle(graph.spec_edges(), mask, node_positions(c@)) && is_simple_cycle(node_positions(c@)))
            &&& (r is None <==> is_acyclic(graph.spec_node_count(), graph.spec_edges(), mask))
        },
{
    let mask = edge_mask(graph, &allows_edge);
    let r = find_with_mask(graph, &mask);
    proof {
        if r is Some {
            lemma_cycle_not_acyclic(graph.spec_node_count(), graph.spec_edges(), mask@, node_positions(r->0@));
        }
    }
    r
}

} // verus!

//! Maximum flow by Dinic's blocking flows, with its residual cut.
use crate::digraph::{allowed, has_edge, reaches, valid_model};
use crate::error::{GraphError, Result};
use crate::index::{EdgeIndex, NodeIndex};
use crate::reach::{both, lemma_closed_reach, lemma_reaches_refl, lemma_reaches_step, undirected};
use crate::topology::{edge_positions, node_positions, IndexGraphView};
use vstd::prelude::*;

verus! {

broadcast use {crate::index::group_index_lemmas, crate::digraph::lemma_push_contains};

/// Flow leaving `v` minus flow entering it, over the first `k` edges.
pub open spec fn net_prefix(edges: Seq<(nat, nat)>, flows: Seq<u64>, v: nat, k: nat) -> int
    decreases k,
{
    if k == 0 {
        0
    } else {
        net_prefix(edges, flows, v, (k - 1) as nat) + (if edges[k - 1].0 == v { flows[k - 1] as int } else { 0 }) - (
        if edges[k - 1].1 == v {
            flows[k - 1] as int
        } else {
            0
        })
    }
}

/// Flow leaving `v` minus flow entering it.
pub open spec fn net_flow(edges: Seq<(nat, nat)>, flows: Seq<u64>, v: nat) -> int {
    net_prefix(edges, flows, v, edges.len())
}

/// `flows` is a flow from `s` to `t`: within every capacity, and conserved
/// at every other node.
pub open spec fn is_flow(n: nat, edges: Seq<(nat, nat)>, caps: Seq<u64>, flows: Seq<u64>, s: nat, t: nat) -> bool {
    &&& flows.len() == edges.len()
    &&& caps.len() == edges.len()
    &&& forall|e: int| 0 <= e < edges.len() ==> #[trigger] flows[e] <= caps[e]
    &&& forall|v: nat| v < n && v != s && v != t ==> #[trigger] net_flow(edges, flows, v) == 0
}

/// Which copies of the edges still carry residual capacity: edge `e`
/// forward while below capacity, and backward while it carries flow.
pub open spec fn residual_mask(caps: Seq<u64>, flows: Seq<u64>) -> Seq<bool> {
    Seq::new(caps.len(), |e: int| flows[e] < caps[e]) + Seq::new(caps.len(), |e: int| flows[e] > 0)
}

/// `v` is reached from `s` in the residual graph.
pub open spec fn residual_reaches(edges: Seq<(nat, nat)>, caps: Seq<u64>, flows: Seq<u64>, s: nat, v: nat) -> bool {
    reaches(undirected(edges), residual_mask(caps, flows), s, v)
}

/// Changing the flow of one edge changes the net flow only at its ends.
proof fn lemma_net_update(edges: Seq<(nat, nat)>, flows: Seq<u64>, e0: int, x: u64, v: nat, k: nat)
    requires
        0 <= e0 < flows.len(),
        k <= edges.len(),
        flows.len() == edges.len(),
    ensures
        net_prefix(edges, flows.update(e0, x), v, k) == net_prefix(edges, flows, v, k) + (if e0 < k {
            (if edges[e0].0 == v { x - flows[e0] } else { 0 }) - (if edges[e0].1 == v { x - flows[e0] } else { 0 })
        } else {
            0
        }),
    decreases k,
{
    if k > 0 {
        lemma_net_update(edges, flows, e0, x, v, (k - 1) as nat);
    }
}

/// An edge of the level graph: residual edge `edge` followed forward
/// (along the edge) or backward, to `target`.
#[derive(Clone, Copy)]
struct LevelEdge {
    edge: usize,
    target: usize,
    forward: bool,
}

/// `le` leaves `v` along a residual copy of its edge and climbs one level.
spec fn level_edge_ok(n: nat, edges: Seq<(nat, nat)>, levels: Seq<Option<usize>>, v: int, le: LevelEdge) -> bool {
    &&& le.edge < edges.len()
    &&& le.target < n
    &&& levels[v] is Some
    &&& levels[le.target as int] == Some((levels[v]->0 + 1) as usize)
    &&& (le.forward ==> edges[le.edge as int] == (v as nat, le.target as nat))
    &&& (!le.forward ==> edges[le.edge as int] == (le.target as nat, v as nat))
}

/// The level graph and its levels.
spec fn levels_ok(n: nat, edges: Seq<(nat, nat)>, levels: Seq<Option<usize>>, level_edges: Seq<Vec<LevelEdge>>) -> bool {
    &&& levels.len() == n
    &&& level_edges.len() == n
    &&& forall|v: int| 0 <= v < n && (#[trigger] levels[v]) is Some ==> levels[v]->0 < n
    &&& forall|v: int, i: int| 0 <= v < n && 0 <= i < level_edges[v]@.len()
        ==> #[trigger] level_edge_ok(n, edges, levels, v, level_edges[v]@[i])
}

/// The state of the breadth-first search while `queue[head]` is expanded.
spec fn bfs_state(
    n: nat,
    edges: Seq<(nat, nat)>,
    s: nat,
    levels: Seq<Option<usize>>,
    level_edges: Seq<Vec<LevelEdge>>,
    queue: Seq<usize>,
) -> bool {
    &&& valid_model(n, edges)
    &&& levels.len() == n
    &&& level_edges.len() == n
    &&& s < n
    &&& levels[s as int] == Some(0usize)
    &&& queue.no_duplicates()
    &&& forall|i: int| 0 <= i < queue.len() ==> (#[trigger] queue[i]) < n && levels[queue[i] as int] is Some
        && levels[queue[i] as int]->0 <= i
    &&& forall|v: int| 0 <= v < n && (#[trigger] levels[v]) is Some ==> queue.contains(v as usize)
    &&& forall|v: int, i: int| 0 <= v < n && 0 <= i < level_edges[v]@.len()
        ==> #[trigger] level_edge_ok(n, edges, levels, v, level_edges[v]@[i])
}

/// Every level edge has capacity left, and every labelled node but `s`
/// is the target of a level edge.
spec fn level_graph_facts(
    n: nat,
    caps: Seq<u64>,
    flows: Seq<u64>,
    s: nat,
    levels: Seq<Option<usize>>,
    level_edges: Seq<Vec<LevelEdge>>,
) -> bool {
    &&& forall|v: int, i: int| 0 <= v < n && 0 <= i < level_edges[v]@.len()
        ==> residual_of(caps, flows, #[trigger] level_edges[v]@[i]) > 0
    &&& forall|v: int| 0 <= v < n && v != s && (#[trigger] levels[v]) is Some ==> exists|u: int, i: int|
        0 <= u < n && 0 <= i < level_edges[u]@.len() && (#[trigger] level_edges[u]@[i]).target == v
}

proof fn lemma_queue_bound(n: nat, queue: Seq<usize>)
    requires
        queue.no_duplicates(),
        forall|i: int| 0 <= i < queue.len() ==> (#[trigger] queue[i]) < n,
    ensures
        queue.len() <= n,
{
    let qs = queue.map_values(|x: usize| x as nat);
    assert(qs.no_duplicates()) by {
        assert forall|a: int, b: int| 0 <= a < b < qs.len() implies qs[a] != qs[b] by {
            assert(queue[a] != queue[b]);
        }
    }
    assert forall|j: int| 0 <= j < qs.len() implies #[trigger] qs[j] < n by {
        assert(queue[j] < n);
    }
    crate::digraph::lemma_distinct_below(qs, n);
}

/// Follows the residual copy of edge `e` from `u` to `target`: labels
/// `target` one level above `u` if it is new, and records the level edge
/// when it climbs exactly one level.
fn visit(
    n: usize,
    Ghost(edges): Ghost<Seq<(nat, nat)>>,
    s: usize,
    u: usize,
    lu: usize,
    e: usize,
    target: usize,
    forward: bool,
    head: usize,
    levels: &mut Vec<Option<usize>>,
    level_edges: &mut Vec<Vec<LevelEdge>>,
    queue: &mut Vec<usize>,
    Ghost(caps): Ghost<Seq<u64>>,
    Ghost(flows): Ghost<Seq<u64>>,
)
    requires
        bfs_state(n as nat, edges, s as nat, old(levels)@, old(level_edges)@, old(queue)@),
        level_graph_facts(n as nat, caps, flows, s as nat, old(levels)@, old(level_edges)@),
        residual_of(caps, flows, LevelEdge { edge: e, target, forward }) > 0,
        head < old(queue)@.len(),
        head < n,
        u == old(queue)@[head as int],
        old(levels)@[u as int] == Some(lu),
        lu <= head,
        e < edges.len(),
        target < n,
        forward ==> edges[e as int] == (u as nat, target as nat),
        !forward ==> edges[e as int] == (target as nat, u as nat),
    ensures
        bfs_state(n as nat, edges, s as nat, final(levels)@, final(level_edges)@, final(queue)@),
        final(queue)@.len() >= old(queue)@.len(),
        forall|i: int| 0 <= i < old(queue)@.len() ==> final(queue)@[i] == old(queue)@[i],
        final(levels)@[u as int] == Some(lu),
        level_graph_facts(n as nat, caps, flows, s as nat, final(levels)@, final(level_edges)@),
        final(levels)@[target as int] is Some,
        forall|v: int| 0 <= v < n && (#[trigger] old(levels)@[v]) is Some ==> final(levels)@[v] == old(levels)@[v],
{
    if levels[target].is_none() {
        let ghost before = queue@;
        let ghost before_levels = levels@;
        proof {
            if queue@.contains(target) {
                let i = choose|i: int| 0 <= i < queue@.len() && queue@[i] == target;
                assert(levels@[queue@[i] as int] is Some);
            }
        }
        levels.set(target, Some(lu + 1));
        queue.push(target);
        proof {
            assert(target != s);
            assert(levels@[s as int] == before_levels[s as int]);
            assert forall|a: int, b: int| 0 <= a < b < queue@.len() implies queue@[a] != queue@[b] by {
                if b == before.len() {
                    assert(before.contains(before[a]));
                }
            }
            assert forall|i: int| 0 <= i < queue@.len() implies (#[trigger] queue@[i]) < n && levels@[queue@[i] as int] is Some
                && levels@[queue@[i] as int]->0 <= i by {
                if i < before.len() {
                    assert(queue@[i] == before[i]);
                    assert(before_levels[before[i] as int] is Some);
                }
            }
            assert forall|v: int| 0 <= v < n && (#[trigger] levels@[v]) is Some implies queue@.contains(v as usize) by {
                if v != target {
                    assert(before_levels[v] is Some);
                    assert(before.contains(v as usize));
                } else {
                    assert(queue@[before.len() as int] == target);
                }
            }
            assert forall|v: int, i: int| 0 <= v < n && 0 <= i < level_edges@[v]@.len()
                implies #[trigger] level_edge_ok(n as nat, edges, levels@, v, level_edges@[v]@[i]) by {
                let le = level_edges@[v]@[i];
                assert(level_edge_ok(n as nat, edges, before_levels, v, le));
                assert(v != target);
                assert(le.target != target);
            }
        }
    }
    if levels[target] == Some(lu + 1) {
        let ghost before = level_edges@;
        let le = LevelEdge { edge: e, target, forward };
        level_edges[u].push(le);
        proof {
            assert forall|v: int, i: int| 0 <= v < n && 0 <= i < level_edges@[v]@.len()
                implies residual_of(caps, flows, #[trigger] level_edges@[v]@[i]) > 0 by {
                if v != u {
                    assert(level_edges@[v] == before[v]);
                } else if i < before[v]@.len() {
                    assert(level_edges@[v]@[i] == before[v]@[i]);
                }
            }
            assert forall|v: int| 0 <= v < n && v != s && (#[trigger] levels@[v]) is Some implies exists|w: int, i: int|
                0 <= w < n && 0 <= i < level_edges@[w]@.len() && (#[trigger] level_edges@[w]@[i]).target == v by {
                if v == target {
                    assert(level_edges@[u as int]@[before[u as int]@.len() as int] == le);
                } else {
                    assert(old(levels)@[v] is Some);
                    assert(before == old(level_edges)@);
                    assert(exists|w: int, i: int| 0 <= w < n && 0 <= i < before[w]@.len() && (#[trigger] before[w]@[i]).target == v);
                    let (w, i) = choose|w: int, i: int| 0 <= w < n && 0 <= i < before[w]@.len() && (#[trigger] before[w]@[i]).target == v;
                    if w == u {
                        assert(level_edges@[w]@[i] == before[w]@[i]);
                    } else {
                        assert(level_edges@[w] == before[w]);
                    }
                }
            }
            assert(level_edges@.len() == before.len());
            assert(level_edges@[u as int]@ == before[u as int]@.push(le));
            assert forall|v: int, i: int| 0 <= v < n && 0 <= i < level_edges@[v]@.len()
                implies #[trigger] level_edge_ok(n as nat, edges, levels@, v, level_edges@[v]@[i]) by {
                if v != u {
                    assert(level_edges@[v] == before[v]);
                } else if i < before[v]@.len() {
                    assert(level_edges@[v]@[i] == before[v]@[i]);
                }
            }
        }
    }
}

/// Breadth-first levels from `s` over the residual edges, and the edges
/// that climb exactly one level.
fn build_levels<G: IndexGraphView>(graph: &G, s: usize, caps: &Vec<u64>, flows: &Vec<u64>) -> (r: (Vec<Option<usize>>, Vec<Vec<LevelEdge>>))
    requires
        s < graph.spec_node_count(),
        caps@.len() == graph.spec_edges().len(),
        flows@.len() == graph.spec_edges().len(),
    ensures
        levels_ok(graph.spec_node_count(), graph.spec_edges(), r.0@, r.1@),
        r.0@[s as int] == Some(0usize),
        level_graph_facts(graph.spec_node_count(), caps@, flows@, s as nat, r.0@, r.1@),
        forall|v: nat| v < graph.spec_node_count() && residual_reaches(graph.spec_edges(), caps@, flows@, s as nat, v)
            ==> r.0@[v as int] is Some,
{
    let n = graph.node_bound();
    let ghost edges = graph.spec_edges();
    let mut levels: Vec<Option<usize>> = Vec::new();
    let mut level_edges: Vec<Vec<LevelEdge>> = Vec::new();
    let mut i: usize = 0;
    while i < n
        invariant
            i <= n,
            levels@.len() == i,
            level_edges@.len() == i,
            forall|v: int| 0 <= v < i ==> (#[trigger] levels@[v]) is None && level_edges@[v]@.len() == 0,
        decreases n - i,
    {
        levels.push(None);
        level_edges.push(Vec::new());
        i = i + 1;
    }
    let ghost blank = levels@;
    levels.set(s, Some(0));
    let mut queue: Vec<usize> = Vec::new();
    queue.push(s);
    let mut head: usize = 0;
    proof {
        assert forall|v: int, i: int| 0 <= v < n && 0 <= i < level_edges@[v]@.len()
            implies residual_of(caps@, flows@, #[trigger] level_edges@[v]@[i]) > 0 by {
            assert(blank[v] is None);
        }
        assert forall|v: int| 0 <= v < n && v != s && (#[trigger] levels@[v]) is Some implies exists|u: int, i: int|
            0 <= u < n && 0 <= i < level_edges@[u]@.len() && (#[trigger] level_edges@[u]@[i]).target == v by {}
    }
    while head < queue.len()
        invariant
            n == graph.spec_node_count(),
            edges == graph.spec_edges(),
            caps@.len() == edges.len(),
            flows@.len() == edges.len(),
            head <= queue@.len(),
            bfs_state(n as nat, edges, s as nat, levels@, level_edges@, queue@),
            level_graph_facts(n as nat, caps@, flows@, s as nat, levels@, level_edges@),
            forall|j: int, w: nat| 0 <= j < head && w < n
                && #[trigger] has_edge(undirected(edges), residual_mask(caps@, flows@), queue@[j] as nat, w) ==> levels@[w as int] is Some,
        decreases n - head,
    {
        proof {
            lemma_queue_bound(n as nat, queue@);
        }
        let u = queue[head];
        let lu = levels[u].unwrap();
        let node = NodeIndex::new(u as u32);
        let out = graph.outgoing_edges(node);
        let ghost q0 = queue@;
        let ghost l0 = levels@;
        let mut k: usize = 0;
        while k < out.len()
            invariant
                n == graph.spec_node_count(),
                edges == graph.spec_edges(),
                caps@.len() == edges.len(),
                flows@.len() == edges.len(),
                head < queue@.len(),
                head < n,
                u == queue@[head as int],
                node@ == u,
                levels@[u as int] == Some(lu),
                lu <= head,
                edge_positions(out@) == crate::digraph::out_list(edges, u as nat),
                bfs_state(n as nat, edges, s as nat, levels@, level_edges@, queue@),
                k <= out@.len(),
                level_graph_facts(n as nat, caps@, flows@, s as nat, levels@, level_edges@),
                queue@.len() >= q0.len(),
                forall|i: int| 0 <= i < q0.len() ==> #[trigger] queue@[i] == q0[i],
                forall|v: int| 0 <= v < n && (#[trigger] l0[v]) is Some ==> levels@[v] == l0[v],
                forall|i: int| 0 <= i < k && flows@[out@[i]@ as int] < caps@[out@[i]@ as int]
                    ==> levels@[edges[#[trigger] out@[i]@ as int].1 as int] is Some,
            decreases out@.len() - k,
        {
            let e = out[k];
            proof {
                crate::digraph::lemma_out_list(edges, u as nat);
                assert(edge_positions(out@)[k as int] == out@[k as int]@);
            }
            let ei = e.index();
            let ghost lb = levels@;
            if caps[ei] > flows[ei] {
                let ends = graph.edge_endpoints(e).unwrap();
                let target = ends.target().index();
                proof {
                    assert(edges[ei as int].0 < n && edges[ei as int].1 < n);
                }
                visit(n, Ghost(edges), s, u, lu, ei, target, true, head, &mut levels, &mut level_edges, &mut queue, Ghost(caps@), Ghost(flows@));
            }
            proof {
                assert forall|i: int| 0 <= i < k + 1 && flows@[out@[i]@ as int] < caps@[out@[i]@ as int]
                    implies levels@[edges[#[trigger] out@[i]@ as int].1 as int] is Some by {
                    if i < k {
                        crate::digraph::lemma_out_list(edges, u as nat);
                        assert(edge_positions(out@)[i] == out@[i]@);
                        assert(edges[out@[i]@ as int].1 < n);
                        assert(lb[edges[out@[i]@ as int].1 as int] is Some);
                    }
                }
            }
            k = k + 1;
        }
        proof {
            crate::digraph::lemma_out_list(edges, u as nat);
            assert forall|e: int| 0 <= e < edges.len() && edges[e].0 == u && flows@[e] < caps@[e]
                implies levels@[edges[e].1 as int] is Some by {
                assert(crate::digraph::out_list(edges, u as nat).contains(e as nat));
                let i = choose|i: int| 0 <= i < out@.len() && crate::digraph::out_list(edges, u as nat)[i] == e as nat;
                assert(edge_positions(out@)[i] == out@[i]@);
            }
        }
        let inc = graph.incoming_edges(node);
        let mut k: usize = 0;
        while k < inc.len()
            invariant
                n == graph.spec_node_count(),
                edges == graph.spec_edges(),
                caps@.len() == edges.len(),
                flows@.len() == edges.len(),
                head < queue@.len(),
                head < n,
                u == queue@[head as int],
                node@ == u,
                levels@[u as int] == Some(lu),
                lu <= head,
                edge_positions(inc@) == crate::digraph::in_list(edges, u as nat),
                bfs_state(n as nat, edges, s as nat, levels@, level_edges@, queue@),
                k <= inc@.len(),
                level_graph_facts(n as nat, caps@, flows@, s as nat, levels@, level_edges@),
                queue@.len() >= q0.len(),
                forall|i: int| 0 <= i < q0.len() ==> #[trigger] queue@[i] == q0[i],
                forall|v: int| 0 <= v < n && (#[trigger] l0[v]) is Some ==> levels@[v] == l0[v],
                forall|e: int| 0 <= e < edges.len() && #[trigger] edges[e].0 == u && flows@[e] < caps@[e]
                    ==> levels@[edges[e].1 as int] is Some,
                forall|i: int| 0 <= i < k && flows@[inc@[i]@ as int] > 0
                    ==> levels@[edges[#[trigger] inc@[i]@ as int].0 as int] is Some,
            decreases inc@.len() - k,
        {
            let e = inc[k];
            proof {
                crate::digraph::lemma_in_list(edges, u as nat);
                assert(edge_positions(inc@)[k as int] == inc@[k as int]@);
            }
            let ei = e.index();
            let ghost lb = levels@;
            if flows[ei] > 0 {
                let ends = graph.edge_endpoints(e).unwrap();
                let target = ends.source().index();
                proof {
                    assert(edges[ei as int].0 < n && edges[ei as int].1 < n);
                }
                visit(n, Ghost(edges), s, u, lu, ei, target, false, head, &mut levels, &mut level_edges, &mut queue, Ghost(caps@), Ghost(flows@));
            }
            proof {
                assert forall|i: int| 0 <= i < k + 1 && flows@[inc@[i]@ as int] > 0
                    implies levels@[edges[#[trigger] inc@[i]@ as int].0 as int] is Some by {
                    if i < k {
                        crate::digraph::lemma_in_list(edges, u as nat);
                        assert(edge_positions(inc@)[i] == inc@[i]@);
                        assert(edges[inc@[i]@ as int].0 < n);
                        assert(lb[edges[inc@[i]@ as int].0 as int] is Some);
                    }
                }
                assert forall|e: int| 0 <= e < edges.len() && #[trigger] edges[e].0 == u && flows@[e] < caps@[e]
                    implies levels@[edges[e].1 as int] is Some by {
                    assert(lb[edges[e].1 as int] is Some);
                }
            }
            k = k + 1;
        }
        proof {
            crate::digraph::lemma_in_list(edges, u as nat);
            assert forall|j: int, w: nat| 0 <= j < head + 1 && w < n
                && #[trigger] has_edge(undirected(edges), residual_mask(caps@, flows@), queue@[j] as nat, w) implies levels@[w as int] is Some by {
                if j < head {
                    assert(queue@[j] == q0[j]);
                    assert(l0[w as int] is Some);
                } else {
                    lemma_residual_edge(edges, caps@, flows@, u as nat, w);
                    let e = choose|e: int| 0 <= e < edges.len() && ((#[trigger] edges[e] == (u as nat, w) && flows@[e] < caps@[e])
                        || (edges[e] == (w, u as nat) && flows@[e] > 0));
                    if !(edges[e] == (u as nat, w) && flows@[e] < caps@[e]) {
                        assert(crate::digraph::in_list(edges, u as nat).contains(e as nat));
                        let i = choose|i: int| 0 <= i < inc@.len() && crate::digraph::in_list(edges, u as nat)[i] == e as nat;
                        assert(edge_positions(inc@)[i] == inc@[i]@);
                    }
                }
            }
        }
        head = head + 1;
    }
    proof {
        lemma_queue_bound(n as nat, queue@);
        assert forall|v: int| 0 <= v < n && (#[trigger] levels@[v]) is Some implies levels@[v]->0 < n by {
            let i = choose|i: int| 0 <= i < queue@.len() && queue@[i] == v as usize;
        }
        let inside = |v: nat| v < n && levels@[v as int] is Some;
        assert forall|a: nat, b: nat| inside(a) && #[trigger] has_edge(undirected(edges), residual_mask(caps@, flows@), a, b)
            implies inside(b) by {
            let j = choose|j: int| 0 <= j < queue@.len() && queue@[j] == a as usize;
            lemma_residual_edge(edges, caps@, flows@, a, b);
            let e = choose|e: int| 0 <= e < edges.len() && ((#[trigger] edges[e] == (a, b) && flows@[e] < caps@[e])
                || (edges[e] == (b, a) && flows@[e] > 0));
            assert(b < n);
        }
        assert forall|v: nat| v < n && residual_reaches(edges, caps@, flows@, s as nat, v) implies levels@[v as int] is Some by {
            lemma_closed_reach(undirected(edges), residual_mask(caps@, flows@), inside, s as nat, v);
        }
    }
    (levels, level_edges)
}

/// The capacity left on a level edge.
spec fn residual_of(caps: Seq<u64>, flows: Seq<u64>, le: LevelEdge) -> int {
    if le.forward {
        caps[le.edge as int] - flows[le.edge as int]
    } else {
        flows[le.edge as int] as int
    }
}

fn residual(caps: &Vec<u64>, flows: &Vec<u64>, le: LevelEdge) -> (r: u64)
    requires
        le.edge < caps@.len(),
        caps@.len() == flows@.len(),
        forall|e: int| 0 <= e < flows@.len() ==> #[trigger] flows@[e] <= caps@[e],
    ensures
        r == residual_of(caps@, flows@, le),
{
    if le.forward {
        caps[le.edge] - flows[le.edge]
    } else {
        flows[le.edge]
    }
}

/// Level edges not yet passed over by the search pointers of the first `k` nodes.
spec fn remaining(level_edges: Seq<Vec<LevelEdge>>, next: Seq<usize>, k: nat) -> nat
    decreases k,
{
    if k == 0 {
        0
    } else {
        remaining(level_edges, next, (k - 1) as nat) + (level_edges[k - 1]@.len() - next[k - 1]) as nat
    }
}

proof fn lemma_remaining_advance(level_edges: Seq<Vec<LevelEdge>>, next: Seq<usize>, v: int, k: nat)
    requires
        0 <= v < next.len(),
        k <= next.len(),
        next[v] < level_edges[v]@.len(),
        next[v] + 1 <= usize::MAX,
        forall|w: int| 0 <= w < next.len() ==> #[trigger] next[w] <= level_edges[w]@.len(),
    ensures
        remaining(level_edges, next.update(v, (next[v] + 1) as usize), k) == remaining(level_edges, next, k) - (if v < k { 1int } else { 0 }),
        v < k ==> remaining(level_edges, next, k) >= 1,
    decreases k,
{
    if k > 0 {
        lemma_remaining_advance(level_edges, next, v, (k - 1) as nat);
        let nx = next.update(v, (next[v] + 1) as usize);
        let w = k - 1;
        assert(next[w] <= level_edges[w]@.len());
        if w == v {
            assert(nx[w] == next[w] + 1);
            assert((level_edges[w]@.len() - nx[w]) as nat == (level_edges[w]@.len() - next[w]) as nat - 1);
        } else {
            assert(nx[w] == next[w]);
        }
    }
}

/// The search path: it starts at `s`, climbs one level per step along
/// level edges with capacity left, and each step is the current choice
/// of the node it leaves.
spec fn path_ok(
    n: nat,
    edges: Seq<(nat, nat)>,
    caps: Seq<u64>,
    flows: Seq<u64>,
    levels: Seq<Option<usize>>,
    level_edges: Seq<Vec<LevelEdge>>,
    next: Seq<usize>,
    s: nat,
    nodes: Seq<usize>,
    path: Seq<LevelEdge>,
) -> bool {
    &&& nodes.len() == path.len() + 1
    &&& nodes.len() <= n
    &&& nodes[0] == s
    &&& forall|i: int| 0 <= i < nodes.len() ==> (#[trigger] nodes[i]) < n && levels[nodes[i] as int] == Some(i as usize)
    &&& forall|i: int| 0 <= i < path.len() ==> #[trigger] step_ok(caps, flows, level_edges, next, nodes, path, i)
}

/// Step `i` of the search path is the current choice of the node it
/// leaves, ends at the next node, and has capacity left.
spec fn step_ok(
    caps: Seq<u64>,
    flows: Seq<u64>,
    level_edges: Seq<Vec<LevelEdge>>,
    next: Seq<usize>,
    nodes: Seq<usize>,
    path: Seq<LevelEdge>,
    i: int,
) -> bool {
    &&& next[nodes[i] as int] < level_edges[nodes[i] as int]@.len()
    &&& level_edges[nodes[i] as int]@[next[nodes[i] as int] as int] == path[i]
    &&& path[i].target == nodes[i + 1]
    &&& residual_of(caps, flows, path[i]) > 0
}

/// Two steps of a search path use different edges: their levels differ.
proof fn lemma_path_edges_distinct(
    n: nat,
    edges: Seq<(nat, nat)>,
    caps: Seq<u64>,
    flows: Seq<u64>,
    levels: Seq<Option<usize>>,
    level_edges: Seq<Vec<LevelEdge>>,
    next: Seq<usize>,
    s: nat,
    nodes: Seq<usize>,
    path: Seq<LevelEdge>,
    i: int,
    j: int,
)
    requires
        n <= u32::MAX,
        levels_ok(n, edges, levels, level_edges),
        path_ok(n, edges, caps, flows, levels, level_edges, next, s, nodes, path),
        0 <= i < j < path.len(),
    ensures
        path[i].edge != path[j].edge,
{
    assert(step_ok(caps, flows, level_edges, next, nodes, path, i));
    assert(step_ok(caps, flows, level_edges, next, nodes, path, j));
    let a = nodes[i] as int;
    let b = nodes[j] as int;
    let a1 = nodes[i + 1] as int;
    let b1 = nodes[j + 1] as int;
    assert(0 <= a < n && 0 <= b < n && 0 <= a1 < n && 0 <= b1 < n);
    assert(levels[a] == Some(i as usize));
    assert(levels[a1] == Some((i + 1) as usize));
    assert(levels[b] == Some(j as usize));
    assert(levels[b1] == Some((j + 1) as usize));
    let pi = path[i];
    let pj = path[j];
    assert(next[a] < level_edges[a]@.len() && level_edges[a]@[next[a] as int] == pi && pi.target == a1);
    assert(next[b] < level_edges[b]@.len() && level_edges[b]@[next[b] as int] == pj && pj.target == b1);
    assert(level_edge_ok(n, edges, levels, a, level_edges[a]@[next[a] as int]));
    assert(level_edge_ok(n, edges, levels, b, level_edges[b]@[next[b] as int]));
    if pi.edge == pj.edge {
        let e = pi.edge as int;
        let p = edges[e].0 as int;
        let q = edges[e].1 as int;
        // the ends of the edge have levels {i, i + 1} and {j, j + 1} at once
        if pi.forward {
            assert(p == a && q == a1);
        } else {
            assert(p == a1 && q == a);
        }
        if pj.forward {
            assert(p == b && q == b1);
        } else {
            assert(p == b1 && q == b);
        }
        assert(false);
    }
}

/// Following one path step moves `amount` of net flow from its start to its end.
proof fn lemma_step_net(edges: Seq<(nat, nat)>, before: Seq<u64>, e0: int, x: u64, a: nat, b: nat, amount: int, forward: bool)
    requires
        0 <= e0 < before.len(),
        before.len() == edges.len(),
        forward ==> edges[e0] == (a, b) && x == before[e0] + amount,
        !forward ==> edges[e0] == (b, a) && x == before[e0] - amount,
        a != b,
    ensures
        forall|v: nat| #[trigger] net_flow(edges, before.update(e0, x), v) == net_flow(edges, before, v)
            + (if v == a { amount } else { 0 }) - (if v == b { amount } else { 0 }),
{
    assert forall|v: nat| #[trigger] net_flow(edges, before.update(e0, x), v) == net_flow(edges, before, v)
        + (if v == a { amount } else { 0 }) - (if v == b { amount } else { 0 }) by {
        lemma_net_update(edges, before, e0, x, v, edges.len());
    }
}

/// Pushes the least capacity left along the path that reached `t`.
fn push_along(
    Ghost(n): Ghost<nat>,
    Ghost(edges): Ghost<Seq<(nat, nat)>>,
    s: usize,
    t: usize,
    nodes: &Vec<usize>,
    path: &Vec<LevelEdge>,
    caps: &Vec<u64>,
    flows: &mut Vec<u64>,
    Ghost(levels): Ghost<Seq<Option<usize>>>,
    Ghost(level_edges): Ghost<Seq<Vec<LevelEdge>>>,
    Ghost(next): Ghost<Seq<usize>>,
) -> (amount: u64)
    requires
        valid_model(n, edges),
        levels_ok(n, edges, levels, level_edges),
        path_ok(n, edges, caps@, old(flows)@, levels, level_edges, next, s as nat, nodes@, path@),
        is_flow(n, edges, caps@, old(flows)@, s as nat, t as nat),
        nodes@[nodes@.len() - 1] == t,
        s != t,
    ensures
        is_flow(n, edges, caps@, final(flows)@, s as nat, t as nat),
        net_flow(edges, final(flows)@, s as nat) == net_flow(edges, old(flows)@, s as nat) + amount,
        amount > 0,
{
    let ghost f0 = flows@;
    proof {
        let a = nodes@[0] as int;
        assert(step_ok(caps@, f0, level_edges, next, nodes@, path@, 0));
        assert(level_edges[a]@[next[a] as int] == path@[0]);
        assert(level_edge_ok(n, edges, levels, a, level_edges[a]@[next[a] as int]));
    }
    let mut amount = residual(caps, flows, path[0]);
    let mut i: usize = 1;
    while i < path.len()
        invariant
            1 <= i <= path@.len(),
            flows@ == f0,
            caps@.len() == edges.len(),
            f0.len() == edges.len(),
            forall|e: int| 0 <= e < f0.len() ==> #[trigger] f0[e] <= caps@[e],
            levels_ok(n, edges, levels, level_edges),
            path_ok(n, edges, caps@, f0, levels, level_edges, next, s as nat, nodes@, path@),
            amount > 0,
            forall|k: int| 0 <= k < i ==> amount <= residual_of(caps@, f0, #[trigger] path@[k]),
        decreases path@.len() - i,
    {
        proof {
            let a = nodes@[i as int] as int;
            assert(step_ok(caps@, f0, level_edges, next, nodes@, path@, i as int));
            assert(level_edges[a]@[next[a] as int] == path@[i as int]);
            assert(level_edge_ok(n, edges, levels, a, level_edges[a]@[next[a] as int]));
        }
        let r = residual(caps, flows, path[i]);
        if r < amount {
            amount = r;
        }
        i = i + 1;
    }
    let mut j: usize = 0;
    while j < path.len()
        invariant
            0 <= j <= path@.len(),
            caps@.len() == edges.len(),
            f0.len() == edges.len(),
            flows@.len() == edges.len(),
            valid_model(n, edges),
            levels_ok(n, edges, levels, level_edges),
            path_ok(n, edges, caps@, f0, levels, level_edges, next, s as nat, nodes@, path@),
            is_flow(n, edges, caps@, f0, s as nat, t as nat),
            forall|k: int| 0 <= k < path@.len() ==> amount <= residual_of(caps@, f0, #[trigger] path@[k]),
            forall|e: int| 0 <= e < flows@.len() ==> #[trigger] flows@[e] <= caps@[e],
            forall|k: int| j <= k < path@.len() ==> flows@[(#[trigger] path@[k]).edge as int] == f0[path@[k].edge as int],
            forall|v: nat| v < n ==> #[trigger] net_flow(edges, flows@, v) == net_flow(edges, f0, v)
                + (if v == s { amount as int } else { 0 }) - (if v == nodes@[j as int] { amount as int } else { 0 }),
        decreases path@.len() - j,
    {
        let le = path[j];
        let ghost before = flows@;
        proof {
            let a = nodes@[j as int] as int;
            assert(step_ok(caps@, f0, level_edges, next, nodes@, path@, j as int));
            assert(level_edges[a]@[next[a] as int] == path@[j as int]);
            assert(level_edge_ok(n, edges, levels, a, level_edges[a]@[next[a] as int]));
            assert(levels[nodes@[j as int] as int] == Some(j as usize));
            assert(levels[nodes@[j + 1] as int] == Some((j + 1) as usize));
            assert(flows@[le.edge as int] == f0[le.edge as int]);
            assert(amount <= residual_of(caps@, f0, path@[j as int]));
        }
        if le.forward {
            let x = flows[le.edge] + amount;
            flows.set(le.edge, x);
        } else {
            let x = flows[le.edge] - amount;
            flows.set(le.edge, x);
        }
        proof {
            let e0 = le.edge as int;
            assert(flows@ == before.update(e0, flows@[e0]));
            lemma_step_net(edges, before, e0, flows@[e0], nodes@[j as int] as nat, nodes@[j + 1] as nat, amount as int, le.forward);
            assert forall|v: nat| v < n implies #[trigger] net_flow(edges, flows@, v) == net_flow(edges, f0, v)
                + (if v == s { amount as int } else { 0 }) - (if v == nodes@[j + 1] { amount as int } else { 0 }) by {
                assert(net_flow(edges, before.update(e0, flows@[e0]), v) == net_flow(edges, before, v)
                    + (if v == nodes@[j as int] { amount as int } else { 0 }) - (if v == nodes@[j + 1] { amount as int } else { 0 }));
            }
            assert forall|k: int| j + 1 <= k < path@.len() implies flows@[(#[trigger] path@[k]).edge as int] == f0[path@[k].edge as int] by {
                lemma_path_edges_distinct(n, edges, caps@, f0, levels, level_edges, next, s as nat, nodes@, path@, j as int, k);
                let ak = nodes@[k] as int;
                assert(step_ok(caps@, f0, level_edges, next, nodes@, path@, k));
                assert(level_edges[ak]@[next[ak] as int] == path@[k]);
                assert(level_edge_ok(n, edges, levels, ak, level_edges[ak]@[next[ak] as int]));
                assert(before[path@[k].edge as int] == f0[path@[k].edge as int]);
                assert(flows@[path@[k].edge as int] == before[path@[k].edge as int]);
            }
        }
        j = j + 1;
    }
    proof {
        assert forall|v: nat| v < n && v != s && v != t implies #[trigger] net_flow(edges, flows@, v) == 0 by {
            assert(net_flow(edges, flows@, v) == net_flow(edges, f0, v));
        }
    }
    amount
}

/// Moving the pointer of the top node keeps the path: no earlier node of
/// the path is the top node.
proof fn lemma_path_keeps(
    n: nat,
    edges: Seq<(nat, nat)>,
    caps: Seq<u64>,
    flows: Seq<u64>,
    levels: Seq<Option<usize>>,
    level_edges: Seq<Vec<LevelEdge>>,
    next: Seq<usize>,
    s: nat,
    nodes: Seq<usize>,
    path: Seq<LevelEdge>,
    x: usize,
)
    requires
        n <= u32::MAX,
        path_ok(n, edges, caps, flows, levels, level_edges, next, s, nodes, path),
        next.len() == n,
    ensures
        path_ok(n, edges, caps, flows, levels, level_edges, next.update(nodes[nodes.len() - 1] as int, x), s, nodes, path),
{
    let last = nodes.len() - 1;
    let top = nodes[last];
    let nx = next.update(top as int, x);
    assert(top < n);
    assert forall|i: int| 0 <= i < path.len() implies #[trigger] step_ok(caps, flows, level_edges, nx, nodes, path, i) by {
        assert(step_ok(caps, flows, level_edges, next, nodes, path, i));
        assert(nodes[i] < n);
        assert(levels[nodes[i] as int] == Some(i as usize));
        assert(levels[nodes[last] as int] == Some(last as usize));
        assert(nodes[i] != top);
        assert(nx[nodes[i] as int] == next[nodes[i] as int]);
    }
}

/// `nodes`, and the positions `idx` chosen among their level edges, trace
/// a walk through level edges that all have capacity left.
spec fn level_walk(caps: Seq<u64>, flows: Seq<u64>, level_edges: Seq<Vec<LevelEdge>>, nodes: Seq<usize>, idx: Seq<int>) -> bool {
    &&& nodes.len() == idx.len() + 1
    &&& forall|i: int| 0 <= i < nodes.len() ==> (#[trigger] nodes[i]) < level_edges.len()
    &&& forall|i: int| 0 <= i < idx.len() ==> 0 <= #[trigger] idx[i] < level_edges[nodes[i] as int]@.len()
        && level_edges[nodes[i] as int]@[idx[i]].target == nodes[i + 1]
        && residual_of(caps, flows, level_edges[nodes[i] as int]@[idx[i]]) > 0
}

/// Some walk through level edges with capacity left leads from `v` to `t`.
spec fn alive(caps: Seq<u64>, flows: Seq<u64>, level_edges: Seq<Vec<LevelEdge>>, t: nat, v: nat) -> bool {
    exists|nodes: Seq<usize>, idx: Seq<int>| #[trigger] level_walk(caps, flows, level_edges, nodes, idx)
        && nodes[0] == v && nodes[nodes.len() - 1] == t
}

/// Every level edge that a search pointer has passed over is full or
/// leads where `t` cannot be reached.
spec fn pruned(caps: Seq<u64>, flows: Seq<u64>, level_edges: Seq<Vec<LevelEdge>>, t: nat, next: Seq<usize>) -> bool {
    forall|v: int, j: int| 0 <= v < level_edges.len() && 0 <= j < next[v] && j < level_edges[v]@.len()
        ==> residual_of(caps, flows, #[trigger] level_edges[v]@[j]) == 0
            || !alive(caps, flows, level_edges, t, level_edges[v]@[j].target as nat)
}

/// A node whose pointer has passed all its level edges cannot reach `t`.
proof fn lemma_exhausted_dead(caps: Seq<u64>, flows: Seq<u64>, level_edges: Seq<Vec<LevelEdge>>, t: nat, next: Seq<usize>, v: int)
    requires
        pruned(caps, flows, level_edges, t, next),
        0 <= v < level_edges.len(),
        next[v] >= level_edges[v]@.len(),
        v != t,
    ensures
        !alive(caps, flows, level_edges, t, v as nat),
{
    if alive(caps, flows, level_edges, t, v as nat) {
        let (nodes, idx) = choose|nodes: Seq<usize>, idx: Seq<int>| #[trigger] level_walk(caps, flows, level_edges, nodes, idx)
            && nodes[0] == v && nodes[nodes.len() - 1] == t;
        assert(idx.len() >= 1);
        let j = idx[0];
        let le = level_edges[v]@[j];
        let tn = nodes.subrange(1, nodes.len() as int);
        let ti = idx.subrange(1, idx.len() as int);
        assert forall|i: int| 0 <= i < ti.len() implies 0 <= #[trigger] ti[i] < level_edges[tn[i] as int]@.len()
            && level_edges[tn[i] as int]@[ti[i]].target == tn[i + 1]
            && residual_of(caps, flows, level_edges[tn[i] as int]@[ti[i]]) > 0 by {
            assert(ti[i] == idx[i + 1] && tn[i] == nodes[i + 1] && tn[i + 1] == nodes[i + 2]);
        }
        assert forall|i: int| 0 <= i < tn.len() implies (#[trigger] tn[i]) < level_edges.len() by {
            assert(tn[i] == nodes[i + 1]);
        }
        assert(level_walk(caps, flows, level_edges, tn, ti));
        assert(tn[0] == le.target);
        assert(alive(caps, flows, level_edges, t, le.target as nat));
    }
}

/// Following the recorded level edges back from a labelled node gives a
/// walk to it from `s` through level edges with capacity left.
proof fn lemma_level_walk_to(
    n: nat,
    edges: Seq<(nat, nat)>,
    caps: Seq<u64>,
    flows: Seq<u64>,
    s: nat,
    levels: Seq<Option<usize>>,
    level_edges: Seq<Vec<LevelEdge>>,
    v: nat,
) -> (w: (Seq<usize>, Seq<int>))
    requires
        levels_ok(n, edges, levels, level_edges),
        level_graph_facts(n, caps, flows, s, levels, level_edges),
        n <= usize::MAX,
        s < n,
        levels[s as int] == Some(0usize),
        v < n,
        levels[v as int] is Some,
    ensures
        level_walk(caps, flows, level_edges, w.0, w.1),
        w.0[0] == s,
        w.0[w.0.len() - 1] == v,
    decreases levels[v as int]->0,
{
    if v == s {
        let nodes = seq![s as usize];
        let idx: Seq<int> = Seq::empty();
        assert(level_walk(caps, flows, level_edges, nodes, idx));
        (nodes, idx)
    } else {
        let (u, i) = choose|u: int, i: int| 0 <= u < n && 0 <= i < level_edges[u]@.len() && (#[trigger] level_edges[u]@[i]).target == v;
        let le = level_edges[u]@[i];
        assert(level_edge_ok(n, edges, levels, u, le));
        assert(levels[u] is Some);
        assert(levels[u]->0 < n);
        assert(levels[v as int]->0 == levels[u]->0 + 1);
        assert(residual_of(caps, flows, level_edges[u]@[i]) > 0);
        let (nodes, idx) = lemma_level_walk_to(n, edges, caps, flows, s, levels, level_edges, u as nat);
        let nodes2 = nodes.push(v as usize);
        let idx2 = idx.push(i);
        assert forall|k: int| 0 <= k < idx2.len() implies 0 <= #[trigger] idx2[k] < level_edges[nodes2[k] as int]@.len()
            && level_edges[nodes2[k] as int]@[idx2[k]].target == nodes2[k + 1]
            && residual_of(caps, flows, level_edges[nodes2[k] as int]@[idx2[k]]) > 0 by {
            if k < idx.len() {
                assert(idx2[k] == idx[k] && nodes2[k] == nodes[k] && nodes2[k + 1] == nodes[k + 1]);
            } else {
                assert(nodes2[k] == u);
            }
        }
        assert forall|k: int| 0 <= k < nodes2.len() implies (#[trigger] nodes2[k]) < level_edges.len() by {
            if k < nodes.len() {
                assert(nodes2[k] == nodes[k]);
            }
        }
        (nodes2, idx2)
    }
}

/// Searches the level graph depth-first from `s` for a path to `t` with
/// capacity left, advancing each node's pointer past dead ends, and pushes
/// flow along the first path found; 0 when the search is exhausted.
fn augment(
    Ghost(n): Ghost<nat>,
    Ghost(edges): Ghost<Seq<(nat, nat)>>,
    s: usize,
    t: usize,
    level_edges: &Vec<Vec<LevelEdge>>,
    next: &mut Vec<usize>,
    caps: &Vec<u64>,
    flows: &mut Vec<u64>,
    Ghost(levels): Ghost<Seq<Option<usize>>>,
) -> (pushed: u64)
    requires
        valid_model(n, edges),
        levels_ok(n, edges, levels, level_edges@),
        levels[s as int] == Some(0usize),
        s < n,
        t < n,
        s != t,
        old(next)@.len() == n,
        forall|v: int| 0 <= v < n ==> #[trigger] old(next)@[v] <= level_edges@[v]@.len(),
        is_flow(n, edges, caps@, old(flows)@, s as nat, t as nat),
    ensures
        is_flow(n, edges, caps@, final(flows)@, s as nat, t as nat),
        net_flow(edges, final(flows)@, s as nat) == net_flow(edges, old(flows)@, s as nat) + pushed,
        final(next)@.len() == n,
        forall|v: int| 0 <= v < n ==> #[trigger] final(next)@[v] <= level_edges@[v]@.len(),
        pruned(caps@, old(flows)@, level_edges@, t as nat, old(next)@) && pushed == 0
            ==> !alive(caps@, old(flows)@, level_edges@, t as nat, s as nat),
{
    let mut nodes: Vec<usize> = Vec::new();
    nodes.push(s);
    let mut path: Vec<LevelEdge> = Vec::new();
    loop
        invariant
            valid_model(n, edges),
            levels_ok(n, edges, levels, level_edges@),
            levels[s as int] == Some(0usize),
            s < n,
            t < n,
            s != t,
            next@.len() == n,
            forall|v: int| 0 <= v < n ==> #[trigger] next@[v] <= level_edges@[v]@.len(),
            is_flow(n, edges, caps@, flows@, s as nat, t as nat),
            flows@ == old(flows)@,
            path_ok(n, edges, caps@, flows@, levels, level_edges@, next@, s as nat, nodes@, path@),
            pruned(caps@, old(flows)@, level_edges@, t as nat, old(next)@) ==> pruned(caps@, flows@, level_edges@, t as nat, next@),
        decreases remaining(level_edges@, next@, n), n - nodes@.len(),
    {
        let last = nodes.len() - 1;
        let node = nodes[last];
        proof {
            assert(levels[nodes@[last as int] as int] == Some(last as usize));
        }
        if node == t {
            let amount = push_along(Ghost(n), Ghost(edges), s, t, &nodes, &path, caps, flows, Ghost(levels), Ghost(level_edges@), Ghost(next@));
            return amount;
        }
        if next[node] >= level_edges[node].len() {
            if node == s {
                proof {
                    if pruned(caps@, old(flows)@, level_edges@, t as nat, old(next)@) {
                        lemma_exhausted_dead(caps@, flows@, level_edges@, t as nat, next@, s as int);
                    }
                }
                return 0;
            }
            let ghost next_before = next@;
            let ghost nodes_before = nodes@;
            let ghost path_before = path@;
            nodes.pop();
            path.pop();
            let parent = nodes[last - 1];
            let _plen = level_edges[parent].len();
            proof {
                assert(step_ok(caps@, flows@, level_edges@, next@, nodes_before, path_before, last - 1));
                assert(path_before[last - 1] == level_edges@[parent as int]@[next@[parent as int] as int]);
                assert(next@[parent as int] < level_edges@[parent as int]@.len());
                lemma_remaining_advance(level_edges@, next@, parent as int, n);
            }
            proof {
                if pruned(caps@, old(flows)@, level_edges@, t as nat, old(next)@) {
                    lemma_exhausted_dead(caps@, flows@, level_edges@, t as nat, next@, node as int);
                }
            }
            let advanced = next[parent] + 1;
            next.set(parent, advanced);
            proof {
                if pruned(caps@, old(flows)@, level_edges@, t as nat, old(next)@) {
                    assert forall|v: int, j: int| 0 <= v < level_edges@.len() && 0 <= j < next@[v] && j < level_edges@[v]@.len()
                        implies residual_of(caps@, flows@, #[trigger] level_edges@[v]@[j]) == 0
                            || !alive(caps@, flows@, level_edges@, t as nat, level_edges@[v]@[j].target as nat) by {
                        if v == parent && j == next_before[parent as int] {
                            assert(level_edges@[v]@[j] == path_before[last - 1]);
                            assert(path_before[last - 1].target == nodes_before[last as int]);
                        } else {
                            assert(j < next_before[v]);
                        }
                    }
                }
                assert(nodes@ =~= nodes_before.take(last as int));
                assert(path@ =~= path_before.take(last - 1));
                assert forall|i: int| 0 <= i < path@.len() implies #[trigger] step_ok(caps@, flows@, level_edges@, next@, nodes@, path@, i) by {
                    assert(step_ok(caps@, flows@, level_edges@, next_before, nodes_before, path_before, i));
                    assert(path@[i] == path_before[i]);
                    assert(nodes@[i] == nodes_before[i]);
                    assert(nodes@[i + 1] == nodes_before[i + 1]);
                    assert(levels[nodes_before[i] as int] == Some(i as usize));
                    assert(levels[nodes_before[last - 1] as int] == Some((last - 1) as usize));
                    assert(nodes@[i] != parent);
                    assert(next@[nodes@[i] as int] == next_before[nodes@[i] as int]);
                }
            }
        } else {
            let step = level_edges[node][next[node]];
            proof {
                assert(level_edge_ok(n, edges, levels, node as int, level_edges@[node as int]@[next@[node as int] as int]));
            }
            if residual(caps, flows, step) > 0 {
                let ghost nodes_before = nodes@;
                let ghost path_before = path@;
                nodes.push(step.target);
                path.push(step);
                proof {
                    assert forall|i: int| 0 <= i < nodes@.len() implies (#[trigger] nodes@[i]) < n
                        && levels[nodes@[i] as int] == Some(i as usize) by {
                        if i < nodes_before.len() {
                            assert(nodes@[i] == nodes_before[i]);
                        }
                    }
                    assert forall|i: int| 0 <= i < path@.len() implies #[trigger] step_ok(caps@, flows@, level_edges@, next@, nodes@, path@, i) by {
                        if i < path_before.len() {
                            assert(step_ok(caps@, flows@, level_edges@, next@, nodes_before, path_before, i));
                            assert(path@[i] == path_before[i]);
                            assert(nodes@[i] == nodes_before[i]);
                            assert(nodes@[i + 1] == nodes_before[i + 1]);
                        }
                    }
                }
            } else {
                let ghost next_before = next@;
                proof {
                    lemma_remaining_advance(level_edges@, next@, node as int, n);
                }
                let advanced = next[node] + 1;
                proof {
                    lemma_path_keeps(n, edges, caps@, flows@, levels, level_edges@, next@, s as nat, nodes@, path@, advanced);
                }
                next.set(node, advanced);
                proof {
                    if pruned(caps@, old(flows)@, level_edges@, t as nat, old(next)@) {
                        assert forall|v: int, j: int| 0 <= v < level_edges@.len() && 0 <= j < next@[v] && j < level_edges@[v]@.len()
                            implies residual_of(caps@, flows@, #[trigger] level_edges@[v]@[j]) == 0
                                || !alive(caps@, flows@, level_edges@, t as nat, level_edges@[v]@[j].target as nat) by {
                            if !(v == node && j == next_before[node as int]) {
                                assert(j < next_before[v]);
                            }
                        }
                    }
                }
            }
        }
    }
}

/// An allowed copy of the residual graph is an edge below capacity
/// followed forward, or an edge with flow followed backward.
proof fn lemma_residual_edge(edges: Seq<(nat, nat)>, caps: Seq<u64>, flows: Seq<u64>, a: nat, b: nat)
    requires
        caps.len() == edges.len(),
        flows.len() == edges.len(),
    ensures
        has_edge(undirected(edges), residual_mask(caps, flows), a, b) <==> exists|e: int| 0 <= e < edges.len() && (
            (#[trigger] edges[e] == (a, b) && flows[e] < caps[e]) || (edges[e] == (b, a) && flows[e] > 0)),
{
    let und = undirected(edges);
    let m = residual_mask(caps, flows);
    let k = edges.len() as int;
    if has_edge(und, m, a, b) {
        let f = choose|f: int| #[trigger] allowed(und, m, f) && und[f].0 == a && und[f].1 == b;
        if f < k {
            assert(edges[f] == (a, b) && flows[f] < caps[f]);
        } else {
            assert(edges[f - k] == (b, a) && flows[f - k] > 0);
        }
    }
    if exists|e: int| 0 <= e < edges.len() && ((#[trigger] edges[e] == (a, b) && flows[e] < caps[e]) || (edges[e] == (b, a) && flows[e] > 0)) {
        let e = choose|e: int| 0 <= e < edges.len() && ((#[trigger] edges[e] == (a, b) && flows[e] < caps[e]) || (edges[e] == (b, a) && flows[e] > 0));
        if edges[e] == (a, b) && flows[e] < caps[e] {
            assert(allowed(und, m, e));
        } else {
            assert(allowed(und, m, e + k));
        }
    }
}

/// Marks every node reached from `s` in the residual graph.
fn residual_reachable<G: IndexGraphView>(graph: &G, s: usize, caps: &Vec<u64>, flows: &Vec<u64>) -> (seen: Vec<bool>)
    requires
        s < graph.spec_node_count(),
        caps@.len() == graph.spec_edges().len(),
        flows@.len() == graph.spec_edges().len(),
    ensures
        seen@.len() == graph.spec_node_count(),
        forall|v: int| 0 <= v < graph.spec_node_count() ==> (#[trigger] seen@[v] <==> residual_reaches(
            graph.spec_edges(), caps@, flows@, s as nat, v as nat)),
{
    let n = graph.node_bound();
    let ghost edges = graph.spec_edges();
    let ghost und = undirected(edges);
    let ghost m = residual_mask(caps@, flows@);
    let mut seen: Vec<bool> = Vec::new();
    let mut i: usize = 0;
    while i < n
        invariant
            i <= n,
            seen@.len() == i,
            forall|v: int| 0 <= v < i ==> !(#[trigger] seen@[v]),
        decreases n - i,
    {
        seen.push(false);
        i = i + 1;
    }
    seen.set(s, true);
    let mut queue: Vec<usize> = Vec::new();
    queue.push(s);
    let mut head: usize = 0;
    proof {
        lemma_reaches_refl(und, m, s as nat);
    }
    while head < queue.len()
        invariant
            n == graph.spec_node_count(),
            edges == graph.spec_edges(),
            und == undirected(edges),
            m == residual_mask(caps@, flows@),
            valid_model(n as nat, edges),
            caps@.len() == edges.len(),
            flows@.len() == edges.len(),
            s < n,
            seen@.len() == n,
            seen@[s as int],
            head <= queue@.len(),
            queue@.no_duplicates(),
            forall|i: int| 0 <= i < queue@.len() ==> (#[trigger] queue@[i]) < n && seen@[queue@[i] as int]
                && reaches(und, m, s as nat, queue@[i] as nat),
            forall|v: int| 0 <= v < n && #[trigger] seen@[v] ==> queue@.contains(v as usize),
            forall|i: int, b: nat| 0 <= i < head && #[trigger] has_edge(und, m, queue@[i] as nat, b) ==> b < n && seen@[b as int],
        decreases n - head,
    {
        proof {
            lemma_queue_bound(n as nat, queue@);
        }
        let u = queue[head];
        let node = NodeIndex::new(u as u32);
        let out = graph.outgoing_edges(node);
        let mut k: usize = 0;
        while k < out.len()
            invariant
                n == graph.spec_node_count(),
                edges == graph.spec_edges(),
                und == undirected(edges),
                m == residual_mask(caps@, flows@),
                valid_model(n as nat, edges),
                caps@.len() == edges.len(),
                flows@.len() == edges.len(),
                s < n,
                seen@.len() == n,
                seen@[s as int],
                head < queue@.len(),
                u == queue@[head as int],
                u < n,
                node@ == u,
                reaches(und, m, s as nat, u as nat),
                queue@.no_duplicates(),
                forall|i: int| 0 <= i < queue@.len() ==> (#[trigger] queue@[i]) < n && seen@[queue@[i] as int]
                    && reaches(und, m, s as nat, queue@[i] as nat),
                forall|v: int| 0 <= v < n && #[trigger] seen@[v] ==> queue@.contains(v as usize),
                forall|i: int, b: nat| 0 <= i < head && #[trigger] has_edge(und, m, queue@[i] as nat, b) ==> b < n && seen@[b as int],
                edge_positions(out@) == crate::digraph::out_list(edges, u as nat),
                k <= out@.len(),
                forall|j: int| 0 <= j < k ==> flows@[out@[j]@ as int] < caps@[out@[j]@ as int]
                    ==> #[trigger] seen@[edges[out@[j]@ as int].1 as int],
            decreases out@.len() - k,
        {
            let e = out[k];
            proof {
                crate::digraph::lemma_out_list(edges, u as nat);
                assert(edge_positions(out@)[k as int] == out@[k as int]@);
            }
            let ei = e.index();
            if caps[ei] > flows[ei] {
                let target = graph.edge_endpoints(e).unwrap().target().index();
                proof {
                    assert(edges[ei as int].0 < n && edges[ei as int].1 < n);
                    lemma_residual_edge(edges, caps@, flows@, u as nat, target as nat);
                    assert(edges[ei as int] == (u as nat, target as nat));
                    lemma_reaches_step(und, m, s as nat, u as nat, target as nat);
                }
                let ghost sb = seen@;
                mark(n, Ghost(und), Ghost(m), s, target, head, &mut seen, &mut queue);
                proof {
                    assert forall|j: int| 0 <= j < k + 1 implies (flows@[out@[j]@ as int] < caps@[out@[j]@ as int]
                        ==> #[trigger] seen@[edges[out@[j]@ as int].1 as int]) by {
                        assert(edge_positions(out@)[j] == out@[j]@);
                        assert(edges[out@[j]@ as int].0 < n && edges[out@[j]@ as int].1 < n);
                        if j < k && flows@[out@[j]@ as int] < caps@[out@[j]@ as int] {
                            assert(sb[edges[out@[j]@ as int].1 as int]);
                        }
                    }
                }
            }
            k = k + 1;
        }
        let inc = graph.incoming_edges(node);
        let mut k: usize = 0;
        while k < inc.len()
            invariant
                n == graph.spec_node_count(),
                edges == graph.spec_edges(),
                und == undirected(edges),
                m == residual_mask(caps@, flows@),
                valid_model(n as nat, edges),
                caps@.len() == edges.len(),
                flows@.len() == edges.len(),
                s < n,
                seen@.len() == n,
                seen@[s as int],
                head < queue@.len(),
                u == queue@[head as int],
                u < n,
                node@ == u,
                reaches(und, m, s as nat, u as nat),
                queue@.no_duplicates(),
                forall|i: int| 0 <= i < queue@.len() ==> (#[trigger] queue@[i]) < n && seen@[queue@[i] as int]
                    && reaches(und, m, s as nat, queue@[i] as nat),
                forall|v: int| 0 <= v < n && #[trigger] seen@[v] ==> queue@.contains(v as usize),
                forall|i: int, b: nat| 0 <= i < head && #[trigger] has_edge(und, m, queue@[i] as nat, b) ==> b < n && seen@[b as int],
                edge_positions(out@) == crate::digraph::out_list(edges, u as nat),
                edge_positions(inc@) == crate::digraph::in_list(edges, u as nat),
                forall|j: int| 0 <= j < out@.len() ==> flows@[out@[j]@ as int] < caps@[out@[j]@ as int]
                    ==> #[trigger] seen@[edges[out@[j]@ as int].1 as int],
                k <= inc@.len(),
                forall|j: int| 0 <= j < k ==> flows@[inc@[j]@ as int] > 0
                    ==> #[trigger] seen@[edges[inc@[j]@ as int].0 as int],
            decreases inc@.len() - k,
        {
            let e = inc[k];
            proof {
                crate::digraph::lemma_in_list(edges, u as nat);
                assert(edge_positions(inc@)[k as int] == inc@[k as int]@);
            }
            let ei = e.index();
            if flows[ei] > 0 {
                let target = graph.edge_endpoints(e).unwrap().source().index();
                proof {
                    assert(edges[ei as int].0 < n && edges[ei as int].1 < n);
                    lemma_residual_edge(edges, caps@, flows@, u as nat, target as nat);
                    assert(edges[ei as int] == (target as nat, u as nat));
                    lemma_reaches_step(und, m, s as nat, u as nat, target as nat);
                }
                let ghost sb = seen@;
                mark(n, Ghost(und), Ghost(m), s, target, head, &mut seen, &mut queue);
                proof {
                    assert forall|j: int| 0 <= j < out@.len() implies (flows@[out@[j]@ as int] < caps@[out@[j]@ as int]
                        ==> #[trigger] seen@[edges[out@[j]@ as int].1 as int]) by {
                        crate::digraph::lemma_out_list(edges, u as nat);
                        assert(edge_positions(out@)[j] == out@[j]@);
                        assert(edges[out@[j]@ as int].0 < n && edges[out@[j]@ as int].1 < n);
                        if flows@[out@[j]@ as int] < caps@[out@[j]@ as int] {
                            assert(sb[edges[out@[j]@ as int].1 as int]);
                        }
                    }
                    assert forall|j: int| 0 <= j < k + 1 implies (flows@[inc@[j]@ as int] > 0
                        ==> #[trigger] seen@[edges[inc@[j]@ as int].0 as int]) by {
                        assert(edge_positions(inc@)[j] == inc@[j]@);
                        assert(edges[inc@[j]@ as int].0 < n && edges[inc@[j]@ as int].1 < n);
                        if j < k && flows@[inc@[j]@ as int] > 0 {
                            assert(sb[edges[inc@[j]@ as int].0 as int]);
                        }
                    }
                }
            }
            k = k + 1;
        }
        proof {
            crate::digraph::lemma_out_list(edges, u as nat);
            crate::digraph::lemma_in_list(edges, u as nat);
            assert forall|i: int, b: nat| 0 <= i < head + 1 && #[trigger] has_edge(und, m, queue@[i] as nat, b)
                implies b < n && seen@[b as int] by {
                if i == head {
                    lemma_residual_edge(edges, caps@, flows@, u as nat, b);
                    let e = choose|e: int| 0 <= e < edges.len() && ((#[trigger] edges[e] == (u as nat, b) && flows@[e] < caps@[e])
                        || (edges[e] == (b, u as nat) && flows@[e] > 0));
                    if edges[e] == (u as nat, b) && flows@[e] < caps@[e] {
                        assert(crate::digraph::out_list(edges, u as nat).contains(e as nat));
                        let j = choose|j: int| 0 <= j < out@.len() && edge_positions(out@)[j] == e as nat;
                        assert(edge_positions(out@)[j] == out@[j]@);
                        assert(seen@[edges[out@[j]@ as int].1 as int]);
                    } else {
                        assert(crate::digraph::in_list(edges, u as nat).contains(e as nat));
                        let j = choose|j: int| 0 <= j < inc@.len() && edge_positions(inc@)[j] == e as nat;
                        assert(edge_positions(inc@)[j] == inc@[j]@);
                        assert(seen@[edges[inc@[j]@ as int].0 as int]);
                    }
                }
            }
        }
        head = head + 1;
    }
    proof {
        let sn = seen@;
        let inside = |a: nat| a < n && sn[a as int];
        assert forall|a: nat, b: nat| inside(a) && #[trigger] has_edge(und, m, a, b) implies inside(b) by {
            assert(queue@.contains(a as usize));
            let i = choose|i: int| 0 <= i < queue@.len() && queue@[i] == a as usize;
            assert(has_edge(und, m, queue@[i] as nat, b));
        }
        assert forall|v: int| 0 <= v < n implies (#[trigger] seen@[v] <==> residual_reaches(edges, caps@, flows@, s as nat, v as nat)) by {
            if residual_reaches(edges, caps@, flows@, s as nat, v as nat) {
                lemma_closed_reach(und, m, inside, s as nat, v as nat);
            }
            if seen@[v] {
                assert(queue@.contains(v as usize));
                let i = choose|i: int| 0 <= i < queue@.len() && queue@[i] == v as usize;
            }
        }
    }
    seen
}

/// Marks `target` as reached and queues it, unless it already is.
fn mark(
    n: usize,
    Ghost(und): Ghost<Seq<(nat, nat)>>,
    Ghost(m): Ghost<Seq<bool>>,
    s: usize,
    target: usize,
    head: usize,
    seen: &mut Vec<bool>,
    queue: &mut Vec<usize>,
)
    requires
        target < n,
        old(seen)@.len() == n,
        reaches(und, m, s as nat, target as nat),
        head < old(queue)@.len(),
        old(queue)@.no_duplicates(),
        forall|i: int| 0 <= i < old(queue)@.len() ==> (#[trigger] old(queue)@[i]) < n && old(seen)@[old(queue)@[i] as int]
            && reaches(und, m, s as nat, old(queue)@[i] as nat),
        forall|v: int| 0 <= v < n && #[trigger] old(seen)@[v] ==> old(queue)@.contains(v as usize),
    ensures
        final(seen)@.len() == n,
        final(seen)@[target as int],
        forall|v: int| 0 <= v < n && #[trigger] old(seen)@[v] ==> final(seen)@[v],
        final(queue)@.len() >= old(queue)@.len(),
        forall|i: int| 0 <= i < old(queue)@.len() ==> final(queue)@[i] == old(queue)@[i],
        final(queue)@.no_duplicates(),
        forall|i: int| 0 <= i < final(queue)@.len() ==> (#[trigger] final(queue)@[i]) < n && final(seen)@[final(queue)@[i] as int]
            && reaches(und, m, s as nat, final(queue)@[i] as nat),
        forall|v: int| 0 <= v < n && #[trigger] final(seen)@[v] ==> final(queue)@.contains(v as usize),
{
    if !seen[target] {
        let ghost before = queue@;
        let ghost seen_before = seen@;
        proof {
            if queue@.contains(target) {
                let i = choose|i: int| 0 <= i < queue@.len() && queue@[i] == target;
                assert(seen@[queue@[i] as int]);
            }
        }
        seen.set(target, true);
        queue.push(target);
        proof {
            assert forall|a: int, b: int| 0 <= a < b < queue@.len() implies queue@[a] != queue@[b] by {
                if b == before.len() {
                    assert(before.contains(before[a]));
                }
            }
            assert forall|i: int| 0 <= i < queue@.len() implies (#[trigger] queue@[i]) < n && seen@[queue@[i] as int]
                && reaches(und, m, s as nat, queue@[i] as nat) by {
                if i < before.len() {
                    assert(queue@[i] == before[i]);
                    assert(seen_before[before[i] as int]);
                }
            }
            assert forall|v: int| 0 <= v < n && #[trigger] seen@[v] implies queue@.contains(v as usize) by {
                if v != target {
                    assert(seen_before[v]);
                    assert(before.contains(v as usize));
                } else {
                    assert(queue@[before.len() as int] == target);
                }
            }
        }
    }
}

/// A maximum flow: its value, the flow of every edge in edge order, and
/// the nodes that the residual graph still reaches from the source.
#[derive(Debug, Clone, PartialEq, Eq)]
pub struct MaxFlow {
    value: u64,
    edge_flows: Vec<(EdgeIndex, u64)>,
    source_side: Vec<NodeIndex>,
}

impl MaxFlow {
    pub closed spec fn spec_value(&self) -> u64 {
        self.value
    }

    /// The flow of every edge, by edge position.
    pub closed spec fn flows(&self) -> Seq<u64> {
        self.edge_flows@.map_values(|p: (EdgeIndex, u64)| p.1)
    }

    /// The edges the flows are listed for, by position.
    pub closed spec fn flow_edges(&self) -> Seq<nat> {
        self.edge_flows@.map_values(|p: (EdgeIndex, u64)| p.0@)
    }

    pub closed spec fn side(&self) -> Seq<nat> {
        node_positions(self.source_side@)
    }

    pub fn value(&self) -> (r: u64)
        ensures
            r == self.spec_value(),
    {
        self.value
    }

    pub fn edge_flows(&self) -> (r: &[(EdgeIndex, u64)])
        ensures
            r@.map_values(|p: (EdgeIndex, u64)| p.1) == self.flows(),
            r@.map_values(|p: (EdgeIndex, u64)| p.0@) == self.flow_edges(),
    {
        self.edge_flows.as_slice()
    }

    pub fn source_side(&self) -> (r: &[NodeIndex])
        ensures
            node_positions(r@) == self.side(),
    {
        self.source_side.as_slice()
    }
}

/// `side` lists, in increasing order, exactly the nodes that the residual
/// graph of `flows` reaches from `s`.
pub open spec fn is_residual_side(n: nat, edges: Seq<(nat, nat)>, caps: Seq<u64>, flows: Seq<u64>, s: nat, side: Seq<nat>) -> bool {
    &&& crate::digraph::strictly_increasing(side)
    &&& forall|i: int| 0 <= i < side.len() ==> #[trigger] side[i] < n
    &&& forall|v: nat| v < n ==> (#[trigger] side.contains(v) <==> residual_reaches(edges, caps, flows, s, v))
}

/// What `maximum_flow` promises of a result for capacities `caps`: a flow
/// from `s` to `t` listed edge by edge, its value the net flow out of `s`,
/// and the residual side of the source, which leaves out `t` and across
/// which every edge out is saturated and every edge in is empty.
pub open spec fn is_flow_result(n: nat, edges: Seq<(nat, nat)>, caps: Seq<u64>, s: nat, t: nat, mf: MaxFlow) -> bool {
    &&& is_flow(n, edges, caps, mf.flows(), s, t)
    &&& mf.flow_edges() == Seq::new(edges.len(), |e: int| e as nat)
    &&& (s == t ==> mf.spec_value() == 0 && mf.side() == seq![s]
        && forall|e: int| 0 <= e < edges.len() ==> #[trigger] mf.flows()[e] == 0)
    &&& (s != t ==> {
        &&& mf.spec_value() == net_flow(edges, mf.flows(), s)
        &&& is_residual_side(n, edges, caps, mf.flows(), s, mf.side())
        &&& !mf.side().contains(t)
        &&& forall|e: int| 0 <= e < edges.len() && mf.side().contains(edges[e].0) && !mf.side().contains(edges[e].1)
            ==> #[trigger] mf.flows()[e] == caps[e]
        &&& forall|e: int| 0 <= e < edges.len() && !mf.side().contains(edges[e].0) && mf.side().contains(edges[e].1)
            ==> #[trigger] mf.flows()[e] == 0
    })
}

/// Every edge's capacity is what `f` returned for it.
pub open spec fn is_capacity_table<F: Fn(EdgeIndex) -> u64>(f: F, edge_count: nat, caps: Seq<u64>) -> bool {
    &&& caps.len() == edge_count
    &&& forall|e: EdgeIndex| e@ < edge_count ==> #[trigger] f.ensures((e,), caps[e@ as int])
}

fn capacity_table<G: IndexGraphView, F: Fn(EdgeIndex) -> u64>(graph: &G, edge_capacity: &F) -> (r: Vec<u64>)
    requires
        forall|e: EdgeIndex| edge_capacity.requires((e,)),
    ensures
        is_capacity_table(*edge_capacity, graph.spec_edges().len(), r@),
{
    let count = graph.edge_bound();
    let mut caps: Vec<u64> = Vec::new();
    let mut i: usize = 0;
    while i < count
        invariant
            i <= count,
            count == graph.spec_edges().len(),
            count <= u32::MAX,
            forall|e: EdgeIndex| edge_capacity.requires((e,)),
            caps@.len() == i,
            forall|e: EdgeIndex| e@ < i ==> #[trigger] edge_capacity.ensures((e,), caps@[e@ as int]),
        decreases count - i,
    {
        let edge = EdgeIndex::new(i as u32);
        let c = edge_capacity(edge);
        caps.push(c);
        proof {
            assert forall|e: EdgeIndex| e@ < i + 1 implies #[trigger] edge_capacity.ensures((e,), caps@[e@ as int]) by {
                if e@ == i {
                    crate::index::lemma_edge_index_view(e, edge);
                }
            }
        }
        i = i + 1;
    }
    caps
}

/// Lists every edge with its flow, in edge order.
fn listed_flows(count: usize, flows: &Vec<u64>) -> (r: Vec<(EdgeIndex, u64)>)
    requires
        flows@.len() == count,
        count <= u32::MAX,
    ensures
        r@.map_values(|p: (EdgeIndex, u64)| p.1) == flows@,
        r@.map_values(|p: (EdgeIndex, u64)| p.0@) == Seq::new(count as nat, |e: int| e as nat),
{
    let mut r: Vec<(EdgeIndex, u64)> = Vec::new();
    let mut e: usize = 0;
    while e < count
        invariant
            e <= count,
            count <= u32::MAX,
            flows@.len() == count,
            r@.len() == e,
            forall|i: int| 0 <= i < e ==> (#[trigger] r@[i]).1 == flows@[i] && r@[i].0@ == i,
        decreases count - e,
    {
        r.push((EdgeIndex::new(e as u32), flows[e]));
        e = e + 1;
    }
    assert(r@.map_values(|p: (EdgeIndex, u64)| p.1) =~= flows@);
    assert(r@.map_values(|p: (EdgeIndex, u64)| p.0@) =~= Seq::new(count as nat, |e: int| e as nat));
    r
}

/// A zero flow is a flow.
proof fn lemma_zero_flow(n: nat, edges: Seq<(nat, nat)>, caps: Seq<u64>, flows: Seq<u64>, s: nat, t: nat)
    requires
        flows.len() == edges.len(),
        caps.len() == edges.len(),
        forall|e: int| 0 <= e < flows.len() ==> #[trigger] flows[e] == 0,
    ensures
        is_flow(n, edges, caps, flows, s, t),
        forall|v: nat| #[trigger] net_flow(edges, flows, v) == 0,
{
    assert forall|v: nat| #[trigger] net_flow(edges, flows, v) == 0 by {
        lemma_zero_net(edges, flows, v, edges.len());
    }
}

proof fn lemma_zero_net(edges: Seq<(nat, nat)>, flows: Seq<u64>, v: nat, k: nat)
    requires
        k <= flows.len(),
        forall|e: int| 0 <= e < flows.len() ==> #[trigger] flows[e] == 0,
    ensures
        net_prefix(edges, flows, v, k) == 0,
    decreases k,
{
    if k > 0 {
        lemma_zero_net(edges, flows, v, (k - 1) as nat);
    }
}

/// Computes a maximum flow from `source` to `sink` with Dinic's blocking
/// flows; each edge's capacity is what `edge_capacity` returns for it.
///
/// `Ok(None)` when either node does not exist; an overflow error when the
/// total flow would pass `u64::MAX`.
pub fn maximum_flow<G: IndexGraphView, F: Fn(EdgeIndex) -> u64>(
    graph: &G,
    source: NodeIndex,
    sink: NodeIndex,
    edge_capacity: F,
) -> (r: Result<Option<MaxFlow>>)
    requires
        forall|e: EdgeIndex| edge_capacity.requires((e,)),
    ensures
        (r matches Ok(None)) <==> !(source@ < graph.spec_node_count() && sink@ < graph.spec_node_count()),
        r matches Err(e) ==> source@ < graph.spec_node_count() && sink@ < graph.spec_node_count() && source@ != sink@
            && (e matches GraphError::ArithmeticOverflow { operation } && operation@ == "maximum flow"@)
            && exists|caps: Seq<u64>, f: Seq<u64>| is_capacity_table(edge_capacity, graph.spec_edges().len(), caps)
                && #[trigger] is_flow(graph.spec_node_count(), graph.spec_edges(), caps, f, source@, sink@)
                && net_flow(graph.spec_edges(), f, source@) > u64::MAX,
        r matches Ok(Some(mf)) ==> exists|caps: Seq<u64>| is_capacity_table(edge_capacity, graph.spec_edges().len(), caps)
            && is_flow_result(graph.spec_node_count(), graph.spec_edges(), caps, source@, sink@, mf),
{
    let n = graph.node_bound();
    let ghost edges = graph.spec_edges();
    if !(source.index() < n && sink.index() < n) {
        return Ok(None);
    }
    let caps = capacity_table(graph, &edge_capacity);
    let count = graph.edge_bound();
    let s = source.index();
    let t = sink.index();
    let mut flows: Vec<u64> = Vec::new();
    let mut i: usize = 0;
    while i < count
        invariant
            i <= count,
            flows@.len() == i,
            forall|e: int| 0 <= e < i ==> #[trigger] flows@[e] == 0,
        decreases count - i,
    {
        flows.push(0);
        i = i + 1;
    }
    proof {
        lemma_zero_flow(n as nat, edges, caps@, flows@, s as nat, t as nat);
    }
    if s == t {
        let edge_flows = listed_flows(count, &flows);
        let mut side: Vec<NodeIndex> = Vec::new();
        side.push(source);
        let mf = MaxFlow { value: 0, edge_flows, source_side: side };
        proof {
            assert(mf.flows() == flows@);
            assert(mf.side() =~= seq![s as nat]);
            assert(is_flow_result(n as nat, edges, caps@, source@, sink@, mf));
        }
        return Ok(Some(mf));
    }
    let mut total: u64 = 0;
    loop
        invariant
            n == graph.spec_node_count(),
            edges == graph.spec_edges(),
            valid_model(n as nat, edges),
            count == edges.len(),
            caps@.len() == count,
            s < n,
            t < n,
            s != t,
            s == source@,
            t == sink@,
            is_capacity_table(edge_capacity, edges.len(), caps@),
            is_flow(n as nat, edges, caps@, flows@, s as nat, t as nat),
            total == net_flow(edges, flows@, s as nat),
        ensures
            is_flow(n as nat, edges, caps@, flows@, s as nat, t as nat),
            total == net_flow(edges, flows@, s as nat),
            !residual_reaches(edges, caps@, flows@, s as nat, t as nat),
        decreases u64::MAX - total,
    {
        let (levels, level_edges) = build_levels(graph, s, &caps, &flows);
        if levels[t].is_none() {
            break;
        }
        let ghost phase_flows = flows@;
        proof {
            let w = lemma_level_walk_to(n as nat, edges, caps@, flows@, s as nat, levels@, level_edges@, t as nat);
            assert(alive(caps@, phase_flows, level_edges@, t as nat, s as nat));
        }
        let mut next: Vec<usize> = Vec::new();
        let mut i: usize = 0;
        while i < n
            invariant
                i <= n,
                next@.len() == i,
                forall|v: int| 0 <= v < i ==> #[trigger] next@[v] == 0,
            decreases n - i,
        {
            next.push(0);
            i = i + 1;
        }
        let start = total;
        loop
            invariant
                n == graph.spec_node_count(),
                edges == graph.spec_edges(),
                valid_model(n as nat, edges),
                caps@.len() == edges.len(),
                s < n,
                t < n,
                s != t,
                s == source@,
                t == sink@,
                is_capacity_table(edge_capacity, edges.len(), caps@),
                levels_ok(n as nat, edges, levels@, level_edges@),
                levels@[s as int] == Some(0usize),
                next@.len() == n,
                forall|v: int| 0 <= v < n ==> #[trigger] next@[v] <= level_edges@[v]@.len(),
                is_flow(n as nat, edges, caps@, flows@, s as nat, t as nat),
                total == net_flow(edges, flows@, s as nat),
                start <= total,
                alive(caps@, phase_flows, level_edges@, t as nat, s as nat),
                total == start ==> flows@ == phase_flows && forall|v: int| 0 <= v < n ==> #[trigger] next@[v] == 0,
            ensures
                is_flow(n as nat, edges, caps@, flows@, s as nat, t as nat),
                total == net_flow(edges, flows@, s as nat),
                start < total,
            decreases u64::MAX - total,
        {
            let ghost flows_before = flows@;
            let ghost next_before = next@;
            let pushed = augment(Ghost(n as nat), Ghost(edges), s, t, &level_edges, &mut next, &caps, &mut flows, Ghost(levels@));
            if pushed == 0 {
                proof {
                    if total == start {
                        assert(pruned(caps@, flows_before, level_edges@, t as nat, next_before));
                    }
                }
                break;
            }
            match total.checked_add(pushed) {
                Some(sum) => {
                    total = sum;
                },
                None => {
                    proof {
                        assert(net_flow(edges, flows@, s as nat) > u64::MAX);
                    }
                    return Err(GraphError::ArithmeticOverflow { operation: "maximum flow" });
                },
            }
        }
    }
    let edge_flows = listed_flows(count, &flows);
    let seen = residual_reachable(graph, s, &caps, &flows);
    let mut side: Vec<NodeIndex> = Vec::new();
    let mut v: usize = 0;
    while v < n
        invariant
            n == graph.spec_node_count(),
            n <= u32::MAX,
            v <= n,
            seen@.len() == n,
            crate::digraph::strictly_increasing(node_positions(side@)),
            forall|i: int| 0 <= i < side@.len() ==> (#[trigger] side@[i])@ < v,
            forall|x: nat| x < n ==> (#[trigger] node_positions(side@).contains(x) <==> (x < v && seen@[x as int])),
        decreases n - v,
    {
        if seen[v] {
            let node = NodeIndex::new(v as u32);
            let ghost before = node_positions(side@);
            side.push(node);
            proof {
                assert(node_positions(side@) =~= before.push(v as nat));
                assert forall|a: int, b: int| 0 <= a < b < before.len() + 1 implies before.push(v as nat)[a] < before.push(v as nat)[b] by {
                    if b == before.len() {
                        assert(before[a] == side@[a]@);
                    }
                }
            }
        }
        v = v + 1;
    }
    let mf = MaxFlow { value: total, edge_flows, source_side: side };
    proof {
        let fl = flows@;
        let sd = node_positions(side@);
        assert(mf.flows() == fl);
        assert(mf.side() == sd);
        assert forall|i: int| 0 <= i < sd.len() implies #[trigger] sd[i] < n by {
            assert(sd[i] == side@[i]@);
        }
        assert forall|x: nat| x < n implies (#[trigger] sd.contains(x) <==> residual_reaches(edges, caps@, fl, s as nat, x)) by {}
        assert forall|e: int| 0 <= e < edges.len() && sd.contains(edges[e].0) && !sd.contains(edges[e].1)
            implies #[trigger] fl[e] == caps@[e] by {
            let a = edges[e].0;
            let b = edges[e].1;
            assert(a < n && b < n);
            if fl[e] < caps@[e] {
                lemma_residual_edge(edges, caps@, fl, a, b);
                lemma_reaches_step(undirected(edges), residual_mask(caps@, fl), s as nat, a, b);
            }
        }
        assert forall|e: int| 0 <= e < edges.len() && !sd.contains(edges[e].0) && sd.contains(edges[e].1)
            implies #[trigger] fl[e] == 0 by {
            let a = edges[e].0;
            let b = edges[e].1;
            assert(a < n && b < n);
            if fl[e] > 0 {
                lemma_residual_edge(edges, caps@, fl, b, a);
                lemma_reaches_step(undirected(edges), residual_mask(caps@, fl), s as nat, b, a);
            }
        }
        assert(is_flow_result(n as nat, edges, caps@, source@, sink@, mf));
    }
    Ok(Some(mf))
}

/// Flow along the first `k` edges that leave `side`, minus flow along
/// those that enter it.
pub open spec fn cut_flow(edges: Seq<(nat, nat)>, flows: Seq<u64>, side: Seq<nat>, k: nat) -> int
    decreases k,
{
    if k == 0 {
        0
    } else {
        let (a, b) = edges[k - 1];
        cut_flow(edges, flows, side, (k - 1) as nat) + if side.contains(a) && !side.contains(b) {
            flows[k - 1] as int
        } else if !side.contains(a) && side.contains(b) {
            -(flows[k - 1] as int)
        } else {
            0
        }
    }
}

/// The capacity of the first `k` edges that leave `side`.
pub open spec fn cut_capacity(edges: Seq<(nat, nat)>, caps: Seq<u64>, side: Seq<nat>, k: nat) -> int
    decreases k,
{
    if k == 0 {
        0
    } else {
        let (a, b) = edges[k - 1];
        cut_capacity(edges, caps, side, (k - 1) as nat) + if side.contains(a) && !side.contains(b) {
            caps[k - 1] as int
        } else {
            0
        }
    }
}

/// The net flow, over the first `k` edges, of the nodes below `m` in `side`.
spec fn side_net(edges: Seq<(nat, nat)>, flows: Seq<u64>, side: Seq<nat>, m: nat, k: nat) -> int
    decreases m,
{
    if m == 0 {
        0
    } else {
        side_net(edges, flows, side, (m - 1) as nat, k) + if side.contains((m - 1) as nat) {
            net_prefix(edges, flows, (m - 1) as nat, k)
        } else {
            0
        }
    }
}

/// What edge `e` adds to the net flow of the nodes below `m` in `side`.
spec fn edge_share(edges: Seq<(nat, nat)>, flows: Seq<u64>, side: Seq<nat>, m: nat, e: int) -> int
    decreases m,
{
    if m == 0 {
        0
    } else {
        let v = (m - 1) as nat;
        edge_share(edges, flows, side, v, e) + if side.contains(v) {
            (if edges[e].0 == v { flows[e] as int } else { 0 }) - (if edges[e].1 == v { flows[e] as int } else { 0 })
        } else {
            0
        }
    }
}

proof fn lemma_side_net_step(edges: Seq<(nat, nat)>, flows: Seq<u64>, side: Seq<nat>, m: nat, k: nat)
    requires
        0 < k,
    ensures
        side_net(edges, flows, side, m, k) == side_net(edges, flows, side, m, (k - 1) as nat) + edge_share(edges, flows, side, m, k - 1),
    decreases m,
{
    if m > 0 {
        lemma_side_net_step(edges, flows, side, (m - 1) as nat, k);
    }
}

proof fn lemma_edge_share(edges: Seq<(nat, nat)>, flows: Seq<u64>, side: Seq<nat>, m: nat, e: int)
    ensures
        edge_share(edges, flows, side, m, e) == (if edges[e].0 < m && side.contains(edges[e].0) { flows[e] as int } else { 0 })
            - (if edges[e].1 < m && side.contains(edges[e].1) { flows[e] as int } else { 0 }),
    decreases m,
{
    if m > 0 {
        lemma_edge_share(edges, flows, side, (m - 1) as nat, e);
    }
}

/// The net flow of the nodes in `side` is the flow across its boundary.
proof fn lemma_side_net_is_cut(n: nat, edges: Seq<(nat, nat)>, flows: Seq<u64>, side: Seq<nat>, k: nat)
    requires
        valid_model(n, edges),
        k <= edges.len(),
    ensures
        side_net(edges, flows, side, n, k) == cut_flow(edges, flows, side, k),
    decreases k,
{
    if k > 0 {
        lemma_side_net_is_cut(n, edges, flows, side, (k - 1) as nat);
        lemma_side_net_step(edges, flows, side, n, k);
        lemma_edge_share(edges, flows, side, n, k - 1);
        assert(edges[k - 1].0 < n && edges[k - 1].1 < n);
    } else {
        lemma_side_net_empty(edges, flows, side, n);
    }
}

proof fn lemma_side_net_empty(edges: Seq<(nat, nat)>, flows: Seq<u64>, side: Seq<nat>, m: nat)
    ensures
        side_net(edges, flows, side, m, 0) == 0,
    decreases m,
{
    if m > 0 {
        lemma_side_net_empty(edges, flows, side, (m - 1) as nat);
    }
}

/// Where every node of `side` but `s` conserves flow, their net flow is
/// that of `s`.
proof fn lemma_side_net_source(n: nat, edges: Seq<(nat, nat)>, caps: Seq<u64>, flows: Seq<u64>, side: Seq<nat>, s: nat, t: nat, m: nat)
    requires
        is_flow(n, edges, caps, flows, s, t),
        m <= n,
        s < n,
        side.contains(s),
        side.contains(t) ==> t == s,
    ensures
        side_net(edges, flows, side, m, edges.len()) == if s < m { net_flow(edges, flows, s) } else { 0 },
    decreases m,
{
    if m > 0 {
        lemma_side_net_source(n, edges, caps, flows, side, s, t, (m - 1) as nat);
        let v = (m - 1) as nat;
        if side.contains(v) && v != s {
            assert(net_flow(edges, flows, v) == 0);
        }
    }
}

proof fn lemma_cut_flow_bounded(edges: Seq<(nat, nat)>, caps: Seq<u64>, flows: Seq<u64>, side: Seq<nat>, k: nat)
    requires
        k <= edges.len(),
        flows.len() == edges.len(),
        caps.len() == edges.len(),
        forall|e: int| 0 <= e < edges.len() ==> #[trigger] flows[e] <= caps[e],
    ensures
        cut_flow(edges, flows, side, k) <= cut_capacity(edges, caps, side, k),
    decreases k,
{
    if k > 0 {
        lemma_cut_flow_bounded(edges, caps, flows, side, (k - 1) as nat);
        assert(flows[k - 1] <= caps[k - 1]);
    }
}

proof fn lemma_cut_flow_saturated(edges: Seq<(nat, nat)>, caps: Seq<u64>, flows: Seq<u64>, side: Seq<nat>, k: nat)
    requires
        k <= edges.len(),
        forall|e: int| 0 <= e < edges.len() && side.contains(edges[e].0) && !side.contains(edges[e].1) ==> #[trigger] flows[e] == caps[e],
        forall|e: int| 0 <= e < edges.len() && !side.contains(edges[e].0) && side.contains(edges[e].1) ==> #[trigger] flows[e] == 0,
    ensures
        cut_flow(edges, flows, side, k) == cut_capacity(edges, caps, side, k),
    decreases k,
{
    if k > 0 {
        lemma_cut_flow_saturated(edges, caps, flows, side, (k - 1) as nat);
        let e = k - 1;
        if side.contains(edges[e].0) && !side.contains(edges[e].1) {
            assert(flows[e] == caps[e]);
        } else if !side.contains(edges[e].0) && side.contains(edges[e].1) {
            assert(flows[e] == 0);
        }
    }
}

/// No flow from `s` to `t` under the same capacities carries more than a
/// result of `maximum_flow`; where `s != t` that result carries exactly the
/// capacity of the edges that leave its residual side.
pub proof fn lemma_flow_is_maximum(n: nat, edges: Seq<(nat, nat)>, caps: Seq<u64>, s: nat, t: nat, mf: MaxFlow, other: Seq<u64>)
    requires
        valid_model(n, edges),
        s < n,
        t < n,
        is_flow_result(n, edges, caps, s, t, mf),
        is_flow(n, edges, caps, other, s, t),
    ensures
        net_flow(edges, other, s) <= mf.spec_value(),
        s != t ==> mf.spec_value() == cut_capacity(edges, caps, mf.side(), edges.len()),
{
    let side = if s == t { Seq::new(n, |i: int| i as nat) } else { mf.side() };
    assert(side.contains(s)) by {
        if s == t {
            assert(side[s as int] == s);
        } else {
            assert(residual_reaches(edges, caps, mf.flows(), s, s)) by {
                lemma_reaches_refl(undirected(edges), residual_mask(caps, mf.flows()), s);
            }
        }
    }
    lemma_side_net_source(n, edges, caps, other, side, s, t, n);
    lemma_side_net_is_cut(n, edges, other, side, edges.len());
    lemma_cut_flow_bounded(edges, caps, other, side, edges.len());
    if s == t {
        assert forall|e: int| 0 <= e < edges.len() && side.contains(edges[e].0) && !side.contains(edges[e].1)
            implies #[trigger] other[e] == caps[e] by {
            assert(side[edges[e].1 as int] == edges[e].1);
        }
        assert forall|e: int| 0 <= e < edges.len() && !side.contains(edges[e].0) && side.contains(edges[e].1)
            implies #[trigger] other[e] == 0 by {
            assert(side[edges[e].0 as int] == edges[e].0);
        }
        lemma_cut_flow_saturated(edges, caps, other, side, edges.len());
        assert forall|e: int| 0 <= e < edges.len() implies #[trigger] side.contains(edges[e].1) by {
            assert(side[edges[e].1 as int] == edges[e].1);
        }
        lemma_cut_zero(edges, caps, side, edges.len());
    } else {
        lemma_side_net_source(n, edges, caps, mf.flows(), side, s, t, n);
        lemma_side_net_is_cut(n, edges, mf.flows(), side, edges.len());
        lemma_cut_flow_saturated(edges, caps, mf.flows(), side, edges.len());
    }
}

/// The residual side of a result of `maximum_flow` is a minimum cut: no
/// set of nodes that holds `s` and leaves out `t` has edges out of it of
/// smaller total capacity.
pub proof fn lemma_residual_cut_is_minimum(
    n: nat,
    edges: Seq<(nat, nat)>,
    caps: Seq<u64>,
    s: nat,
    t: nat,
    mf: MaxFlow,
    other_side: Seq<nat>,
)
    requires
        valid_model(n, edges),
        s < n,
        t < n,
        s != t,
        is_flow_result(n, edges, caps, s, t, mf),
        other_side.contains(s),
        !other_side.contains(t),
    ensures
        cut_capacity(edges, caps, mf.side(), edges.len()) <= cut_capacity(edges, caps, other_side, edges.len()),
{
    lemma_flow_is_maximum(n, edges, caps, s, t, mf, mf.flows());
    lemma_side_net_source(n, edges, caps, mf.flows(), other_side, s, t, n);
    lemma_side_net_is_cut(n, edges, mf.flows(), other_side, edges.len());
    lemma_cut_flow_bounded(edges, caps, mf.flows(), other_side, edges.len());
}

/// No edge leaves the set of every node.
proof fn lemma_cut_zero(edges: Seq<(nat, nat)>, caps: Seq<u64>, side: Seq<nat>, k: nat)
    requires
        k <= edges.len(),
        forall|e: int| 0 <= e < edges.len() ==> #[trigger] side.contains(edges[e].1),
    ensures
        cut_capacity(edges, caps, side, k) == 0,
    decreases k,
{
    if k > 0 {
        lemma_cut_zero(edges, caps, side, (k - 1) as nat);
        assert(side.contains(edges[k - 1].1));
    }
}

} // verus!

//! Goal-directed search (A*): the open queue is ordered by tentative cost
//! plus the caller's estimate of the cost still to go.
use crate::algo::shortest::{
    adjacent_edges, all_weighted, cheap_walk_exists, far_end, is_cheapest, is_total_weight_table, is_weight_table,
    total_weight_table, weight_table, WeightedPath,
};
use crate::algo::walk::{is_weighted_walk, lemma_walk_prepend, lemma_walk_push, lemma_walk_skip, lemma_walk_take, step, walk_at, walk_cost, walk_nodes, weight_of, Direction};
use crate::digraph::valid_model;
use crate::index::{EdgeIndex, NodeIndex};
use crate::topology::{node_positions, IndexGraphView};
use vstd::prelude::*;

verus! {

broadcast use {crate::index::group_index_lemmas, crate::digraph::lemma_push_contains};

/// The recorded way into `v`: an edge from its predecessor, no dearer
/// than `v`'s cost, and either strictly cheaper or recorded earlier.
spec fn link_ok(
    n: nat,
    edges: Seq<(nat, nat)>,
    direction: Direction,
    weights: Seq<Option<u64>>,
    costs: Seq<u64>,
    pred: Seq<usize>,
    pe: Seq<usize>,
    stamp: Seq<nat>,
    v: int,
) -> bool {
    &&& pred[v] < n
    &&& pe[v] < edges.len()
    &&& weights[pe[v] as int] is Some
    &&& step(edges, direction, pe[v] as nat) == (pred[v] as nat, v as nat)
    &&& costs[pred[v] as int] + weight_of(weights, pe[v] as nat) <= costs[v]
    &&& (costs[pred[v] as int] < costs[v] || stamp[pred[v] as int] < stamp[v])
}

/// Every edge leaving `a` reaches a node no dearer than through it.
spec fn relaxed_at(edges: Seq<(nat, nat)>, direction: Direction, weights: Seq<Option<u64>>, costs: Seq<u64>, a: nat) -> bool {
    forall|e: nat| e < edges.len() && #[trigger] step(edges, direction, e).0 == a && weights[e as int] is Some
        ==> costs[step(edges, direction, e).1 as int] <= costs[a as int] + weight_of(weights, e)
}

/// Node `v` has an open entry at its current cost.
spec fn queued(queue: Seq<(u64, u64, u64, usize)>, costs: Seq<u64>, v: nat) -> bool {
    exists|i: int| 0 <= i < queue.len() && (#[trigger] queue[i]).3 == v && queue[i].2 == costs[v as int]
}

/// Each queue entry is keyed by its cost plus its node's estimate
/// (saturating), then the estimate, then the cost, then the node.
spec fn keys_ok(queue: Seq<(u64, u64, u64, usize)>, estimates: Seq<u64>) -> bool {
    forall|i: int| 0 <= i < queue.len() ==> (#[trigger] queue[i]).1 == estimates[queue[i].3 as int]
        && queue[i].0 == (if queue[i].2 + queue[i].1 > u64::MAX { u64::MAX } else { (queue[i].2 + queue[i].1) as u64 })
}

/// The estimate of every node is at most the weight of every walk from it
/// to `target`: it never overestimates the cost still to go.
pub open spec fn admissible(
    edges: Seq<(nat, nat)>,
    direction: Direction,
    weights: Seq<Option<u64>>,
    estimates: Seq<u64>,
    target: nat,
) -> bool {
    forall|v: nat, es: Seq<nat>| v < estimates.len() && #[trigger] is_weighted_walk(edges, direction, weights, es, v, target)
        ==> estimates[v as int] <= walk_cost(weights, es)
}

/// Along a walk to the target that weighs less than `u64::MAX`, starting
/// from a node whose cost is at most the walk's weight so far, some node is
/// open at a cost no more than the walk's weight up to it.
proof fn lemma_open_on_walk(
    n: nat,
    edges: Seq<(nat, nat)>,
    direction: Direction,
    ws: Seq<Option<u64>>,
    s: nat,
    t: nat,
    costs: Seq<u64>,
    queue: Seq<(u64, u64, u64, usize)>,
    es: Seq<nat>,
    i: int,
) -> (j: int)
    requires
        valid_model(n, edges),
        costs.len() == n,
        is_weighted_walk(edges, direction, ws, es, s, t),
        walk_cost(ws, es) < u64::MAX,
        forall|x: nat| x < n && #[trigger] costs[x as int] < u64::MAX ==> open_or_tried(edges, direction, ws, t, costs, queue, x),
        0 <= i <= es.len(),
        walk_at(edges, direction, es, s, i) < n,
        costs[walk_at(edges, direction, es, s, i) as int] <= walk_cost(ws, es.take(i)),
    ensures
        i <= j <= es.len(),
        walk_at(edges, direction, es, s, j) < n,
        costs[walk_at(edges, direction, es, s, j) as int] <= walk_cost(ws, es.take(j)),
        queued(queue, costs, walk_at(edges, direction, es, s, j)),
    decreases es.len() - i,
{
    let v = walk_at(edges, direction, es, s, i);
    lemma_walk_take(edges, direction, ws, es, s, t, i);
    assert(costs[v as int] < u64::MAX);
    assert(open_or_tried(edges, direction, ws, t, costs, queue, v));
    if queued(queue, costs, v) {
        i
    } else {
        assert(i < es.len());
        let e = es[i];
        assert(e < edges.len() && ws[e as int] is Some && step(edges, direction, e).0 == v);
        assert(relaxed_at(edges, direction, ws, costs, v));
        assert(costs[step(edges, direction, e).1 as int] <= costs[v as int] + weight_of(ws, e));
        lemma_walk_push(edges, direction, ws, es.take(i), s, v, e);
        assert(es.take(i).push(e) =~= es.take(i + 1));
        assert(walk_at(edges, direction, es, s, i + 1) == step(edges, direction, e).1);
        assert(edges[e as int].0 < n && edges[e as int].1 < n);
        lemma_open_on_walk(n, edges, direction, ws, s, t, costs, queue, es, i + 1)
    }
}

/// When the target is taken from the queue as its least entry at its
/// current cost, and no estimate overestimates, no walk to the target is
/// lighter than that cost.
proof fn lemma_pop_is_cheapest(
    n: nat,
    edges: Seq<(nat, nat)>,
    direction: Direction,
    ws: Seq<Option<u64>>,
    estimates: Seq<u64>,
    s: nat,
    t: nat,
    costs: Seq<u64>,
    queue: Seq<(u64, u64, u64, usize)>,
    at: int,
    es: Seq<nat>,
)
    requires
        valid_model(n, edges),
        costs.len() == n,
        estimates.len() == n,
        s < n,
        t < n,
        costs[s as int] == 0,
        forall|x: nat| x < n && #[trigger] costs[x as int] < u64::MAX ==> open_or_tried(edges, direction, ws, t, costs, queue, x),
        keys_ok(queue, estimates),
        forall|k: int| 0 <= k < queue.len() ==> (#[trigger] queue[k]).3 < n,
        admissible(edges, direction, ws, estimates, t),
        0 <= at < queue.len(),
        queue[at].3 == t,
        queue[at].2 == costs[t as int],
        costs[t as int] < u64::MAX,
        forall|k: int| 0 <= k < queue.len() ==> queue[at].0 <= #[trigger] queue[k].0,
        is_weighted_walk(edges, direction, ws, es, s, t),
    ensures
        walk_cost(ws, es) >= costs[t as int],
{
    if walk_cost(ws, es) < costs[t as int] {
        assert(es.take(0) =~= Seq::<nat>::empty());
        let j = lemma_open_on_walk(n, edges, direction, ws, s, t, costs, queue, es, 0);
        let v = walk_at(edges, direction, es, s, j);
        let k = choose|k: int| 0 <= k < queue.len() && (#[trigger] queue[k]).3 == v && queue[k].2 == costs[v as int];
        lemma_walk_skip(edges, direction, ws, es, s, t, j);
        assert(estimates[v as int] <= walk_cost(ws, es.skip(j)));
        assert(queue[k].1 == estimates[v as int]);
        assert(queue[k].2 + queue[k].1 <= walk_cost(ws, es));
        assert(queue[k].0 == queue[k].2 + queue[k].1);
        assert(queue[at].0 >= queue[at].2);
        assert(queue[at].0 <= queue[k].0);
    }
}

/// The sum of the tentative costs.
spec fn cost_sum(costs: Seq<u64>) -> int
    decreases costs.len(),
{
    if costs.len() == 0 {
        0
    } else {
        cost_sum(costs.drop_last()) + costs.last()
    }
}

proof fn lemma_cost_sum_update(costs: Seq<u64>, v: int, x: u64)
    requires
        0 <= v < costs.len(),
    ensures
        cost_sum(costs.update(v, x)) == cost_sum(costs) - costs[v] + x,
        cost_sum(costs) >= 0,
    decreases costs.len(),
{
    let u = costs.update(v, x);
    if v == costs.len() - 1 {
        assert(u.drop_last() =~= costs.drop_last());
        lemma_cost_sum_nonneg(costs.drop_last());
    } else {
        assert(u.drop_last() =~= costs.drop_last().update(v, x));
        lemma_cost_sum_update(costs.drop_last(), v, x);
    }
}

proof fn lemma_cost_sum_nonneg(costs: Seq<u64>)
    ensures
        cost_sum(costs) >= 0,
    decreases costs.len(),
{
    if costs.len() > 0 {
        lemma_cost_sum_nonneg(costs.drop_last());
    }
}

/// Entry `a` comes strictly before entry `b`: by estimated total, then
/// estimate, then cost, then node.
pub open spec fn entry_before(a: (u64, u64, u64, usize), b: (u64, u64, u64, usize)) -> bool {
    a.0 < b.0 || (a.0 == b.0 && (a.1 < b.1 || (a.1 == b.1 && (a.2 < b.2 || (a.2 == b.2 && a.3 < b.3)))))
}

/// The entry the search serves next has the least cost plus estimate of
/// all queued entries: an entry before every earlier one and after none of
/// the later ones has the smallest first key.
pub proof fn lemma_least_entry_least_total(queue: Seq<(u64, u64, u64, usize)>, r: int)
    requires
        0 <= r < queue.len(),
        forall|j: int| 0 <= j < r ==> entry_before(queue[r], #[trigger] queue[j]),
        forall|j: int| r < j < queue.len() ==> !entry_before(#[trigger] queue[j], queue[r]),
    ensures
        forall|k: int| 0 <= k < queue.len() ==> queue[r].0 <= #[trigger] queue[k].0,
{
    assert forall|k: int| 0 <= k < queue.len() implies queue[r].0 <= #[trigger] queue[k].0 by {
        if k < r {
            assert(entry_before(queue[r], queue[k]));
        } else if k > r {
            assert(!entry_before(queue[k], queue[r]));
        }
    }
}

/// The position of the least entry, by estimated total, then estimate,
/// then cost, then node; the first of equal least entries.
fn least_entry(queue: &Vec<(u64, u64, u64, usize)>) -> (r: usize)
    requires
        queue@.len() > 0,
    ensures
        r < queue@.len(),
        forall|j: int| 0 <= j < r ==> entry_before(queue@[r as int], #[trigger] queue@[j]),
        forall|j: int| r < j < queue@.len() ==> !entry_before(#[trigger] queue@[j], queue@[r as int]),
{
    let mut best: usize = 0;
    let mut i: usize = 1;
    while i < queue.len()
        invariant
            best < i,
            1 <= i <= queue@.len(),
            forall|j: int| 0 <= j < best ==> entry_before(queue@[best as int], #[trigger] queue@[j]),
            forall|j: int| best < j < i ==> !entry_before(#[trigger] queue@[j], queue@[best as int]),
        decreases queue@.len() - i,
    {
        let a = queue[i];
        let b = queue[best];
        if a.0 < b.0 || (a.0 == b.0 && (a.1 < b.1 || (a.1 == b.1 && (a.2 < b.2 || (a.2 == b.2 && a.3 < b.3))))) {
            best = i;
        }
        i = i + 1;
    }
    best
}

/// Node `v` is open at its current cost, or (unless it is the target)
/// every edge leaving it has been tried.
spec fn open_or_tried(
    edges: Seq<(nat, nat)>,
    direction: Direction,
    weights: Seq<Option<u64>>,
    t: nat,
    costs: Seq<u64>,
    queue: Seq<(u64, u64, u64, usize)>,
    v: nat,
) -> bool {
    queued(queue, costs, v) || (v != t && relaxed_at(edges, direction, weights, costs, v))
}

/// Tries every edge leaving `u` (just taken from the queue at its current
/// cost), lowering the costs it improves and queueing those nodes.
fn relax_around<G: IndexGraphView>(
    graph: &G,
    direction: Direction,
    weights: &Vec<Option<u64>>,
    estimates: &Vec<u64>,
    u: usize,
    costs: &mut Vec<u64>,
    pred: &mut Vec<usize>,
    pe: &mut Vec<usize>,
    queue: &mut Vec<(u64, u64, u64, usize)>,
    Ghost(s): Ghost<nat>,
    Ghost(t): Ghost<nat>,
    Ghost(stamp): Ghost<Seq<nat>>,
    Ghost(clock): Ghost<nat>,
) -> (r: (Ghost<Seq<nat>>, Ghost<nat>))
    requires
        search_base(graph.spec_node_count(), graph.spec_edges(), direction, weights@, s, t, old(costs)@, old(pred)@, old(pe)@, stamp, clock, old(queue)@),
        estimates@.len() == graph.spec_node_count(),
        keys_ok(old(queue)@, estimates@),
        u < graph.spec_node_count(),
        u != t,
        old(costs)@[u as int] < u64::MAX,
        forall|v: nat| v < graph.spec_node_count() && v != u && #[trigger] old(costs)@[v as int] < u64::MAX
            ==> open_or_tried(graph.spec_edges(), direction, weights@, t, old(costs)@, old(queue)@, v),
    ensures
        search_base(graph.spec_node_count(), graph.spec_edges(), direction, weights@, s, t, final(costs)@, final(pred)@, final(pe)@, r.0@, r.1@, final(queue)@),
        forall|v: nat| v < graph.spec_node_count() && #[trigger] final(costs)@[v as int] < u64::MAX
            ==> open_or_tried(graph.spec_edges(), direction, weights@, t, final(costs)@, final(queue)@, v),
        cost_sum(final(costs)@) + final(queue)@.len() <= cost_sum(old(costs)@) + old(queue)@.len(),
        keys_ok(final(queue)@, estimates@),
        forall|v: int| 0 <= v < graph.spec_node_count() ==> #[trigger] final(costs)@[v] <= old(costs)@[v],
{
    let ghost n = graph.spec_node_count();
    let ghost edges = graph.spec_edges();
    let ghost ws = weights@;
    let ghost mut stamp = stamp;
    let ghost mut clock = clock;
    let ghost costs0 = costs@;
    let ghost queue0 = queue@;
    let node = NodeIndex::new(u as u32);
    let adj = adjacent_edges(graph, node, direction);
    let base = costs[u];
    proof {
        lemma_cost_sum_nonneg(costs@);
    }
    let mut k: usize = 0;
    while k < adj.len()
        invariant
            n == graph.spec_node_count(),
            edges == graph.spec_edges(),
            ws == weights@,
            estimates@.len() == n,
            keys_ok(queue@, estimates@),
            u < n,
            u != t,
            node@ == u,
            base == costs@[u as int],
            base < u64::MAX,
            search_base(n, edges, direction, ws, s, t, costs@, pred@, pe@, stamp, clock, queue@),
            forall|v: nat| v < n && v != u && #[trigger] costs@[v as int] < u64::MAX
                ==> open_or_tried(edges, direction, ws, t, costs@, queue@, v),
            forall|i: int| 0 <= i < adj@.len() ==> (#[trigger] adj@[i])@ < edges.len() && step(edges, direction, adj@[i]@).0 == u,
            forall|e: nat| e < edges.len() && #[trigger] step(edges, direction, e).0 == u
                ==> exists|i: int| 0 <= i < adj@.len() && (#[trigger] adj@[i])@ == e,
            forall|i: int| 0 <= i < k && ws[adj@[i]@ as int] is Some ==> #[trigger] costs@[step(edges, direction, adj@[i]@).1 as int]
                <= base + weight_of(ws, adj@[i]@),
            cost_sum(costs@) + queue@.len() <= cost_sum(costs0) + queue0.len(),
            costs0.len() == n,
            forall|v: int| 0 <= v < n ==> #[trigger] costs@[v] <= costs0[v],
            k <= adj@.len(),
        decreases adj@.len() - k,
    {
        let e = adj[k];
        match weights[e.index()] {
            None => {},
            Some(w) => {
                let v = far_end(graph, e, direction);
                let vi = v.index();
                match base.checked_add(w) {
                    None => {},
                    Some(c) => {
                        if c < costs[vi] {
                            let h = estimates[vi];
                            let ghost before = costs@;
                            let ghost pred_before = pred@;
                            let ghost pe_before = pe@;
                            let ghost stamp_before = stamp;
                            let ghost queue_before = queue@;
                            proof {
                                assert(vi != u);
                                assert(vi != s);
                                lemma_cost_sum_update(before, vi as int, c);
                                let es = choose|es: Seq<nat>| #[trigger] is_weighted_walk(edges, direction, ws, es, s, u as nat)
                                    && walk_cost(ws, es) == before[u as int];
                                lemma_walk_push(edges, direction, ws, es, s, u as nat, e@);
                            }
                            costs.set(vi, c);
                            pred.set(vi, u);
                            pe.set(vi, e.index());
                            queue.push((c.saturating_add(h), h, c, vi));
                            proof {
                                let clock_before = clock;
                                stamp = stamp.update(vi as int, clock);
                                clock = clock + 1;
                                lemma_relax_update(n, edges, direction, ws, s, t, before, pred_before, pe_before, stamp_before,
                                    clock_before, queue_before, u as nat, vi as nat, e@, c, h, costs@, pred@, pe@, stamp, queue@);
                                assert forall|i: int| 0 <= i < k + 1 && ws[adj@[i]@ as int] is Some implies
                                    #[trigger] costs@[step(edges, direction, adj@[i]@).1 as int] <= base + weight_of(ws, adj@[i]@) by {
                                    if i < k {
                                        assert(before[step(edges, direction, adj@[i]@).1 as int] <= base + weight_of(ws, adj@[i]@));
                                    }
                                }
                                assert(costs@[u as int] == base);
                                assert forall|i: int| 0 <= i < queue@.len() implies (#[trigger] queue@[i]).1 == estimates@[queue@[i].3 as int]
                                    && queue@[i].0 == (if queue@[i].2 + queue@[i].1 > u64::MAX { u64::MAX } else { (queue@[i].2 + queue@[i].1) as u64 }) by {
                                    if i < queue_before.len() {
                                        assert(queue@[i] == queue_before[i]);
                                    }
                                }
                            }
                        }
                    },
                }
            },
        }
        k = k + 1;
    }
    proof {
        assert(relaxed_at(edges, direction, ws, costs@, u as nat)) by {
            assert forall|f: nat| f < edges.len() && #[trigger] step(edges, direction, f).0 == u && ws[f as int] is Some
                implies costs@[step(edges, direction, f).1 as int] <= costs@[u as int] + weight_of(ws, f) by {
                let i = choose|i: int| 0 <= i < adj@.len() && (#[trigger] adj@[i])@ == f;
            }
        }
    }
    (Ghost(stamp), Ghost(clock))
}

/// The facts the search keeps, apart from which nodes are open.
spec fn search_base(
    n: nat,
    edges: Seq<(nat, nat)>,
    direction: Direction,
    weights: Seq<Option<u64>>,
    s: nat,
    t: nat,
    costs: Seq<u64>,
    pred: Seq<usize>,
    pe: Seq<usize>,
    stamp: Seq<nat>,
    clock: nat,
    queue: Seq<(u64, u64, u64, usize)>,
) -> bool {
    &&& valid_model(n, edges)
    &&& weights.len() == edges.len()
    &&& costs.len() == n && pred.len() == n && pe.len() == n && stamp.len() == n
    &&& s < n && t < n
    &&& costs[s as int] == 0
    &&& forall|v: int| 0 <= v < n ==> #[trigger] stamp[v] < clock
    &&& forall|v: int| 0 <= v < n && v != s && #[trigger] costs[v] < u64::MAX
        ==> link_ok(n, edges, direction, weights, costs, pred, pe, stamp, v)
    &&& forall|v: int| 0 <= v < n && #[trigger] costs[v] < u64::MAX ==> exists|es: Seq<nat>|
        #[trigger] is_weighted_walk(edges, direction, weights, es, s, v as nat) && walk_cost(weights, es) == costs[v]
    &&& forall|i: int| 0 <= i < queue.len() ==> (#[trigger] queue[i]).3 < n && queue[i].2 < u64::MAX
}

/// Lowering `v`'s cost through the edge `e` from `u` keeps the search
/// facts, and queues `v` at its new cost.
proof fn lemma_relax_update(
    n: nat,
    edges: Seq<(nat, nat)>,
    direction: Direction,
    ws: Seq<Option<u64>>,
    s: nat,
    t: nat,
    costs0: Seq<u64>,
    pred0: Seq<usize>,
    pe0: Seq<usize>,
    stamp0: Seq<nat>,
    clock0: nat,
    queue0: Seq<(u64, u64, u64, usize)>,
    u: nat,
    v: nat,
    e: nat,
    c: u64,
    h: u64,
    costs1: Seq<u64>,
    pred1: Seq<usize>,
    pe1: Seq<usize>,
    stamp1: Seq<nat>,
    queue1: Seq<(u64, u64, u64, usize)>,
)
    requires
        search_base(n, edges, direction, ws, s, t, costs0, pred0, pe0, stamp0, clock0, queue0),
        forall|x: nat| x < n && x != u && #[trigger] costs0[x as int] < u64::MAX
            ==> open_or_tried(edges, direction, ws, t, costs0, queue0, x),
        u < n,
        v < n,
        v != s,
        v != u,
        costs0[u as int] < u64::MAX,
        e < edges.len(),
        ws[e as int] is Some,
        step(edges, direction, e) == (u, v),
        c == costs0[u as int] + weight_of(ws, e),
        c < costs0[v as int],
        exists|es: Seq<nat>| #[trigger] is_weighted_walk(edges, direction, ws, es, s, v) && walk_cost(ws, es) == c,
        costs1 == costs0.update(v as int, c),
        pred1 == pred0.update(v as int, u as usize),
        pe1 == pe0.update(v as int, e as usize),
        stamp1 == stamp0.update(v as int, clock0),
        queue1 == queue0.push((c.saturating_add(h), h, c, v as usize)),
    ensures
        search_base(n, edges, direction, ws, s, t, costs1, pred1, pe1, stamp1, clock0 + 1, queue1),
        forall|x: nat| x < n && x != u && #[trigger] costs1[x as int] < u64::MAX
            ==> open_or_tried(edges, direction, ws, t, costs1, queue1, x),
{
    assert forall|x: int| 0 <= x < n && x != s && #[trigger] costs1[x] < u64::MAX
        implies link_ok(n, edges, direction, ws, costs1, pred1, pe1, stamp1, x) by {
        if x != v {
            assert(costs1[x] == costs0[x]);
            assert(link_ok(n, edges, direction, ws, costs0, pred0, pe0, stamp0, x));
            assert(pred1[x] == pred0[x] && pe1[x] == pe0[x] && stamp1[x] == stamp0[x]);
            if pred0[x] as nat == v {
                assert(costs1[pred1[x] as int] == c);
            } else {
                assert(costs1[pred1[x] as int] == costs0[pred0[x] as int]);
                assert(stamp1[pred1[x] as int] == stamp0[pred0[x] as int]);
            }
        } else {
            assert(stamp0[u as int] < clock0);
        }
    }
    assert forall|x: int| 0 <= x < n && #[trigger] costs1[x] < u64::MAX implies exists|es: Seq<nat>|
        #[trigger] is_weighted_walk(edges, direction, ws, es, s, x as nat) && walk_cost(ws, es) == costs1[x] by {
        if x != v {
            assert(costs1[x] == costs0[x]);
        }
    }
    assert forall|i: int| 0 <= i < queue1.len() implies (#[trigger] queue1[i]).3 < n && queue1[i].2 < u64::MAX by {
        if i < queue0.len() {
            assert(queue1[i] == queue0[i]);
        }
    }
    assert forall|x: int| 0 <= x < n implies #[trigger] stamp1[x] < clock0 + 1 by {
        if x != v {
            assert(stamp1[x] == stamp0[x]);
        }
    }
    assert forall|x: nat| x < n && x != u && #[trigger] costs1[x as int] < u64::MAX
        implies open_or_tried(edges, direction, ws, t, costs1, queue1, x) by {
        if x == v {
            assert(queue1[queue0.len() as int].3 == x && queue1[queue0.len() as int].2 == costs1[x as int]);
        } else {
            assert(costs1[x as int] == costs0[x as int]);
            assert(open_or_tried(edges, direction, ws, t, costs0, queue0, x));
            if queued(queue0, costs0, x) {
                let i = choose|i: int| 0 <= i < queue0.len() && (#[trigger] queue0[i]).3 == x && queue0[i].2 == costs0[x as int];
                assert(queue1[i] == queue0[i]);
            } else {
                assert forall|f: nat| f < edges.len() && #[trigger] step(edges, direction, f).0 == x && ws[f as int] is Some
                    implies costs1[step(edges, direction, f).1 as int] <= costs1[x as int] + weight_of(ws, f) by {
                    assert(costs0[step(edges, direction, f).1 as int] <= costs0[x as int] + weight_of(ws, f));
                }
            }
        }
    }
}

/// Removing one entry keeps every other entry.
proof fn lemma_swap_remove_keeps(queue: Seq<(u64, u64, u64, usize)>, i: int, j: int)
    requires
        0 <= i < queue.len(),
        0 <= j < queue.len(),
        j != i,
    ensures
        ({
            let rest = queue.update(i, queue.last()).drop_last();
            exists|k: int| 0 <= k < rest.len() && rest[k] == queue[j]
        }),
{
    let rest = queue.update(i, queue.last()).drop_last();
    if j == queue.len() - 1 {
        assert(rest[i] == queue[j]);
    } else {
        assert(rest[j] == queue[j]);
    }
}

/// Once every reachable-at-finite-cost node other than the target has
/// tried its edges, a walk that weighs less than `u64::MAX` bounds the
/// cost of each node it visits up to its first visit of the target.
proof fn lemma_walk_bounds_costs(
    n: nat,
    edges: Seq<(nat, nat)>,
    direction: Direction,
    ws: Seq<Option<u64>>,
    s: nat,
    t: nat,
    costs: Seq<u64>,
    es: Seq<nat>,
    v: nat,
    i: int,
)
    requires
        valid_model(n, edges),
        costs.len() == n,
        s < n,
        costs[s as int] == 0,
        is_weighted_walk(edges, direction, ws, es, s, v),
        walk_cost(ws, es) < u64::MAX,
        0 <= i <= es.len(),
        forall|k: int| 0 <= k < i ==> walk_at(edges, direction, es, s, k) != t,
        forall|x: nat| x < n && x != t && #[trigger] costs[x as int] < u64::MAX ==> relaxed_at(edges, direction, ws, costs, x),
    ensures
        walk_at(edges, direction, es, s, i) < n,
        costs[walk_at(edges, direction, es, s, i) as int] <= walk_cost(ws, es.take(i)),
    decreases i,
{
    lemma_walk_take(edges, direction, ws, es, s, v, i);
    if i == 0 {
        assert(es.take(0) =~= Seq::<nat>::empty());
    } else {
        lemma_walk_bounds_costs(n, edges, direction, ws, s, t, costs, es, v, i - 1);
        lemma_walk_take(edges, direction, ws, es, s, v, i - 1);
        let a = walk_at(edges, direction, es, s, i - 1);
        let e = es[i - 1];
        assert(step(edges, direction, e).0 == walk_at(edges, direction, es, s, i - 1));
        assert(e < edges.len());
        assert(edges[e as int].0 < n && edges[e as int].1 < n);
        lemma_walk_push(edges, direction, ws, es.take(i - 1), s, a, e);
        assert(es.take(i - 1).push(e) =~= es.take(i));
        assert(walk_cost(ws, es.take(i)) <= walk_cost(ws, es)) by {
            lemma_walk_take(edges, direction, ws, es, s, v, i);
        }
        assert(relaxed_at(edges, direction, ws, costs, a));
    }
}

/// The walk back from `t` along the recorded predecessors.
fn reconstruct(
    s: usize,
    t: usize,
    costs: &Vec<u64>,
    pred: &Vec<usize>,
    pe: &Vec<usize>,
    Ghost(n): Ghost<nat>,
    Ghost(edges): Ghost<Seq<(nat, nat)>>,
    Ghost(direction): Ghost<Direction>,
    Ghost(ws): Ghost<Seq<Option<u64>>>,
    Ghost(stamp): Ghost<Seq<nat>>,
    Ghost(clock): Ghost<nat>,
    Ghost(queue): Ghost<Seq<(u64, u64, u64, usize)>>,
) -> (r: Vec<NodeIndex>)
    requires
        search_base(n, edges, direction, ws, s as nat, t as nat, costs@, pred@, pe@, stamp, clock, queue),
        costs@[t as int] < u64::MAX,
    ensures
        exists|es: Seq<nat>| #[trigger] is_weighted_walk(edges, direction, ws, es, s as nat, t as nat)
            && walk_nodes(edges, direction, es, s as nat) == node_positions(r@) && walk_cost(ws, es) <= costs@[t as int],
{
    let mut rev: Vec<NodeIndex> = Vec::new();
    rev.push(NodeIndex::new(t as u32));
    let mut cursor: usize = t;
    let ghost mut suffix: Seq<nat> = Seq::empty();
    proof {
        assert(is_weighted_walk(edges, direction, ws, suffix, t as nat, t as nat));
        assert(node_positions(rev@) =~= walk_nodes(edges, direction, suffix, t as nat).reverse());
    }
    while cursor != s
        invariant
            search_base(n, edges, direction, ws, s as nat, t as nat, costs@, pred@, pe@, stamp, clock, queue),
            cursor < n,
            costs@[cursor as int] < u64::MAX,
            is_weighted_walk(edges, direction, ws, suffix, cursor as nat, t as nat),
            walk_cost(ws, suffix) + costs@[cursor as int] <= costs@[t as int],
            node_positions(rev@) == walk_nodes(edges, direction, suffix, cursor as nat).reverse(),
        decreases costs@[cursor as int], stamp[cursor as int],
    {
        let p = pred[cursor];
        let e = pe[cursor];
        let pn = NodeIndex::new(p as u32);
        proof {
            assert(link_ok(n, edges, direction, ws, costs@, pred@, pe@, stamp, cursor as int));
            lemma_walk_prepend(edges, direction, ws, suffix, cursor as nat, t as nat, e as nat);
            let old_nodes = walk_nodes(edges, direction, suffix, cursor as nat);
            suffix = seq![e as nat] + suffix;
            assert(node_positions(rev@.push(pn)) =~= node_positions(rev@).push(p as nat));
            assert((seq![p as nat] + old_nodes).reverse() =~= old_nodes.reverse().push(p as nat));
        }
        rev.push(pn);
        cursor = p;
    }
    let mut nodes: Vec<NodeIndex> = Vec::new();
    let mut k: usize = rev.len();
    while k > 0
        invariant
            k <= rev@.len(),
            nodes@.len() == rev@.len() - k,
            forall|j: int| 0 <= j < nodes@.len() ==> #[trigger] nodes@[j] == rev@[rev@.len() - 1 - j],
        decreases k,
    {
        k = k - 1;
        nodes.push(rev[k]);
    }
    proof {
        assert(node_positions(nodes@) =~= node_positions(rev@).reverse());
        assert(walk_nodes(edges, direction, suffix, s as nat).reverse().reverse() =~= walk_nodes(edges, direction, suffix, s as nat));
    }
    nodes
}

/// A* search from `source` to `target` following edges in `direction`.
fn astar_with<G: IndexGraphView>(
    graph: &G,
    source: NodeIndex,
    target: NodeIndex,
    direction: Direction,
    weights: &Vec<Option<u64>>,
    estimates: &Vec<u64>,
) -> (r: Option<WeightedPath>)
    requires
        weights@.len() == graph.spec_edges().len(),
        estimates@.len() == graph.spec_node_count(),
    ensures
        r is Some <==> source@ < graph.spec_node_count() && target@ < graph.spec_node_count()
            && cheap_walk_exists(graph.spec_edges(), direction, weights@, source@, target@),
        r matches Some(p) ==> found_walk(graph.spec_edges(), direction, weights@, source@, target@, p.node_list(), p.cost()),
        admissible(graph.spec_edges(), direction, weights@, estimates@, target@) ==> (r matches Some(p) ==> is_cheapest(
            graph.spec_edges(),
            direction,
            weights@,
            source@,
            target@,
            p.node_list(),
            p.cost() as nat,
        )),
{
    let n = graph.node_bound();
    let ghost edges = graph.spec_edges();
    let ghost ws = weights@;
    if !(source.index() < n && target.index() < n) {
        return None;
    }
    let s = source.index();
    let t = target.index();
    let mut costs: Vec<u64> = Vec::new();
    let mut pred: Vec<usize> = Vec::new();
    let mut pe: Vec<usize> = Vec::new();
    let mut i: usize = 0;
    while i < n
        invariant
            i <= n,
            costs@.len() == i,
            pred@.len() == i,
            pe@.len() == i,
            forall|v: int| 0 <= v < i ==> #[trigger] costs@[v] == u64::MAX,
        decreases n - i,
    {
        costs.push(u64::MAX);
        pred.push(0);
        pe.push(0);
        i = i + 1;
    }
    costs.set(s, 0);
    let estimate = estimates[s];
    let mut queue: Vec<(u64, u64, u64, usize)> = Vec::new();
    queue.push((estimate, estimate, 0, s));
    let ghost mut stamp: Seq<nat> = Seq::new(n as nat, |v: int| 0nat);
    let ghost mut clock: nat = 1;
    proof {
        let es: Seq<nat> = Seq::empty();
        assert(is_weighted_walk(edges, direction, ws, es, s as nat, s as nat));
        assert forall|v: int| 0 <= v < n && #[trigger] costs@[v] < u64::MAX implies v == s by {}
        assert forall|v: int| 0 <= v < n && #[trigger] costs@[v] < u64::MAX implies exists|es: Seq<nat>|
            #[trigger] is_weighted_walk(edges, direction, ws, es, s as nat, v as nat) && walk_cost(ws, es) == costs@[v] by {
            assert(is_weighted_walk(edges, direction, ws, es, s as nat, v as nat) && walk_cost(ws, es) == costs@[v]);
        }
        assert forall|v: nat| v < n && #[trigger] costs@[v as int] < u64::MAX
            implies open_or_tried(edges, direction, ws, t as nat, costs@, queue@, v) by {
            assert(queue@[0].3 == v && queue@[0].2 == costs@[v as int]);
        }
        lemma_cost_sum_nonneg(costs@);
    }
    while queue.len() > 0
        invariant
            n == graph.spec_node_count(),
            edges == graph.spec_edges(),
            ws == weights@,
            estimates@.len() == n,
            s == source@,
            t == target@,
            search_base(n as nat, edges, direction, ws, s as nat, t as nat, costs@, pred@, pe@, stamp, clock, queue@),
            forall|v: nat| v < n && #[trigger] costs@[v as int] < u64::MAX
                ==> open_or_tried(edges, direction, ws, t as nat, costs@, queue@, v),
            keys_ok(queue@, estimates@),
        decreases cost_sum(costs@) + queue@.len(),
    {
        proof {
            lemma_cost_sum_nonneg(costs@);
        }
        let ghost before = queue@;
        let at = least_entry(&queue);
        let (_, _, cost, slot) = queue.swap_remove(at);
        proof {
            assert(queue@.len() == before.len() - 1);
            assert(before[at as int].3 == slot && before[at as int].2 == cost);
            assert forall|v: nat| v < n && v != slot && #[trigger] costs@[v as int] < u64::MAX
                implies open_or_tried(edges, direction, ws, t as nat, costs@, queue@, v) by {
                if queued(before, costs@, v) {
                    let j = choose|j: int| 0 <= j < before.len() && (#[trigger] before[j]).3 == v && before[j].2 == costs@[v as int];
                    lemma_swap_remove_keeps(before, at as int, j);
                    let k = choose|k: int| 0 <= k < queue@.len() && queue@[k] == before[j];
                    assert(queue@[k].3 == v);
                }
            }
            assert forall|k: int| 0 <= k < queue@.len() implies (#[trigger] queue@[k]).3 < n && queue@[k].2 < u64::MAX by {
                if k == at {
                    assert(queue@[k] == before[before.len() - 1]);
                } else {
                    assert(queue@[k] == before[k]);
                }
            }
            assert forall|k: int| 0 <= k < queue@.len() implies (#[trigger] queue@[k]).1 == estimates@[queue@[k].3 as int]
                && queue@[k].0 == (if queue@[k].2 + queue@[k].1 > u64::MAX { u64::MAX } else { (queue@[k].2 + queue@[k].1) as u64 }) by {
                if k == at {
                    assert(queue@[k] == before[before.len() - 1]);
                } else {
                    assert(queue@[k] == before[k]);
                }
            }
        }
        if cost != costs[slot] {
            proof {
                assert forall|v: nat| v < n && #[trigger] costs@[v as int] < u64::MAX
                    implies open_or_tried(edges, direction, ws, t as nat, costs@, queue@, v) by {
                    if v == slot && queued(before, costs@, v) {
                        let j = choose|j: int| 0 <= j < before.len() && (#[trigger] before[j]).3 == v && before[j].2 == costs@[v as int];
                        lemma_swap_remove_keeps(before, at as int, j);
                        let k = choose|k: int| 0 <= k < queue@.len() && queue@[k] == before[j];
                        assert(queue@[k].3 == v);
                    }
                }
            }
            continue;
        }
        if slot == t {
            let nodes = reconstruct(s, t, &costs, &pred, &pe, Ghost(n as nat), Ghost(edges), Ghost(direction), Ghost(ws),
                Ghost(stamp), Ghost(clock), Ghost(queue@));
            let path = WeightedPath::from_parts(nodes, cost);
            proof {
                assert(costs@[t as int] < u64::MAX);
                let es = choose|es: Seq<nat>| #[trigger] is_weighted_walk(edges, direction, ws, es, s as nat, t as nat)
                    && walk_cost(ws, es) == costs@[t as int];
                assert(cheap_walk_exists(edges, direction, ws, s as nat, t as nat));
                if admissible(edges, direction, ws, estimates@, t as nat) {
                    lemma_least_entry_least_total(before, at as int);
                    assert forall|es2: Seq<nat>| #[trigger] is_weighted_walk(edges, direction, ws, es2, s as nat, t as nat)
                        implies walk_cost(ws, es2) >= cost by {
                        lemma_pop_is_cheapest(n as nat, edges, direction, ws, estimates@, s as nat, t as nat, costs@, before,
                            at as int, es2);
                    }
                    let ew = choose|ew: Seq<nat>| #[trigger] is_weighted_walk(edges, direction, ws, ew, s as nat, t as nat)
                        && walk_nodes(edges, direction, ew, s as nat) == node_positions(nodes@) && walk_cost(ws, ew) <= costs@[t as int];
                    assert(walk_cost(ws, ew) >= cost);
                    assert(is_cheapest(edges, direction, ws, s as nat, t as nat, path.node_list(), path.cost() as nat));
                }
            }
            return Some(path);
        }
        let (Ghost(st), Ghost(cl)) = relax_around(graph, direction, weights, estimates, slot, &mut costs, &mut pred, &mut pe,
            &mut queue, Ghost(s as nat), Ghost(t as nat), Ghost(stamp), Ghost(clock));
        proof {
            stamp = st;
            clock = cl;
            lemma_cost_sum_nonneg(costs@);
        }
    }
    proof {
        assert(costs@[t as int] == u64::MAX) by {
            if costs@[t as int] < u64::MAX {
                assert(open_or_tried(edges, direction, ws, t as nat, costs@, queue@, t as nat));
            }
        }
        if cheap_walk_exists(edges, direction, ws, s as nat, t as nat) {
            let es = choose|es: Seq<nat>| #[trigger] is_weighted_walk(edges, direction, ws, es, s as nat, t as nat)
                && walk_cost(ws, es) < u64::MAX;
            let j = first_visit(edges, direction, es, s as nat, t as nat, 0);
            assert forall|x: nat| x < n && x != t && #[trigger] costs@[x as int] < u64::MAX
                implies relaxed_at(edges, direction, ws, costs@, x) by {
                assert(open_or_tried(edges, direction, ws, t as nat, costs@, queue@, x));
            }
            lemma_walk_bounds_costs(n as nat, edges, direction, ws, s as nat, t as nat, costs@, es, t as nat, j);
            lemma_walk_take(edges, direction, ws, es, s as nat, t as nat, j);
        }
    }
    None
}

/// The first step at which a walk from `s` to `t` stands at `t`.
proof fn first_visit(edges: Seq<(nat, nat)>, direction: Direction, es: Seq<nat>, s: nat, t: nat, i: int) -> (j: int)
    requires
        0 <= i <= es.len(),
        walk_at(edges, direction, es, s, es.len() as int) == t,
        forall|k: int| 0 <= k < i ==> walk_at(edges, direction, es, s, k) != t,
    ensures
        i <= j <= es.len(),
        walk_at(edges, direction, es, s, j) == t,
        forall|k: int| 0 <= k < j ==> walk_at(edges, direction, es, s, k) != t,
    decreases es.len() - i,
{
    if walk_at(edges, direction, es, s, i) == t {
        i
    } else {
        first_visit(edges, direction, es, s, t, i + 1)
    }
}

/// `nodes` are the nodes of a walk from `source` to `target` weighing at
/// most `cost`, and some walk between them weighs exactly `cost`.
pub open spec fn found_walk(
    edges: Seq<(nat, nat)>,
    direction: Direction,
    weights: Seq<Option<u64>>,
    source: nat,
    target: nat,
    nodes: Seq<nat>,
    cost: u64,
) -> bool {
    &&& exists|es: Seq<nat>| #[trigger] is_weighted_walk(edges, direction, weights, es, source, target)
        && walk_nodes(edges, direction, es, source) == nodes && walk_cost(weights, es) <= cost
    &&& exists|es: Seq<nat>| #[trigger] is_weighted_walk(edges, direction, weights, es, source, target)
        && walk_cost(weights, es) == cost
}

/// `estimates[v]` is what `h` returned for node `v`, for every node.
pub open spec fn is_estimate_table<H: Fn(NodeIndex) -> u64>(h: H, node_count: nat, estimates: Seq<u64>) -> bool {
    &&& estimates.len() == node_count
    &&& forall|v: NodeIndex| v@ < node_count ==> #[trigger] h.ensures((v,), estimates[v@ as int])
}

/// Evaluates `estimate_cost` once for every node, in node order.
fn estimate_table<G: IndexGraphView, H: Fn(NodeIndex) -> u64>(graph: &G, estimate_cost: &H) -> (r: Vec<u64>)
    requires
        forall|v: NodeIndex| estimate_cost.requires((v,)),
    ensures
        is_estimate_table(*estimate_cost, graph.spec_node_count(), r@),
{
    let count = graph.node_bound();
    let mut estimates: Vec<u64> = Vec::new();
    let mut i: usize = 0;
    while i < count
        invariant
            i <= count,
            count == graph.spec_node_count(),
            count <= u32::MAX,
            forall|v: NodeIndex| estimate_cost.requires((v,)),
            estimates@.len() == i,
            forall|v: NodeIndex| v@ < i ==> #[trigger] estimate_cost.ensures((v,), estimates@[v@ as int]),
        decreases count - i,
    {
        let node = NodeIndex::new(i as u32);
        let h = estimate_cost(node);
        estimates.push(h);
        proof {
            assert forall|v: NodeIndex| v@ < i + 1 implies #[trigger] estimate_cost.ensures((v,), estimates@[v@ as int]) by {
                if v@ == i {
                    crate::index::lemma_node_index_view(v, node);
                }
            }
        }
        i = i + 1;
    }
    estimates
}

/// A* search from `source` to `target` along outgoing edges, each edge
/// weighing what `edge_cost` returns for it, the open nodes taken in order
/// of cost so far plus what `estimate_cost` estimates from there.
///
/// Walks that weigh `u64::MAX` or more are not searched; `None` when the
/// nodes do not exist or no lighter walk joins them. The walk returned
/// weighs no more than its reported cost, which some walk between the two
/// nodes weighs exactly.
pub fn astar<G: IndexGraphView, F: Fn(EdgeIndex) -> u64, H: Fn(NodeIndex) -> u64>(
    graph: &G,
    source: NodeIndex,
    target: NodeIndex,
    edge_cost: F,
    estimate_cost: H,
) -> (r: Option<WeightedPath>)
    requires
        forall|e: EdgeIndex| edge_cost.requires((e,)),
        forall|v: NodeIndex| estimate_cost.requires((v,)),
    ensures
        exists|ws: Seq<u64>| {
            &&& is_total_weight_table(edge_cost, graph.spec_edges().len(), ws)
            &&& (r is Some <==> source@ < graph.spec_node_count() && target@ < graph.spec_node_count()
                && cheap_walk_exists(graph.spec_edges(), Direction::Outgoing, all_weighted(ws), source@, target@))
            &&& (r matches Some(p) ==> found_walk(graph.spec_edges(), Direction::Outgoing, all_weighted(ws), source@, target@,
                p.node_list(), p.cost()))
            &&& exists|est: Seq<u64>| {
                &&& is_estimate_table(estimate_cost, graph.spec_node_count(), est)
                &&& (admissible(graph.spec_edges(), Direction::Outgoing, all_weighted(ws), est, target@) ==> (r matches Some(p)
                    ==> is_cheapest(graph.spec_edges(), Direction::Outgoing, all_weighted(ws), source@, target@, p.node_list(),
                    p.cost() as nat)))
            }
        },
{
    let (weights, Ghost(ws)) = total_weight_table(graph, &edge_cost);
    let estimates = estimate_table(graph, &estimate_cost);
    astar_with(graph, source, target, Direction::Outgoing, &weights, &estimates)
}

/// A* search from `source` to `target` following edges in `direction`,
/// over the edges for which `edge_cost` returns a weight.
pub fn astar_filtered<G: IndexGraphView, F: Fn(EdgeIndex) -> Option<u64>, H: Fn(NodeIndex) -> u64>(
    graph: &G,
    source: NodeIndex,
    target: NodeIndex,
    direction: Direction,
    edge_cost: F,
    estimate_cost: H,
) -> (r: Option<WeightedPath>)
    requires
        forall|e: EdgeIndex| edge_cost.requires((e,)),
        forall|v: NodeIndex| estimate_cost.requires((v,)),
    ensures
        exists|ws: Seq<Option<u64>>| {
            &&& is_weight_table(edge_cost, graph.spec_edges().len(), ws)
            &&& (r is Some <==> source@ < graph.spec_node_count() && target@ < graph.spec_node_count()
                && cheap_walk_exists(graph.spec_edges(), direction, ws, source@, target@))
            &&& (r matches Some(p) ==> found_walk(graph.spec_edges(), direction, ws, source@, target@, p.node_list(), p.cost()))
            &&& exists|est: Seq<u64>| {
                &&& is_estimate_table(estimate_cost, graph.spec_node_count(), est)
                &&& (admissible(graph.spec_edges(), direction, ws, est, target@) ==> (r matches Some(p) ==> is_cheapest(
                    graph.spec_edges(),
                    direction,
                    ws,
                    source@,
                    target@,
                    p.node_list(),
                    p.cost() as nat,
                )))
            }
        },
{
    let weights = weight_table(graph, &edge_cost);
    let estimates = estimate_table(graph, &estimate_cost);
    astar_with(graph, source, target, direction, &weights, &estimates)
}

} // verus!

//! Cheapest walks with signed edge weights (Bellman-Ford).
use crate::digraph::valid_model;
use crate::error::{GraphError, Result};
use crate::index::{EdgeIndex, NodeIndex};
use crate::topology::{node_positions, IndexGraphView};
use vstd::prelude::*;

verus! {

broadcast use {crate::index::group_index_lemmas, crate::digraph::lemma_push_contains};

/// The node reached after the first `i` edges of `es` from `u`.
pub open spec fn signed_at(edges: Seq<(nat, nat)>, es: Seq<nat>, u: nat, i: int) -> nat {
    if i == 0 {
        u
    } else {
        edges[es[i - 1] as int].1
    }
}

/// Step `i` of `es` is a weighted edge that starts where the walk stands.
pub open spec fn signed_step(edges: Seq<(nat, nat)>, weights: Seq<Option<i64>>, es: Seq<nat>, u: nat, i: int) -> bool {
    &&& es[i] < edges.len()
    &&& weights[es[i] as int] is Some
    &&& edges[es[i] as int].0 == signed_at(edges, es, u, i)
}

/// `es` is a walk from `u` to `v` along edges that have a weight.
pub open spec fn is_signed_walk(edges: Seq<(nat, nat)>, weights: Seq<Option<i64>>, es: Seq<nat>, u: nat, v: nat) -> bool {
    &&& forall|i: int| 0 <= i < es.len() ==> #[trigger] signed_step(edges, weights, es, u, i)
    &&& signed_at(edges, es, u, es.len() as int) == v
}

/// The weight of edge `e`, zero when it has none.
pub open spec fn signed_weight(weights: Seq<Option<i64>>, e: nat) -> int {
    match weights[e as int] {
        Some(w) => w as int,
        None => 0,
    }
}

/// The sum of the weights along `es`.
pub open spec fn signed_cost(weights: Seq<Option<i64>>, es: Seq<nat>) -> int
    decreases es.len(),
{
    if es.len() == 0 {
        0
    } else {
        signed_cost(weights, es.drop_last()) + signed_weight(weights, es.last())
    }
}

/// Some walk joins `u` to `v`.
pub open spec fn signed_reaches(edges: Seq<(nat, nat)>, weights: Seq<Option<i64>>, u: nat, v: nat) -> bool {
    exists|es: Seq<nat>| #[trigger] is_signed_walk(edges, weights, es, u, v)
}

/// `d` is the least weight of a walk from `u` to `v`: some walk weighs
/// `d`, and none weighs less.
pub open spec fn is_least_cost(edges: Seq<(nat, nat)>, weights: Seq<Option<i64>>, u: nat, v: nat, d: int) -> bool {
    &&& exists|es: Seq<nat>| #[trigger] is_signed_walk(edges, weights, es, u, v) && signed_cost(weights, es) == d
    &&& forall|es: Seq<nat>| #[trigger] is_signed_walk(edges, weights, es, u, v) ==> signed_cost(weights, es) >= d
}

proof fn lemma_signed_push(edges: Seq<(nat, nat)>, weights: Seq<Option<i64>>, es: Seq<nat>, u: nat, v: nat, e: nat)
    requires
        is_signed_walk(edges, weights, es, u, v),
        e < edges.len(),
        weights[e as int] is Some,
        edges[e as int].0 == v,
    ensures
        is_signed_walk(edges, weights, es.push(e), u, edges[e as int].1),
        signed_cost(weights, es.push(e)) == signed_cost(weights, es) + signed_weight(weights, e),
{
    let t = es.push(e);
    assert(t.drop_last() =~= es);
    assert(t[t.len() - 1] == e);
    assert forall|i: int| 0 <= i < t.len() implies #[trigger] signed_step(edges, weights, t, u, i) by {
        if i < es.len() {
            assert(t[i] == es[i]);
            assert(signed_step(edges, weights, es, u, i));
            if i > 0 {
                assert(t[i - 1] == es[i - 1]);
            }
        } else if i > 0 {
            assert(t[i - 1] == es[i - 1]);
        }
    }
}

proof fn lemma_signed_take(edges: Seq<(nat, nat)>, weights: Seq<Option<i64>>, es: Seq<nat>, u: nat, v: nat, j: int)
    requires
        is_signed_walk(edges, weights, es, u, v),
        0 <= j <= es.len(),
    ensures
        is_signed_walk(edges, weights, es.take(j), u, signed_at(edges, es, u, j)),
{
    let p = es.take(j);
    assert forall|i: int| 0 <= i < p.len() implies #[trigger] signed_step(edges, weights, p, u, i) by {
        assert(p[i] == es[i]);
        assert(signed_step(edges, weights, es, u, i));
        if i > 0 {
            assert(p[i - 1] == es[i - 1]);
        }
    }
    if j > 0 {
        assert(p[j - 1] == es[j - 1]);
        assert(signed_at(edges, p, u, p.len() as int) == signed_at(edges, es, u, j));
    }
}

/// Every weighted edge out of a reached node reaches its target no more
/// expensively than through it: no edge can still be relaxed.
pub open spec fn is_fixpoint(edges: Seq<(nat, nat)>, weights: Seq<Option<i64>>, dist: Seq<i64>, reach: Seq<bool>) -> bool {
    forall|e: int| 0 <= e < edges.len() && weights[e] is Some && #[trigger] reach[edges[e].0 as int]
        ==> reach[edges[e].1 as int] && dist[edges[e].1 as int] <= dist[edges[e].0 as int] + signed_weight(weights, e as nat)
}

/// At a fixpoint every walk from the source ends at a reached node, no
/// cheaper than that node's distance.
proof fn lemma_fixpoint_walk(
    edges: Seq<(nat, nat)>,
    weights: Seq<Option<i64>>,
    dist: Seq<i64>,
    reach: Seq<bool>,
    s: nat,
    es: Seq<nat>,
    v: nat,
)
    requires
        is_fixpoint(edges, weights, dist, reach),
        reach[s as int],
        is_signed_walk(edges, weights, es, s, v),
    ensures
        reach[v as int],
        dist[v as int] <= dist[s as int] + signed_cost(weights, es),
    decreases es.len(),
{
    if es.len() > 0 {
        let k = es.len() - 1;
        let init = es.take(k);
        let mid = signed_at(edges, es, s, k);
        lemma_signed_take(edges, weights, es, s, v, k);
        assert(init =~= es.drop_last());
        lemma_fixpoint_walk(edges, weights, dist, reach, s, init, mid);
        let e = es[k];
        assert(signed_step(edges, weights, es, s, k));
        assert(reach[edges[e as int].0 as int]);
    }
}

/// A walk extended by one edge at its start.
proof fn lemma_signed_prepend(edges: Seq<(nat, nat)>, weights: Seq<Option<i64>>, es: Seq<nat>, u: nat, v: nat, e: nat)
    requires
        is_signed_walk(edges, weights, es, u, v),
        e < edges.len(),
        weights[e as int] is Some,
        edges[e as int].1 == u,
    ensures
        is_signed_walk(edges, weights, seq![e] + es, edges[e as int].0, v),
        signed_cost(weights, seq![e] + es) == signed_weight(weights, e) + signed_cost(weights, es),
    decreases es.len(),
{
    let t = seq![e] + es;
    let a = edges[e as int].0;
    assert forall|i: int| 0 <= i < t.len() implies #[trigger] signed_step(edges, weights, t, a, i) by {
        if i > 0 {
            assert(t[i] == es[i - 1]);
            assert(signed_step(edges, weights, es, u, i - 1));
            if i > 1 {
                assert(t[i - 1] == es[i - 2]);
            }
        }
    }
    if es.len() > 0 {
        assert(t[t.len() - 1] == es[es.len() - 1]);
        let init = es.drop_last();
        let v0 = signed_at(edges, es, u, init.len() as int);
        lemma_signed_take(edges, weights, es, u, v, init.len() as int);
        assert(es.take(init.len() as int) =~= init);
        lemma_signed_prepend(edges, weights, init, u, v0, e);
        assert(t.drop_last() =~= seq![e] + init);
        assert(signed_cost(weights, t) == signed_cost(weights, t.drop_last()) + signed_weight(weights, t.last()));
    } else {
        assert(t.drop_last() =~= Seq::<nat>::empty());
        assert(t.last() == e);
        assert(signed_cost(weights, t) == signed_cost(weights, t.drop_last()) + signed_weight(weights, t.last()));
    }
}

/// The nodes a walk visits from `u`, both ends included.
pub open spec fn signed_nodes(edges: Seq<(nat, nat)>, es: Seq<nat>, u: nat) -> Seq<nat> {
    Seq::new(es.len() + 1, |i: int| signed_at(edges, es, u, i))
}

/// A walk given by its nodes, with its total signed weight.
#[derive(Debug, Clone, PartialEq, Eq)]
pub struct SignedPath {
    nodes: Vec<NodeIndex>,
    total_cost: i64,
}

impl SignedPath {
    pub closed spec fn node_list(&self) -> Seq<nat> {
        node_positions(self.nodes@)
    }

    pub closed spec fn cost(&self) -> i64 {
        self.total_cost
    }

    pub fn nodes(&self) -> (r: &[NodeIndex])
        ensures
            node_positions(r@) == self.node_list(),
    {
        self.nodes.as_slice()
    }

    pub fn total_cost(&self) -> (r: i64)
        ensures
            r == self.cost(),
    {
        self.total_cost
    }

    pub fn into_nodes(self) -> (r: Vec<NodeIndex>)
        ensures
            node_positions(r@) == self.node_list(),
    {
        self.nodes
    }
}

/// The facts the relaxation keeps: the source stays reached at no more
/// than zero, every reached node's distance is the weight of some walk to
/// it, and each recorded predecessor is the start of a weighted edge into
/// Some walk from `s` over the weighted edges costs more than `i64` holds,
/// or less.
pub open spec fn overflowing_walk(edges: Seq<(nat, nat)>, weights: Seq<Option<i64>>, s: nat) -> bool {
    exists|es: Seq<nat>, v: nat| #[trigger] is_signed_walk(edges, weights, es, s, v)
        && (signed_cost(weights, es) < i64::MIN || signed_cost(weights, es) > i64::MAX)
}

/// the node that costs at most the node's distance.
spec fn relax_state(
    n: nat,
    edges: Seq<(nat, nat)>,
    weights: Seq<Option<i64>>,
    s: nat,
    dist: Seq<i64>,
    reach: Seq<bool>,
    pred: Seq<Option<usize>>,
    pe: Seq<nat>,
) -> bool {
    &&& valid_model(n, edges)
    &&& weights.len() == edges.len()
    &&& dist.len() == n && reach.len() == n && pred.len() == n && pe.len() == n
    &&& s < n
    &&& reach[s as int]
    &&& dist[s as int] <= 0
    &&& forall|v: int| 0 <= v < n && #[trigger] reach[v] ==> exists|es: Seq<nat>|
        #[trigger] is_signed_walk(edges, weights, es, s, v as nat) && signed_cost(weights, es) == dist[v]
    &&& forall|v: int| 0 <= v < n && (#[trigger] pred[v]) is Some ==> pred_ok(edges, weights, dist, reach, pred, pe, v)
}

/// The predecessor of `v` and the edge it was reached by.
spec fn pred_ok(
    edges: Seq<(nat, nat)>,
    weights: Seq<Option<i64>>,
    dist: Seq<i64>,
    reach: Seq<bool>,
    pred: Seq<Option<usize>>,
    pe: Seq<nat>,
    v: int,
) -> bool {
    let u = pred[v]->0 as int;
    &&& 0 <= u < dist.len()
    &&& reach[u]
    &&& reach[v]
    &&& pe[v] < edges.len()
    &&& weights[pe[v] as int] is Some
    &&& edges[pe[v] as int] == (u as nat, v as nat)
    &&& dist[u] + signed_weight(weights, pe[v]) <= dist[v]
}

/// Every recorded predecessor is strictly cheaper through its edge, or was
/// last improved before the node it leads to: the order in which a
/// predecessor chain could close on itself only through a negative cycle.
spec fn pred_ranked(n: nat, weights: Seq<Option<i64>>, dist: Seq<i64>, pred: Seq<Option<usize>>, pe: Seq<nat>, stamp: Seq<nat>) -> bool {
    &&& stamp.len() == n
    &&& forall|v: int| 0 <= v < n && (#[trigger] pred[v]) is Some ==> dist[pred[v]->0 as int] + signed_weight(weights, pe[v]) < dist[v]
        || stamp[pred[v]->0 as int] < stamp[v]
}

/// Every reached node but the source has a predecessor.
spec fn pred_total(n: nat, s: nat, reach: Seq<bool>, pred: Seq<Option<usize>>) -> bool {
    forall|v: int| 0 <= v < n && v != s && #[trigger] reach[v] ==> pred[v] is Some
}

/// The weighted edges in edge order: `list[k]` holds the endpoints, the
/// weight and the position of a weighted edge, and every weighted edge is
/// listed.
spec fn list_ok(edges: Seq<(nat, nat)>, weights: Seq<Option<i64>>, list: Seq<(usize, usize, i64, usize)>) -> bool {
    &&& forall|k: int| 0 <= k < list.len() ==> (#[trigger] list[k]).3 < edges.len() && weights[list[k].3 as int] == Some(list[k].2)
        && edges[list[k].3 as int] == (list[k].0 as nat, list[k].1 as nat)
    &&& forall|e: int| 0 <= e < edges.len() && (#[trigger] weights[e]) is Some ==> exists|k: int| 0 <= k < list.len()
        && (#[trigger] list[k]).3 == e
}

/// No listed edge out of a reached node can still be relaxed.
spec fn list_fixpoint(list: Seq<(usize, usize, i64, usize)>, dist: Seq<i64>, reach: Seq<bool>, upto: int) -> bool {
    forall|k: int| 0 <= k < upto && #[trigger] reach[list[k].0 as int]
        ==> reach[list[k].1 as int] && dist[list[k].1 as int] <= dist[list[k].0 as int] + list[k].2
}

proof fn lemma_list_fixpoint(
    edges: Seq<(nat, nat)>,
    weights: Seq<Option<i64>>,
    list: Seq<(usize, usize, i64, usize)>,
    dist: Seq<i64>,
    reach: Seq<bool>,
)
    requires
        list_ok(edges, weights, list),
        list_fixpoint(list, dist, reach, list.len() as int),
    ensures
        is_fixpoint(edges, weights, dist, reach),
{
    assert forall|e: int| 0 <= e < edges.len() && weights[e] is Some && #[trigger] reach[edges[e].0 as int]
        implies reach[edges[e].1 as int] && dist[edges[e].1 as int] <= dist[edges[e].0 as int] + signed_weight(weights, e as nat) by {
        let k = choose|k: int| 0 <= k < list.len() && (#[trigger] list[k]).3 == e;
        assert(reach[list[k].0 as int]);
    }
}

/// Some walk of at most `r` edges joins `s` to `v`.
spec fn reach_within(edges: Seq<(nat, nat)>, weights: Seq<Option<i64>>, s: nat, v: nat, r: nat) -> bool {
    exists|es: Seq<nat>| #[trigger] is_signed_walk(edges, weights, es, s, v) && es.len() <= r
}

/// One pass of relaxation over the listed edges, in order; reports
/// whether anything changed.
fn relax_all(
    Ghost(n): Ghost<nat>,
    Ghost(edges): Ghost<Seq<(nat, nat)>>,
    Ghost(weights): Ghost<Seq<Option<i64>>>,
    s: usize,
    list: &Vec<(usize, usize, i64, usize)>,
    dist: &mut Vec<i64>,
    reach: &mut Vec<bool>,
    pred: &mut Vec<Option<usize>>,
    pe: &mut Vec<usize>,
    Ghost(stamp): Ghost<Seq<nat>>,
    Ghost(clock): Ghost<nat>,
) -> (r: (Result<bool>, Ghost<Seq<nat>>, Ghost<nat>))
    requires
        relax_state(n, edges, weights, s as nat, old(dist)@, old(reach)@, old(pred)@, old(pe)@.map_values(|x: usize| x as nat)),
        list_ok(edges, weights, list@),
        pred_ranked(n, weights, old(dist)@, old(pred)@, old(pe)@.map_values(|x: usize| x as nat), stamp),
        pred_total(n, s as nat, old(reach)@, old(pred)@),
        forall|v: int| 0 <= v < n ==> #[trigger] stamp[v] < clock,
    ensures
        relax_state(n, edges, weights, s as nat, final(dist)@, final(reach)@, final(pred)@, final(pe)@.map_values(|x: usize| x as nat)),
        pred_ranked(n, weights, final(dist)@, final(pred)@, final(pe)@.map_values(|x: usize| x as nat), r.1@),
        pred_total(n, s as nat, final(reach)@, final(pred)@),
        forall|v: int| 0 <= v < n ==> #[trigger] r.1@[v] < r.2@,
        r.0 matches Ok(false) ==> list_fixpoint(list@, final(dist)@, final(reach)@, list@.len() as int),
        r.0 matches Err(e) ==> (e matches GraphError::ArithmeticOverflow { operation } && operation@ == "Bellman-Ford edge relaxation"@),
        r.0 is Err ==> overflowing_walk(edges, weights, s as nat),
        r.0 is Ok ==> forall|v: int| 0 <= v < n && #[trigger] old(reach)@[v] ==> final(reach)@[v],
        r.0 is Ok ==> forall|k: int| 0 <= k < list@.len() && old(reach)@[(#[trigger] list@[k]).0 as int] ==> final(reach)@[list@[k].1 as int],
        r.0 is Ok ==> forall|v: int| 0 <= v < n && #[trigger] old(reach)@[v] ==> final(dist)@[v] <= old(dist)@[v],
        r.0 is Ok ==> forall|k: int| 0 <= k < list@.len() && old(reach)@[(#[trigger] list@[k]).0 as int]
            ==> final(dist)@[list@[k].1 as int] <= old(dist)@[list@[k].0 as int] + list@[k].2,
{
    let ghost reach0 = reach@;
    let ghost dist0 = dist@;
    let ghost mut stamp = stamp;
    let ghost mut clock = clock;
    let mut changed = false;
    let mut k: usize = 0;
    while k < list.len()
        invariant
            relax_state(n, edges, weights, s as nat, dist@, reach@, pred@, pe@.map_values(|x: usize| x as nat)),
            pred_ranked(n, weights, dist@, pred@, pe@.map_values(|x: usize| x as nat), stamp),
            pred_total(n, s as nat, reach@, pred@),
            forall|v: int| 0 <= v < n ==> #[trigger] stamp[v] < clock,
            list_ok(edges, weights, list@),
            reach0.len() == n,
            k <= list@.len(),
            !changed ==> list_fixpoint(list@, dist@, reach@, k as int),
            forall|v: int| 0 <= v < n && #[trigger] reach0[v] ==> reach@[v],
            forall|j: int| 0 <= j < k && reach0[(#[trigger] list@[j]).0 as int] ==> reach@[list@[j].1 as int],
            dist0.len() == n,
            forall|v: int| 0 <= v < n && #[trigger] reach0[v] ==> dist@[v] <= dist0[v],
            forall|j: int| 0 <= j < k && reach0[(#[trigger] list@[j]).0 as int]
                ==> dist@[list@[j].1 as int] <= dist0[list@[j].0 as int] + list@[j].2,
        decreases list@.len() - k,
    {
        let (a, b, w, e) = list[k];
        proof {
            assert(edges[e as int].0 < n && edges[e as int].1 < n);
        }
        if reach[a] {
            let candidate = match dist[a].checked_add(w) {
                Some(c) => c,
                None => {
                    proof {
                        let es = choose|es: Seq<nat>| #[trigger] is_signed_walk(edges, weights, es, s as nat, a as nat)
                            && signed_cost(weights, es) == dist@[a as int];
                        lemma_signed_push(edges, weights, es, s as nat, a as nat, e as nat);
                        assert(weights[e as int] == Some(w));
                        assert(is_signed_walk(edges, weights, es.push(e as nat), s as nat, edges[e as int].1));
                    }
                    return (Err(GraphError::ArithmeticOverflow { operation: "Bellman-Ford edge relaxation" }), Ghost(stamp), Ghost(clock));
                },
            };
            if !reach[b] || candidate < dist[b] {
                let ghost d0 = dist@;
                let ghost r0 = reach@;
                let ghost p0 = pred@;
                let ghost e0 = pe@.map_values(|x: usize| x as nat);
                proof {
                    let es = choose|es: Seq<nat>| #[trigger] is_signed_walk(edges, weights, es, s as nat, a as nat)
                        && signed_cost(weights, es) == d0[a as int];
                    lemma_signed_push(edges, weights, es, s as nat, a as nat, e as nat);
                }
                dist.set(b, candidate);
                reach.set(b, true);
                pred.set(b, Some(a));
                pe.set(b, e);
                proof {
                    let pes = pe@.map_values(|x: usize| x as nat);
                    assert(pes =~= e0.update(b as int, e as nat));
                    let stamp0 = stamp;
                    stamp = stamp.update(b as int, clock);
                    clock = clock + 1;
                    assert forall|v: int| 0 <= v < n && (#[trigger] pred@[v]) is Some implies dist@[pred@[v]->0 as int]
                        + signed_weight(weights, pes[v]) < dist@[v] || stamp[pred@[v]->0 as int] < stamp[v] by {
                        if v == b {
                            assert(weights[e as int] == Some(w));
                            if a == b {
                                assert(w < 0);
                            }
                        } else {
                            let u = p0[v]->0 as int;
                            assert(pred_ok(edges, weights, d0, r0, p0, e0, v));
                            if u == b {
                                assert(r0[u]);
                                assert(candidate < d0[b as int]);
                            }
                        }
                    }
                    assert forall|v: int| 0 <= v < n && v != s && #[trigger] reach@[v] implies pred@[v] is Some by {
                        if v != b {
                            assert(r0[v]);
                        }
                    }
                    assert forall|v: int| 0 <= v < n && #[trigger] reach@[v] implies exists|es: Seq<nat>|
                        #[trigger] is_signed_walk(edges, weights, es, s as nat, v as nat) && signed_cost(weights, es) == dist@[v] by {
                        if v == b {
                            let es = choose|es: Seq<nat>| #[trigger] is_signed_walk(edges, weights, es, s as nat, a as nat)
                                && signed_cost(weights, es) == d0[a as int];
                            assert(is_signed_walk(edges, weights, es.push(e as nat), s as nat, v as nat));
                        } else {
                            assert(r0[v]);
                            let es = choose|es: Seq<nat>| #[trigger] is_signed_walk(edges, weights, es, s as nat, v as nat)
                                && signed_cost(weights, es) == d0[v];
                            assert(is_signed_walk(edges, weights, es, s as nat, v as nat) && signed_cost(weights, es) == dist@[v]);
                        }
                    }
                    assert forall|v: int| 0 <= v < n && (#[trigger] pred@[v]) is Some implies pred_ok(edges, weights, dist@, reach@, pred@, pes, v) by {
                        if v != b {
                            assert(pred_ok(edges, weights, d0, r0, p0, e0, v));
                        }
                    }
                    assert forall|j: int| 0 <= j < k + 1 && reach0[(#[trigger] list@[j]).0 as int] implies reach@[list@[j].1 as int] by {
                        if j < k {
                            assert(r0[list@[j].1 as int]);
                        }
                    }
                }
                changed = true;
            }
        }
        k = k + 1;
    }
    (Ok(changed), Ghost(stamp), Ghost(clock))
}

/// Checks, after the relaxation rounds, that no listed edge between
/// reached nodes can still be relaxed.
fn reject_negative_cycle(
    list: &Vec<(usize, usize, i64, usize)>,
    dist: &Vec<i64>,
    reach: &Vec<bool>,
    Ghost(n): Ghost<nat>,
    Ghost(edges): Ghost<Seq<(nat, nat)>>,
    Ghost(weights): Ghost<Seq<Option<i64>>>,
    Ghost(s): Ghost<nat>,
) -> (r: Result<()>)
    requires
        dist@.len() == n,
        reach@.len() == n,
        forall|k: int| 0 <= k < list@.len() ==> (#[trigger] list@[k]).0 < n && list@[k].1 < n,
        list_ok(edges, weights, list@),
        forall|v: int| 0 <= v < n && #[trigger] reach@[v] ==> exists|es: Seq<nat>|
            #[trigger] is_signed_walk(edges, weights, es, s, v as nat) && signed_cost(weights, es) == dist@[v],
    ensures
        r matches Err(e) && e is ArithmeticOverflow ==> overflowing_walk(edges, weights, s),
        r is Ok ==> forall|k: int| 0 <= k < list@.len() && #[trigger] reach@[list@[k].0 as int] && reach@[list@[k].1 as int]
            ==> dist@[list@[k].1 as int] <= dist@[list@[k].0 as int] + list@[k].2,
        r matches Err(e) ==> (e matches GraphError::ArithmeticOverflow { operation } && operation@ == "Bellman-Ford cycle check"@)
            || (e matches GraphError::NegativeCycle { algorithm } && algorithm@ == "Bellman-Ford"@),
        r matches Err(e) && e is NegativeCycle ==> exists|k: int| 0 <= k < list@.len() && #[trigger] reach@[list@[k].0 as int]
            && reach@[list@[k].1 as int] && dist@[list@[k].0 as int] + list@[k].2 < dist@[list@[k].1 as int],
{
    let mut k: usize = 0;
    while k < list.len()
        invariant
            dist@.len() == n,
            reach@.len() == n,
            forall|k: int| 0 <= k < list@.len() ==> (#[trigger] list@[k]).0 < n && list@[k].1 < n,
            list_ok(edges, weights, list@),
            forall|v: int| 0 <= v < n && #[trigger] reach@[v] ==> exists|es: Seq<nat>|
                #[trigger] is_signed_walk(edges, weights, es, s, v as nat) && signed_cost(weights, es) == dist@[v],
            k <= list@.len(),
            forall|j: int| 0 <= j < k && #[trigger] reach@[list@[j].0 as int] && reach@[list@[j].1 as int]
                ==> dist@[list@[j].1 as int] <= dist@[list@[j].0 as int] + list@[j].2,
        decreases list@.len() - k,
    {
        let (a, b, w, _e) = list[k];
        proof {
            assert(list@[k as int].0 < n);
            assert(list@[k as int].3 < edges.len());
        }
        if reach[a] {
            let candidate = match dist[a].checked_add(w) {
                Some(c) => c,
                None => {
                    proof {
                        let ed = list@[k as int].3 as nat;
                        let es = choose|es: Seq<nat>| #[trigger] is_signed_walk(edges, weights, es, s, a as nat)
                            && signed_cost(weights, es) == dist@[a as int];
                        assert(weights[ed as int] == Some(w) && edges[ed as int] == (a as nat, b as nat));
                        lemma_signed_push(edges, weights, es, s, a as nat, ed);
                        assert(is_signed_walk(edges, weights, es.push(ed), s, b as nat));
                    }
                    return Err(GraphError::ArithmeticOverflow { operation: "Bellman-Ford cycle check" });
                },
            };
            if reach[b] && candidate < dist[b] {
                proof {
                    assert(reach@[list@[k as int].0 as int]);
                }
                return Err(GraphError::NegativeCycle { algorithm: "Bellman-Ford" });
            }
        }
        k = k + 1;
    }
    Ok(())
}

/// Cutting out the part of a walk between two visits of one node leaves a walk.
proof fn lemma_signed_splice(edges: Seq<(nat, nat)>, weights: Seq<Option<i64>>, es: Seq<nat>, s: nat, v: nat, i: int, j: int)
    requires
        is_signed_walk(edges, weights, es, s, v),
        0 <= i < j <= es.len(),
        signed_at(edges, es, s, i) == signed_at(edges, es, s, j),
    ensures
        is_signed_walk(edges, weights, es.take(i) + es.skip(j), s, v),
{
    let t = es.take(i) + es.skip(j);
    let d = j - i;
    assert forall|k: int| 0 <= k <= t.len() implies #[trigger] signed_at(edges, t, s, k) == signed_at(edges, es, s, if k <= i { k } else { k + d }) by {
        if k > 0 {
            if k <= i {
                assert(t[k - 1] == es[k - 1]);
            } else {
                assert(t[k - 1] == es[k - 1 + d]);
            }
        }
    }
    assert forall|k: int| 0 <= k < t.len() implies #[trigger] signed_step(edges, weights, t, s, k) by {
        assert(signed_at(edges, t, s, k) == signed_at(edges, es, s, if k <= i { k } else { k + d }));
        if k < i {
            assert(t[k] == es[k]);
            assert(signed_step(edges, weights, es, s, k));
        } else {
            assert(t[k] == es[k + d]);
            assert(signed_step(edges, weights, es, s, k + d));
        }
    }
    assert(signed_at(edges, t, s, t.len() as int) == signed_at(edges, es, s, if t.len() <= i { t.len() as int } else { t.len() + d }));
}

/// A walk can be shortened to fewer edges than there are nodes.
proof fn lemma_short_walk(n: nat, edges: Seq<(nat, nat)>, weights: Seq<Option<i64>>, es: Seq<nat>, s: nat, v: nat)
    requires
        valid_model(n, edges),
        s < n,
        is_signed_walk(edges, weights, es, s, v),
    ensures
        reach_within(edges, weights, s, v, (n - 1) as nat),
    decreases es.len(),
{
    if es.len() < n {
        assert(is_signed_walk(edges, weights, es, s, v) && es.len() <= (n - 1) as nat);
    } else {
        let nodes = signed_nodes(edges, es, s);
        assert forall|k: int| 0 <= k < nodes.len() implies #[trigger] nodes[k] < n by {
            if k > 0 {
                assert(signed_step(edges, weights, es, s, k - 1));
                assert(edges[es[k - 1] as int].1 < n);
            }
        }
        if nodes.no_duplicates() {
            crate::digraph::lemma_distinct_below(nodes, n);
            assert(false);
        }
        let (i, j) = choose|i: int, j: int| 0 <= i < nodes.len() && 0 <= j < nodes.len() && i != j && nodes[i] == nodes[j];
        let (a, b) = if i < j { (i, j) } else { (j, i) };
        lemma_signed_splice(edges, weights, es, s, v, a, b);
        lemma_short_walk(n, edges, weights, es.take(a) + es.skip(b), s, v);
    }
}

/// After one more pass every node within one more edge is reached.
proof fn lemma_one_more_round(
    edges: Seq<(nat, nat)>,
    weights: Seq<Option<i64>>,
    list: Seq<(usize, usize, i64, usize)>,
    s: nat,
    n: nat,
    reach0: Seq<bool>,
    reach1: Seq<bool>,
    r: nat,
)
    requires
        valid_model(n, edges),
        s < n,
        list_ok(edges, weights, list),
        reach0.len() == n,
        forall|v: nat| v < n && #[trigger] reach_within(edges, weights, s, v, r) ==> reach0[v as int],
        forall|v: int| 0 <= v < n && #[trigger] reach0[v] ==> reach1[v],
        forall|k: int| 0 <= k < list.len() && reach0[(#[trigger] list[k]).0 as int] ==> reach1[list[k].1 as int],
    ensures
        forall|v: nat| v < n && #[trigger] reach_within(edges, weights, s, v, r + 1) ==> reach1[v as int],
{
    assert forall|v: nat| v < n && #[trigger] reach_within(edges, weights, s, v, r + 1) implies reach1[v as int] by {
        let es = choose|es: Seq<nat>| #[trigger] is_signed_walk(edges, weights, es, s, v) && es.len() <= r + 1;
        if es.len() <= r {
            assert(reach_within(edges, weights, s, v, r));
        } else {
            let m = es.len() - 1;
            let u = signed_at(edges, es, s, m);
            lemma_signed_take(edges, weights, es, s, v, m);
            assert(reach_within(edges, weights, s, u, r));
            assert(signed_step(edges, weights, es, s, m));
            let e = es[m];
            assert(u < n) by {
                if m > 0 {
                    assert(signed_step(edges, weights, es, s, m - 1));
                }
            }
            let k = choose|k: int| 0 <= k < list.len() && (#[trigger] list[k]).3 == e;
            assert(list[k].0 == u);
        }
    }
}

/// Every walk of at most `r` edges from `s` ends at a reached node whose
/// distance is at most the walk's weight.
spec fn walks_bounded(edges: Seq<(nat, nat)>, weights: Seq<Option<i64>>, s: nat, dist: Seq<i64>, reach: Seq<bool>, r: nat) -> bool {
    forall|es: Seq<nat>, v: nat| #[trigger] is_signed_walk(edges, weights, es, s, v) && es.len() <= r
        ==> v < dist.len() && reach[v as int] && dist[v as int] <= signed_cost(weights, es)
}

/// Some closed walk of at least one edge, through a node that a walk from
/// `s` reaches, weighs less than zero.
pub open spec fn has_negative_cycle_from(edges: Seq<(nat, nat)>, weights: Seq<Option<i64>>, s: nat) -> bool {
    exists|pre: Seq<nat>, cyc: Seq<nat>, u: nat|
        #![trigger is_signed_walk(edges, weights, pre, s, u), is_signed_walk(edges, weights, cyc, u, u)]
        is_signed_walk(edges, weights, pre, s, u) && cyc.len() > 0 && is_signed_walk(edges, weights, cyc, u, u)
            && signed_cost(weights, cyc) < 0
}

/// After one more pass, walks one edge longer are bounded too.
proof fn lemma_bounded_round(
    n: nat,
    edges: Seq<(nat, nat)>,
    weights: Seq<Option<i64>>,
    list: Seq<(usize, usize, i64, usize)>,
    s: nat,
    dist0: Seq<i64>,
    reach0: Seq<bool>,
    dist1: Seq<i64>,
    reach1: Seq<bool>,
    r: nat,
)
    requires
        valid_model(n, edges),
        s < n,
        list_ok(edges, weights, list),
        dist0.len() == n,
        reach0.len() == n,
        dist1.len() == n,
        reach1.len() == n,
        walks_bounded(edges, weights, s, dist0, reach0, r),
        forall|v: int| 0 <= v < n && #[trigger] reach0[v] ==> reach1[v],
        forall|v: int| 0 <= v < n && #[trigger] reach0[v] ==> dist1[v] <= dist0[v],
        forall|k: int| 0 <= k < list.len() && reach0[(#[trigger] list[k]).0 as int] ==> reach1[list[k].1 as int],
        forall|k: int| 0 <= k < list.len() && reach0[(#[trigger] list[k]).0 as int]
            ==> dist1[list[k].1 as int] <= dist0[list[k].0 as int] + list[k].2,
    ensures
        walks_bounded(edges, weights, s, dist1, reach1, r + 1),
{
    assert forall|es: Seq<nat>, v: nat| #[trigger] is_signed_walk(edges, weights, es, s, v) && es.len() <= r + 1
        implies v < dist1.len() && reach1[v as int] && dist1[v as int] <= signed_cost(weights, es) by {
        if es.len() <= r {
            assert(reach0[v as int]);
        } else {
            let m = es.len() - 1;
            let u = signed_at(edges, es, s, m);
            lemma_signed_take(edges, weights, es, s, v, m);
            assert(es.take(m) =~= es.drop_last());
            assert(is_signed_walk(edges, weights, es.take(m), s, u) && es.take(m).len() <= r);
            assert(reach0[u as int] && dist0[u as int] <= signed_cost(weights, es.take(m)));
            assert(signed_step(edges, weights, es, s, m));
            let e = es[m];
            let k = choose|k: int| 0 <= k < list.len() && (#[trigger] list[k]).3 == e;
            assert(list[k].0 == u);
            assert(edges[e as int].1 == v);
        }
    }
}

/// Two walks joined end to start weigh what both weigh.
proof fn lemma_cost_concat(weights: Seq<Option<i64>>, a: Seq<nat>, b: Seq<nat>)
    ensures
        signed_cost(weights, a + b) == signed_cost(weights, a) + signed_cost(weights, b),
    decreases b.len(),
{
    if b.len() == 0 {
        assert(a + b =~= a);
    } else {
        lemma_cost_concat(weights, a, b.drop_last());
        assert((a + b).drop_last() =~= a + b.drop_last());
        assert((a + b).last() == b.last());
    }
}

/// The part of a walk between two of its steps is a walk between the
/// nodes it passes there.
proof fn lemma_signed_sub(edges: Seq<(nat, nat)>, weights: Seq<Option<i64>>, es: Seq<nat>, s: nat, v: nat, i: int, j: int)
    requires
        is_signed_walk(edges, weights, es, s, v),
        0 <= i <= j <= es.len(),
    ensures
        is_signed_walk(edges, weights, es.subrange(i, j), signed_at(edges, es, s, i), signed_at(edges, es, s, j)),
{
    let p = es.subrange(i, j);
    let a = signed_at(edges, es, s, i);
    assert forall|k: int| 0 <= k <= p.len() implies #[trigger] signed_at(edges, p, a, k) == signed_at(edges, es, s, i + k) by {
        if k > 0 {
            assert(p[k - 1] == es[i + k - 1]);
        }
    }
    assert forall|k: int| 0 <= k < p.len() implies #[trigger] signed_step(edges, weights, p, a, k) by {
        assert(signed_at(edges, p, a, k) == signed_at(edges, es, s, i + k));
        assert(p[k] == es[i + k]);
        assert(signed_step(edges, weights, es, s, i + k));
    }
    assert(signed_at(edges, p, a, p.len() as int) == signed_at(edges, es, s, j));
}

/// Without a reachable negative cycle, every walk from `s` can be
/// shortened to fewer edges than there are nodes at no greater weight.
proof fn lemma_cheap_short(n: nat, edges: Seq<(nat, nat)>, weights: Seq<Option<i64>>, es: Seq<nat>, s: nat, v: nat)
    requires
        valid_model(n, edges),
        s < n,
        is_signed_walk(edges, weights, es, s, v),
        !has_negative_cycle_from(edges, weights, s),
    ensures
        exists|es2: Seq<nat>| #[trigger] is_signed_walk(edges, weights, es2, s, v) && es2.len() <= n - 1
            && signed_cost(weights, es2) <= signed_cost(weights, es),
    decreases es.len(),
{
    if es.len() < n {
        assert(is_signed_walk(edges, weights, es, s, v) && es.len() <= n - 1);
    } else {
        let nodes = signed_nodes(edges, es, s);
        assert forall|k: int| 0 <= k < nodes.len() implies #[trigger] nodes[k] < n by {
            if k > 0 {
                assert(signed_step(edges, weights, es, s, k - 1));
                assert(edges[es[k - 1] as int].1 < n);
            }
        }
        if nodes.no_duplicates() {
            crate::digraph::lemma_distinct_below(nodes, n);
            assert(false);
        }
        let (i0, j0) = choose|i: int, j: int| 0 <= i < nodes.len() && 0 <= j < nodes.len() && i != j && nodes[i] == nodes[j];
        let (i, j) = if i0 < j0 { (i0, j0) } else { (j0, i0) };
        let u = signed_at(edges, es, s, i);
        assert(nodes[i] == u && nodes[j] == signed_at(edges, es, s, j));
        let pre = es.take(i);
        let cyc = es.subrange(i, j);
        let post = es.skip(j);
        lemma_signed_take(edges, weights, es, s, v, i);
        lemma_signed_sub(edges, weights, es, s, v, i, j);
        assert(is_signed_walk(edges, weights, pre, s, u));
        assert(is_signed_walk(edges, weights, cyc, u, u));
        assert(cyc.len() > 0);
        assert(signed_cost(weights, cyc) >= 0);
        lemma_signed_splice(edges, weights, es, s, v, i, j);
        let short = pre + post;
        assert(es =~= pre + cyc + post);
        lemma_cost_concat(weights, pre, cyc);
        lemma_cost_concat(weights, pre + cyc, post);
        lemma_cost_concat(weights, pre, post);
        lemma_cheap_short(n, edges, weights, short, s, v);
        let es2 = choose|es2: Seq<nat>| #[trigger] is_signed_walk(edges, weights, es2, s, v) && es2.len() <= n - 1
            && signed_cost(weights, es2) <= signed_cost(weights, short);
        assert(is_signed_walk(edges, weights, es2, s, v) && es2.len() <= n - 1 && signed_cost(weights, es2) <= signed_cost(weights, es));
    }
}

/// A walk followed by another that starts where it ends.
proof fn lemma_signed_concat(edges: Seq<(nat, nat)>, weights: Seq<Option<i64>>, a: Seq<nat>, b: Seq<nat>, x: nat, y: nat, z: nat)
    requires
        is_signed_walk(edges, weights, a, x, y),
        is_signed_walk(edges, weights, b, y, z),
    ensures
        is_signed_walk(edges, weights, a + b, x, z),
    decreases b.len(),
{
    if b.len() == 0 {
        assert(a + b =~= a);
    } else {
        let m = b.len() - 1;
        let w = signed_at(edges, b, y, m);
        lemma_signed_take(edges, weights, b, y, z, m);
        assert(b.take(m) =~= b.drop_last());
        lemma_signed_concat(edges, weights, a, b.drop_last(), x, y, w);
        assert(signed_step(edges, weights, b, y, m));
        lemma_signed_push(edges, weights, a + b.drop_last(), x, w, b[m]);
        assert((a + b.drop_last()).push(b[m]) =~= a + b);
    }
}

/// `cyc` repeated `k` times.
spec fn repeated(cyc: Seq<nat>, k: nat) -> Seq<nat>
    decreases k,
{
    if k == 0 {
        Seq::empty()
    } else {
        repeated(cyc, (k - 1) as nat) + cyc
    }
}

/// Going round a negative closed walk `k` times weighs at most `-k`.
proof fn lemma_repeated(edges: Seq<(nat, nat)>, weights: Seq<Option<i64>>, cyc: Seq<nat>, u: nat, k: nat)
    requires
        is_signed_walk(edges, weights, cyc, u, u),
        signed_cost(weights, cyc) < 0,
    ensures
        is_signed_walk(edges, weights, repeated(cyc, k), u, u),
        signed_cost(weights, repeated(cyc, k)) <= -(k as int),
    decreases k,
{
    if k == 0 {
        assert(is_signed_walk(edges, weights, Seq::<nat>::empty(), u, u));
    } else {
        lemma_repeated(edges, weights, cyc, u, (k - 1) as nat);
        lemma_signed_concat(edges, weights, repeated(cyc, (k - 1) as nat), cyc, u, u, u);
        lemma_cost_concat(weights, repeated(cyc, (k - 1) as nat), cyc);
    }
}

/// Distances that no edge can improve rule out a reachable negative cycle:
/// going round it often enough would undercut any distance.
proof fn lemma_fixpoint_no_negative_cycle(edges: Seq<(nat, nat)>, weights: Seq<Option<i64>>, dist: Seq<i64>, reach: Seq<bool>, s: nat)
    requires
        is_fixpoint(edges, weights, dist, reach),
        s < reach.len(),
        reach[s as int],
        dist[s as int] <= 0,
    ensures
        !has_negative_cycle_from(edges, weights, s),
{
    if has_negative_cycle_from(edges, weights, s) {
        let (pre, cyc, u) = choose|pre: Seq<nat>, cyc: Seq<nat>, u: nat|
            #![trigger is_signed_walk(edges, weights, pre, s, u), is_signed_walk(edges, weights, cyc, u, u)]
            is_signed_walk(edges, weights, pre, s, u) && cyc.len() > 0 && is_signed_walk(edges, weights, cyc, u, u)
                && signed_cost(weights, cyc) < 0;
        let c = signed_cost(weights, pre);
        let k: nat = if c - i64::MIN + 1 > 0 { (c - i64::MIN + 1) as nat } else { 0 };
        lemma_repeated(edges, weights, cyc, u, k);
        lemma_signed_concat(edges, weights, pre, repeated(cyc, k), s, u, u);
        lemma_cost_concat(weights, pre, repeated(cyc, k));
        lemma_fixpoint_walk(edges, weights, dist, reach, s, pre + repeated(cyc, k), u);
    }
}

/// A walk whose every edge is the recorded way into its end weighs no more
/// than the distances it climbs, and less, unless each of its nodes was
/// improved after the one before; so such a walk back to its start weighs
/// less than zero.
proof fn lemma_pred_walk(
    n: nat,
    edges: Seq<(nat, nat)>,
    weights: Seq<Option<i64>>,
    dist: Seq<i64>,
    pred: Seq<Option<usize>>,
    pe: Seq<nat>,
    stamp: Seq<nat>,
    es: Seq<nat>,
    u: nat,
    j: int,
)
    requires
        pred_ranked(n, weights, dist, pred, pe, stamp),
        dist.len() == n,
        n <= u32::MAX,
        0 < j <= es.len(),
        u < n,
        forall|i: int| 0 <= i < es.len() ==> signed_at(edges, es, u, i + 1) < n
            && pred[signed_at(edges, es, u, i + 1) as int] == Some(signed_at(edges, es, u, i) as usize)
            && pe[signed_at(edges, es, u, i + 1) as int] == #[trigger] es[i]
            && dist[signed_at(edges, es, u, i) as int] + signed_weight(weights, es[i]) <= dist[signed_at(edges, es, u, i + 1) as int],
    ensures
        dist[u as int] + signed_cost(weights, es.take(j)) <= dist[signed_at(edges, es, u, j) as int],
        dist[u as int] + signed_cost(weights, es.take(j)) < dist[signed_at(edges, es, u, j) as int]
            || stamp[u as int] < stamp[signed_at(edges, es, u, j) as int],
    decreases j,
{
    let a = signed_at(edges, es, u, j - 1);
    let b = signed_at(edges, es, u, j);
    let i = j - 1;
    assert(signed_at(edges, es, u, i + 1) == b);
    assert(es[i] == es[j - 1]);
    assert(es.take(j).drop_last() =~= es.take(j - 1));
    assert(es.take(j).last() == es[j - 1]);
    assert(pe[b as int] == es[j - 1]);
    assert(pred[b as int] == Some(a as usize));
    if j == 1 {
        assert(es.take(0) =~= Seq::<nat>::empty());
        assert(a == u);
    } else {
        lemma_pred_walk(n, edges, weights, dist, pred, pe, stamp, es, u, j - 1);
        assert(signed_at(edges, es, u, j - 2 + 1) == a);
        assert(a < n);
    }
    assert(pred[b as int] is Some);
    assert(a < n);
    assert(pred[b as int]->0 as int == a);
}

/// Signed cheapest walks from one source.
pub struct BellmanFord {
    source: NodeIndex,
    nodes: Vec<NodeIndex>,
    distances: Vec<i64>,
    reachable: Vec<bool>,
    predecessors: Vec<Option<usize>>,
    pred_edges: Ghost<Seq<nat>>,
    edges: Ghost<Seq<(nat, nat)>>,
    weights: Ghost<Seq<Option<i64>>>,
    stamps: Ghost<Seq<nat>>,
}

impl BellmanFord {
    #[verifier::type_invariant]
    spec fn inv(self) -> bool {
        let n = self.nodes@.len();
        &&& n <= u32::MAX
        &&& forall|i: int| 0 <= i < n ==> (#[trigger] self.nodes@[i])@ == i
        &&& relax_state(n, self.edges@, self.weights@, self.source@, self.distances@, self.reachable@, self.predecessors@, self.pred_edges@)
        &&& is_fixpoint(self.edges@, self.weights@, self.distances@, self.reachable@)
        &&& pred_ranked(n, self.weights@, self.distances@, self.predecessors@, self.pred_edges@, self.stamps@)
        &&& pred_total(n, self.source@, self.reachable@, self.predecessors@)
        &&& !has_negative_cycle_from(self.edges@, self.weights@, self.source@)
    }

    /// The edges of the graph searched.
    pub closed spec fn model_edges(self) -> Seq<(nat, nat)> {
        self.edges@
    }

    /// The weights the search used.
    pub closed spec fn model_weights(self) -> Seq<Option<i64>> {
        self.weights@
    }

    pub closed spec fn spec_source(self) -> NodeIndex {
        self.source
    }

    pub closed spec fn node_total(self) -> nat {
        self.nodes@.len()
    }

    pub fn source(&self) -> (r: NodeIndex)
        ensures
            r == self.spec_source(),
    {
        self.source
    }

    /// Every node of the graph, in index order.
    pub fn nodes(&self) -> (r: &[NodeIndex])
        ensures
            node_positions(r@) == Seq::new(self.node_total(), |i: int| i as nat),
    {
        proof {
            use_type_invariant(self);
            assert(node_positions(self.nodes@) =~= Seq::new(self.node_total(), |i: int| i as nat));
        }
        self.nodes.as_slice()
    }

    /// The least weight of a walk from the source to `node`; `None` when
    /// no walk reaches it.
    pub fn distance_to(&self, node: NodeIndex) -> (r: Option<i64>)
        ensures
            r is Some <==> node@ < self.node_total() && signed_reaches(self.model_edges(), self.model_weights(), self.spec_source()@, node@),
            r matches Some(d) ==> is_least_cost(self.model_edges(), self.model_weights(), self.spec_source()@, node@, d as int),
    {
        proof {
            use_type_invariant(self);
        }
        let v = node.index();
        if v < self.nodes.len() && self.reachable[v] {
            proof {
                self.lemma_least(v as nat);
            }
            Some(self.distances[v])
        } else {
            proof {
                if v < self.nodes@.len() && signed_reaches(self.edges@, self.weights@, self.source@, node@) {
                    let es = choose|es: Seq<nat>| #[trigger] is_signed_walk(self.edges@, self.weights@, es, self.source@, node@);
                    lemma_fixpoint_walk(self.edges@, self.weights@, self.distances@, self.reachable@, self.source@, es, node@);
                }
            }
            None
        }
    }

    /// A reached node's distance is the least weight of a walk to it.
    proof fn lemma_least(self, v: nat)
        requires
            self.inv(),
            v < self.nodes@.len(),
            self.reachable@[v as int],
        ensures
            is_least_cost(self.edges@, self.weights@, self.source@, v, self.distances@[v as int] as int),
            signed_reaches(self.edges@, self.weights@, self.source@, v),
    {
        let s = self.source@;
        let es0 = choose|es: Seq<nat>| #[trigger] is_signed_walk(self.edges@, self.weights@, es, s, s)
            && signed_cost(self.weights@, es) == self.distances@[s as int];
        lemma_fixpoint_walk(self.edges@, self.weights@, self.distances@, self.reachable@, s, es0, s);
        assert forall|es: Seq<nat>| #[trigger] is_signed_walk(self.edges@, self.weights@, es, s, v)
            implies signed_cost(self.weights@, es) >= self.distances@[v as int] by {
            lemma_fixpoint_walk(self.edges@, self.weights@, self.distances@, self.reachable@, s, es, v);
        }
    }
}

impl BellmanFord {
    /// The source reaches itself at no cost.
    proof fn lemma_source_zero(self)
        requires
            self.inv(),
        ensures
            self.distances@[self.source@ as int] == 0,
    {
        let s = self.source@;
        let es0 = choose|es: Seq<nat>| #[trigger] is_signed_walk(self.edges@, self.weights@, es, s, s)
            && signed_cost(self.weights@, es) == self.distances@[s as int];
        lemma_fixpoint_walk(self.edges@, self.weights@, self.distances@, self.reachable@, s, es0, s);
    }

    /// A chain of recorded predecessors cannot run into itself: the walk
    /// around would be a negative cycle that the source reaches.
    proof fn lemma_no_predecessor_cycle(&self, cursor: nat, suffix: Seq<nat>, t: nat, i: int)
        requires
            self.inv(),
            cursor < self.nodes@.len(),
            self.reachable@[cursor as int],
            self.predecessors@[cursor as int] is Some,
            is_signed_walk(self.edges@, self.weights@, suffix, cursor, t),
            0 <= i <= suffix.len(),
            forall|k: int| 0 <= k < suffix.len() ==> signed_at(self.edges@, suffix, cursor, k + 1) < self.nodes@.len()
                && self.predecessors@[signed_at(self.edges@, suffix, cursor, k + 1) as int] == Some(signed_at(self.edges@, suffix, cursor, k) as usize)
                && self.pred_edges@[signed_at(self.edges@, suffix, cursor, k + 1) as int] == #[trigger] suffix[k]
                && self.distances@[signed_at(self.edges@, suffix, cursor, k) as int] + signed_weight(self.weights@, suffix[k])
                    <= self.distances@[signed_at(self.edges@, suffix, cursor, k + 1) as int],
        ensures
            signed_at(self.edges@, suffix, cursor, i) != self.predecessors@[cursor as int]->0 as nat,
    {
        let edges = self.edges@;
        let ws = self.weights@;
        let n = self.nodes@.len();
        let dist = self.distances@;
        let u = self.predecessors@[cursor as int]->0 as nat;
        if signed_at(edges, suffix, cursor, i) != u {
            return;
        }
        assert(pred_ok(edges, ws, dist, self.reachable@, self.predecessors@, self.pred_edges@, cursor as int));
        let e = self.pred_edges@[cursor as int];
        let part = suffix.subrange(0, i);
        lemma_signed_sub(edges, ws, suffix, cursor, t, 0, i);
        assert(signed_at(edges, suffix, cursor, 0) == cursor);
        lemma_signed_prepend(edges, ws, part, cursor, u, e);
        let cyc = seq![e] + part;
        assert(is_signed_walk(edges, ws, cyc, u, u));
        assert forall|k: int| 0 <= k <= cyc.len() implies #[trigger] signed_at(edges, cyc, u, k)
            == if k == 0 { u } else { signed_at(edges, suffix, cursor, k - 1) } by {
            if k > 1 {
                assert(cyc[k - 1] == suffix[k - 2]);
            }
        }
        assert forall|k: int| 0 <= k < cyc.len() implies signed_at(edges, cyc, u, k + 1) < n
            && self.predecessors@[signed_at(edges, cyc, u, k + 1) as int] == Some(signed_at(edges, cyc, u, k) as usize)
            && self.pred_edges@[signed_at(edges, cyc, u, k + 1) as int] == #[trigger] cyc[k]
            && dist[signed_at(edges, cyc, u, k) as int] + signed_weight(ws, cyc[k])
                <= dist[signed_at(edges, cyc, u, k + 1) as int] by {
            assert(signed_at(edges, cyc, u, k + 1) == signed_at(edges, suffix, cursor, k));
            if k == 0 {
                assert(signed_at(edges, cyc, u, 0) == u);
            } else {
                let j = k - 1;
                assert(cyc[k] == suffix[j]);
                assert(signed_at(edges, cyc, u, k) == signed_at(edges, suffix, cursor, j));
                assert(signed_at(edges, suffix, cursor, j + 1) == signed_at(edges, suffix, cursor, k));
            }
        }
        lemma_pred_walk(n, edges, ws, dist, self.predecessors@, self.pred_edges@, self.stamps@, cyc, u, cyc.len() as int);
        assert(cyc.take(cyc.len() as int) =~= cyc);
        assert(signed_cost(ws, cyc) < 0);
        assert(self.reachable@[u as int]);
        let pre = choose|es: Seq<nat>| #[trigger] is_signed_walk(edges, ws, es, self.source@, u) && signed_cost(ws, es) == dist[u as int];
        assert(has_negative_cycle_from(edges, ws, self.source@));
    }

    /// The node whose edge last improved `node`'s distance.
    pub fn predecessor(&self, node: NodeIndex) -> (r: Option<NodeIndex>)
        ensures
            r matches Some(u) ==> node@ < self.node_total() && u@ < self.node_total() && exists|e: int|
                0 <= e < self.model_edges().len() && #[trigger] self.model_edges()[e] == (u@, node@)
                && self.model_weights()[e] is Some,
            !(node@ < self.node_total() && signed_reaches(self.model_edges(), self.model_weights(), self.spec_source()@, node@)) ==> r is None,
            node@ < self.node_total() && node@ != self.spec_source()@
                && signed_reaches(self.model_edges(), self.model_weights(), self.spec_source()@, node@) ==> r is Some,
    {
        proof {
            use_type_invariant(self);
        }
        let v = node.index();
        proof {
            if v < self.nodes@.len() {
                if self.reachable@[v as int] {
                    self.lemma_least(v as nat);
                } else if signed_reaches(self.edges@, self.weights@, self.source@, node@) {
                    let es = choose|es: Seq<nat>| #[trigger] is_signed_walk(self.edges@, self.weights@, es, self.source@, node@);
                    lemma_fixpoint_walk(self.edges@, self.weights@, self.distances@, self.reachable@, self.source@, es, node@);
                }
                if self.predecessors@[v as int] is Some {
                    assert(pred_ok(self.edges@, self.weights@, self.distances@, self.reachable@, self.predecessors@, self.pred_edges@, v as int));
                }
            }
        }
        if v < self.nodes.len() {
            match self.predecessors[v] {
                Some(u) => {
                    proof {
                        assert(pred_ok(self.edges@, self.weights@, self.distances@, self.reachable@, self.predecessors@, self.pred_edges@, v as int));
                        assert(u < self.nodes@.len());
                    }
                    let un = NodeIndex::new(u as u32);
                    proof {
                        let e = self.pred_edges@[v as int] as int;
                        assert(self.edges@[e] == (un@, node@));
                        assert(0 <= e < self.model_edges().len() && self.model_edges()[e] == (un@, node@)
                            && self.model_weights()[e] is Some);
                    }
                    Some(un)
                },
                None => None,
            }
        } else {
            None
        }
    }

    /// A cheapest walk from the source to `target`, following the recorded
    /// predecessors; `None` when no walk reaches `target`.
    #[verifier::rlimit(50)]
    pub fn path_to(&self, target: NodeIndex) -> (r: Option<SignedPath>)
        ensures
            r matches Some(p) ==> is_least_cost(self.model_edges(), self.model_weights(), self.spec_source()@, target@, p.cost() as int)
                && exists|es: Seq<nat>| #[trigger] is_signed_walk(self.model_edges(), self.model_weights(), es, self.spec_source()@, target@)
                    && signed_nodes(self.model_edges(), es, self.spec_source()@) == p.node_list()
                    && signed_cost(self.model_weights(), es) == p.cost() as int,
            r is Some <==> target@ < self.node_total() && signed_reaches(self.model_edges(), self.model_weights(), self.spec_source()@, target@),
    {
        proof {
            use_type_invariant(self);
            self.lemma_source_zero();
        }
        let total_cost = match self.distance_to(target) {
            Some(d) => d,
            None => return None,
        };
        let n = self.nodes.len();
        let ghost edges = self.edges@;
        let ghost ws = self.weights@;
        let ghost s = self.source@;
        let t = target.index();
        proof {
            let es = choose|es: Seq<nat>| #[trigger] is_signed_walk(edges, ws, es, s, target@);
            lemma_fixpoint_walk(edges, ws, self.distances@, self.reachable@, s, es, target@);
            self.lemma_least(t as nat);
            let w1 = choose|es: Seq<nat>| #[trigger] is_signed_walk(edges, ws, es, s, target@) && signed_cost(ws, es) == total_cost;
            let w2 = choose|es: Seq<nat>| #[trigger] is_signed_walk(edges, ws, es, s, target@)
                && signed_cost(ws, es) == self.distances@[t as int];
            assert(signed_cost(ws, w1) >= self.distances@[t as int]);
            assert(signed_cost(ws, w2) >= total_cost);
        }
        let mut rev: Vec<NodeIndex> = Vec::new();
        rev.push(target);
        let mut cursor: usize = t;
        let ghost mut suffix: Seq<nat> = Seq::empty();
        proof {
            assert(is_signed_walk(edges, ws, suffix, t as nat, t as nat));
            assert(node_positions(rev@) =~= signed_nodes(edges, suffix, t as nat).reverse());
        }
        while cursor != self.source.index()
            invariant
                self.inv(),
                edges == self.edges@,
                ws == self.weights@,
                s == self.source@,
                n == self.nodes@.len(),
                t < n,
                cursor < n,
                self.reachable@[cursor as int],
                self.reachable@[t as int],
                total_cost == self.distances@[t as int],
                is_signed_walk(edges, ws, suffix, cursor as nat, t as nat),
                signed_cost(ws, suffix) + self.distances@[cursor as int] <= self.distances@[t as int],
                node_positions(rev@) == signed_nodes(edges, suffix, cursor as nat).reverse(),
                rev@.len() <= n,
                rev@.len() == suffix.len() + 1,
                signed_nodes(edges, suffix, cursor as nat).no_duplicates(),
                forall|i: int| 0 <= i < suffix.len() ==> signed_at(edges, suffix, cursor as nat, i + 1) < n
                    && self.predecessors@[signed_at(edges, suffix, cursor as nat, i + 1) as int] == Some(signed_at(edges, suffix, cursor as nat, i) as usize)
                    && self.pred_edges@[signed_at(edges, suffix, cursor as nat, i + 1) as int] == #[trigger] suffix[i]
                    && self.distances@[signed_at(edges, suffix, cursor as nat, i) as int] + signed_weight(ws, suffix[i])
                        <= self.distances@[signed_at(edges, suffix, cursor as nat, i + 1) as int],
            decreases n + 1 - rev@.len(),
        {
            proof {
                assert(cursor != s);
                assert(self.predecessors@[cursor as int] is Some);
            }
            let u = match self.predecessors[cursor] {
                Some(u) => u,
                None => return None,
            };
            let un = NodeIndex::new(u as u32);
            let ghost old_suffix = suffix;
            let ghost old_nodes = signed_nodes(edges, suffix, cursor as nat);
            proof {
                assert(pred_ok(edges, ws, self.distances@, self.reachable@, self.predecessors@, self.pred_edges@, cursor as int));
                let e = self.pred_edges@[cursor as int];
                assert(self.reachable@[edges[e as int].0 as int]);
                lemma_signed_prepend(edges, ws, suffix, cursor as nat, t as nat, e);
                let new_suffix = seq![e] + suffix;
                assert(signed_nodes(edges, new_suffix, u as nat) =~= seq![u as nat] + old_nodes) by {
                    assert forall|i: int| 0 <= i < new_suffix.len() + 1 implies signed_nodes(edges, new_suffix, u as nat)[i]
                        == (seq![u as nat] + old_nodes)[i] by {
                        if i > 1 {
                            assert(new_suffix[i - 1] == suffix[i - 2]);
                        }
                    }
                }
                assert((seq![u as nat] + old_nodes).reverse() =~= old_nodes.reverse().push(u as nat));
                assert(node_positions(rev@.push(un)) =~= node_positions(rev@).push(u as nat));
                if old_nodes.contains(u as nat) {
                    let i = choose|i: int| 0 <= i < old_nodes.len() && old_nodes[i] == u as nat;
                    self.lemma_no_predecessor_cycle(cursor as nat, old_suffix, t as nat, i);
                }
                assert forall|a: int, b: int| 0 <= a < b < old_nodes.len() + 1 implies (seq![u as nat] + old_nodes)[a]
                    != (seq![u as nat] + old_nodes)[b] by {
                    if a == 0 {
                        assert(old_nodes.contains(old_nodes[b - 1]));
                    }
                }
                suffix = new_suffix;
                assert forall|i: int| 0 <= i < suffix.len() implies signed_at(edges, suffix, u as nat, i + 1) < n
                    && self.predecessors@[signed_at(edges, suffix, u as nat, i + 1) as int] == Some(signed_at(edges, suffix, u as nat, i) as usize)
                    && self.pred_edges@[signed_at(edges, suffix, u as nat, i + 1) as int] == #[trigger] suffix[i]
                    && self.distances@[signed_at(edges, suffix, u as nat, i) as int] + signed_weight(ws, suffix[i])
                        <= self.distances@[signed_at(edges, suffix, u as nat, i + 1) as int] by {
                    assert(signed_nodes(edges, suffix, u as nat)[i] == signed_at(edges, suffix, u as nat, i));
                    assert(signed_nodes(edges, suffix, u as nat)[i + 1] == signed_at(edges, suffix, u as nat, i + 1));
                    if i > 0 {
                        let k = i - 1;
                        assert(suffix[i] == old_suffix[k]);
                        assert(old_nodes[k] == signed_at(edges, old_suffix, cursor as nat, k));
                        assert(old_nodes[k + 1] == signed_at(edges, old_suffix, cursor as nat, k + 1));
                    } else {
                        assert(old_nodes[0] == cursor);
                    }
                }
                assert forall|i: int| 0 <= i < signed_nodes(edges, suffix, u as nat).len() implies
                    #[trigger] signed_nodes(edges, suffix, u as nat)[i] < n by {
                    if i > 0 {
                        assert(signed_at(edges, suffix, u as nat, (i - 1) + 1) < n);
                    }
                }
                crate::digraph::lemma_distinct_below(signed_nodes(edges, suffix, u as nat), n as nat);
            }
            rev.push(un);
            cursor = u;
            if rev.len() > n {
                return None;
            }
        }
        let mut nodes: Vec<NodeIndex> = Vec::new();
        let mut k: usize = rev.len();
        while k > 0
            invariant
                k <= rev@.len(),
                nodes@.len() == rev@.len() - k,
                forall|j: int| 0 <= j < nodes@.len() ==> #[trigger] nodes@[j] == rev@[rev@.len() - 1 - j],
            decreases k,
        {
            k = k - 1;
            nodes.push(rev[k]);
        }
        let path = SignedPath { nodes, total_cost };
        proof {
            lemma_fixpoint_walk(edges, ws, self.distances@, self.reachable@, s, suffix, t as nat);
            assert(node_positions(nodes@) =~= node_positions(rev@).reverse());
            assert(signed_nodes(edges, suffix, s).reverse().reverse() =~= signed_nodes(edges, suffix, s));
            assert(is_signed_walk(edges, ws, suffix, s, t as nat) && signed_nodes(edges, suffix, s) == path.node_list()
                && signed_cost(ws, suffix) == path.cost() as int);
        }
        Some(path)
    }
}

/// Computes signed cheapest walks from `source` over the edges for which
/// the weights hold a value.
fn bellman_with<G: IndexGraphView>(graph: &G, source: NodeIndex, weights: &Vec<Option<i64>>) -> (r: Result<Option<BellmanFord>>)
    requires
        weights@.len() == graph.spec_edges().len(),
    ensures
        (r matches Ok(None)) <==> source@ >= graph.spec_node_count(),
        r matches Ok(Some(bf)) ==> bf.model_edges() == graph.spec_edges() && bf.model_weights() == weights@
            && bf.spec_source() == source && bf.node_total() == graph.spec_node_count(),
        r matches Err(e) ==> source@ < graph.spec_node_count() && (
            (e matches GraphError::ArithmeticOverflow { operation } && (operation@ == "Bellman-Ford edge relaxation"@
                || operation@ == "Bellman-Ford cycle check"@))
            || (e matches GraphError::NegativeCycle { algorithm } && algorithm@ == "Bellman-Ford"@)),
        r matches Err(e) && e is NegativeCycle ==> has_negative_cycle_from(graph.spec_edges(), weights@, source@),
        r matches Err(e) && e is ArithmeticOverflow ==> overflowing_walk(graph.spec_edges(), weights@, source@),
        r matches Ok(Some(_)) ==> !has_negative_cycle_from(graph.spec_edges(), weights@, source@),
{
    let n = graph.node_bound();
    let ghost edges = graph.spec_edges();
    let ghost ws = weights@;
    if source.index() >= n {
        return Ok(None);
    }
    let s = source.index();
    let mut nodes: Vec<NodeIndex> = Vec::new();
    let mut dist: Vec<i64> = Vec::new();
    let mut reach: Vec<bool> = Vec::new();
    let mut pred: Vec<Option<usize>> = Vec::new();
    let mut pe: Vec<usize> = Vec::new();
    let mut i: usize = 0;
    while i < n
        invariant
            n == graph.spec_node_count(),
            n <= u32::MAX,
            i <= n,
            nodes@.len() == i,
            dist@.len() == i,
            reach@.len() == i,
            pred@.len() == i,
            pe@.len() == i,
            forall|v: int| 0 <= v < i ==> (#[trigger] nodes@[v])@ == v && dist@[v] == 0 && !reach@[v] && pred@[v] is None,
        decreases n - i,
    {
        nodes.push(NodeIndex::new(i as u32));
        dist.push(0);
        reach.push(false);
        pred.push(None);
        pe.push(0);
        i = i + 1;
    }
    let count = graph.edge_bound();
    let mut list: Vec<(usize, usize, i64, usize)> = Vec::new();
    let mut e: usize = 0;
    while e < count
        invariant
            n == graph.spec_node_count(),
            edges == graph.spec_edges(),
            ws == weights@,
            count == edges.len(),
            weights@.len() == count,
            valid_model(n as nat, edges),
            e <= count,
            forall|k: int| 0 <= k < list@.len() ==> (#[trigger] list@[k]).3 < e && ws[list@[k].3 as int] == Some(list@[k].2)
                && edges[list@[k].3 as int] == (list@[k].0 as nat, list@[k].1 as nat),
            forall|f: int| 0 <= f < e && (#[trigger] ws[f]) is Some ==> exists|k: int| 0 <= k < list@.len() && (#[trigger] list@[k]).3 == f,
        decreases count - e,
    {
        match weights[e] {
            Some(w) => {
                let ends = graph.edge_endpoints(EdgeIndex::new(e as u32)).unwrap();
                let ghost before = list@;
                list.push((ends.source().index(), ends.target().index(), w, e));
                proof {
                    assert forall|f: int| 0 <= f < e + 1 && (#[trigger] ws[f]) is Some implies exists|k: int| 0 <= k < list@.len()
                        && (#[trigger] list@[k]).3 == f by {
                        if f < e {
                            let k = choose|k: int| 0 <= k < before.len() && (#[trigger] before[k]).3 == f;
                            assert(list@[k] == before[k]);
                        } else {
                            assert(list@[list@.len() - 1].3 == f);
                        }
                    }
                }
            },
            None => {},
        }
        e = e + 1;
    }
    proof {
        assert forall|v: int| 0 <= v < n implies #[trigger] dist@[v] == 0 by {
            assert(nodes@[v]@ == v);
        }
        assert forall|v: int| 0 <= v < n implies !(#[trigger] reach@[v]) by {
            assert(nodes@[v]@ == v);
        }
        assert forall|v: int| 0 <= v < n implies (#[trigger] pred@[v]) is None by {
            assert(nodes@[v]@ == v);
        }
    }
    reach.set(s, true);
    proof {
        let es: Seq<nat> = Seq::empty();
        assert(is_signed_walk(edges, ws, es, s as nat, s as nat));
        assert(signed_cost(ws, es) == 0);
        assert(pe@.map_values(|x: usize| x as nat).len() == n);
        assert forall|v: int| 0 <= v < n && #[trigger] reach@[v] implies exists|es: Seq<nat>|
            #[trigger] is_signed_walk(edges, ws, es, s as nat, v as nat) && signed_cost(ws, es) == dist@[v] by {
            assert(is_signed_walk(edges, ws, es, s as nat, v as nat) && signed_cost(ws, es) == dist@[v]);
        }
        assert forall|v: int| 0 <= v < n && (#[trigger] pred@[v]) is Some implies pred_ok(edges, ws, dist@, reach@, pred@,
            pe@.map_values(|x: usize| x as nat), v) by {
            assert(false);
        }
        assert(relax_state(n as nat, edges, ws, s as nat, dist@, reach@, pred@, pe@.map_values(|x: usize| x as nat)));
        assert forall|v: nat| v < n && #[trigger] reach_within(edges, ws, s as nat, v, 0) implies reach@[v as int] by {
            let es = choose|es: Seq<nat>| #[trigger] is_signed_walk(edges, ws, es, s as nat, v) && es.len() <= 0;
        }
        assert forall|es: Seq<nat>, v: nat| #[trigger] is_signed_walk(edges, ws, es, s as nat, v) && es.len() <= 0
            implies v < dist@.len() && reach@[v as int] && dist@[v as int] <= signed_cost(ws, es) by {
        }
    }
    let ghost mut stamp: Seq<nat> = Seq::new(n as nat, |v: int| 0nat);
    let ghost mut clock: nat = 1;
    proof {
        assert forall|v: int| 0 <= v < n && v != s && #[trigger] reach@[v] implies pred@[v] is Some by {
            assert(!reach@[v]) by {
                assert(nodes@[v]@ == v);
            }
        }
    }
    let mut round: usize = 1;
    let mut done = false;
    while round < n && !done
        invariant
            n == graph.spec_node_count(),
            edges == graph.spec_edges(),
            ws == weights@,
            s == source@,
            valid_model(n as nat, edges),
            1 <= round <= n,
            relax_state(n as nat, edges, ws, s as nat, dist@, reach@, pred@, pe@.map_values(|x: usize| x as nat)),
            pred_ranked(n as nat, ws, dist@, pred@, pe@.map_values(|x: usize| x as nat), stamp),
            pred_total(n as nat, s as nat, reach@, pred@),
            forall|v: int| 0 <= v < n ==> #[trigger] stamp[v] < clock,
            list_ok(edges, ws, list@),
            done ==> list_fixpoint(list@, dist@, reach@, list@.len() as int),
            !done ==> forall|v: nat| v < n && #[trigger] reach_within(edges, ws, s as nat, v, (round - 1) as nat) ==> reach@[v as int],
            !done ==> walks_bounded(edges, ws, s as nat, dist@, reach@, (round - 1) as nat),
        decreases n - round, (if done { 0int } else { 1int }),
    {
        let ghost reach0 = reach@;
        let ghost dist0 = dist@;
        let (outcome, Ghost(st), Ghost(cl)) = relax_all(Ghost(n as nat), Ghost(edges), Ghost(ws), s, &list, &mut dist, &mut reach,
            &mut pred, &mut pe, Ghost(stamp), Ghost(clock));
        proof {
            stamp = st;
            clock = cl;
        }
        match outcome {
            Err(e) => {
                return Err(e);
            },
            Ok(changed) => {
                if !changed {
                    done = true;
                } else {
                    proof {
                        let r0 = (round - 1) as nat;
                        lemma_one_more_round(edges, ws, list@, s as nat, n as nat, reach0, reach@, r0);
                        lemma_bounded_round(n as nat, edges, ws, list@, s as nat, dist0, reach0, dist@, reach@, r0);
                        assert(r0 + 1 == round as nat);
                    }
                    round = round + 1;
                }
            },
        }
    }
    proof {
        assert forall|k: int| 0 <= k < list@.len() implies (#[trigger] list@[k]).0 < n && list@[k].1 < n by {
            assert(edges[list@[k].3 as int].0 < n && edges[list@[k].3 as int].1 < n);
        }
    }
    match reject_negative_cycle(&list, &dist, &reach, Ghost(n as nat), Ghost(edges), Ghost(ws), Ghost(s as nat)) {
        Err(e) => {
            proof {
                if e is NegativeCycle && !has_negative_cycle_from(edges, ws, s as nat) {
                    let k = choose|k: int| 0 <= k < list@.len() && #[trigger] reach@[list@[k].0 as int]
                        && reach@[list@[k].1 as int] && dist@[list@[k].0 as int] + list@[k].2 < dist@[list@[k].1 as int];
                    if done {
                        assert(reach@[list@[k].0 as int]);
                    } else {
                        let a = list@[k].0 as nat;
                        let b = list@[k].1 as nat;
                        let ed = list@[k].3 as nat;
                        let es = choose|es: Seq<nat>| #[trigger] is_signed_walk(edges, ws, es, s as nat, a)
                            && signed_cost(ws, es) == dist@[a as int];
                        lemma_signed_push(edges, ws, es, s as nat, a, ed);
                        lemma_cheap_short(n as nat, edges, ws, es.push(ed), s as nat, b);
                        let es2 = choose|es2: Seq<nat>| #[trigger] is_signed_walk(edges, ws, es2, s as nat, b)
                            && es2.len() <= n - 1 && signed_cost(ws, es2) <= signed_cost(ws, es.push(ed));
                        assert(is_signed_walk(edges, ws, es2, s as nat, b) && es2.len() <= (round - 1) as nat);
                    }
                }
            }
            return Err(e);
        },
        Ok(()) => {},
    }
    proof {
        if !done {
            assert forall|k: int| 0 <= k < list@.len() && #[trigger] reach@[list@[k].0 as int] implies
                reach@[list@[k].1 as int] && dist@[list@[k].1 as int] <= dist@[list@[k].0 as int] + list@[k].2 by {
                let a = list@[k].0 as nat;
                let b = list@[k].1 as nat;
                let ed = list@[k].3 as nat;
                let es = choose|es: Seq<nat>| #[trigger] is_signed_walk(edges, ws, es, s as nat, a)
                    && signed_cost(ws, es) == dist@[a as int];
                lemma_signed_push(edges, ws, es, s as nat, a, ed);
                lemma_short_walk(n as nat, edges, ws, es.push(ed), s as nat, b);
                assert(b < n);
            }
        }
        lemma_list_fixpoint(edges, ws, list@, dist@, reach@);
        if has_negative_cycle_from(edges, ws, s as nat) {
            lemma_fixpoint_no_negative_cycle(edges, ws, dist@, reach@, s as nat);
        }
    }
    let bf = BellmanFord {
        source,
        nodes,
        distances: dist,
        reachable: reach,
        predecessors: pred,
        pred_edges: Ghost(pe@.map_values(|x: usize| x as nat)),
        edges: Ghost(edges),
        weights: Ghost(ws),
        stamps: Ghost(stamp),
    };
    Ok(Some(bf))
}

/// `weights[e]` is a value that `f` returned for edge `e`, for every edge.
pub open spec fn is_signed_table<F: Fn(EdgeIndex) -> Option<i64>>(f: F, edge_count: nat, weights: Seq<Option<i64>>) -> bool {
    &&& weights.len() == edge_count
    &&& forall|e: EdgeIndex| e@ < edge_count ==> #[trigger] f.ensures((e,), weights[e@ as int])
}

/// Every edge weighs what `f` returned for it.
pub open spec fn is_total_signed_table<F: Fn(EdgeIndex) -> i64>(f: F, edge_count: nat, weights: Seq<Option<i64>>) -> bool {
    &&& weights.len() == edge_count
    &&& forall|e: EdgeIndex| e@ < edge_count ==> weights[e@ as int] is Some && #[trigger] f.ensures((e,), weights[e@ as int]->0)
}

fn signed_table<G: IndexGraphView, F: Fn(EdgeIndex) -> Option<i64>>(graph: &G, edge_cost: &F) -> (r: Vec<Option<i64>>)
    requires
        forall|e: EdgeIndex| edge_cost.requires((e,)),
    ensures
        is_signed_table(*edge_cost, graph.spec_edges().len(), r@),
{
    let count = graph.edge_bound();
    let mut weights: Vec<Option<i64>> = Vec::new();
    let mut i: usize = 0;
    while i < count
        invariant
            i <= count,
            count == graph.spec_edges().len(),
            count <= u32::MAX,
            forall|e: EdgeIndex| edge_cost.requires((e,)),
            weights@.len() == i,
            forall|e: EdgeIndex| e@ < i ==> #[trigger] edge_cost.ensures((e,), weights@[e@ as int]),
        decreases count - i,
    {
        let edge = EdgeIndex::new(i as u32);
        let w = edge_cost(edge);
        weights.push(w);
        proof {
            assert forall|e: EdgeIndex| e@ < i + 1 implies #[trigger] edge_cost.ensures((e,), weights@[e@ as int]) by {
                if e@ == i {
                    crate::index::lemma_edge_index_view(e, edge);
                }
            }
        }
        i = i + 1;
    }
    weights
}

fn total_signed_table<G: IndexGraphView, F: Fn(EdgeIndex) -> i64>(graph: &G, edge_cost: &F) -> (r: Vec<Option<i64>>)
    requires
        forall|e: EdgeIndex| edge_cost.requires((e,)),
    ensures
        is_total_signed_table(*edge_cost, graph.spec_edges().len(), r@),
{
    let count = graph.edge_bound();
    let mut weights: Vec<Option<i64>> = Vec::new();
    let ghost mut plain: Seq<i64> = Seq::empty();
    let mut i: usize = 0;
    while i < count
        invariant
            i <= count,
            count == graph.spec_edges().len(),
            count <= u32::MAX,
            forall|e: EdgeIndex| edge_cost.requires((e,)),
            plain.len() == i,
            weights@ == plain.map_values(|w: i64| Some(w)),
            forall|e: EdgeIndex| e@ < i ==> #[trigger] edge_cost.ensures((e,), plain[e@ as int]),
        decreases count - i,
    {
        let edge = EdgeIndex::new(i as u32);
        let w = edge_cost(edge);
        weights.push(Some(w));
        proof {
            let before = plain;
            plain = plain.push(w);
            assert(weights@ =~= plain.map_values(|w: i64| Some(w)));
            assert forall|e: EdgeIndex| e@ < i + 1 implies #[trigger] edge_cost.ensures((e,), plain[e@ as int]) by {
                if e@ == i {
                    crate::index::lemma_edge_index_view(e, edge);
                } else {
                    assert(plain[e@ as int] == before[e@ as int]);
                }
            }
        }
        i = i + 1;
    }
    proof {
        assert forall|e: EdgeIndex| e@ < count implies weights@[e@ as int] is Some
            && #[trigger] edge_cost.ensures((e,), weights@[e@ as int]->0) by {
            assert(weights@[e@ as int] == Some(plain[e@ as int]));
        }
    }
    weights
}

/// Computes signed cheapest walks from `source`, each edge weighing what
/// `edge_cost` returns for it.
///
/// `Ok(None)` when `source` does not exist; an error for arithmetic
/// overflow or a negative cycle found after the relaxation rounds.
pub fn bellman_ford<G: IndexGraphView, F: Fn(EdgeIndex) -> i64>(graph: &G, source: NodeIndex, edge_cost: F) -> (r: Result<Option<BellmanFord>>)
    requires
        forall|e: EdgeIndex| edge_cost.requires((e,)),
    ensures
        (r matches Ok(None)) <==> source@ >= graph.spec_node_count(),
        r matches Ok(Some(bf)) ==> bf.model_edges() == graph.spec_edges() && bf.spec_source() == source
            && bf.node_total() == graph.spec_node_count()
            && is_total_signed_table(edge_cost, graph.spec_edges().len(), bf.model_weights())
            && !has_negative_cycle_from(graph.spec_edges(), bf.model_weights(), source@),
        r matches Err(e) ==> source@ < graph.spec_node_count() && (
            (e matches GraphError::ArithmeticOverflow { operation } && (operation@ == "Bellman-Ford edge relaxation"@
                || operation@ == "Bellman-Ford cycle check"@))
            || (e matches GraphError::NegativeCycle { algorithm } && algorithm@ == "Bellman-Ford"@)),
        r matches Err(e) && e is NegativeCycle ==> exists|ws: Seq<Option<i64>>| is_total_signed_table(edge_cost, graph.spec_edges().len(), ws)
            && has_negative_cycle_from(graph.spec_edges(), ws, source@),
        r matches Err(e) && e is ArithmeticOverflow ==> exists|ws: Seq<Option<i64>>| is_total_signed_table(edge_cost, graph.spec_edges().len(), ws)
            && overflowing_walk(graph.spec_edges(), ws, source@),
{
    let weights = total_signed_table(graph, &edge_cost);
    bellman_with(graph, source, &weights)
}

/// Computes signed cheapest walks from `source` over the edges for which
/// `edge_cost` returns a weight.
pub fn bellman_ford_filtered<G: IndexGraphView, F: Fn(EdgeIndex) -> Option<i64>>(
    graph: &G,
    source: NodeIndex,
    edge_cost: F,
) -> (r: Result<Option<BellmanFord>>)
    requires
        forall|e: EdgeIndex| edge_cost.requires((e,)),
    ensures
        (r matches Ok(None)) <==> source@ >= graph.spec_node_count(),
        r matches Ok(Some(bf)) ==> bf.model_edges() == graph.spec_edges() && bf.spec_source() == source
            && bf.node_total() == graph.spec_node_count()
            && is_signed_table(edge_cost, graph.spec_edges().len(), bf.model_weights())
            && !has_negative_cycle_from(graph.spec_edges(), bf.model_weights(), source@),
        r matches Err(e) ==> source@ < graph.spec_node_count() && (
            (e matches GraphError::ArithmeticOverflow { operation } && (operation@ == "Bellman-Ford edge relaxation"@
                || operation@ == "Bellman-Ford cycle check"@))
            || (e matches GraphError::NegativeCycle { algorithm } && algorithm@ == "Bellman-Ford"@)),
        r matches Err(e) && e is NegativeCycle ==> exists|ws: Seq<Option<i64>>| is_signed_table(edge_cost, graph.spec_edges().len(), ws)
            && has_negative_cycle_from(graph.spec_edges(), ws, source@),
        r matches Err(e) && e is ArithmeticOverflow ==> exists|ws: Seq<Option<i64>>| is_signed_table(edge_cost, graph.spec_edges().len(), ws)
            && overflowing_walk(graph.spec_edges(), ws, source@),
{
    let weights = signed_table(graph, &edge_cost);
    bellman_with(graph, source, &weights)
}

} // verus!

//! Reachability along allowed edges: walks, their composition, closed
//! node sets, and connectivity that ignores edge direction.
use crate::digraph::{allowed, has_edge, is_walk, reaches, strictly_increasing};
use vstd::prelude::*;

verus! {

/// The edges followed in both directions: edge `e` and edge
/// `edges.len() + e` join the same two nodes, in opposite directions.
pub open spec fn undirected(edges: Seq<(nat, nat)>) -> Seq<(nat, nat)> {
    edges + Seq::new(edges.len(), |i: int| (edges[i].1, edges[i].0))
}

/// The mask of [`undirected`]: both copies of an edge share its decision.
pub open spec fn both(mask: Seq<bool>) -> Seq<bool> {
    mask + mask
}

/// `u` and `v` are joined by a walk along allowed edges taken in either
/// direction: they lie in one weakly connected component.
pub open spec fn connected(edges: Seq<(nat, nat)>, mask: Seq<bool>, u: nat, v: nat) -> bool {
    reaches(undirected(edges), both(mask), u, v)
}

/// `u` and `v` reach each other: they lie in one strongly connected component.
pub open spec fn mutually_reach(edges: Seq<(nat, nat)>, mask: Seq<bool>, u: nat, v: nat) -> bool {
    reaches(edges, mask, u, v) && reaches(edges, mask, v, u)
}

/// `comps` lists the classes of `related` among the nodes `0..node_count`:
/// every class once, each in increasing order, the classes ordered by
/// their smallest node, and every node in some class.
pub open spec fn is_class_list(node_count: nat, related: spec_fn(nat, nat) -> bool, comps: Seq<Seq<nat>>) -> bool {
    &&& forall|i: int| 0 <= i < comps.len() ==> (#[trigger] comps[i]).len() > 0 && strictly_increasing(comps[i])
    &&& forall|i: int, j: int| 0 <= i < j < comps.len() ==> (#[trigger] comps[i])[0] < (#[trigger] comps[j])[0]
    &&& forall|i: int, k: int| 0 <= i < comps.len() && 0 <= k < comps[i].len() ==>
        (#[trigger] comps[i][k]) < node_count && related(comps[i][0], comps[i][k])
    &&& forall|i: int, v: nat| 0 <= i < comps.len() && v < node_count && #[trigger] related(comps[i][0], v)
        ==> comps[i].contains(v)
    &&& forall|v: nat| v < node_count ==> #[trigger] listed(comps, v)
}

/// `v` appears in one of the lists.
pub open spec fn listed(comps: Seq<Seq<nat>>, v: nat) -> bool {
    exists|i: int| 0 <= i < comps.len() && #[trigger] comps[i].contains(v)
}

/// The weakly connected components of the allowed edges.
pub open spec fn is_weak_components(node_count: nat, edges: Seq<(nat, nat)>, mask: Seq<bool>, comps: Seq<Seq<nat>>) -> bool {
    is_class_list(node_count, |u: nat, v: nat| connected(edges, mask, u, v), comps)
}

/// Every node reaches itself by the walk of one node.
pub proof fn lemma_reaches_refl(edges: Seq<(nat, nat)>, mask: Seq<bool>, u: nat)
    ensures
        reaches(edges, mask, u, u),
{
    let p = seq![u];
    assert(is_walk(edges, mask, p));
}

/// A walk extended by one allowed edge.
pub proof fn lemma_reaches_step(edges: Seq<(nat, nat)>, mask: Seq<bool>, u: nat, w: nat, x: nat)
    requires
        reaches(edges, mask, u, w),
        has_edge(edges, mask, w, x),
    ensures
        reaches(edges, mask, u, x),
{
    let p = choose|p: Seq<nat>| #[trigger] is_walk(edges, mask, p) && p[0] == u && p[p.len() - 1] == w;
    let q = p.push(x);
    assert forall|i: int| 0 <= i < q.len() - 1 implies #[trigger] has_edge(edges, mask, q[i], q[i + 1]) by {
        if i < p.len() - 1 {
            assert(q[i] == p[i] && q[i + 1] == p[i + 1]);
            assert(has_edge(edges, mask, p[i], p[i + 1]));
        }
    }
    assert(is_walk(edges, mask, q));
}

/// Two walks joined end to start.
pub proof fn lemma_reaches_trans(edges: Seq<(nat, nat)>, mask: Seq<bool>, u: nat, v: nat, w: nat)
    requires
        reaches(edges, mask, u, v),
        reaches(edges, mask, v, w),
    ensures
        reaches(edges, mask, u, w),
{
    let p = choose|p: Seq<nat>| #[trigger] is_walk(edges, mask, p) && p[0] == u && p[p.len() - 1] == v;
    let q = choose|q: Seq<nat>| #[trigger] is_walk(edges, mask, q) && q[0] == v && q[q.len() - 1] == w;
    let r = p + q.subrange(1, q.len() as int);
    assert forall|i: int| 0 <= i < r.len() - 1 implies #[trigger] has_edge(edges, mask, r[i], r[i + 1]) by {
        if i < p.len() - 1 {
            assert(r[i] == p[i] && r[i + 1] == p[i + 1]);
            assert(has_edge(edges, mask, p[i], p[i + 1]));
        } else {
            let j = i - (p.len() - 1);
            assert(r[i] == q[j]);
            assert(r[i + 1] == q[j + 1]);
            assert(has_edge(edges, mask, q[j], q[j + 1]));
        }
    }
    assert(is_walk(edges, mask, r));
}

/// A set of nodes that holds `u` and is closed under allowed edges holds
/// every node that `u` reaches.
pub proof fn lemma_closed_reach(
    edges: Seq<(nat, nat)>,
    mask: Seq<bool>,
    inside: spec_fn(nat) -> bool,
    u: nat,
    v: nat,
)
    requires
        inside(u),
        forall|a: nat, b: nat| inside(a) && #[trigger] has_edge(edges, mask, a, b) ==> inside(b),
        reaches(edges, mask, u, v),
    ensures
        inside(v),
{
    let p = choose|p: Seq<nat>| #[trigger] is_walk(edges, mask, p) && p[0] == u && p[p.len() - 1] == v;
    lemma_closed_walk(edges, mask, inside, p, (p.len() - 1) as nat);
}

/// Every node of a walk that starts in a closed set lies in it.
proof fn lemma_closed_walk(edges: Seq<(nat, nat)>, mask: Seq<bool>, inside: spec_fn(nat) -> bool, p: Seq<nat>, k: nat)
    requires
        is_walk(edges, mask, p),
        k < p.len(),
        inside(p[0]),
        forall|a: nat, b: nat| inside(a) && #[trigger] has_edge(edges, mask, a, b) ==> inside(b),
    ensures
        inside(p[k as int]),
    decreases k,
{
    if k > 0 {
        lemma_closed_walk(edges, mask, inside, p, (k - 1) as nat);
        assert(has_edge(edges, mask, p[k - 1], p[(k - 1) + 1]));
    }
}

/// An allowed edge of the two-way graph is an allowed edge taken forward
/// or backward.
pub proof fn lemma_undirected_edge(edges: Seq<(nat, nat)>, mask: Seq<bool>, a: nat, b: nat)
    requires
        mask.len() == edges.len(),
    ensures
        has_edge(undirected(edges), both(mask), a, b) <==> (has_edge(edges, mask, a, b) || has_edge(edges, mask, b, a)),
{
    let und = undirected(edges);
    let m2 = both(mask);
    let n = edges.len() as int;
    if has_edge(und, m2, a, b) {
        let e = choose|e: int| #[trigger] allowed(und, m2, e) && und[e].0 == a && und[e].1 == b;
        if e < n {
            assert(allowed(edges, mask, e));
        } else {
            assert(allowed(edges, mask, e - n));
        }
    }
    if has_edge(edges, mask, a, b) {
        let e = choose|e: int| #[trigger] allowed(edges, mask, e) && edges[e].0 == a && edges[e].1 == b;
        assert(allowed(und, m2, e));
    }
    if has_edge(edges, mask, b, a) {
        let e = choose|e: int| #[trigger] allowed(edges, mask, e) && edges[e].0 == b && edges[e].1 == a;
        assert(allowed(und, m2, e + n));
    }
}

/// Connectivity is symmetric.
pub proof fn lemma_connected_sym(edges: Seq<(nat, nat)>, mask: Seq<bool>, u: nat, v: nat)
    requires
        mask.len() == edges.len(),
        connected(edges, mask, u, v),
    ensures
        connected(edges, mask, v, u),
{
    let und = undirected(edges);
    let m2 = both(mask);
    let p = choose|p: Seq<nat>| #[trigger] is_walk(und, m2, p) && p[0] == u && p[p.len() - 1] == v;
    let r = p.reverse();
    assert forall|i: int| 0 <= i < r.len() - 1 implies #[trigger] has_edge(und, m2, r[i], r[i + 1]) by {
        let j = p.len() - 2 - i;
        assert(r[i] == p[j + 1]);
        assert(r[i + 1] == p[j]);
        assert(has_edge(und, m2, p[j], p[j + 1]));
        lemma_undirected_edge(edges, mask, p[j], p[j + 1]);
        lemma_undirected_edge(edges, mask, p[j + 1], p[j]);
    }
    assert(is_walk(und, m2, r));
}

/// Connectivity is transitive.
pub proof fn lemma_connected_trans(edges: Seq<(nat, nat)>, mask: Seq<bool>, u: nat, v: nat, w: nat)
    requires
        connected(edges, mask, u, v),
        connected(edges, mask, v, w),
    ensures
        connected(edges, mask, u, w),
{
    lemma_reaches_trans(undirected(edges), both(mask), u, v, w);
}

} // verus!

//! Mathematical model of an indexed directed multigraph: a node count and
//! a sequence of `(source, target)` pairs, one per edge index.
use crate::index::EdgeIndex;
use vstd::prelude::*;

verus! {

/// Node and edge positions fit the compact `u32` indices and every edge
/// endpoint names an existing node.
pub open spec fn valid_model(node_count: nat, edges: Seq<(nat, nat)>) -> bool {
    &&& node_count <= u32::MAX
    &&& edges.len() <= u32::MAX
    &&& forall|e: int| 0 <= e < edges.len() ==> (#[trigger] edges[e]).0 < node_count && edges[e].1 < node_count
}

/// Indices among the first `k` edges whose source is `v`, in increasing order.
pub open spec fn out_prefix(edges: Seq<(nat, nat)>, v: nat, k: nat) -> Seq<nat>
    decreases k,
{
    if k == 0 {
        Seq::empty()
    } else {
        let rest = out_prefix(edges, v, (k - 1) as nat);
        if edges[k - 1].0 == v {
            rest.push((k - 1) as nat)
        } else {
            rest
        }
    }
}

/// Indices among the first `k` edges whose target is `v`, in increasing order.
pub open spec fn in_prefix(edges: Seq<(nat, nat)>, v: nat, k: nat) -> Seq<nat>
    decreases k,
{
    if k == 0 {
        Seq::empty()
    } else {
        let rest = in_prefix(edges, v, (k - 1) as nat);
        if edges[k - 1].1 == v {
            rest.push((k - 1) as nat)
        } else {
            rest
        }
    }
}

/// The outgoing edges of `v`, in edge order.
pub open spec fn out_list(edges: Seq<(nat, nat)>, v: nat) -> Seq<nat> {
    out_prefix(edges, v, edges.len())
}

/// The incoming edges of `v`, in edge order.
pub open spec fn in_list(edges: Seq<(nat, nat)>, v: nat) -> Seq<nat> {
    in_prefix(edges, v, edges.len())
}

/// A sequence is strictly increasing.
pub open spec fn strictly_increasing(s: Seq<nat>) -> bool {
    forall|i: int, j: int| 0 <= i < j < s.len() ==> s[i] < s[j]
}

pub proof fn lemma_out_prefix(edges: Seq<(nat, nat)>, v: nat, k: nat)
    requires
        k <= edges.len(),
    ensures
        strictly_increasing(out_prefix(edges, v, k)),
        forall|i: int| 0 <= i < out_prefix(edges, v, k).len() ==>
            #[trigger] out_prefix(edges, v, k)[i] < k && edges[out_prefix(edges, v, k)[i] as int].0 == v,
        forall|e: nat| e < k && edges[e as int].0 == v ==> #[trigger] out_prefix(edges, v, k).contains(e),
    decreases k,
{
    if k > 0 {
        lemma_out_prefix(edges, v, (k - 1) as nat);
        let rest = out_prefix(edges, v, (k - 1) as nat);
        assert forall|e: nat| e < k && edges[e as int].0 == v implies #[trigger] out_prefix(edges, v, k).contains(e) by {
            if e < k - 1 {
                assert(rest.contains(e));
                let j = choose|j: int| 0 <= j < rest.len() && rest[j] == e;
                if edges[k - 1].0 == v {
                    assert(out_prefix(edges, v, k)[j] == e);
                }
            } else {
                assert(out_prefix(edges, v, k)[out_prefix(edges, v, k).len() - 1] == e);
            }
        }
    }
}

pub proof fn lemma_in_prefix(edges: Seq<(nat, nat)>, v: nat, k: nat)
    requires
        k <= edges.len(),
    ensures
        strictly_increasing(in_prefix(edges, v, k)),
        forall|i: int| 0 <= i < in_prefix(edges, v, k).len() ==>
            #[trigger] in_prefix(edges, v, k)[i] < k && edges[in_prefix(edges, v, k)[i] as int].1 == v,
        forall|e: nat| e < k && edges[e as int].1 == v ==> #[trigger] in_prefix(edges, v, k).contains(e),
    decreases k,
{
    if k > 0 {
        lemma_in_prefix(edges, v, (k - 1) as nat);
        let rest = in_prefix(edges, v, (k - 1) as nat);
        assert forall|e: nat| e < k && edges[e as int].1 == v implies #[trigger] in_prefix(edges, v, k).contains(e) by {
            if e < k - 1 {
                assert(rest.contains(e));
                let j = choose|j: int| 0 <= j < rest.len() && rest[j] == e;
                if edges[k - 1].1 == v {
                    assert(in_prefix(edges, v, k)[j] == e);
                }
            } else {
                assert(in_prefix(edges, v, k)[in_prefix(edges, v, k).len() - 1] == e);
            }
        }
    }
}

/// Membership in the outgoing list of `v` is exactly "edge with source `v`".
pub proof fn lemma_out_list(edges: Seq<(nat, nat)>, v: nat)
    ensures
        strictly_increasing(out_list(edges, v)),
        forall|i: int| 0 <= i < out_list(edges, v).len() ==>
            #[trigger] out_list(edges, v)[i] < edges.len() && edges[out_list(edges, v)[i] as int].0 == v,
        forall|e: nat| e < edges.len() && edges[e as int].0 == v ==> #[trigger] out_list(edges, v).contains(e),
{
    lemma_out_prefix(edges, v, edges.len());
}

/// Membership in the incoming list of `v` is exactly "edge with target `v`".
pub proof fn lemma_in_list(edges: Seq<(nat, nat)>, v: nat)
    ensures
        strictly_increasing(in_list(edges, v)),
        forall|i: int| 0 <= i < in_list(edges, v).len() ==>
            #[trigger] in_list(edges, v)[i] < edges.len() && edges[in_list(edges, v)[i] as int].1 == v,
        forall|e: nat| e < edges.len() && edges[e as int].1 == v ==> #[trigger] in_list(edges, v).contains(e),
{
    lemma_in_prefix(edges, v, edges.len());
}

/// Every edge allowed: the mask used by the unfiltered algorithms.
pub open spec fn full_mask(edge_count: nat) -> Seq<bool> {
    Seq::new(edge_count, |i: int| true)
}

/// An edge that exists and that the mask allows.
pub open spec fn allowed(edges: Seq<(nat, nat)>, mask: Seq<bool>, e: int) -> bool {
    0 <= e < edges.len() && e < mask.len() && mask[e]
}

/// There is an allowed edge from `u` to `v`.
pub open spec fn has_edge(edges: Seq<(nat, nat)>, mask: Seq<bool>, u: nat, v: nat) -> bool {
    exists|e: int| #[trigger] allowed(edges, mask, e) && edges[e].0 == u && edges[e].1 == v
}

/// `p` is a non-empty walk along allowed edges.
pub open spec fn is_walk(edges: Seq<(nat, nat)>, mask: Seq<bool>, p: Seq<nat>) -> bool {
    &&& p.len() > 0
    &&& forall|i: int| 0 <= i < p.len() - 1 ==> #[trigger] has_edge(edges, mask, p[i], p[i + 1])
}

/// `v` can be reached from `u` along allowed edges.
pub open spec fn reaches(edges: Seq<(nat, nat)>, mask: Seq<bool>, u: nat, v: nat) -> bool {
    exists|p: Seq<nat>| #[trigger] is_walk(edges, mask, p) && p[0] == u && p[p.len() - 1] == v
}

/// `order` lists every node `0..node_count` exactly once and every allowed
/// edge goes from an earlier to a later position.
pub open spec fn is_topological_order(
    node_count: nat,
    edges: Seq<(nat, nat)>,
    mask: Seq<bool>,
    order: Seq<nat>,
) -> bool {
    &&& order.len() == node_count
    &&& order.no_duplicates()
    &&& forall|i: int| 0 <= i < order.len() ==> #[trigger] order[i] < node_count
    &&& forall|e: int| #[trigger] allowed(edges, mask, e) ==> exists|i: int, j: int|
        0 <= i < j < order.len() && order[i] == edges[e].0 && order[j] == edges[e].1
}

/// The allowed edges form a directed acyclic graph.
pub open spec fn is_acyclic(node_count: nat, edges: Seq<(nat, nat)>, mask: Seq<bool>) -> bool {
    exists|order: Seq<nat>| is_topological_order(node_count, edges, mask, order)
}

/// `c` is a closed walk of at least one edge: it starts and ends at the same node.
pub open spec fn is_cycle(edges: Seq<(nat, nat)>, mask: Seq<bool>, c: Seq<nat>) -> bool {
    &&& c.len() >= 2
    &&& is_walk(edges, mask, c)
    &&& c[0] == c[c.len() - 1]
}

/// A cycle that visits no node twice before it closes.
pub open spec fn is_simple_cycle(c: Seq<nat>) -> bool {
    &&& c.len() >= 2
    &&& forall|a: int, b: int| 0 <= a < b < c.len() - 1 ==> c[a] != c[b]
}

/// Membership in a sequence after a push.
pub broadcast proof fn lemma_push_contains<A>(s: Seq<A>, x: A, y: A)
    ensures
        #[trigger] s.push(x).contains(y) <==> (s.contains(y) || x == y),
{
    if s.push(x).contains(y) {
        let i = choose|i: int| 0 <= i < s.push(x).len() && s.push(x)[i] == y;
        if i < s.len() {
            assert(s[i] == y);
        }
    }
    if s.contains(y) {
        let i = choose|i: int| 0 <= i < s.len() && s[i] == y;
        assert(s.push(x)[i] == y);
    }
    if x == y {
        assert(s.push(x)[s.len() as int] == y);
    }
}

/// Targets of the allowed edges among the first `k` that leave `u`, in edge order.
pub open spec fn succ_prefix(edges: Seq<(nat, nat)>, mask: Seq<bool>, u: nat, k: nat) -> Seq<nat>
    decreases k,
{
    if k == 0 {
        Seq::empty()
    } else {
        let rest = succ_prefix(edges, mask, u, (k - 1) as nat);
        if allowed(edges, mask, k - 1) && edges[k - 1].0 == u {
            rest.push(edges[k - 1].1)
        } else {
            rest
        }
    }
}

/// Targets of the allowed edges that leave `u`, in edge order.
pub open spec fn successors(edges: Seq<(nat, nat)>, mask: Seq<bool>, u: nat) -> Seq<nat> {
    succ_prefix(edges, mask, u, edges.len())
}

pub proof fn lemma_succ_prefix(edges: Seq<(nat, nat)>, mask: Seq<bool>, u: nat, k: nat)
    requires
        k <= edges.len(),
    ensures
        succ_prefix(edges, mask, u, k).len() <= k,
        forall|i: int| 0 <= i < succ_prefix(edges, mask, u, k).len() ==> exists|e: int|
            0 <= e < k && #[trigger] allowed(edges, mask, e) && edges[e].0 == u && edges[e].1 == #[trigger] succ_prefix(edges, mask, u, k)[i],
        forall|e: int| 0 <= e < k && #[trigger] allowed(edges, mask, e) && edges[e].0 == u ==> succ_prefix(edges, mask, u, k).contains(edges[e].1),
    decreases k,
{
    if k > 0 {
        lemma_succ_prefix(edges, mask, u, (k - 1) as nat);
        let rest = succ_prefix(edges, mask, u, (k - 1) as nat);
        let cur = succ_prefix(edges, mask, u, k);
        assert forall|i: int| 0 <= i < cur.len() implies exists|e: int|
            0 <= e < k && #[trigger] allowed(edges, mask, e) && edges[e].0 == u && edges[e].1 == #[trigger] cur[i] by {
            if i < rest.len() {
                assert(cur[i] == rest[i]);
                let e = choose|e: int| 0 <= e < k - 1 && #[trigger] allowed(edges, mask, e) && edges[e].0 == u && edges[e].1 == rest[i];
            } else {
                assert(allowed(edges, mask, k - 1));
            }
        }
        assert forall|e: int| 0 <= e < k && #[trigger] allowed(edges, mask, e) && edges[e].0 == u implies cur.contains(edges[e].1) by {
            if e < k - 1 {
                assert(rest.contains(edges[e].1));
                let i = choose|i: int| 0 <= i < rest.len() && rest[i] == edges[e].1;
                assert(cur[i] == rest[i]);
            } else {
                assert(cur[cur.len() - 1] == edges[e].1);
            }
        }
    }
}

/// The successor list holds exactly the targets of the allowed edges leaving `u`.
pub proof fn lemma_successors(node_count: nat, edges: Seq<(nat, nat)>, mask: Seq<bool>, u: nat)
    requires
        valid_model(node_count, edges),
    ensures
        successors(edges, mask, u).len() <= edges.len(),
        forall|i: int| 0 <= i < successors(edges, mask, u).len() ==>
            has_edge(edges, mask, u, #[trigger] successors(edges, mask, u)[i]) && successors(edges, mask, u)[i] < node_count,
        forall|e: int| #[trigger] allowed(edges, mask, e) && edges[e].0 == u ==> successors(edges, mask, u).contains(edges[e].1),
{
    lemma_succ_prefix(edges, mask, u, edges.len());
    assert forall|i: int| 0 <= i < successors(edges, mask, u).len() implies
        has_edge(edges, mask, u, #[trigger] successors(edges, mask, u)[i]) && successors(edges, mask, u)[i] < node_count by {
        let e = choose|e: int| 0 <= e < edges.len() && #[trigger] allowed(edges, mask, e) && edges[e].0 == u
            && edges[e].1 == successors(edges, mask, u)[i];
        assert(edges[e].1 < node_count);
    }
}

/// A closed walk rules out every topological order.
pub proof fn lemma_cycle_not_acyclic(node_count: nat, edges: Seq<(nat, nat)>, mask: Seq<bool>, c: Seq<nat>)
    requires
        is_cycle(edges, mask, c),
    ensures
        !is_acyclic(node_count, edges, mask),
{
    if is_acyclic(node_count, edges, mask) {
        let order = choose|order: Seq<nat>| is_topological_order(node_count, edges, mask, order);
        lemma_walk_positions(node_count, edges, mask, order, c, (c.len() - 1) as nat);
        let p0 = choose|p: int| 0 <= p < order.len() && order[p] == c[0];
        let p1 = choose|p: int| 0 <= p < order.len() && order[p] == c[c.len() - 1] && p >= p0 + (c.len() - 1);
        assert(order.no_duplicates());
    }
}

/// Along a walk, positions in a topological order strictly increase.
pub proof fn lemma_walk_positions(node_count: nat, edges: Seq<(nat, nat)>, mask: Seq<bool>, order: Seq<nat>, c: Seq<nat>, k: nat)
    requires
        is_topological_order(node_count, edges, mask, order),
        is_walk(edges, mask, c),
        c.len() >= 2,
        k < c.len(),
    ensures
        exists|p: int| 0 <= p < order.len() && order[p] == c[0],
        forall|p0: int| 0 <= p0 < order.len() && order[p0] == c[0] ==>
            exists|p: int| 0 <= p < order.len() && order[p] == c[k as int] && p >= p0 + k,
    decreases k,
{
    assert(has_edge(edges, mask, c[0], c[0int + 1]));
    let e0 = choose|e: int| #[trigger] allowed(edges, mask, e) && edges[e].0 == c[0] && edges[e].1 == c[1];
    let (a0, b0) = choose|a: int, b: int| 0 <= a < b < order.len() && order[a] == edges[e0].0 && order[b] == edges[e0].1;
    if k > 0 {
        lemma_walk_positions(node_count, edges, mask, order, c, (k - 1) as nat);
        assert forall|p0: int| 0 <= p0 < order.len() && order[p0] == c[0] implies
            exists|p: int| 0 <= p < order.len() && order[p] == c[k as int] && p >= p0 + k by {
            let q = choose|p: int| 0 <= p < order.len() && order[p] == c[k - 1] && p >= p0 + (k - 1);
            assert(has_edge(edges, mask, c[k - 1], c[(k - 1) + 1]));
            let e = choose|e: int| #[trigger] allowed(edges, mask, e) && edges[e].0 == c[k - 1] && edges[e].1 == c[k as int];
            let (a, b) = choose|a: int, b: int| 0 <= a < b < order.len() && order[a] == edges[e].0 && order[b] == edges[e].1;
            assert(order.no_duplicates());
            assert(a == q);
        }
    }
}

/// The natural numbers below `n`.
pub open spec fn nat_below(n: nat) -> Set<nat> {
    Set::new(|v: nat| v < n)
}

pub proof fn lemma_nat_below(n: nat)
    ensures
        nat_below(n).finite(),
        nat_below(n).len() == n,
    decreases n,
{
    if n == 0 {
        assert(nat_below(0) =~= Set::empty());
    } else {
        lemma_nat_below((n - 1) as nat);
        assert(nat_below((n - 1) as nat).insert((n - 1) as nat) =~= nat_below(n));
    }
}

/// A duplicate-free sequence of numbers below `n` has at most `n` entries,
/// and exactly `n` precisely when it lists every number below `n`.
pub proof fn lemma_distinct_below(s: Seq<nat>, n: nat)
    requires
        s.no_duplicates(),
        forall|i: int| 0 <= i < s.len() ==> #[trigger] s[i] < n,
    ensures
        s.len() <= n,
        s.len() == n <==> (forall|v: nat| v < n ==> #[trigger] s.contains(v)),
{
    broadcast use vstd::set::group_set_axioms;
    s.unique_seq_to_set();
    lemma_nat_below(n);
    let set = s.to_set();
    assert(set.subset_of(nat_below(n))) by {
        assert forall|v: nat| set.contains(v) implies nat_below(n).contains(v) by {
            let i = choose|i: int| 0 <= i < s.len() && s[i] == v;
        }
    }
    vstd::set_lib::lemma_len_subset(set, nat_below(n));
    if s.len() == n {
        vstd::set_lib::lemma_subset_equality(set, nat_below(n));
        assert forall|v: nat| v < n implies #[trigger] s.contains(v) by {
            assert(nat_below(n).contains(v));
            assert(set.contains(v));
        }
    }
    if forall|v: nat| v < n ==> #[trigger] s.contains(v) {
        assert(set =~= nat_below(n)) by {
            assert forall|v: nat| nat_below(n).contains(v) implies set.contains(v) by {
                assert(s.contains(v));
            }
        }
    }
}

/// `mask[e]` is a value that `f` returned for edge `e`, for every edge.
pub open spec fn is_edge_mask<F: Fn(EdgeIndex) -> bool>(f: F, edge_count: nat, mask: Seq<bool>) -> bool {
    &&& mask.len() == edge_count
    &&& forall|e: EdgeIndex| e@ < edge_count ==> #[trigger] f.ensures((e,), mask[e@ as int])
}

} // verus!

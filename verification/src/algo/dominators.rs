//! Dominators: which nodes every walk from a root passes through on its
//! way to each node it reaches.
use crate::digraph::{allowed, full_mask, has_edge, is_edge_mask, is_walk, lemma_out_list, reaches, valid_model};
use crate::index::{EdgeIndex, NodeIndex};
use crate::reach::{lemma_closed_reach, lemma_reaches_refl, lemma_reaches_step};
use crate::algo::dag::successor_lists;
use crate::algo::mask::{edge_mask, full_edge_mask};
use crate::digraph::successors;
use crate::topology::{edge_positions, node_positions, IndexGraphView};
use vstd::prelude::*;

verus! {

broadcast use {crate::index::group_index_lemmas, crate::digraph::lemma_push_contains};

/// Every walk along allowed edges from `root` to `x` passes through `d`.
pub open spec fn dominates_in(edges: Seq<(nat, nat)>, mask: Seq<bool>, root: nat, d: nat, x: nat) -> bool {
    forall|p: Seq<nat>| #[trigger] is_walk(edges, mask, p) && p[0] == root && p[p.len() - 1] == x ==> p.contains(d)
}

/// `p` is the immediate dominator of `x`: a dominator of `x` other than
/// `x` itself, dominated in turn by every other dominator of `x`.
pub open spec fn is_immediate_dominator(edges: Seq<(nat, nat)>, mask: Seq<bool>, root: nat, p: nat, x: nat) -> bool {
    &&& p != x
    &&& dominates_in(edges, mask, root, p, x)
    &&& forall|d: nat| d != x && #[trigger] dominates_in(edges, mask, root, d, x) ==> dominates_in(edges, mask, root, d, p)
}

/// The allowed edges that neither start nor end at `d`.
pub open spec fn avoiding(edges: Seq<(nat, nat)>, mask: Seq<bool>, d: nat) -> Seq<bool> {
    Seq::new(mask.len(), |e: int| mask[e] && e < edges.len() && edges[e].0 != d && edges[e].1 != d)
}

/// A walk that keeps clear of `d` is a walk of the edges avoiding `d`, and
/// back.
proof fn lemma_avoiding_walk(edges: Seq<(nat, nat)>, mask: Seq<bool>, d: nat, p: Seq<nat>)
    requires
        p.len() > 0,
    ensures
        is_walk(edges, mask, p) && !p.contains(d) ==> is_walk(edges, avoiding(edges, mask, d), p),
        is_walk(edges, avoiding(edges, mask, d), p) && p[p.len() - 1] != d ==> is_walk(edges, mask, p) && !p.contains(d),
{
    let av = avoiding(edges, mask, d);
    if is_walk(edges, mask, p) && !p.contains(d) {
        assert forall|i: int| 0 <= i < p.len() - 1 implies #[trigger] has_edge(edges, av, p[i], p[i + 1]) by {
            assert(has_edge(edges, mask, p[i], p[i + 1]));
            let e = choose|e: int| #[trigger] allowed(edges, mask, e) && edges[e].0 == p[i] && edges[e].1 == p[i + 1];
            assert(p.contains(p[i]) && p.contains(p[i + 1]));
            assert(allowed(edges, av, e));
        }
    }
    if is_walk(edges, av, p) && p[p.len() - 1] != d {
        assert forall|i: int| 0 <= i < p.len() - 1 implies #[trigger] has_edge(edges, mask, p[i], p[i + 1]) by {
            assert(has_edge(edges, av, p[i], p[i + 1]));
            let e = choose|e: int| #[trigger] allowed(edges, av, e) && edges[e].0 == p[i] && edges[e].1 == p[i + 1];
            assert(allowed(edges, mask, e));
        }
        assert forall|i: int| 0 <= i < p.len() implies p[i] != d by {
            if i < p.len() - 1 {
                assert(has_edge(edges, av, p[i], p[i + 1]));
                let e = choose|e: int| #[trigger] allowed(edges, av, e) && edges[e].0 == p[i] && edges[e].1 == p[i + 1];
            }
        }
    }
}

/// Apart from `root` and `x` themselves, `d` dominates `x` exactly when
/// `root` cannot reach `x` along the edges avoiding `d`.
proof fn lemma_dominates_by_avoiding(edges: Seq<(nat, nat)>, mask: Seq<bool>, root: nat, d: nat, x: nat)
    requires
        root != d,
        x != d,
    ensures
        dominates_in(edges, mask, root, d, x) <==> !reaches(edges, avoiding(edges, mask, d), root, x),
{
    let av = avoiding(edges, mask, d);
    if reaches(edges, av, root, x) {
        let p = choose|p: Seq<nat>| #[trigger] is_walk(edges, av, p) && p[0] == root && p[p.len() - 1] == x;
        lemma_avoiding_walk(edges, mask, d, p);
    }
    if !dominates_in(edges, mask, root, d, x) {
        let p = choose|p: Seq<nat>| !(#[trigger] is_walk(edges, mask, p) && p[0] == root && p[p.len() - 1] == x ==> p.contains(d));
        lemma_avoiding_walk(edges, mask, d, p);
    }
}

/// The walk of the single node `root` shows that nothing but `root`
/// dominates `root`.
proof fn lemma_only_root_dominates_root(edges: Seq<(nat, nat)>, mask: Seq<bool>, root: nat, d: nat)
    requires
        dominates_in(edges, mask, root, d, root),
    ensures
        d == root,
{
    let p = seq![root];
    assert(is_walk(edges, mask, p));
    assert(p.contains(d));
}

/// The first `k + 1` nodes of a walk.
proof fn lemma_walk_prefix(edges: Seq<(nat, nat)>, mask: Seq<bool>, p: Seq<nat>, k: int)
    requires
        is_walk(edges, mask, p),
        0 <= k < p.len(),
    ensures
        is_walk(edges, mask, p.subrange(0, k + 1)),
        p.subrange(0, k + 1)[0] == p[0],
        p.subrange(0, k + 1)[k] == p[k],
{
    let q = p.subrange(0, k + 1);
    assert forall|i: int| 0 <= i < q.len() - 1 implies #[trigger] has_edge(edges, mask, q[i], q[i + 1]) by {
        assert(q[i] == p[i] && q[i + 1] == p[i + 1]);
        assert(has_edge(edges, mask, p[i], p[i + 1]));
    }
}

/// The first position at which `a` occurs in `p`.
proof fn first_position(p: Seq<nat>, a: nat) -> (i: int)
    requires
        p.contains(a),
    ensures
        0 <= i < p.len(),
        p[i] == a,
        !p.subrange(0, i).contains(a),
{
    let j = choose|j: int| 0 <= j < p.len() && p[j] == a;
    first_position_below(p, a, j)
}

proof fn first_position_below(p: Seq<nat>, a: nat, j: int) -> (i: int)
    requires
        0 <= j < p.len(),
        p[j] == a,
    ensures
        0 <= i <= j,
        p[i] == a,
        !p.subrange(0, i).contains(a),
    decreases j,
{
    if p.subrange(0, j).contains(a) {
        let k = choose|k: int| 0 <= k < j && p.subrange(0, j)[k] == a;
        assert(p[k] == a);
        first_position_below(p, a, k)
    } else {
        j
    }
}

/// Dominance passes along: what dominates `p` dominates what `p` dominates.
pub proof fn lemma_dominates_trans(edges: Seq<(nat, nat)>, mask: Seq<bool>, root: nat, d: nat, p: nat, x: nat)
    requires
        dominates_in(edges, mask, root, d, p),
        dominates_in(edges, mask, root, p, x),
    ensures
        dominates_in(edges, mask, root, d, x),
{
    assert forall|w: Seq<nat>| #[trigger] is_walk(edges, mask, w) && w[0] == root && w[w.len() - 1] == x implies w.contains(d) by {
        assert(w.contains(p));
        let k = choose|k: int| 0 <= k < w.len() && w[k] == p;
        lemma_walk_prefix(edges, mask, w, k);
        let q = w.subrange(0, k + 1);
        assert(q.contains(d));
        let i = choose|i: int| 0 <= i < q.len() && q[i] == d;
        assert(w[i] == d);
    }
}

/// Two different nodes cannot dominate each other where one of them is
/// reached.
pub proof fn lemma_dominates_antisymmetric(edges: Seq<(nat, nat)>, mask: Seq<bool>, root: nat, a: nat, b: nat)
    requires
        reaches(edges, mask, root, b),
        dominates_in(edges, mask, root, a, b),
        dominates_in(edges, mask, root, b, a),
    ensures
        a == b,
{
    let w = choose|w: Seq<nat>| #[trigger] is_walk(edges, mask, w) && w[0] == root && w[w.len() - 1] == b;
    assert(w.contains(a));
    let i = first_position(w, a);
    lemma_walk_prefix(edges, mask, w, i);
    let q = w.subrange(0, i + 1);
    assert(q.contains(b));
    let j = choose|j: int| 0 <= j < q.len() && q[j] == b;
    if a != b {
        assert(j < i);
        lemma_walk_prefix(edges, mask, w, j);
        let r = w.subrange(0, j + 1);
        assert(r.contains(a));
        let k = choose|k: int| 0 <= k < r.len() && r[k] == a;
        assert(w.subrange(0, i)[k] == a);
    }
}

/// The last position at or before `j` at which `p` stands at `a` or
/// `b`, where none comes after `j` and `a` occurs.
proof fn last_of_two_from(p: Seq<nat>, a: nat, b: nat, j: int) -> (k: int)
    requires
        0 <= j < p.len(),
        p.contains(a),
        forall|i: int| j < i < p.len() ==> p[i] != a && p[i] != b,
    ensures
        0 <= k <= j,
        p[k] == a || p[k] == b,
        forall|i: int| k < i < p.len() ==> p[i] != a && p[i] != b,
    decreases j,
{
    if p[j] == a || p[j] == b {
        j
    } else {
        if j == 0 {
            let i = choose|i: int| 0 <= i < p.len() && p[i] == a;
            assert(false);
        }
        last_of_two_from(p, a, b, j - 1)
    }
}

/// Two walks joined where the first ends and the second starts.
proof fn lemma_walk_join(edges: Seq<(nat, nat)>, mask: Seq<bool>, p: Seq<nat>, q: Seq<nat>)
    requires
        is_walk(edges, mask, p),
        is_walk(edges, mask, q),
        p[p.len() - 1] == q[0],
    ensures
        is_walk(edges, mask, p + q.subrange(1, q.len() as int)),
        (p + q.subrange(1, q.len() as int))[0] == p[0],
        (p + q.subrange(1, q.len() as int)).last() == q.last(),
        forall|x: nat| (p + q.subrange(1, q.len() as int)).contains(x) ==> p.contains(x) || q.contains(x),
{
    let r = p + q.subrange(1, q.len() as int);
    assert forall|i: int| 0 <= i < r.len() - 1 implies #[trigger] has_edge(edges, mask, r[i], r[i + 1]) by {
        if i < p.len() - 1 {
            assert(r[i] == p[i] && r[i + 1] == p[i + 1]);
            assert(has_edge(edges, mask, p[i], p[i + 1]));
        } else {
            let j = i - (p.len() - 1);
            assert(r[i] == q[j]);
            assert(r[i + 1] == q[j + 1]);
            assert(has_edge(edges, mask, q[j], q[j + 1]));
        }
    }
    assert forall|x: nat| r.contains(x) implies p.contains(x) || q.contains(x) by {
        let i = choose|i: int| 0 <= i < r.len() && r[i] == x;
        if i >= p.len() {
            assert(q[i - p.len() + 1] == x);
        }
    }
}

/// The dominators of a reached node are ordered: of any two, one
/// dominates the other.
pub proof fn lemma_dominators_ordered(edges: Seq<(nat, nat)>, mask: Seq<bool>, root: nat, a: nat, b: nat, x: nat)
    requires
        reaches(edges, mask, root, x),
        dominates_in(edges, mask, root, a, x),
        dominates_in(edges, mask, root, b, x),
    ensures
        dominates_in(edges, mask, root, a, b) || dominates_in(edges, mask, root, b, a),
{
    if !dominates_in(edges, mask, root, a, b) && !dominates_in(edges, mask, root, b, a) {
        let wa = choose|w: Seq<nat>| !(#[trigger] is_walk(edges, mask, w) && w[0] == root && w[w.len() - 1] == b ==> w.contains(a));
        let wb = choose|w: Seq<nat>| !(#[trigger] is_walk(edges, mask, w) && w[0] == root && w[w.len() - 1] == a ==> w.contains(b));
        let p = choose|w: Seq<nat>| #[trigger] is_walk(edges, mask, w) && w[0] == root && w[w.len() - 1] == x;
        assert(p.contains(a));
        let k = last_of_two_from(p, a, b, p.len() - 1);
        let tail = p.subrange(k, p.len() as int);
        assert(is_walk(edges, mask, tail)) by {
            assert forall|i: int| 0 <= i < tail.len() - 1 implies #[trigger] has_edge(edges, mask, tail[i], tail[i + 1]) by {
                assert(tail[i] == p[k + i] && tail[i + 1] == p[k + i + 1]);
                assert(has_edge(edges, mask, p[k + i], p[k + i + 1]));
            }
        }
        if p[k] == a {
            lemma_walk_join(edges, mask, wb, tail);
            let r = wb + tail.subrange(1, tail.len() as int);
            assert(r.last() == x);
            assert(r.contains(b));
            if tail.contains(b) {
                let i = choose|i: int| 0 <= i < tail.len() && tail[i] == b;
                assert(p[k + i] == b);
            }
        } else {
            lemma_walk_join(edges, mask, wa, tail);
            let r = wa + tail.subrange(1, tail.len() as int);
            assert(r.last() == x);
            assert(r.contains(a));
            if tail.contains(a) {
                let i = choose|i: int| 0 <= i < tail.len() && tail[i] == a;
                assert(p[k + i] == a);
            }
        }
    }
}

/// The nodes that `root` reaches along the edges the mask allows.
fn reach_set<G: IndexGraphView>(graph: &G, mask: &Vec<bool>, root: usize) -> (r: Vec<bool>)
    requires
        valid_model(graph.spec_node_count(), graph.spec_edges()),
        mask@.len() == graph.spec_edges().len(),
        root < graph.spec_node_count(),
    ensures
        r@.len() == graph.spec_node_count(),
        forall|v: nat| v < graph.spec_node_count() ==> (r@[v as int] <==> reaches(graph.spec_edges(), mask@, root as nat, v)),
{
    let n = graph.node_bound();
    let ghost edges = graph.spec_edges();
    let ghost m = mask@;
    let mut seen: Vec<bool> = Vec::new();
    let mut i: usize = 0;
    while i < n
        invariant
            i <= n,
            seen@.len() == i,
            forall|v: int| 0 <= v < i ==> !seen@[v],
        decreases n - i,
    {
        seen.push(false);
        i = i + 1;
    }
    seen.set(root, true);
    let ghost mut marked: Seq<nat> = seq![root as nat];
    let mut stack: Vec<usize> = Vec::new();
    stack.push(root);
    proof {
        lemma_reaches_refl(edges, m, root as nat);
    }
    while stack.len() > 0
        invariant
            n == graph.spec_node_count(),
            edges == graph.spec_edges(),
            m == mask@,
            valid_model(n as nat, edges),
            m.len() == edges.len(),
            root < n,
            seen@.len() == n,
            seen@[root as int],
            marked.no_duplicates(),
            forall|k: int| 0 <= k < marked.len() ==> #[trigger] marked[k] < n,
            forall|v: nat| v < n ==> (seen@[v as int] <==> #[trigger] marked.contains(v)),
            stack@.no_duplicates(),
            forall|k: int| 0 <= k < stack@.len() ==> #[trigger] stack@[k] < n && seen@[stack@[k] as int],
            forall|v: nat| v < n && #[trigger] seen@[v as int] ==> reaches(edges, m, root as nat, v),
            forall|e: int| #[trigger] allowed(edges, m, e) && seen@[edges[e].0 as int] && !stack@.contains(edges[e].0 as usize)
                ==> seen@[edges[e].1 as int],
        decreases n - marked.len(), stack@.len(),
    {
        proof {
            crate::digraph::lemma_distinct_below(marked, n as nat);
        }
        let ghost pre = stack@;
        let u = stack.pop().unwrap();
        proof {
            assert(pre =~= stack@.push(u));
            assert(!stack@.contains(u)) by {
                if stack@.contains(u) {
                    let k = choose|k: int| 0 <= k < stack@.len() && stack@[k] == u;
                    assert(pre[k] == pre[pre.len() - 1]);
                }
            }
        }
        let out = graph.outgoing_edges(NodeIndex::new(u as u32));
        let ghost m0 = marked.len();
        let ghost s0 = stack@.len();
        let ghost popped = stack@;
        let mut j: usize = 0;
        while j < out.len()
            invariant
                n == graph.spec_node_count(),
                edges == graph.spec_edges(),
                m == mask@,
                valid_model(n as nat, edges),
                m.len() == edges.len(),
                root < n,
                u < n,
                seen@[u as int],
                j <= out@.len(),
                edge_positions(out@) == crate::digraph::out_list(edges, u as nat),
                marked.len() >= m0,
                marked.len() == m0 ==> stack@.len() == s0,
                marked.len() <= n,
                seen@.len() == n,
                seen@[root as int],
                marked.no_duplicates(),
                forall|k: int| 0 <= k < marked.len() ==> #[trigger] marked[k] < n,
                forall|v: nat| v < n ==> (seen@[v as int] <==> #[trigger] marked.contains(v)),
                stack@.no_duplicates(),
                !stack@.contains(u),
                forall|k: int| 0 <= k < popped.len() ==> #[trigger] stack@[k] == popped[k],
                stack@.len() >= popped.len(),
                forall|k: int| 0 <= k < stack@.len() ==> #[trigger] stack@[k] < n && seen@[stack@[k] as int],
                forall|v: nat| v < n && #[trigger] seen@[v as int] ==> reaches(edges, m, root as nat, v),
                forall|e: int| #[trigger] allowed(edges, m, e) && seen@[edges[e].0 as int] && !stack@.contains(edges[e].0 as usize)
                    && edges[e].0 != u ==> seen@[edges[e].1 as int],
                forall|k: int| 0 <= k < j && #[trigger] allowed(edges, m, out@[k]@ as int) ==> seen@[edges[out@[k]@ as int].1 as int],
            decreases out@.len() - j,
        {
            let edge = out[j];
            proof {
                lemma_out_list(edges, u as nat);
                assert(edge_positions(out@)[j as int] == edge@);
                assert(crate::digraph::out_list(edges, u as nat)[j as int] < edges.len());
            }
            if mask[edge.index()] {
                match graph.edge_endpoints(edge) {
                    Some(ends) => {
                        let t = ends.target().index();
                        proof {
                            assert(edges[edge@ as int].1 < n);
                        }
                        if !seen[t] {
                            proof {
                                assert(allowed(edges, m, edge@ as int));
                                assert(has_edge(edges, m, u as nat, t as nat));
                                lemma_reaches_step(edges, m, root as nat, u as nat, t as nat);
                                assert(!marked.contains(t as nat));
                                let prior = marked;
                                marked = marked.push(t as nat);
                                assert forall|a: int, b: int| 0 <= a < b < marked.len() implies marked[a] != marked[b] by {
                                    if b == prior.len() {
                                        assert(prior.contains(marked[a]));
                                    }
                                }
                                crate::digraph::lemma_distinct_below(marked, n as nat);
                                assert(!stack@.contains(t)) by {
                                    if stack@.contains(t) {
                                        let k = choose|k: int| 0 <= k < stack@.len() && stack@[k] == t;
                                    }
                                }
                            }
                            seen.set(t, true);
                            stack.push(t);
                        }
                    },
                    None => {},
                }
            }
            j = j + 1;
        }
        proof {
            lemma_out_list(edges, u as nat);
            assert forall|e: int| #[trigger] allowed(edges, m, e) && seen@[edges[e].0 as int] && !stack@.contains(edges[e].0 as usize)
                implies seen@[edges[e].1 as int] by {
                if edges[e].0 == u {
                    assert(crate::digraph::out_list(edges, u as nat).contains(e as nat));
                    let k = choose|k: int| 0 <= k < out@.len() && crate::digraph::out_list(edges, u as nat)[k] == e as nat;
                    assert(edge_positions(out@)[k] == out@[k]@);
                }
            }
        }
    }
    proof {
        let inside = |v: nat| v < n && seen@[v as int];
        assert forall|a: nat, b: nat| inside(a) && #[trigger] has_edge(edges, m, a, b) implies inside(b) by {
            let e = choose|e: int| #[trigger] allowed(edges, m, e) && edges[e].0 == a && edges[e].1 == b;
            assert(edges[e].1 < n);
        }
        assert forall|v: nat| v < n && reaches(edges, m, root as nat, v) implies seen@[v as int] by {
            lemma_closed_reach(edges, m, inside, root as nat, v);
        }
    }
    seen
}

/// Depth-first search from `root` that takes the allowed edges leaving each
/// node in edge order, and lists the nodes it reaches in reverse order of
/// finishing.
fn reverse_postorder<G: IndexGraphView>(graph: &G, mask: &Vec<bool>, root: usize) -> (r: Vec<NodeIndex>)
    requires
        valid_model(graph.spec_node_count(), graph.spec_edges()),
        mask@.len() == graph.spec_edges().len(),
        root < graph.spec_node_count(),
    ensures
        node_positions(r@).no_duplicates(),
        r@.len() > 0,
        r@[0]@ == root,
        forall|i: int| 0 <= i < r@.len() ==> #[trigger] r@[i]@ < graph.spec_node_count(),
        forall|v: nat| v < graph.spec_node_count() ==> (node_positions(r@).contains(v) <==> reaches(graph.spec_edges(), mask@, root as nat, v)),
{
    let n = graph.node_bound();
    let ghost edges = graph.spec_edges();
    let ghost m = mask@;
    let adjacency = successor_lists(graph, mask);
    let mut seen: Vec<bool> = Vec::new();
    let mut i: usize = 0;
    while i < n
        invariant
            i <= n,
            seen@.len() == i,
            forall|v: int| 0 <= v < i ==> !seen@[v],
        decreases n - i,
    {
        seen.push(false);
        i = i + 1;
    }
    seen.set(root, true);
    let ghost mut marked: Seq<nat> = seq![root as nat];
    let mut order: Vec<NodeIndex> = Vec::new();
    let mut stack: Vec<(NodeIndex, usize)> = Vec::new();
    stack.push((NodeIndex::new(root as u32), 0));
    proof {
        lemma_reaches_refl(edges, m, root as nat);
        assert forall|v: nat| v < n implies (seen@[v as int] <==> (#[trigger] node_positions(order@).contains(v)
            || exists|k: int| 0 <= k < stack@.len() && stack@[k].0@ == v)) by {
            if v == root {
                assert(stack@[0].0@ == v);
            }
        }
    }
    while stack.len() > 0
        invariant
            n == graph.spec_node_count(),
            n <= u32::MAX,
            edges == graph.spec_edges(),
            m == mask@,
            valid_model(n as nat, edges),
            m.len() == edges.len(),
            root < n,
            adjacency@.len() == n,
            forall|w: int| 0 <= w < n ==> node_positions(#[trigger] adjacency@[w]@) == successors(edges, m, w as nat),
            seen@.len() == n,
            seen@[root as int],
            marked.no_duplicates(),
            forall|k: int| 0 <= k < marked.len() ==> #[trigger] marked[k] < n,
            forall|v: nat| v < n ==> (seen@[v as int] <==> #[trigger] marked.contains(v)),
            forall|v: nat| v < n ==> (seen@[v as int] <==> (#[trigger] node_positions(order@).contains(v)
                || exists|k: int| 0 <= k < stack@.len() && stack@[k].0@ == v)),
            node_positions(order@).no_duplicates(),
            forall|k1: int, k2: int| 0 <= k1 < k2 < stack@.len() ==> stack@[k1].0 != stack@[k2].0,
            forall|k: int| 0 <= k < stack@.len() ==> !node_positions(order@).contains((#[trigger] stack@[k]).0@),
            forall|k: int| 0 <= k < stack@.len() ==> (#[trigger] stack@[k]).0@ < n
                && stack@[k].1 <= successors(edges, m, stack@[k].0@).len(),
            forall|k: int, j: int| 0 <= k < stack@.len() && 0 <= j < (#[trigger] stack@[k]).1
                ==> seen@[#[trigger] successors(edges, m, stack@[k].0@)[j] as int],
            forall|a: int| 0 <= a < order@.len() ==> #[trigger] order@[a]@ < n,
            forall|a: int, j: int| 0 <= a < order@.len() && 0 <= j < successors(edges, m, (#[trigger] order@[a])@).len()
                ==> seen@[#[trigger] successors(edges, m, order@[a]@)[j] as int],
            forall|v: nat| v < n && #[trigger] seen@[v as int] ==> reaches(edges, m, root as nat, v),
            stack@.len() > 0 ==> stack@[0].0@ == root,
            stack@.len() == 0 ==> order@.len() > 0 && order@[order@.len() - 1]@ == root,
        decreases n - marked.len(), crate::algo::dag::frame_work(edges, m, stack@),
    {
        proof {
            crate::digraph::lemma_distinct_below(marked, n as nat);
        }
        let top = stack.len() - 1;
        let (node, next) = stack[top];
        let slot = node.index();
        let ghost pre = stack@;
        let ghost order0 = node_positions(order@);
        proof {
            assert(pre[top as int].0@ < n);
            assert(node_positions(adjacency@[slot as int]@) == successors(edges, m, node@));
            crate::digraph::lemma_successors(n as nat, edges, m, node@);
        }
        if next >= adjacency[slot].len() {
            order.push(node);
            stack.pop();
            proof {
                assert(node_positions(order@) =~= order0.push(node@));
                assert(stack@ =~= pre.drop_last());
                assert forall|v: nat| v < n implies (seen@[v as int] <==> (#[trigger] node_positions(order@).contains(v)
                    || exists|k: int| 0 <= k < stack@.len() && stack@[k].0@ == v)) by {
                    if seen@[v as int] && !node_positions(order@).contains(v) {
                        let k = choose|k: int| 0 <= k < pre.len() && pre[k].0@ == v;
                        assert(k != top);
                        assert(stack@[k] == pre[k]);
                    }
                    if exists|k: int| 0 <= k < stack@.len() && stack@[k].0@ == v {
                        let k = choose|k: int| 0 <= k < stack@.len() && stack@[k].0@ == v;
                        assert(pre[k] == stack@[k]);
                    }
                }
                assert forall|k: int| 0 <= k < stack@.len() implies !node_positions(order@).contains((#[trigger] stack@[k]).0@) by {
                    assert(pre[k] == stack@[k]);
                    assert(pre[k].0 != pre[top as int].0);
                    assert(pre[k].0@ != node@);
                }
                assert forall|a: int, j: int| 0 <= a < order@.len() && 0 <= j < successors(edges, m, (#[trigger] order@[a])@).len()
                    implies seen@[#[trigger] successors(edges, m, order@[a]@)[j] as int] by {
                    if a == order@.len() - 1 {
                        assert(order@[a] == node);
                        assert(pre[top as int].1 == next);
                    }
                }
                if stack@.len() == 0 {
                    assert(pre[0].0@ == root);
                }
                assert(crate::algo::dag::frame_work(edges, m, stack@) < crate::algo::dag::frame_work(edges, m, pre));
            }
            continue;
        }
        let target = adjacency[slot][next];
        let t = target.index();
        proof {
            assert(node_positions(adjacency@[slot as int]@)[next as int] == target@);
        }
        stack.set(top, (node, next + 1));
        proof {
            assert forall|v: nat| v < n implies (seen@[v as int] <==> (#[trigger] node_positions(order@).contains(v)
                || exists|k: int| 0 <= k < stack@.len() && stack@[k].0@ == v)) by {
                if exists|k: int| 0 <= k < pre.len() && pre[k].0@ == v {
                    let k = choose|k: int| 0 <= k < pre.len() && pre[k].0@ == v;
                    assert(stack@[k].0 == pre[k].0);
                }
                if exists|k: int| 0 <= k < stack@.len() && stack@[k].0@ == v {
                    let k = choose|k: int| 0 <= k < stack@.len() && stack@[k].0@ == v;
                    assert(stack@[k].0 == pre[k].0);
                }
            }
            assert forall|k: int| 0 <= k < stack@.len() implies !node_positions(order@).contains((#[trigger] stack@[k]).0@) by {
                assert(stack@[k].0 == pre[k].0);
            }
        }
        let ghost seen0 = seen@;
        let ghost mid0 = stack@;
        if !seen[t] {
            let ghost mid = stack@;
            proof {
                assert(has_edge(edges, m, node@, t as nat));
                assert(seen@[slot as int]);
                lemma_reaches_step(edges, m, root as nat, node@, t as nat);
                assert(!marked.contains(t as nat));
                let prior = marked;
                marked = marked.push(t as nat);
                assert forall|a: int, b: int| 0 <= a < b < marked.len() implies marked[a] != marked[b] by {
                    if b == prior.len() {
                        assert(prior.contains(marked[a]));
                    }
                }
                crate::digraph::lemma_distinct_below(marked, n as nat);
            }
            seen.set(t, true);
            stack.push((target, 0));
            proof {
                assert forall|k: int| 0 <= k < mid.len() implies #[trigger] stack@[k] == mid[k] by {}
                assert forall|v: nat| v < n implies (seen@[v as int] <==> (#[trigger] node_positions(order@).contains(v)
                    || exists|k: int| 0 <= k < stack@.len() && stack@[k].0@ == v)) by {
                    if v == t {
                        assert(stack@[mid.len() as int].0@ == v);
                    } else {
                        if exists|k: int| 0 <= k < mid.len() && mid[k].0@ == v {
                            let k = choose|k: int| 0 <= k < mid.len() && mid[k].0@ == v;
                            assert(stack@[k] == mid[k]);
                        }
                        if exists|k: int| 0 <= k < stack@.len() && stack@[k].0@ == v {
                            let k = choose|k: int| 0 <= k < stack@.len() && stack@[k].0@ == v;
                            if k < mid.len() {
                                assert(stack@[k] == mid[k]);
                            }
                        }
                    }
                }
                assert forall|k1: int, k2: int| 0 <= k1 < k2 < stack@.len() implies stack@[k1].0 != stack@[k2].0 by {
                    if k2 == mid.len() {
                        assert(stack@[k1] == mid[k1]);
                    }
                }
            }
        }
        proof {
            if seen0[t as int] {
                assert(stack@.drop_last() =~= pre.drop_last());
                assert(crate::algo::dag::frame_work(edges, m, stack@) < crate::algo::dag::frame_work(edges, m, pre));
            }
            assert(seen@[t as int]);
            assert forall|x: int| 0 <= x < n && seen0[x] implies seen@[x] by {}
            assert forall|k: int, j: int| 0 <= k < stack@.len() && 0 <= j < (#[trigger] stack@[k]).1
                implies seen@[#[trigger] successors(edges, m, stack@[k].0@)[j] as int] by {
                crate::digraph::lemma_successors(n as nat, edges, m, stack@[k].0@);
                if k < mid0.len() {
                    assert(stack@[k] == mid0[k]);
                    if k == top {
                        if j < next {
                            assert(seen0[successors(edges, m, pre[k].0@)[j] as int]);
                        }
                    } else {
                        assert(mid0[k] == pre[k]);
                        assert(seen0[successors(edges, m, pre[k].0@)[j] as int]);
                    }
                }
            }
            assert forall|a: int, j: int| 0 <= a < order@.len() && 0 <= j < successors(edges, m, (#[trigger] order@[a])@).len()
                implies seen@[#[trigger] successors(edges, m, order@[a]@)[j] as int] by {
                crate::digraph::lemma_successors(n as nat, edges, m, order@[a]@);
                assert(seen0[successors(edges, m, order@[a]@)[j] as int]);
            }
        }
    }
    let mut r: Vec<NodeIndex> = Vec::new();
    let mut k: usize = order.len();
    while k > 0
        invariant
            k <= order@.len(),
            r@.len() == order@.len() - k,
            forall|j: int| 0 <= j < r@.len() ==> #[trigger] r@[j] == order@[order@.len() - 1 - j],
        decreases k,
    {
        k = k - 1;
        r.push(order[k]);
    }
    proof {
        let o = node_positions(order@);
        assert(node_positions(r@) =~= o.reverse());
        assert forall|a: nat, b: nat| a < n && seen@[a as int] && #[trigger] has_edge(edges, m, a, b) implies b < n && seen@[b as int] by {
            let e = choose|e: int| #[trigger] allowed(edges, m, e) && edges[e].0 == a && edges[e].1 == b;
            assert(node_positions(order@).contains(a));
            let ai = choose|ai: int| 0 <= ai < o.len() && o[ai] == a;
            crate::digraph::lemma_successors(n as nat, edges, m, a);
            assert(successors(edges, m, a).contains(b));
            let j = choose|j: int| 0 <= j < successors(edges, m, a).len() && successors(edges, m, a)[j] == b;
            assert(order@[ai]@ == a);
        }
        let inside = |v: nat| v < n && seen@[v as int];
        assert forall|v: nat| v < n && reaches(edges, m, root as nat, v) implies node_positions(r@).contains(v) by {
            lemma_closed_reach(edges, m, inside, root as nat, v);
            assert(o.contains(v));
            let a = choose|a: int| 0 <= a < o.len() && o[a] == v;
            assert(node_positions(r@)[o.len() - 1 - a] == v);
        }
        assert forall|v: nat| v < n && node_positions(r@).contains(v) implies reaches(edges, m, root as nat, v) by {
            let a = choose|a: int| 0 <= a < r@.len() && node_positions(r@)[a] == v;
            assert(o[o.len() - 1 - a] == v);
            assert(o.contains(v));
        }
        assert(r@[0] == order@[order@.len() - 1]);
    }
    r
}

/// The nodes of a walk from `root` are nodes of the graph.
proof fn lemma_walk_nodes_below(n: nat, edges: Seq<(nat, nat)>, mask: Seq<bool>, root: nat, p: Seq<nat>, i: int)
    requires
        valid_model(n, edges),
        root < n,
        is_walk(edges, mask, p),
        p[0] == root,
        0 <= i < p.len(),
    ensures
        p[i] < n,
{
    if i < p.len() - 1 {
        assert(has_edge(edges, mask, p[i], p[i + 1]));
        let e = choose|e: int| #[trigger] allowed(edges, mask, e) && edges[e].0 == p[i] && edges[e].1 == p[i + 1];
    } else if i > 0 {
        let j = i - 1;
        assert(has_edge(edges, mask, p[j], p[j + 1]));
        let e = choose|e: int| #[trigger] allowed(edges, mask, e) && edges[e].0 == p[j] && edges[e].1 == p[j + 1];
    }
}

/// A dominator of a reached node is itself a reached node of the graph.
proof fn lemma_dominator_reached(n: nat, edges: Seq<(nat, nat)>, mask: Seq<bool>, root: nat, d: nat, x: nat)
    requires
        valid_model(n, edges),
        root < n,
        reaches(edges, mask, root, x),
        dominates_in(edges, mask, root, d, x),
    ensures
        d < n,
        reaches(edges, mask, root, d),
{
    let w = choose|w: Seq<nat>| #[trigger] is_walk(edges, mask, w) && w[0] == root && w[w.len() - 1] == x;
    assert(w.contains(d));
    let k = choose|k: int| 0 <= k < w.len() && w[k] == d;
    lemma_walk_nodes_below(n, edges, mask, root, w, k);
    lemma_walk_prefix(edges, mask, w, k);
    assert(w.subrange(0, k + 1)[w.subrange(0, k + 1).len() - 1] == d);
}

/// Every node dominates itself, and `root` dominates every node.
proof fn lemma_dominates_trivially(edges: Seq<(nat, nat)>, mask: Seq<bool>, root: nat, x: nat)
    ensures
        dominates_in(edges, mask, root, x, x),
        dominates_in(edges, mask, root, root, x),
{
    assert forall|p: Seq<nat>| #[trigger] is_walk(edges, mask, p) && p[0] == root && p[p.len() - 1] == x implies p.contains(x)
        && p.contains(root) by {
        assert(p[p.len() - 1] == x);
        assert(p[0] == root);
    }
}

/// The edge mask with every edge that touches `d` taken out.
fn avoid_mask<G: IndexGraphView>(graph: &G, mask: &Vec<bool>, d: usize) -> (r: Vec<bool>)
    requires
        mask@.len() == graph.spec_edges().len(),
    ensures
        r@ == avoiding(graph.spec_edges(), mask@, d as nat),
{
    let count = graph.edge_bound();
    let ghost edges = graph.spec_edges();
    let mut r: Vec<bool> = Vec::new();
    let mut e: usize = 0;
    while e < count
        invariant
            e <= count,
            count == edges.len(),
            count <= u32::MAX,
            edges == graph.spec_edges(),
            mask@.len() == count,
            r@.len() == e,
            forall|f: int| 0 <= f < e ==> r@[f] == (mask@[f] && edges[f].0 != d && edges[f].1 != d),
        decreases count - e,
    {
        let keep = match graph.edge_endpoints(EdgeIndex::new(e as u32)) {
            Some(ends) => mask[e] && ends.source().index() != d && ends.target().index() != d,
            None => false,
        };
        r.push(keep);
        e = e + 1;
    }
    assert(r@ =~= avoiding(edges, mask@, d as nat));
    r
}

/// `rows[d]` marks, for every node `d` but `root`, the nodes that `root`
/// reaches along the edges avoiding `d`.
spec fn rows_ok(n: nat, edges: Seq<(nat, nat)>, mask: Seq<bool>, root: nat, rows: Seq<Vec<bool>>, k: nat) -> bool {
    &&& rows.len() == k
    &&& forall|d: int| 0 <= d < k && d != root ==> (#[trigger] rows[d])@.len() == n
    &&& forall|d: int, x: nat| 0 <= d < k && d != root && x < n
        ==> (#[trigger] rows[d]@[x as int] <==> reaches(edges, avoiding(edges, mask, d as nat), root, x))
}

/// Whether `d` dominates `x`, read off the rows.
fn dominates_by_rows(rows: &Vec<Vec<bool>>, root: usize, d: usize, x: usize, Ghost(n): Ghost<nat>, Ghost(edges): Ghost<Seq<(nat, nat)>>, Ghost(mask): Ghost<Seq<bool>>) -> (r: bool)
    requires
        rows_ok(n, edges, mask, root as nat, rows@, n),
        d < n,
        x < n,
    ensures
        r == dominates_in(edges, mask, root as nat, d as nat, x as nat),
{
    proof {
        lemma_dominates_trivially(edges, mask, root as nat, x as nat);
    }
    if d == x || d == root {
        true
    } else {
        proof {
            lemma_dominates_by_avoiding(edges, mask, root as nat, d as nat, x as nat);
            assert(rows@[d as int]@[x as int] <==> reaches(edges, avoiding(edges, mask, d as nat), root as nat, x as nat));
        }
        !rows[d][x]
    }
}

/// The immediate dominator of every reached node but the root, by
/// searching from the root once around each other node.
fn immediate_dominators<G: IndexGraphView>(graph: &G, mask: &Vec<bool>, root: usize, order: &Vec<NodeIndex>) -> (r: Vec<Option<NodeIndex>>)
    requires
        valid_model(graph.spec_node_count(), graph.spec_edges()),
        mask@.len() == graph.spec_edges().len(),
        root < graph.spec_node_count(),
        forall|i: int| 0 <= i < order@.len() ==> #[trigger] order@[i]@ < graph.spec_node_count(),
        forall|v: nat| v < graph.spec_node_count() ==> (node_positions(order@).contains(v) <==> reaches(graph.spec_edges(), mask@, root as nat, v)),
    ensures
        r@.len() == graph.spec_node_count(),
        r@[root as int] is None,
        forall|v: int| 0 <= v < graph.spec_node_count() && v != root ==> (#[trigger] r@[v] is Some
            <==> reaches(graph.spec_edges(), mask@, root as nat, v as nat)),
        forall|v: int| 0 <= v < graph.spec_node_count() && #[trigger] r@[v] is Some ==> r@[v]->0@ < graph.spec_node_count()
            && is_immediate_dominator(graph.spec_edges(), mask@, root as nat, r@[v]->0@, v as nat),
{
    let n = graph.node_bound();
    let ghost edges = graph.spec_edges();
    let ghost m = mask@;
    let mut rows: Vec<Vec<bool>> = Vec::new();
    let mut d: usize = 0;
    while d < n
        invariant
            d <= n,
            n == graph.spec_node_count(),
            edges == graph.spec_edges(),
            m == mask@,
            valid_model(n as nat, edges),
            m.len() == edges.len(),
            root < n,
            rows_ok(n as nat, edges, m, root as nat, rows@, d as nat),
        decreases n - d,
    {
        if d == root {
            rows.push(Vec::new());
        } else {
            let avoid = avoid_mask(graph, mask, d);
            let row = reach_set(graph, &avoid, root);
            rows.push(row);
        }
        proof {
            assert forall|f: int, x: nat| 0 <= f < d + 1 && f != root && x < n
                implies (#[trigger] rows@[f]@[x as int] <==> reaches(edges, avoiding(edges, m, f as nat), root as nat, x)) by {
            }
        }
        d = d + 1;
    }
    let reached = reach_set(graph, mask, root);
    let mut r: Vec<Option<NodeIndex>> = Vec::new();
    let mut x: usize = 0;
    while x < n
        invariant
            x <= n,
            reached@.len() == n,
            forall|v: nat| v < n ==> (reached@[v as int] <==> reaches(edges, m, root as nat, v)),
            n == graph.spec_node_count(),
            n <= u32::MAX,
            edges == graph.spec_edges(),
            m == mask@,
            valid_model(n as nat, edges),
            m.len() == edges.len(),
            root < n,
            rows_ok(n as nat, edges, m, root as nat, rows@, n as nat),
            forall|i: int| 0 <= i < order@.len() ==> #[trigger] order@[i]@ < n,
            forall|v: nat| v < n ==> (node_positions(order@).contains(v) <==> reaches(edges, m, root as nat, v)),
            r@.len() == x,
            root < x ==> r@[root as int] is None,
            forall|v: int| 0 <= v < x && v != root ==> (#[trigger] r@[v] is Some <==> reaches(edges, m, root as nat, v as nat)),
            forall|v: int| 0 <= v < x && #[trigger] r@[v] is Some ==> r@[v]->0@ < n
                && is_immediate_dominator(edges, m, root as nat, r@[v]->0@, v as nat),
        decreases n - x,
    {
        if x == root || !reached[x] {
            r.push(None);
        } else {
            let mut best: usize = root;
            proof {
                lemma_dominates_trivially(edges, m, root as nat, x as nat);
            }
            let mut k: usize = 0;
            while k < order.len()
                invariant
                    n == graph.spec_node_count(),
                    edges == graph.spec_edges(),
                    m == mask@,
                    valid_model(n as nat, edges),
                    root < n,
                    x < n,
                    x != root,
                    reaches(edges, m, root as nat, x as nat),
                    rows_ok(n as nat, edges, m, root as nat, rows@, n as nat),
                    forall|i: int| 0 <= i < order@.len() ==> #[trigger] order@[i]@ < n,
                    k <= order@.len(),
                    best < n,
                    best != x,
                    dominates_in(edges, m, root as nat, best as nat, x as nat),
                    forall|i: int| 0 <= i < k && #[trigger] order@[i]@ != x && dominates_in(edges, m, root as nat, order@[i]@, x as nat)
                        ==> dominates_in(edges, m, root as nat, order@[i]@, best as nat),
                decreases order@.len() - k,
            {
                let c = order[k].index();
                if c != x && dominates_by_rows(&rows, root, c, x, Ghost(n as nat), Ghost(edges), Ghost(m)) {
                    if dominates_by_rows(&rows, root, best, c, Ghost(n as nat), Ghost(edges), Ghost(m)) {
                        proof {
                            assert forall|i: int| 0 <= i < k + 1 && #[trigger] order@[i]@ != x && dominates_in(edges, m, root as nat, order@[i]@, x as nat)
                                implies dominates_in(edges, m, root as nat, order@[i]@, c as nat) by {
                                if i < k {
                                    lemma_dominates_trans(edges, m, root as nat, order@[i]@, best as nat, c as nat);
                                } else {
                                    lemma_dominates_trivially(edges, m, root as nat, c as nat);
                                }
                            }
                        }
                        best = c;
                    } else {
                        proof {
                            lemma_dominators_ordered(edges, m, root as nat, best as nat, c as nat, x as nat);
                        }
                    }
                }
                k = k + 1;
            }
            proof {
                assert forall|d: nat| d != x && #[trigger] dominates_in(edges, m, root as nat, d, x as nat)
                    implies dominates_in(edges, m, root as nat, d, best as nat) by {
                    lemma_dominator_reached(n as nat, edges, m, root as nat, d, x as nat);
                    assert(node_positions(order@).contains(d));
                    let i = choose|i: int| 0 <= i < order@.len() && node_positions(order@)[i] == d;
                    assert(order@[i]@ == d);
                }
            }
            r.push(Some(NodeIndex::new(best as u32)));
        }
        x = x + 1;
    }
    r
}

/// `order` lists exactly the nodes that `root` reaches, `root` first and
/// none twice; `idom` gives each of them but `root` its immediate
/// dominator, and nothing to the other nodes.
pub open spec fn is_dominator_tree(
    n: nat,
    edges: Seq<(nat, nat)>,
    mask: Seq<bool>,
    root: nat,
    order: Seq<nat>,
    idom: Seq<Option<nat>>,
) -> bool {
    &&& valid_model(n, edges)
    &&& mask.len() == edges.len()
    &&& root < n
    &&& order.no_duplicates()
    &&& order.len() > 0
    &&& order[0] == root
    &&& forall|i: int| 0 <= i < order.len() ==> #[trigger] order[i] < n
    &&& forall|v: nat| v < n ==> (order.contains(v) <==> reaches(edges, mask, root, v))
    &&& idom.len() == n
    &&& idom[root as int] is None
    &&& forall|v: int| 0 <= v < n && v != root ==> (#[trigger] idom[v] is Some <==> reaches(edges, mask, root, v as nat))
    &&& forall|v: int| 0 <= v < n && #[trigger] idom[v] is Some ==> idom[v]->0 < n
        && is_immediate_dominator(edges, mask, root, idom[v]->0, v as nat)
}

/// The positions of optional nodes.
pub open spec fn optional_positions(s: Seq<Option<NodeIndex>>) -> Seq<Option<nat>> {
    s.map_values(|o: Option<NodeIndex>| match o {
        Some(p) => Some(p@),
        None => None,
    })
}

/// How many of the nodes below `k` dominate `x`.
spec fn dominator_count(edges: Seq<(nat, nat)>, mask: Seq<bool>, root: nat, x: nat, k: nat) -> nat
    decreases k,
{
    if k == 0 {
        0
    } else {
        dominator_count(edges, mask, root, x, (k - 1) as nat) + if dominates_in(edges, mask, root, (k - 1) as nat, x) {
            1nat
        } else {
            0nat
        }
    }
}

/// What dominates `p` dominates `x`, and `x` is one more: fewer nodes
/// dominate `p`.
proof fn lemma_fewer_dominators(edges: Seq<(nat, nat)>, mask: Seq<bool>, root: nat, p: nat, x: nat, k: nat)
    requires
        forall|d: nat| #[trigger] dominates_in(edges, mask, root, d, p) ==> dominates_in(edges, mask, root, d, x),
        dominates_in(edges, mask, root, x, x),
        !dominates_in(edges, mask, root, x, p),
    ensures
        dominator_count(edges, mask, root, p, k) <= dominator_count(edges, mask, root, x, k),
        x < k ==> dominator_count(edges, mask, root, p, k) < dominator_count(edges, mask, root, x, k),
    decreases k,
{
    if k > 0 {
        lemma_fewer_dominators(edges, mask, root, p, x, (k - 1) as nat);
        if dominates_in(edges, mask, root, (k - 1) as nat, p) {
            assert(dominates_in(edges, mask, root, (k - 1) as nat, x));
        }
    }
}

/// The immediate dominator of a reached node is unique.
proof fn lemma_immediate_unique(edges: Seq<(nat, nat)>, mask: Seq<bool>, root: nat, a: nat, b: nat, x: nat, n: nat)
    requires
        valid_model(n, edges),
        root < n,
        reaches(edges, mask, root, x),
        is_immediate_dominator(edges, mask, root, a, x),
        is_immediate_dominator(edges, mask, root, b, x),
    ensures
        a == b,
{
    assert(dominates_in(edges, mask, root, a, b));
    assert(dominates_in(edges, mask, root, b, a));
    lemma_dominator_reached(n, edges, mask, root, b, x);
    lemma_dominates_antisymmetric(edges, mask, root, a, b);
}

/// The dominator tree of the nodes that a root reaches.
pub struct Dominators {
    root: NodeIndex,
    reachable: Vec<NodeIndex>,
    immediate: Vec<Option<NodeIndex>>,
    edges: Ghost<Seq<(nat, nat)>>,
    mask: Ghost<Seq<bool>>,
}

impl Dominators {
    #[verifier::type_invariant]
    spec fn inv(self) -> bool {
        is_dominator_tree(self.immediate@.len(), self.edges@, self.mask@, self.root@, node_positions(self.reachable@),
            optional_positions(self.immediate@))
    }

    /// The number of nodes of the graph the tree was computed on.
    pub closed spec fn spec_node_count(&self) -> nat {
        self.immediate@.len()
    }

    /// The edges of the graph the tree was computed on.
    pub closed spec fn spec_graph_edges(&self) -> Seq<(nat, nat)> {
        self.edges@
    }

    /// Which of those edges were followed.
    pub closed spec fn spec_mask(&self) -> Seq<bool> {
        self.mask@
    }

    pub closed spec fn spec_root(&self) -> nat {
        self.root@
    }

    /// The reached nodes, in the order of the search.
    pub closed spec fn spec_order(&self) -> Seq<nat> {
        node_positions(self.reachable@)
    }

    /// The immediate dominator of each node, where it has one.
    pub closed spec fn spec_immediate(&self) -> Seq<Option<nat>> {
        optional_positions(self.immediate@)
    }

    pub fn root(&self) -> (r: NodeIndex)
        ensures
            r@ == self.spec_root(),
    {
        self.root
    }

    /// The reached nodes in reverse order of finishing of the search, the
    /// root first.
    pub fn reachable_nodes(&self) -> (r: &[NodeIndex])
        ensures
            node_positions(r@) == self.spec_order(),
    {
        self.reachable.as_slice()
    }

    /// The immediate dominator of `node`; `None` for the root and for the
    /// nodes the root does not reach.
    pub fn immediate_dominator(&self, node: NodeIndex) -> (r: Option<NodeIndex>)
        ensures
            r is Some <==> node@ < self.spec_node_count() && node@ != self.spec_root()
                && reaches(self.spec_graph_edges(), self.spec_mask(), self.spec_root(), node@),
            r matches Some(p) ==> is_immediate_dominator(self.spec_graph_edges(), self.spec_mask(), self.spec_root(), p@, node@),
    {
        proof {
            use_type_invariant(self);
        }
        if node.index() >= self.immediate.len() || node.index() == self.root.index() {
            return None;
        }
        let r = self.immediate[node.index()];
        proof {
            assert(optional_positions(self.immediate@)[node@ as int] is Some <==> r is Some);
        }
        r
    }

    /// `node` and its dominators, each followed by its immediate dominator,
    /// up to the root; `None` when the root does not reach `node`.
    pub fn dominators(&self, node: NodeIndex) -> (r: Option<Vec<NodeIndex>>)
        ensures
            r is Some <==> node@ < self.spec_node_count() && reaches(self.spec_graph_edges(), self.spec_mask(), self.spec_root(), node@),
            r matches Some(list) ==> {
                &&& list@.len() > 0
                &&& list@[0] == node
                &&& list@[list@.len() - 1]@ == self.spec_root()
                &&& forall|i: int| 0 <= i < list@.len() - 1 ==> is_immediate_dominator(self.spec_graph_edges(), self.spec_mask(),
                    self.spec_root(), (#[trigger] list@[i + 1])@, list@[i]@)
                &&& forall|i: int| 1 <= i < list@.len() ==> (#[trigger] list@[i])@ != node@
                &&& forall|d: nat| node_positions(list@).contains(d)
                    <==> #[trigger] dominates_in(self.spec_graph_edges(), self.spec_mask(), self.spec_root(), d, node@)
            },
    {
        proof {
            use_type_invariant(self);
        }
        let ghost edges = self.edges@;
        let ghost mask = self.mask@;
        let ghost root = self.root@;
        let ghost n = self.immediate@.len();
        let ghost idom = optional_positions(self.immediate@);
        let count = self.immediate.len();
        let v = node.index();
        if v >= count {
            return None;
        }
        if v != self.root.index() && self.immediate[v].is_none() {
            proof {
                assert(idom[v as int] is None);
            }
            return None;
        }
        proof {
            if v == root {
                lemma_reaches_refl(edges, mask, root);
            } else {
                assert(idom[v as int] is Some);
            }
            lemma_dominates_trivially(edges, mask, root, v as nat);
        }
        let mut list: Vec<NodeIndex> = Vec::new();
        list.push(node);
        let mut cur = node;
        while cur.index() != self.root.index()
            invariant
                edges == self.edges@,
                mask == self.mask@,
                root == self.root@,
                n == self.immediate@.len(),
                count == n,
                idom == optional_positions(self.immediate@),
                is_dominator_tree(n, edges, mask, root, node_positions(self.reachable@), idom),
                cur@ < n,
                reaches(edges, mask, root, cur@),
                reaches(edges, mask, root, node@),
                list@.len() > 0,
                list@[0] == node,
                list@[list@.len() - 1] == cur,
                forall|i: int| 0 <= i < list@.len() - 1 ==> is_immediate_dominator(edges, mask, root, (#[trigger] list@[i + 1])@, list@[i]@),
                forall|i: int| 1 <= i < list@.len() ==> (#[trigger] list@[i])@ != node@,
                dominates_in(edges, mask, root, cur@, node@),
                forall|d: nat| node_positions(list@).contains(d) ==> #[trigger] dominates_in(edges, mask, root, d, node@),
                forall|d: nat| #[trigger] dominates_in(edges, mask, root, d, node@) ==> node_positions(list@).contains(d)
                    || dominates_in(edges, mask, root, d, cur@),
            decreases dominator_count(edges, mask, root, cur@, n),
        {
            let ghost list0 = list@;
            let next = self.immediate[cur.index()];
            proof {
                assert(idom[cur@ as int] is Some);
            }
            let p = match next {
                Some(p) => p,
                None => {
                    proof {
                        assert(false);
                    }
                    cur
                },
            };
            proof {
                assert(idom[cur@ as int] == Some(p@));
                assert(is_immediate_dominator(edges, mask, root, p@, cur@));
                lemma_dominator_reached(n, edges, mask, root, p@, cur@);
                lemma_dominates_trans(edges, mask, root, p@, cur@, node@);
                lemma_dominates_trivially(edges, mask, root, cur@);
                if dominates_in(edges, mask, root, cur@, p@) {
                    lemma_dominates_antisymmetric(edges, mask, root, cur@, p@);
                }
                assert forall|d: nat| #[trigger] dominates_in(edges, mask, root, d, p@) implies dominates_in(edges, mask, root, d, cur@) by {
                    lemma_dominates_trans(edges, mask, root, d, p@, cur@);
                }
                lemma_fewer_dominators(edges, mask, root, p@, cur@, n);
                if p@ == node@ {
                    lemma_dominates_antisymmetric(edges, mask, root, cur@, node@);
                }
            }
            list.push(p);
            proof {
                assert(node_positions(list@) =~= node_positions(list0).push(p@));
                assert forall|i: int| 0 <= i < list@.len() - 1 implies is_immediate_dominator(edges, mask, root,
                    (#[trigger] list@[i + 1])@, list@[i]@) by {
                    if i < list0.len() - 1 {
                        assert(list@[i + 1] == list0[i + 1] && list@[i] == list0[i]);
                    }
                }
                assert forall|d: nat| #[trigger] dominates_in(edges, mask, root, d, node@) implies node_positions(list@).contains(d)
                    || dominates_in(edges, mask, root, d, p@) by {
                    if !node_positions(list0).contains(d) && d != cur@ {
                        assert(dominates_in(edges, mask, root, d, cur@));
                    }
                    if d == cur@ {
                        assert(node_positions(list0)[list0.len() - 1] == d);
                    }
                }
            }
            cur = p;
        }
        proof {
            assert forall|d: nat| #[trigger] dominates_in(edges, mask, root, d, node@) implies node_positions(list@).contains(d) by {
                if dominates_in(edges, mask, root, d, cur@) {
                    lemma_only_root_dominates_root(edges, mask, root, d);
                    assert(node_positions(list@)[list@.len() - 1] == d);
                }
            }
        }
        Some(list)
    }

    /// The dominators of `node` other than itself, nearest first; `None`
    /// when the root does not reach `node`.
    pub fn strict_dominators(&self, node: NodeIndex) -> (r: Option<Vec<NodeIndex>>)
        ensures
            r is Some <==> node@ < self.spec_node_count() && reaches(self.spec_graph_edges(), self.spec_mask(), self.spec_root(), node@),
            r matches Some(list) ==> {
                &&& (list@.len() == 0 <==> node@ == self.spec_root())
                &&& list@.len() > 0 ==> is_immediate_dominator(self.spec_graph_edges(), self.spec_mask(), self.spec_root(), list@[0]@, node@)
                    && list@[list@.len() - 1]@ == self.spec_root()
                &&& forall|i: int| 0 <= i < list@.len() - 1 ==> is_immediate_dominator(self.spec_graph_edges(), self.spec_mask(),
                    self.spec_root(), (#[trigger] list@[i + 1])@, list@[i]@)
                &&& forall|d: nat| node_positions(list@).contains(d)
                    <==> d != node@ && #[trigger] dominates_in(self.spec_graph_edges(), self.spec_mask(), self.spec_root(), d, node@)
            },
    {
        let all = match self.dominators(node) {
            Some(all) => all,
            None => {
                return None;
            },
        };
        let ghost edges = self.spec_graph_edges();
        let ghost mask = self.spec_mask();
        let ghost root = self.spec_root();
        let mut rest: Vec<NodeIndex> = Vec::new();
        let mut k: usize = 1;
        while k < all.len()
            invariant
                1 <= k <= all@.len(),
                rest@ == all@.subrange(1, k as int),
            decreases all@.len() - k,
        {
            rest.push(all[k]);
            k = k + 1;
        }
        proof {
            assert(rest@ == all@.subrange(1, all@.len() as int));
            assert forall|i: int| 0 <= i < rest@.len() - 1 implies is_immediate_dominator(edges, mask, root,
                (#[trigger] rest@[i + 1])@, rest@[i]@) by {
                assert(rest@[i + 1] == all@[i + 2] && rest@[i] == all@[i + 1]);
            }
            if rest@.len() > 0 {
                assert(rest@[0] == all@[1]);
                assert(rest@[rest@.len() - 1] == all@[all@.len() - 1]);
            }
            if node@ == root {
                if all@.len() > 1 {
                    assert(is_immediate_dominator(edges, mask, root, all@[1]@, all@[0]@));
                    lemma_only_root_dominates_root(edges, mask, root, all@[1]@);
                }
            } else {
                assert(all@.len() > 1);
            }
            assert forall|d: nat| node_positions(rest@).contains(d)
                <==> d != node@ && #[trigger] dominates_in(edges, mask, root, d, node@) by {
                if node_positions(rest@).contains(d) {
                    let i = choose|i: int| 0 <= i < rest@.len() && node_positions(rest@)[i] == d;
                    assert(all@[i + 1]@ == d);
                    assert(node_positions(all@)[i + 1] == d);
                }
                if d != node@ && dominates_in(edges, mask, root, d, node@) {
                    assert(node_positions(all@).contains(d));
                    let i = choose|i: int| 0 <= i < all@.len() && node_positions(all@)[i] == d;
                    assert(i != 0);
                    assert(node_positions(rest@)[i - 1] == d);
                }
            }
        }
        Some(rest)
    }

    /// The reached nodes whose immediate dominator is `node`, in the order
    /// of the search.
    pub fn immediately_dominated_by(&self, node: NodeIndex) -> (r: Vec<NodeIndex>)
        ensures
            node_positions(r@) == self.spec_order().filter(
                |v: nat| is_immediate_dominator(self.spec_graph_edges(), self.spec_mask(), self.spec_root(), node@, v),
            ),
    {
        proof {
            use_type_invariant(self);
        }
        let ghost edges = self.spec_graph_edges();
        let ghost mask = self.spec_mask();
        let ghost root = self.spec_root();
        let ghost n = self.spec_node_count();
        let ghost order = self.spec_order();
        let ghost pred = |v: nat| is_immediate_dominator(edges, mask, root, node@, v);
        let mut r: Vec<NodeIndex> = Vec::new();
        let mut k: usize = 0;
        while k < self.reachable.len()
            invariant
                edges == self.spec_graph_edges(),
                mask == self.spec_mask(),
                root == self.spec_root(),
                n == self.spec_node_count(),
                order == self.spec_order(),
                order == node_positions(self.reachable@),
                is_dominator_tree(n, edges, mask, root, order, self.spec_immediate()),
                pred == (|v: nat| is_immediate_dominator(edges, mask, root, node@, v)),
                k <= order.len(),
                node_positions(r@) == order.take(k as int).filter(pred),
            decreases order.len() - k,
        {
            let v = self.reachable[k];
            let ghost before = node_positions(r@);
            proof {
                assert(order.take(k + 1).drop_last() =~= order.take(k as int));
                assert(order.take(k + 1).last() == v@);
                assert(order.contains(v@));
                assert(v@ < n);
            }
            match self.immediate_dominator(v) {
                Some(p) => {
                    if p.index() == node.index() {
                        r.push(v);
                        proof {
                            assert(node_positions(r@) =~= before.push(v@));
                            assert(pred(v@));
                        }
                    } else {
                        proof {
                            if pred(v@) {
                                lemma_immediate_unique(edges, mask, root, p@, node@, v@, n);
                            }
                        }
                    }
                },
                None => {
                    proof {
                        if pred(v@) {
                            assert(dominates_in(edges, mask, root, node@, v@));
                            if v@ == root {
                                lemma_only_root_dominates_root(edges, mask, root, node@);
                            }
                        }
                    }
                },
            }
            proof {
                let t1 = order.take(k + 1);
                reveal(Seq::filter);
                assert(t1.len() > 0);
                assert(t1.filter(pred) == (if pred(t1.last()) {
                    t1.drop_last().filter(pred).push(t1.last())
                } else {
                    t1.drop_last().filter(pred)
                }));
                assert(node_positions(r@) == t1.filter(pred));
            }
            k = k + 1;
        }
        proof {
            assert(order.take(order.len() as int) =~= order);
        }
        r
    }

    /// Whether `dominator` lies on every walk from the root to `node`;
    /// `false` when the root does not reach `node`.
    pub fn dominates(&self, dominator: NodeIndex, node: NodeIndex) -> (r: bool)
        ensures
            r == (node@ < self.spec_node_count() && reaches(self.spec_graph_edges(), self.spec_mask(), self.spec_root(), node@)
                && dominates_in(self.spec_graph_edges(), self.spec_mask(), self.spec_root(), dominator@, node@)),
    {
        match self.dominators(node) {
            None => false,
            Some(chain) => {
                let mut k: usize = 0;
                while k < chain.len()
                    invariant
                        k <= chain@.len(),
                        forall|i: int| 0 <= i < k ==> (#[trigger] chain@[i])@ != dominator@,
                        node@ < self.spec_node_count(),
                        reaches(self.spec_graph_edges(), self.spec_mask(), self.spec_root(), node@),
                        forall|d: nat| node_positions(chain@).contains(d)
                            <==> #[trigger] dominates_in(self.spec_graph_edges(), self.spec_mask(), self.spec_root(), d, node@),
                    decreases chain@.len() - k,
                {
                    if chain[k].index() == dominator.index() {
                        proof {
                            assert(node_positions(chain@)[k as int] == dominator@);
                            assert(node_positions(chain@).contains(dominator@));
                            assert(dominates_in(self.spec_graph_edges(), self.spec_mask(), self.spec_root(), dominator@, node@));
                        }
                        return true;
                    }
                    k = k + 1;
                }
                proof {
                    if node_positions(chain@).contains(dominator@) {
                        let i = choose|i: int| 0 <= i < chain@.len() && node_positions(chain@)[i] == dominator@;
                        assert(chain@[i]@ == dominator@);
                    }
                }
                false
            },
        }
    }
}

/// Builds the dominator tree of the nodes that `root` reaches along the
/// edges the mask allows.
fn dominators_with_mask<G: IndexGraphView>(graph: &G, mask: Vec<bool>, root: NodeIndex) -> (r: Dominators)
    requires
        mask@.len() == graph.spec_edges().len(),
        root@ < graph.spec_node_count(),
    ensures
        r.spec_node_count() == graph.spec_node_count(),
        r.spec_graph_edges() == graph.spec_edges(),
        r.spec_mask() == mask@,
        r.spec_root() == root@,
        is_dominator_tree(graph.spec_node_count(), graph.spec_edges(), mask@, root@, r.spec_order(), r.spec_immediate()),
{
    let n = graph.node_bound();
    let reachable = reverse_postorder(graph, &mask, root.index());
    let immediate = immediate_dominators(graph, &mask, root.index(), &reachable);
    let ghost edges = graph.spec_edges();
    let ghost m = mask@;
    proof {
        let idom = optional_positions(immediate@);
        assert forall|v: int| 0 <= v < n && v != root@ implies (#[trigger] idom[v] is Some <==> reaches(edges, m, root@, v as nat)) by {
            assert(immediate@[v] is Some <==> idom[v] is Some);
        }
        assert forall|v: int| 0 <= v < n && #[trigger] idom[v] is Some implies idom[v]->0 < n
            && is_immediate_dominator(edges, m, root@, idom[v]->0, v as nat) by {
            assert(immediate@[v] is Some);
            assert(idom[v]->0 == immediate@[v]->0@);
        }
        assert(node_positions(reachable@)[0] == root@);
        assert forall|i: int| 0 <= i < node_positions(reachable@).len() implies #[trigger] node_positions(reachable@)[i] < n by {
            assert(reachable@[i]@ < n);
        }
    }
    Dominators { root, reachable, immediate, edges: Ghost(edges), mask: Ghost(m) }
}

/// The dominators of the nodes that `root` reaches along every edge;
/// `None` when `root` is not a node of the graph.
pub fn dominators<G: IndexGraphView>(graph: &G, root: NodeIndex) -> (r: Option<Dominators>)
    ensures
        r is Some <==> root@ < graph.spec_node_count(),
        r matches Some(d) ==> {
            &&& d.spec_node_count() == graph.spec_node_count()
            &&& d.spec_graph_edges() == graph.spec_edges()
            &&& d.spec_mask() == full_mask(graph.spec_edges().len())
            &&& d.spec_root() == root@
            &&& is_dominator_tree(graph.spec_node_count(), graph.spec_edges(), full_mask(graph.spec_edges().len()), root@,
                d.spec_order(), d.spec_immediate())
        },
{
    if !graph.contains_node(root) {
        return None;
    }
    let mask = full_edge_mask(graph);
    Some(dominators_with_mask(graph, mask, root))
}

/// The dominators of the nodes that `root` reaches along the edges that
/// `allows_edge` accepts.
pub fn dominators_filtered<G: IndexGraphView, F: Fn(EdgeIndex) -> bool>(graph: &G, root: NodeIndex, allows_edge: F) -> (r: Option<Dominators>)
    requires
        forall|e: EdgeIndex| allows_edge.requires((e,)),
    ensures
        r is Some <==> root@ < graph.spec_node_count(),
        r matches Some(d) ==> {
            &&& is_edge_mask(allows_edge, graph.spec_edges().len(), d.spec_mask())
            &&& d.spec_node_count() == graph.spec_node_count()
            &&& d.spec_graph_edges() == graph.spec_edges()
            &&& d.spec_root() == root@
            &&& is_dominator_tree(graph.spec_node_count(), graph.spec_edges(), d.spec_mask(), root@, d.spec_order(), d.spec_immediate())
        },
{
    if !graph.contains_node(root) {
        return None;
    }
    let mask = edge_mask(graph, &allows_edge);
    Some(dominators_with_mask(graph, mask, root))
}

} // verus!

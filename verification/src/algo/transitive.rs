//! Transitive reduction and transitive closure of a directed acyclic graph.
use crate::algo::dag::sort_with_mask;
use crate::algo::mask::{edge_mask, full_edge_mask};
use crate::digraph::{
    allowed, full_mask, has_edge, in_list, is_acyclic, is_edge_mask, is_topological_order, is_walk,
    lemma_out_list, lemma_walk_positions, out_list, reaches, valid_model,
};
use crate::index::{EdgeEndpoints, EdgeIndex, NodeIndex};
use crate::reach::{lemma_reaches_refl, lemma_reaches_step, lemma_reaches_trans};
use crate::topology::{edge_positions, endpoint_pairs, node_positions, IndexGraphView};
use vstd::prelude::*;

verus! {

broadcast use {crate::index::group_index_lemmas, crate::digraph::lemma_push_contains};

/// `v` is reached from `u` along at least one allowed edge.
pub open spec fn reaches_plus(edges: Seq<(nat, nat)>, mask: Seq<bool>, u: nat, v: nat) -> bool {
    exists|w: nat| #[trigger] has_edge(edges, mask, u, w) && reaches(edges, mask, w, v)
}

/// The allowed edge `u -> v` is the only way from `u` to `v`: no longer
/// walk joins them.
pub open spec fn in_reduction(edges: Seq<(nat, nat)>, mask: Seq<bool>, u: nat, v: nat) -> bool {
    has_edge(edges, mask, u, v) && !exists|w: nat| #[trigger] has_edge(edges, mask, u, w) && w != v && reaches(edges, mask, w, v)
}

/// `p` comes before `q` when their endpoints are compared by position in
/// `ord`: source first, then target.
pub open spec fn lex_before(ord: Seq<nat>, p: (nat, nat), q: (nat, nat)) -> bool {
    exists|a: int, b: int, c: int, d: int|
        0 <= a < ord.len() && 0 <= b < ord.len() && 0 <= c < ord.len() && 0 <= d < ord.len()
        && #[trigger] ord[a] == p.0 && #[trigger] ord[b] == p.1 && #[trigger] ord[c] == q.0 && #[trigger] ord[d] == q.1
        && (a < c || (a == c && b < d))
}

/// `list` holds exactly the pairs related by `member`, each once, sorted
/// by position in `ord`.
pub open spec fn is_pair_list(ord: Seq<nat>, list: Seq<(nat, nat)>, member: spec_fn(nat, nat) -> bool) -> bool {
    &&& forall|i: int| 0 <= i < list.len() ==> #[trigger] member(list[i].0, list[i].1)
    &&& forall|u: nat, v: nat| #[trigger] member(u, v) ==> list.contains((u, v))
    &&& forall|i: int, j: int| 0 <= i < j < list.len() ==> lex_before(ord, #[trigger] list[i], #[trigger] list[j])
}

/// The transitive reduction and closure of a directed acyclic graph.
#[derive(Debug, Clone, PartialEq, Eq)]
pub struct DagTransitive {
    reduction: Vec<EdgeEndpoints>,
    closure: Vec<EdgeEndpoints>,
}

impl DagTransitive {
    /// The pairs of the reduction.
    pub closed spec fn reduction_pairs(&self) -> Seq<(nat, nat)> {
        endpoint_pairs(self.reduction@)
    }

    /// The pairs of the closure.
    pub closed spec fn closure_pairs(&self) -> Seq<(nat, nat)> {
        endpoint_pairs(self.closure@)
    }

    pub fn reduction_edges(&self) -> (r: &[EdgeEndpoints])
        ensures
            endpoint_pairs(r@) == self.reduction_pairs(),
    {
        self.reduction.as_slice()
    }

    pub fn closure_edges(&self) -> (r: &[EdgeEndpoints])
        ensures
            endpoint_pairs(r@) == self.closure_pairs(),
    {
        self.closure.as_slice()
    }

    pub fn into_parts(self) -> (r: (Vec<EdgeEndpoints>, Vec<EdgeEndpoints>))
        ensures
            endpoint_pairs(r.0@) == self.reduction_pairs(),
            endpoint_pairs(r.1@) == self.closure_pairs(),
    {
        (self.reduction, self.closure)
    }
}

/// The reduction and closure of the allowed edges, listed by the
/// positions of some topological order.
pub open spec fn is_transitive_of(
    node_count: nat,
    edges: Seq<(nat, nat)>,
    mask: Seq<bool>,
    reduction: Seq<(nat, nat)>,
    closure: Seq<(nat, nat)>,
) -> bool {
    exists|ord: Seq<nat>| {
        &&& is_topological_order(node_count, edges, mask, ord)
        &&& is_pair_list(ord, reduction, |u: nat, v: nat| in_reduction(edges, mask, u, v))
        &&& is_pair_list(ord, closure, |u: nat, v: nat| reaches_plus(edges, mask, u, v))
    }
}

/// A walk between distinct nodes starts with an edge.
proof fn lemma_reaches_distinct(edges: Seq<(nat, nat)>, mask: Seq<bool>, u: nat, v: nat)
    requires
        reaches(edges, mask, u, v),
        u != v,
    ensures
        reaches_plus(edges, mask, u, v),
{
    let p = choose|p: Seq<nat>| #[trigger] is_walk(edges, mask, p) && p[0] == u && p[p.len() - 1] == v;
    assert(p.len() >= 2);
    assert(has_edge(edges, mask, p[0], p[0int + 1]));
    let q = p.subrange(1, p.len() as int);
    assert forall|i: int| 0 <= i < q.len() - 1 implies #[trigger] has_edge(edges, mask, q[i], q[i + 1]) by {
        assert(q[i] == p[i + 1] && q[i + 1] == p[(i + 1) + 1]);
        assert(has_edge(edges, mask, p[i + 1], p[(i + 1) + 1]));
    }
    assert(is_walk(edges, mask, q));
    assert(has_edge(edges, mask, u, p[1]) && reaches(edges, mask, p[1], v));
}

/// A walk of at least one edge is a walk.
proof fn lemma_plus_reaches(edges: Seq<(nat, nat)>, mask: Seq<bool>, u: nat, v: nat)
    requires
        reaches_plus(edges, mask, u, v),
    ensures
        reaches(edges, mask, u, v),
{
    let w = choose|w: nat| #[trigger] has_edge(edges, mask, u, w) && reaches(edges, mask, w, v);
    lemma_reaches_refl(edges, mask, u);
    lemma_reaches_step(edges, mask, u, u, w);
    lemma_reaches_trans(edges, mask, u, w, v);
}

/// Along a topological order, a walk between distinct nodes moves forward.
proof fn lemma_forward(n: nat, edges: Seq<(nat, nat)>, mask: Seq<bool>, ord: Seq<nat>, a: int, b: int)
    requires
        is_topological_order(n, edges, mask, ord),
        0 <= a < ord.len(),
        0 <= b < ord.len(),
        a != b,
        reaches(edges, mask, ord[a], ord[b]),
    ensures
        a < b,
{
    let p = choose|p: Seq<nat>| #[trigger] is_walk(edges, mask, p) && p[0] == ord[a] && p[p.len() - 1] == ord[b];
    assert(ord.no_duplicates());
    assert(p.len() >= 2);
    lemma_walk_positions(n, edges, mask, ord, p, (p.len() - 1) as nat);
    let q = choose|q: int| 0 <= q < ord.len() && ord[q] == p[(p.len() - 1) as int] && q >= a + (p.len() - 1);
}

/// Facts about the order and its inverse shared by the loops below.
spec fn order_facts(n: nat, edges: Seq<(nat, nat)>, mask: Seq<bool>, ord: Seq<nat>, pos: Seq<usize>) -> bool {
    &&& valid_model(n, edges)
    &&& mask.len() == edges.len()
    &&& is_topological_order(n, edges, mask, ord)
    &&& ord.len() == n
    &&& pos.len() == n
    &&& forall|i: int| 0 <= i < n ==> #[trigger] pos[ord[i] as int] == i
    &&& forall|v: int| 0 <= v < n ==> #[trigger] ord[pos[v] as int] == v && pos[v] < n
}

/// Row `w` of `rows` lists exactly the positions reached from position `w`.
spec fn row_ok(edges: Seq<(nat, nat)>, mask: Seq<bool>, ord: Seq<nat>, rows: Seq<Vec<bool>>, w: int) -> bool {
    &&& rows[w]@.len() == ord.len()
    &&& forall|x: int| 0 <= x < ord.len() ==> (#[trigger] rows[w]@[x] <==> reaches_plus(edges, mask, ord[w], ord[x]))
}

/// The positions reached from `ord[s]`, and the positions of its reduction
/// edges in increasing order, given the rows of all later positions.
fn closure_row<G: IndexGraphView>(
    graph: &G,
    mask: &Vec<bool>,
    order: &Vec<NodeIndex>,
    pos: &Vec<usize>,
    rows: &Vec<Vec<bool>>,
    s: usize,
) -> (r: (Vec<bool>, Vec<usize>))
    requires
        mask@.len() == graph.spec_edges().len(),
        order_facts(graph.spec_node_count(), graph.spec_edges(), mask@, node_positions(order@), pos@),
        s < order@.len(),
        rows@.len() == order@.len(),
        forall|w: int| s < w < order@.len() ==> #[trigger] row_ok(graph.spec_edges(), mask@, node_positions(order@), rows@, w),
    ensures
        row_ok(graph.spec_edges(), mask@, node_positions(order@), rows@.update(s as int, r.0), s as int),
        forall|i: int, j: int| 0 <= i < j < r.1@.len() ==> r.1@[i] < r.1@[j],
        forall|i: int| 0 <= i < r.1@.len() ==> #[trigger] r.1@[i] < order@.len()
            && in_reduction(graph.spec_edges(), mask@, node_positions(order@)[s as int], node_positions(order@)[r.1@[i] as int]),
        forall|t: int| 0 <= t < order@.len()
            && #[trigger] in_reduction(graph.spec_edges(), mask@, node_positions(order@)[s as int], node_positions(order@)[t])
            ==> r.1@.contains(t as usize),
{
    let n = order.len();
    let ghost edges = graph.spec_edges();
    let ghost m = mask@;
    let ghost ord = node_positions(order@);
    let u = order[s];
    proof {
        assert(ord[s as int] == u@);
        lemma_out_list(edges, u@);
    }
    let mut direct: Vec<bool> = Vec::new();
    let mut i: usize = 0;
    while i < n
        invariant
            i <= n,
            direct@.len() == i,
            forall|t: int| 0 <= t < i ==> !(#[trigger] direct@[t]),
        decreases n - i,
    {
        direct.push(false);
        i = i + 1;
    }
    let out = graph.outgoing_edges(u);
    let mut k: usize = 0;
    while k < out.len()
        invariant
            n == order@.len(),
            ord == node_positions(order@),
            edges == graph.spec_edges(),
            m == mask@,
            order_facts(graph.spec_node_count(), edges, m, ord, pos@),
            u@ == ord[s as int],
            edge_positions(out@) == out_list(edges, u@),
            k <= out@.len(),
            direct@.len() == n,
            forall|t: int| 0 <= t < n ==> (#[trigger] direct@[t] <==> exists|j: int| 0 <= j < k
                && #[trigger] allowed(edges, m, out@[j]@ as int) && edges[out@[j]@ as int].1 == ord[t]),
        decreases out@.len() - k,
    {
        let e = out[k];
        proof {
            lemma_out_list(edges, u@);
            assert(edge_positions(out@)[k as int] == out@[k as int]@);
        }
        if mask[e.index()] {
            let ends = graph.edge_endpoints(e).unwrap();
            let w = ends.target();
            proof {
                assert(edges[e@ as int].1 < graph.spec_node_count());
            }
            let p = pos[w.index()];
            proof {
                assert(ord[pos@[w@ as int] as int] == w@);
            }
            let ghost before = direct@;
            direct.set(p, true);
            proof {
                assert(allowed(edges, m, e@ as int));
                assert(ord[p as int] == w@);
                assert forall|t: int| 0 <= t < n implies (#[trigger] direct@[t] <==> exists|j: int| 0 <= j < k + 1
                    && #[trigger] allowed(edges, m, out@[j]@ as int) && edges[out@[j]@ as int].1 == ord[t]) by {
                    if t == p {
                        assert(allowed(edges, m, out@[k as int]@ as int));
                    } else if direct@[t] {
                        assert(before[t]);
                    } else if exists|j: int| 0 <= j < k + 1 && #[trigger] allowed(edges, m, out@[j]@ as int) && edges[out@[j]@ as int].1 == ord[t] {
                        let j = choose|j: int| 0 <= j < k + 1 && #[trigger] allowed(edges, m, out@[j]@ as int) && edges[out@[j]@ as int].1 == ord[t];
                        if j == k {
                            assert(ord[t] == ord[p as int]);
                            assert(pos@[ord[t] as int] == t);
                        }
                    }
                }
            }
        } else {
            proof {
                assert forall|t: int| 0 <= t < n implies (#[trigger] direct@[t] <==> exists|j: int| 0 <= j < k + 1
                    && #[trigger] allowed(edges, m, out@[j]@ as int) && edges[out@[j]@ as int].1 == ord[t]) by {
                    if exists|j: int| 0 <= j < k + 1 && #[trigger] allowed(edges, m, out@[j]@ as int) && edges[out@[j]@ as int].1 == ord[t] {
                        let j = choose|j: int| 0 <= j < k + 1 && #[trigger] allowed(edges, m, out@[j]@ as int) && edges[out@[j]@ as int].1 == ord[t];
                        assert(j != k);
                    }
                }
            }
        }
        k = k + 1;
    }
    proof {
        assert forall|t: int| 0 <= t < n implies (#[trigger] direct@[t] <==> has_edge(edges, m, ord[s as int], ord[t])) by {
            if direct@[t] {
                let j = choose|j: int| 0 <= j < out@.len() && #[trigger] allowed(edges, m, out@[j]@ as int) && edges[out@[j]@ as int].1 == ord[t];
                assert(edge_positions(out@)[j] == out@[j]@);
                assert(edges[out@[j]@ as int].0 == u@);
            }
            if has_edge(edges, m, ord[s as int], ord[t]) {
                let e = choose|e: int| #[trigger] allowed(edges, m, e) && edges[e].0 == ord[s as int] && edges[e].1 == ord[t];
                assert(out_list(edges, u@).contains(e as nat));
                let j = choose|j: int| 0 <= j < out@.len() && edge_positions(out@)[j] == e as nat;
                assert(edge_positions(out@)[j] == out@[j]@);
                assert(allowed(edges, m, out@[j]@ as int));
            }
        }
    }
    let mut row: Vec<bool> = Vec::new();
    let mut i: usize = 0;
    while i < n
        invariant
            i <= n,
            row@.len() == i,
            forall|t: int| 0 <= t < i ==> !(#[trigger] row@[t]),
        decreases n - i,
    {
        row.push(false);
        i = i + 1;
    }
    let mut red: Vec<usize> = Vec::new();
    let mut t: usize = 0;
    while t < n
        invariant
            n == order@.len(),
            ord == node_positions(order@),
            edges == graph.spec_edges(),
            m == mask@,
            order_facts(graph.spec_node_count(), edges, m, ord, pos@),
            s < n,
            rows@.len() == n,
            forall|w: int| s < w < n ==> #[trigger] row_ok(edges, m, ord, rows@, w),
            direct@.len() == n,
            forall|t2: int| 0 <= t2 < n ==> (#[trigger] direct@[t2] <==> has_edge(edges, m, ord[s as int], ord[t2])),
            t <= n,
            row@.len() == n,
            forall|x: int| 0 <= x < n ==> (#[trigger] row@[x] <==> exists|w: int| 0 <= w < t && #[trigger] direct@[w]
                && (x == w || rows@[w]@[x])),
            forall|i: int, j: int| 0 <= i < j < red@.len() ==> red@[i] < red@[j],
            forall|i: int| 0 <= i < red@.len() ==> #[trigger] red@[i] < t && direct@[red@[i] as int]
                && !row_before(direct@, rows@, red@[i] as int),
            forall|w: int| 0 <= w < t && #[trigger] direct@[w] && !row_before(direct@, rows@, w) ==> red@.contains(w as usize),
        decreases n - t,
    {
        if direct[t] && !row[t] {
            proof {
                assert(has_edge(edges, m, ord[s as int], ord[t as int]));
                let e = choose|e: int| #[trigger] allowed(edges, m, e) && edges[e].0 == ord[s as int] && edges[e].1 == ord[t as int];
                assert(s < t) by {
                    assert(ord.no_duplicates());
                    let (a, b) = choose|a: int, b: int| 0 <= a < b < ord.len() && ord[a] == edges[e].0 && ord[b] == edges[e].1;
                }
                assert(row_ok(edges, m, ord, rows@, t as int));
                assert(!row_before(direct@, rows@, t as int)) by {
                    if row_before(direct@, rows@, t as int) {
                        let w = choose|w: int| 0 <= w < t && #[trigger] direct@[w] && rows@[w]@[t as int];
                        assert(row@[t as int]);
                    }
                }
            }
            let ghost before_row = row@;
            let ghost before_red = red@;
            red.push(t);
            row.set(t, true);
            let target_row = &rows[t];
            let mut x: usize = 0;
            while x < n
                invariant
                    n == order@.len(),
                    t < n,
                    target_row@.len() == n,
                    row@.len() == n,
                    before_row.len() == n,
                    row@[t as int],
                    forall|y: int| 0 <= y < n ==> (#[trigger] row@[y] <==> (before_row[y] || y == t || (y < x && target_row@[y]))),
                    x <= n,
                decreases n - x,
            {
                if target_row[x] {
                    row.set(x, true);
                }
                x = x + 1;
            }
            proof {
                assert forall|y: int| 0 <= y < n implies (#[trigger] row@[y] <==> exists|w: int| 0 <= w < t + 1 && #[trigger] direct@[w]
                    && (y == w || rows@[w]@[y])) by {
                    if before_row[y] {
                        let w = choose|w: int| 0 <= w < t && #[trigger] direct@[w] && (y == w || rows@[w]@[y]);
                    }
                    if exists|w: int| 0 <= w < t + 1 && #[trigger] direct@[w] && (y == w || rows@[w]@[y]) {
                        let w = choose|w: int| 0 <= w < t + 1 && #[trigger] direct@[w] && (y == w || rows@[w]@[y]);
                        if w < t {
                            assert(before_row[y]);
                        }
                    }
                }
                assert forall|w: int| 0 <= w < t + 1 && #[trigger] direct@[w] && !row_before(direct@, rows@, w) implies
                    red@.contains(w as usize) by {
                    if w == t {
                        assert(red@[red@.len() - 1] == t);
                    } else {
                        assert(before_red.contains(w as usize));
                        assert(red@ == before_red.push(t));
                    }
                }
            }
        } else {
            proof {
                if direct@[t as int] {
                    // t is already reached through an earlier successor w, so
                    // everything t reaches is reached through w as well.
                    let w = choose|w: int| 0 <= w < t && #[trigger] direct@[w] && (t == w || rows@[w]@[t as int]);
                    assert(has_edge(edges, m, ord[s as int], ord[t as int]));
                    let e = choose|e: int| #[trigger] allowed(edges, m, e) && edges[e].0 == ord[s as int] && edges[e].1 == ord[t as int];
                    assert(s < t) by {
                        assert(ord.no_duplicates());
                        let (a, b) = choose|a: int, b: int| 0 <= a < b < ord.len() && ord[a] == edges[e].0 && ord[b] == edges[e].1;
                    }
                    assert(has_edge(edges, m, ord[s as int], ord[w]));
                    let e2 = choose|e: int| #[trigger] allowed(edges, m, e) && edges[e].0 == ord[s as int] && edges[e].1 == ord[w];
                    assert(s < w) by {
                        assert(ord.no_duplicates());
                        let (a, b) = choose|a: int, b: int| 0 <= a < b < ord.len() && ord[a] == edges[e2].0 && ord[b] == edges[e2].1;
                    }
                    assert(row_ok(edges, m, ord, rows@, w));
                    assert(row_ok(edges, m, ord, rows@, t as int));
                    assert(reaches_plus(edges, m, ord[w], ord[t as int]));
                    assert forall|y: int| 0 <= y < n && rows@[t as int]@[y] implies rows@[w]@[y] by {
                        assert(reaches_plus(edges, m, ord[t as int], ord[y]));
                        lemma_plus_reaches(edges, m, ord[t as int], ord[y]);
                        let z = choose|z: nat| #[trigger] has_edge(edges, m, ord[w], z) && reaches(edges, m, z, ord[t as int]);
                        lemma_reaches_trans(edges, m, z, ord[t as int], ord[y]);
                    }
                }
                assert forall|y: int| 0 <= y < n implies (#[trigger] row@[y] <==> exists|w: int| 0 <= w < t + 1 && #[trigger] direct@[w]
                    && (y == w || rows@[w]@[y])) by {
                    if exists|w: int| 0 <= w < t + 1 && #[trigger] direct@[w] && (y == w || rows@[w]@[y]) {
                        let w = choose|w: int| 0 <= w < t + 1 && #[trigger] direct@[w] && (y == w || rows@[w]@[y]);
                        if w == t {
                            let w2 = choose|w2: int| 0 <= w2 < t && #[trigger] direct@[w2] && (t == w2 || rows@[w2]@[t as int]);
                            if y != t {
                                assert(rows@[w2]@[y]);
                            }
                        }
                    }
                }
                assert forall|w: int| 0 <= w < t + 1 && #[trigger] direct@[w] && !row_before(direct@, rows@, w) implies
                    red@.contains(w as usize) by {
                    if w == t {
                        let w2 = choose|w2: int| 0 <= w2 < t && #[trigger] direct@[w2] && (t == w2 || rows@[w2]@[t as int]);
                        assert(row_before(direct@, rows@, w));
                    }
                }
            }
        }
        t = t + 1;
    }
    proof {
        let rs = rows@.update(s as int, row);
        assert forall|x: int| 0 <= x < n implies (#[trigger] rs[s as int]@[x] <==> reaches_plus(edges, m, ord[s as int], ord[x])) by {
            assert(rs[s as int] == row);
            if row@[x] {
                let w = choose|w: int| 0 <= w < n && #[trigger] direct@[w] && (x == w || rows@[w]@[x]);
                assert(has_edge(edges, m, ord[s as int], ord[w]));
                if x == w {
                    lemma_reaches_refl(edges, m, ord[x]);
                } else {
                    let e = choose|e: int| #[trigger] allowed(edges, m, e) && edges[e].0 == ord[s as int] && edges[e].1 == ord[w];
                    assert(s < w) by {
                        assert(ord.no_duplicates());
                        let (a, b) = choose|a: int, b: int| 0 <= a < b < ord.len() && ord[a] == edges[e].0 && ord[b] == edges[e].1;
                    }
                    assert(row_ok(edges, m, ord, rows@, w));
                    lemma_plus_reaches(edges, m, ord[w], ord[x]);
                }
            }
            if reaches_plus(edges, m, ord[s as int], ord[x]) {
                let y = choose|y: nat| #[trigger] has_edge(edges, m, ord[s as int], y) && reaches(edges, m, y, ord[x]);
                let e = choose|e: int| #[trigger] allowed(edges, m, e) && edges[e].0 == ord[s as int] && edges[e].1 == y;
                assert(y < graph.spec_node_count());
                let w = pos@[y as int] as int;
                assert(ord[w] == y);
                assert(direct@[w]);
                if y != ord[x] {
                    lemma_reaches_distinct(edges, m, y, ord[x]);
                    assert(s < w) by {
                        assert(ord.no_duplicates());
                        let (a, b) = choose|a: int, b: int| 0 <= a < b < ord.len() && ord[a] == edges[e].0 && ord[b] == edges[e].1;
                    }
                    assert(row_ok(edges, m, ord, rows@, w));
                    assert(rows@[w]@[x]);
                } else {
                    assert(pos@[ord[x] as int] == x);
                }
            }
        }
        assert forall|i: int| 0 <= i < red@.len() implies #[trigger] red@[i] < order@.len()
            && in_reduction(edges, m, ord[s as int], ord[red@[i] as int]) by {
            let t2 = red@[i] as int;
            assert(direct@[t2] && !row_before(direct@, rows@, t2));
            if exists|w: nat| #[trigger] has_edge(edges, m, ord[s as int], w) && w != ord[t2] && reaches(edges, m, w, ord[t2]) {
                let w = choose|w: nat| #[trigger] has_edge(edges, m, ord[s as int], w) && w != ord[t2] && reaches(edges, m, w, ord[t2]);
                let e = choose|e: int| #[trigger] allowed(edges, m, e) && edges[e].0 == ord[s as int] && edges[e].1 == w;
                assert(w < graph.spec_node_count());
                let wp = pos@[w as int] as int;
                assert(ord[wp] == w);
                assert(direct@[wp]);
                assert(s < wp) by {
                    assert(ord.no_duplicates());
                    let (a, b) = choose|a: int, b: int| 0 <= a < b < ord.len() && ord[a] == edges[e].0 && ord[b] == edges[e].1;
                }
                lemma_forward(graph.spec_node_count(), edges, m, ord, wp, t2);
                lemma_reaches_distinct(edges, m, w, ord[t2]);
                assert(row_ok(edges, m, ord, rows@, wp));
                assert(rows@[wp]@[t2]);
                assert(row_before(direct@, rows@, t2));
            }
        }
        assert forall|t2: int| 0 <= t2 < order@.len() && #[trigger] in_reduction(edges, m, ord[s as int], ord[t2]) implies
            red@.contains(t2 as usize) by {
            assert(direct@[t2]);
            if row_before(direct@, rows@, t2) {
                let w = choose|w: int| 0 <= w < t2 && #[trigger] direct@[w] && rows@[w]@[t2];
                assert(has_edge(edges, m, ord[s as int], ord[w]));
                let e = choose|e: int| #[trigger] allowed(edges, m, e) && edges[e].0 == ord[s as int] && edges[e].1 == ord[w];
                assert(s < w) by {
                    assert(ord.no_duplicates());
                    let (a, b) = choose|a: int, b: int| 0 <= a < b < ord.len() && ord[a] == edges[e].0 && ord[b] == edges[e].1;
                }
                assert(row_ok(edges, m, ord, rows@, w));
                lemma_plus_reaches(edges, m, ord[w], ord[t2]);
                assert(ord.no_duplicates());
                assert(ord[w] != ord[t2]);
            }
        }
    }
    (row, red)
}

/// Position `t` is already reached through a direct successor before it.
spec fn row_before(direct: Seq<bool>, rows: Seq<Vec<bool>>, t: int) -> bool {
    exists|w: int| 0 <= w < t && #[trigger] direct[w] && rows[w]@[t]
}

/// Lexicographic order of position pairs.
spec fn lex_lt(p: (int, int), q: (int, int)) -> bool {
    p.0 < q.0 || (p.0 == q.0 && p.1 < q.1)
}

/// `list` names the pairs of positions `places` through `ord`, in strictly
/// increasing order.
spec fn listed_by(ord: Seq<nat>, list: Seq<(nat, nat)>, places: Seq<(int, int)>) -> bool {
    &&& list.len() == places.len()
    &&& forall|i: int| 0 <= i < places.len() ==> 0 <= (#[trigger] places[i]).0 < ord.len() && 0 <= places[i].1 < ord.len()
        && list[i] == (ord[places[i].0], ord[places[i].1])
    &&& forall|i: int, j: int| 0 <= i < j < places.len() ==> lex_lt(#[trigger] places[i], #[trigger] places[j])
}

proof fn lemma_listed_sorted(ord: Seq<nat>, list: Seq<(nat, nat)>, places: Seq<(int, int)>)
    requires
        listed_by(ord, list, places),
    ensures
        forall|i: int, j: int| 0 <= i < j < list.len() ==> lex_before(ord, #[trigger] list[i], #[trigger] list[j]),
{
    assert forall|i: int, j: int| 0 <= i < j < list.len() implies lex_before(ord, #[trigger] list[i], #[trigger] list[j]) by {
        let p = places[i];
        let q = places[j];
        assert(lex_lt(p, q));
        assert(ord[p.0] == list[i].0 && ord[p.1] == list[i].1 && ord[q.0] == list[j].0 && ord[q.1] == list[j].1);
    }
}

/// The reduction and closure of the edges that `mask` allows, or `None`
/// when they form a cycle.
fn transitive_with_mask<G: IndexGraphView>(graph: &G, mask: &Vec<bool>) -> (r: Option<DagTransitive>)
    requires
        mask@.len() == graph.spec_edges().len(),
    ensures
        r is Some <==> is_acyclic(graph.spec_node_count(), graph.spec_edges(), mask@),
        r matches Some(t) ==> is_transitive_of(graph.spec_node_count(), graph.spec_edges(), mask@, t.reduction_pairs(), t.closure_pairs()),
{
    let order = match sort_with_mask(graph, mask) {
        Some(order) => order,
        None => return None,
    };
    let ghost edges = graph.spec_edges();
    let ghost m = mask@;
    let ghost nn = graph.spec_node_count();
    let ghost ord = node_positions(order@);
    let n = order.len();
    proof {
        assert(ord.len() == n);
        crate::digraph::lemma_distinct_below(ord, nn);
        let _ = graph.spec_node_count();
    }
    let count = graph.node_count();
    let mut pos: Vec<usize> = Vec::new();
    let mut i: usize = 0;
    while i < n
        invariant
            i <= n,
            pos@.len() == i,
        decreases n - i,
    {
        pos.push(0);
        i = i + 1;
    }
    let mut i: usize = 0;
    while i < n
        invariant
            n == order@.len(),
            ord == node_positions(order@),
            is_topological_order(nn, edges, m, ord),
            ord.len() == nn,
            i <= n,
            pos@.len() == n,
            forall|j: int| 0 <= j < i ==> #[trigger] pos@[ord[j] as int] == j,
        decreases n - i,
    {
        let v = order[i];
        proof {
            assert(ord[i as int] == v@);
            assert(v@ < nn);
        }
        let ghost before = pos@;
        pos.set(v.index(), i);
        proof {
            assert(ord.no_duplicates());
            assert forall|j: int| 0 <= j < i + 1 implies #[trigger] pos@[ord[j] as int] == j by {
                if j < i {
                    assert(ord[j] != ord[i as int]);
                    assert(before[ord[j] as int] == j);
                }
            }
        }
        i = i + 1;
    }
    proof {
        assert forall|v: int| 0 <= v < nn implies #[trigger] ord[pos@[v] as int] == v && pos@[v] < nn by {
            assert(ord.contains(v as nat));
            let j = choose|j: int| 0 <= j < ord.len() && ord[j] == v as nat;
            assert(pos@[ord[j] as int] == j);
        }
        assert(order_facts(nn, edges, m, ord, pos@));
    }
    let mut rows: Vec<Vec<bool>> = Vec::new();
    let mut reds: Vec<Vec<usize>> = Vec::new();
    let mut i: usize = 0;
    while i < n
        invariant
            i <= n,
            rows@.len() == i,
            reds@.len() == i,
        decreases n - i,
    {
        rows.push(Vec::new());
        reds.push(Vec::new());
        i = i + 1;
    }
    let mut s: usize = n;
    while s > 0
        invariant
            n == order@.len(),
            ord == node_positions(order@),
            edges == graph.spec_edges(),
            m == mask@,
            m.len() == edges.len(),
            order_facts(nn, edges, m, ord, pos@),
            nn == graph.spec_node_count(),
            s <= n,
            rows@.len() == n,
            reds@.len() == n,
            forall|w: int| s <= w < n ==> #[trigger] row_ok(edges, m, ord, rows@, w),
            forall|w: int| s <= w < n ==> red_ok(edges, m, ord, #[trigger] reds@[w]@, w),
        decreases s,
    {
        s = s - 1;
        let (row, red) = closure_row(graph, mask, &order, &pos, &rows, s);
        let ghost before = rows@;
        rows.set(s, row);
        reds.set(s, red);
        proof {
            assert(rows@ == before.update(s as int, row));
            assert forall|w: int| s <= w < n implies #[trigger] row_ok(edges, m, ord, rows@, w) by {
                if w != s {
                    assert(row_ok(edges, m, ord, before, w));
                    assert(rows@[w] == before[w]);
                }
            }
            assert(reds@[s as int]@ == red@);
            assert(red_ok(edges, m, ord, red@, s as int));
        }
    }
    let mut reduction: Vec<EdgeEndpoints> = Vec::new();
    let ghost mut places: Seq<(int, int)> = Seq::empty();
    let mut s: usize = 0;
    while s < n
        invariant
            n == order@.len(),
            ord == node_positions(order@),
            edges == graph.spec_edges(),
            m == mask@,
            order_facts(nn, edges, m, ord, pos@),
            s <= n,
            reds@.len() == n,
            forall|w: int| 0 <= w < n ==> red_ok(edges, m, ord, #[trigger] reds@[w]@, w),
            listed_by(ord, endpoint_pairs(reduction@), places),
            forall|i: int| 0 <= i < places.len() ==> (#[trigger] places[i]).0 < s && reds@[places[i].0]@.contains(places[i].1 as usize),
            forall|w: int, t: int| 0 <= w < s && 0 <= t < n && #[trigger] reds@[w]@.contains(t as usize) ==> places.contains((w, t)),
        decreases n - s,
    {
        let red = &reds[s];
        let mut k: usize = 0;
        while k < red.len()
            invariant
                n == order@.len(),
                ord == node_positions(order@),
                order_facts(nn, edges, m, ord, pos@),
                s < n,
                red@ == reds@[s as int]@,
                red_ok(edges, m, ord, red@, s as int),
                k <= red@.len(),
                listed_by(ord, endpoint_pairs(reduction@), places),
                forall|i: int| 0 <= i < places.len() ==> (#[trigger] places[i]).0 < s + 1 && reds@[places[i].0]@.contains(places[i].1 as usize),
                forall|i: int| 0 <= i < places.len() && (#[trigger] places[i]).0 == s ==> k > 0 && places[i].1 <= red@[k as int - 1],
                forall|w: int, t: int| 0 <= w < s && 0 <= t < n && #[trigger] reds@[w]@.contains(t as usize) ==> places.contains((w, t)),
                forall|j: int| 0 <= j < k ==> places.contains((s as int, #[trigger] red@[j] as int)),
            decreases red@.len() - k,
        {
            let t = red[k];
            let a = order[s];
            let b = order[t];
            let ghost old_places = places;
            let ghost old_list = endpoint_pairs(reduction@);
            reduction.push(EdgeEndpoints::new(a, b));
            proof {
                places = places.push((s as int, t as int));
                assert(ord[s as int] == a@ && ord[t as int] == b@);
                assert(endpoint_pairs(reduction@) =~= old_list.push((a@, b@)));
                assert(red@.contains(t));
                assert forall|i: int, j: int| 0 <= i < j < places.len() implies lex_lt(#[trigger] places[i], #[trigger] places[j]) by {
                    if j == places.len() - 1 && i < old_places.len() {
                        assert(places[i] == old_places[i]);
                        if old_places[i].0 == s {
                            assert(old_places[i].1 <= red@[k as int - 1]);
                            assert(red@[k as int - 1] < red@[k as int]);
                        }
                    }
                }
                assert forall|i: int| 0 <= i < places.len() && (#[trigger] places[i]).0 == s implies k + 1 > 0 && places[i].1 <= red@[k as int + 1 - 1] by {
                    if i < old_places.len() {
                        assert(places[i] == old_places[i]);
                        assert(old_places[i].1 <= red@[k as int - 1]);
                        assert(red@[k as int - 1] < red@[k as int]);
                    }
                }
                assert forall|w: int, t2: int| 0 <= w < s && 0 <= t2 < n && #[trigger] reds@[w]@.contains(t2 as usize) implies places.contains((w, t2)) by {
                    assert(old_places.contains((w, t2)));
                }
                assert forall|j: int| 0 <= j < k + 1 implies places.contains((s as int, #[trigger] red@[j] as int)) by {
                    if j < k {
                        assert(old_places.contains((s as int, red@[j] as int)));
                    } else {
                        assert(places[places.len() - 1] == (s as int, t as int));
                    }
                }
            }
            k = k + 1;
        }
        proof {
            assert forall|w: int, t: int| 0 <= w < s + 1 && 0 <= t < n && #[trigger] reds@[w]@.contains(t as usize) implies places.contains((w, t)) by {
                if w == s {
                    let j = choose|j: int| 0 <= j < red@.len() && red@[j] == t as usize;
                    assert(places.contains((s as int, red@[j] as int)));
                }
            }
        }
        s = s + 1;
    }
    let mut closure: Vec<EdgeEndpoints> = Vec::new();
    let ghost mut cplaces: Seq<(int, int)> = Seq::empty();
    let mut s: usize = 0;
    while s < n
        invariant
            n == order@.len(),
            ord == node_positions(order@),
            edges == graph.spec_edges(),
            m == mask@,
            order_facts(nn, edges, m, ord, pos@),
            s <= n,
            rows@.len() == n,
            forall|w: int| 0 <= w < n ==> #[trigger] row_ok(edges, m, ord, rows@, w),
            listed_by(ord, endpoint_pairs(closure@), cplaces),
            forall|i: int| 0 <= i < cplaces.len() ==> (#[trigger] cplaces[i]).0 < s && rows@[cplaces[i].0]@[cplaces[i].1],
            forall|w: int, t: int| 0 <= w < s && 0 <= t < n && #[trigger] rows@[w]@[t] ==> cplaces.contains((w, t)),
        decreases n - s,
    {
        let row = &rows[s];
        proof {
            assert(row_ok(edges, m, ord, rows@, s as int));
        }
        let mut t: usize = 0;
        while t < n
            invariant
                n == order@.len(),
                ord == node_positions(order@),
                s < n,
                rows@.len() == n,
                row@ == rows@[s as int]@,
                row@.len() == n,
                t <= n,
                listed_by(ord, endpoint_pairs(closure@), cplaces),
                forall|i: int| 0 <= i < cplaces.len() ==> (#[trigger] cplaces[i]).0 < s + 1 && rows@[cplaces[i].0]@[cplaces[i].1],
                forall|i: int| 0 <= i < cplaces.len() && (#[trigger] cplaces[i]).0 == s ==> cplaces[i].1 < t,
                forall|w: int, t2: int| 0 <= w < s && 0 <= t2 < n && #[trigger] rows@[w]@[t2] ==> cplaces.contains((w, t2)),
                forall|t2: int| 0 <= t2 < t && #[trigger] row@[t2] ==> cplaces.contains((s as int, t2)),
            decreases n - t,
        {
            if row[t] {
                let a = order[s];
                let b = order[t];
                let ghost old_places = cplaces;
                let ghost old_list = endpoint_pairs(closure@);
                closure.push(EdgeEndpoints::new(a, b));
                proof {
                    cplaces = cplaces.push((s as int, t as int));
                    assert(ord[s as int] == a@ && ord[t as int] == b@);
                    assert(endpoint_pairs(closure@) =~= old_list.push((a@, b@)));
                    assert forall|i: int, j: int| 0 <= i < j < cplaces.len() implies lex_lt(#[trigger] cplaces[i], #[trigger] cplaces[j]) by {
                        if j == cplaces.len() - 1 && i < old_places.len() {
                            assert(cplaces[i] == old_places[i]);
                        }
                    }
                    assert forall|w: int, t2: int| 0 <= w < s && 0 <= t2 < n && #[trigger] rows@[w]@[t2] implies cplaces.contains((w, t2)) by {
                        assert(old_places.contains((w, t2)));
                    }
                    assert forall|t2: int| 0 <= t2 < t + 1 && #[trigger] row@[t2] implies cplaces.contains((s as int, t2)) by {
                        if t2 < t {
                            assert(old_places.contains((s as int, t2)));
                        } else {
                            assert(cplaces[cplaces.len() - 1] == (s as int, t as int));
                        }
                    }
                }
            }
            t = t + 1;
        }
        s = s + 1;
    }
    proof {
        let rlist = endpoint_pairs(reduction@);
        let clist = endpoint_pairs(closure@);
        lemma_listed_sorted(ord, rlist, places);
        lemma_listed_sorted(ord, clist, cplaces);
        let rmember = |u: nat, v: nat| in_reduction(edges, m, u, v);
        let cmember = |u: nat, v: nat| reaches_plus(edges, m, u, v);
        assert forall|i: int| 0 <= i < rlist.len() implies #[trigger] rmember(rlist[i].0, rlist[i].1) by {
            let p = places[i];
            assert(red_ok(edges, m, ord, reds@[p.0]@, p.0));
            let j = choose|j: int| 0 <= j < reds@[p.0]@.len() && reds@[p.0]@[j] == p.1 as usize;
        }
        assert forall|u: nat, v: nat| #[trigger] rmember(u, v) implies rlist.contains((u, v)) by {
            let e = choose|e: int| #[trigger] allowed(edges, m, e) && edges[e].0 == u && edges[e].1 == v;
            assert(u < nn && v < nn);
            let a = pos@[u as int] as int;
            let b = pos@[v as int] as int;
            assert(ord[a] == u && ord[b] == v);
            assert(red_ok(edges, m, ord, reds@[a]@, a));
            assert(reds@[a]@.contains(b as usize));
            assert(places.contains((a, b)));
            let i = choose|i: int| 0 <= i < places.len() && places[i] == (a, b);
            assert(rlist[i] == (u, v));
        }
        assert forall|i: int| 0 <= i < clist.len() implies #[trigger] cmember(clist[i].0, clist[i].1) by {
            let p = cplaces[i];
            assert(row_ok(edges, m, ord, rows@, p.0));
        }
        assert forall|u: nat, v: nat| #[trigger] cmember(u, v) implies clist.contains((u, v)) by {
            let w = choose|w: nat| #[trigger] has_edge(edges, m, u, w) && reaches(edges, m, w, v);
            let e = choose|e: int| #[trigger] allowed(edges, m, e) && edges[e].0 == u && edges[e].1 == w;
            assert(u < nn);
            lemma_plus_reaches(edges, m, u, v);
            assert(v < nn) by {
                let p = choose|p: Seq<nat>| #[trigger] is_walk(edges, m, p) && p[0] == u && p[p.len() - 1] == v;
                if p.len() >= 2 {
                    assert(has_edge(edges, m, p[p.len() - 2], p[(p.len() - 2) + 1]));
                    let f = choose|f: int| #[trigger] allowed(edges, m, f) && edges[f].0 == p[p.len() - 2] && edges[f].1 == p[(p.len() - 2) + 1];
                }
            }
            let a = pos@[u as int] as int;
            let b = pos@[v as int] as int;
            assert(ord[a] == u && ord[b] == v);
            assert(row_ok(edges, m, ord, rows@, a));
            assert(rows@[a]@[b]);
            assert(cplaces.contains((a, b)));
            let i = choose|i: int| 0 <= i < cplaces.len() && cplaces[i] == (a, b);
            assert(clist[i] == (u, v));
        }
        assert(is_pair_list(ord, rlist, rmember));
        assert(is_pair_list(ord, clist, cmember));
    }
    Some(DagTransitive { reduction, closure })
}

/// The reduction list of position `s`: increasing, and exactly the
/// positions of the reduction edges leaving `ord[s]`.
spec fn red_ok(edges: Seq<(nat, nat)>, mask: Seq<bool>, ord: Seq<nat>, red: Seq<usize>, s: int) -> bool {
    &&& forall|i: int, j: int| 0 <= i < j < red.len() ==> red[i] < red[j]
    &&& forall|i: int| 0 <= i < red.len() ==> #[trigger] red[i] < ord.len() && in_reduction(edges, mask, ord[s], ord[red[i] as int])
    &&& forall|t: int| 0 <= t < ord.len() && #[trigger] in_reduction(edges, mask, ord[s], ord[t]) ==> red.contains(t as usize)
}

/// Computes a directed acyclic graph's unique transitive reduction and its
/// transitive closure, both ordered by the positions of a topological
/// order; `None` when the graph has a directed cycle.
pub fn dag_transitive_reduction_closure<G: IndexGraphView>(graph: &G) -> (r: Option<DagTransitive>)
    ensures
        r is Some <==> is_acyclic(graph.spec_node_count(), graph.spec_edges(), full_mask(graph.spec_edges().len())),
        r matches Some(t) ==> is_transitive_of(
            graph.spec_node_count(),
            graph.spec_edges(),
            full_mask(graph.spec_edges().len()),
            t.reduction_pairs(),
            t.closure_pairs(),
        ),
{
    let mask = full_edge_mask(graph);
    transitive_with_mask(graph, &mask)
}

/// Transitive reduction and closure over the edges that `allows_edge` accepts.
pub fn dag_transitive_reduction_closure_filtered<G: IndexGraphView, F: Fn(EdgeIndex) -> bool>(
    graph: &G,
    allows_edge: F,
) -> (r: Option<DagTransitive>)
    requires
        forall|e: EdgeIndex| allows_edge.requires((e,)),
    ensures
        exists|mask: Seq<bool>| {
            &&& is_edge_mask(allows_edge, graph.spec_edges().len(), mask)
            &&& (r is Some <==> is_acyclic(graph.spec_node_count(), graph.spec_edges(), mask))
            &&& (r matches Some(t) ==> is_transitive_of(graph.spec_node_count(), graph.spec_edges(), mask, t.reduction_pairs(), t.closure_pairs()))
        },
{
    let mask = edge_mask(graph, &allows_edge);
    transitive_with_mask(graph, &mask)
}

} // verus!

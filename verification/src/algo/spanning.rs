//! Minimum spanning forests of undirected graphs (Kruskal), over a
//! union-find with union by rank and path compression.
use crate::digraph::{allowed, has_edge, is_walk, reaches, valid_model};
use crate::index::{EdgeIndex, NodeIndex};
use crate::reach::{both, connected, lemma_connected_sym, lemma_connected_trans, lemma_reaches_refl, lemma_reaches_step, lemma_undirected_edge, undirected};
use crate::undirected::IndexUndirectedGraphView;
use vstd::prelude::*;

verus! {

broadcast use {crate::index::group_index_lemmas, crate::digraph::lemma_push_contains};

/// `rep` after the class of `loser` joins the class of `winner`.
pub open spec fn merged(rep: Seq<nat>, winner: nat, loser: nat) -> Seq<nat> {
    rep.map_values(|r: nat| if r == loser { winner } else { r })
}

/// The class representatives: the nodes that represent themselves.
pub open spec fn roots(rep: Seq<nat>) -> Set<nat> {
    Set::new(|x: nat| x < rep.len() && rep[x as int] == x)
}

/// Parent links stay inside the class and climb strictly in level, so
/// that following them ends at the representative.
spec fn forest_links(parent: Seq<usize>, rep: Seq<nat>, level: Seq<nat>, top: nat) -> bool {
    let n = parent.len();
    &&& rep.len() == n
    &&& level.len() == n
    &&& forall|x: int| #![trigger parent[x]] #![trigger rep[x]] 0 <= x < n ==> {
        &&& parent[x] < n
        &&& rep[x] < n
        &&& rep[rep[x] as int] == rep[x]
        &&& (parent[x] == x <==> rep[x] == x)
        &&& rep[parent[x] as int] == rep[x]
        &&& level[x] <= top
        &&& (parent[x] != x ==> level[x] < level[parent[x] as int])
        &&& (rep[x] != x ==> level[x] < level[rep[x] as int])
    }
}

/// Linking one representative under another keeps the links a forest.
proof fn lemma_link(parent: Seq<usize>, rep: Seq<nat>, level: Seq<nat>, top: nat, w: usize, l: usize)
    requires
        forest_links(parent, rep, level, top),
        w < parent.len(),
        l < parent.len(),
        rep[w as int] == w,
        rep[l as int] == l,
        w != l,
    ensures
        ({
            let nl: nat = if level[w as int] > level[l as int] { level[w as int] } else { (level[l as int] + 1) as nat };
            forest_links(parent.update(l as int, w), merged(rep, w as nat, l as nat), level.update(w as int, nl),
                if nl > top { nl } else { top })
        }),
{
    let nl: nat = if level[w as int] > level[l as int] { level[w as int] } else { (level[l as int] + 1) as nat };
    let p2 = parent.update(l as int, w);
    let r2 = merged(rep, w as nat, l as nat);
    let v2 = level.update(w as int, nl);
    let t2 = if nl > top { nl } else { top };
    let n = parent.len();
    assert forall|x: int| #![trigger p2[x]] #![trigger r2[x]] 0 <= x < n implies {
        &&& p2[x] < n
        &&& r2[x] < n
        &&& r2[r2[x] as int] == r2[x]
        &&& (p2[x] == x <==> r2[x] == x)
        &&& r2[p2[x] as int] == r2[x]
        &&& v2[x] <= t2
        &&& (p2[x] != x ==> v2[x] < v2[p2[x] as int])
        &&& (r2[x] != x ==> v2[x] < v2[r2[x] as int])
    } by {
        assert(parent[x] < n && rep[x] < n);
        let p = parent[x] as int;
        assert(rep[p] == rep[x]);
        assert(rep[rep[x] as int] == rep[x]);
        if x == l {
            assert(p2[x] == w);
            assert(r2[x] == w);
            assert(r2[w as int] == w);
        } else if rep[x] == l {
            assert(p2[x] == parent[x]);
            assert(r2[x] == w);
            assert(p != w);
            assert(r2[p] == w);
            assert(x != w);
        } else if x == w {
            assert(p2[x] == w);
            assert(r2[x] == w);
        } else {
            assert(p2[x] == parent[x]);
            assert(r2[x] == rep[x]);
            assert(r2[p] == rep[p]);
            assert(r2[rep[x] as int] == rep[rep[x] as int]);
        }
    }
}

/// Disjoint sets over `0..n`: each node's parent chain leads to its
/// class representative.
struct DisjointSets {
    parent: Vec<usize>,
    rank: Vec<u8>,
    rep: Ghost<Seq<nat>>,
    level: Ghost<Seq<nat>>,
    top: Ghost<nat>,
}

impl DisjointSets {
    spec fn wf(&self) -> bool {
        &&& self.rank@.len() == self.parent@.len()
        &&& forest_links(self.parent@, self.rep@, self.level@, self.top@)
    }

    spec fn len(&self) -> nat {
        self.parent@.len()
    }

    /// Every node of `0..bound` alone in its class.
    fn new(bound: usize) -> (r: Self)
        ensures
            r.wf(),
            r.len() == bound,
            r.rep@ == Seq::new(bound as nat, |i: int| i as nat),
    {
        let mut parent: Vec<usize> = Vec::new();
        let mut rank: Vec<u8> = Vec::new();
        let mut i: usize = 0;
        while i < bound
            invariant
                i <= bound,
                parent@.len() == i,
                rank@.len() == i,
                forall|j: int| 0 <= j < i ==> #[trigger] parent@[j] == j,
            decreases bound - i,
        {
            parent.push(i);
            rank.push(0);
            i = i + 1;
        }
        DisjointSets {
            parent,
            rank,
            rep: Ghost(Seq::new(bound as nat, |i: int| i as nat)),
            level: Ghost(Seq::new(bound as nat, |i: int| 0nat)),
            top: Ghost(0),
        }
    }

    /// The representative of `node`'s class; every node passed on the way
    /// is relinked straight to it.
    fn find(&mut self, node: usize) -> (r: usize)
        requires
            old(self).wf(),
            node < old(self).len(),
        ensures
            final(self).wf(),
            final(self).len() == old(self).len(),
            final(self).rep@ == old(self).rep@,
            final(self).rank@ == old(self).rank@,
            r == old(self).rep@[node as int],
    {
        let n = self.parent.len();
        let mut root = node;
        while self.parent[root] != root
            invariant
                self.wf(),
                n == self.len(),
                root < n,
                self.rep@[root as int] == self.rep@[node as int],
            decreases self.top@ - self.level@[root as int],
        {
            root = self.parent[root];
        }
        let mut cur = node;
        while self.parent[cur] != cur
            invariant
                self.wf(),
                n == self.len(),
                cur < n,
                root < n,
                self.rep@[root as int] == root,
                self.rep@[cur as int] == root,
                self.rep@ == old(self).rep@,
                self.rank@ == old(self).rank@,
                self.level@ == old(self).level@,
                self.top@ == old(self).top@,
            decreases self.top@ - self.level@[cur as int],
        {
            let p = self.parent[cur];
            self.parent.set(cur, root);
            proof {
                assert(self.parent@[cur as int] == root);
            }
            cur = p;
        }
        root
    }

    /// Joins the classes of `left` and `right`; `false` when they were
    /// already one class.
    fn union(&mut self, left: usize, right: usize) -> (r: bool)
        requires
            old(self).wf(),
            left < old(self).len(),
            right < old(self).len(),
        ensures
            final(self).wf(),
            final(self).len() == old(self).len(),
            r == (old(self).rep@[left as int] != old(self).rep@[right as int]),
            !r ==> final(self).rep@ == old(self).rep@,
            r ==> ({
                let a = old(self).rep@[left as int];
                let b = old(self).rep@[right as int];
                ||| final(self).rep@ == merged(old(self).rep@, a, b)
                ||| final(self).rep@ == merged(old(self).rep@, b, a)
            }),
    {
        let mut left = self.find(left);
        let mut right = self.find(right);
        if left == right {
            return false;
        }
        if self.rank[left] < self.rank[right] {
            std::mem::swap(&mut left, &mut right);
        }
        let ghost rep0 = self.rep@;
        let ghost level0 = self.level@;
        let ghost parent0 = self.parent@;
        proof {
            lemma_link(parent0, rep0, level0, self.top@, left, right);
        }
        let ghost new_level: nat = if level0[left as int] > level0[right as int] { level0[left as int] } else {
            (level0[right as int] + 1) as nat
        };
        self.parent.set(right, left);
        if self.rank[left] == self.rank[right] {
            let bumped = self.rank[left].saturating_add(1);
            self.rank.set(left, bumped);
        }
        self.rep = Ghost(merged(rep0, left as nat, right as nat));
        self.level = Ghost(level0.update(left as int, new_level));
        self.top = Ghost(if new_level > self.top@ { new_level } else { self.top@ });
        proof {
            assert(self.parent@ == parent0.update(right as int, left));
        }
        true
    }
}

/// Edge `e` comes before edge `f`: by weight, then by position.
pub open spec fn key_less(weights: Seq<u64>, e: nat, f: nat) -> bool {
    weights[e as int] < weights[f as int] || (weights[e as int] == weights[f as int] && e < f)
}

/// The edges listed in `sel`, as a mask over `edge_count` edges.
pub open spec fn listed_mask(edge_count: nat, sel: Seq<nat>) -> Seq<bool> {
    Seq::new(edge_count, |e: int| sel.contains(e as nat))
}

/// The listed edges that come before `e`, as a mask.
pub open spec fn lighter_mask(weights: Seq<u64>, sel: Seq<nat>, e: nat) -> Seq<bool> {
    Seq::new(weights.len(), |f: int| sel.contains(f as nat) && key_less(weights, f as nat, e))
}

/// The sum of the weights of the listed edges.
pub open spec fn weight_sum(weights: Seq<u64>, sel: Seq<nat>) -> int
    decreases sel.len(),
{
    if sel.len() == 0 {
        0
    } else {
        weight_sum(weights, sel.drop_last()) + weights[sel.last() as int]
    }
}

/// `v` is connected to one of `reps`.
pub open spec fn joined_to(edges: Seq<(nat, nat)>, mask: Seq<bool>, reps: Set<nat>, v: nat) -> bool {
    exists|r: nat| #[trigger] reps.contains(r) && connected(edges, mask, v, r)
}

/// `count` nodes, pairwise unconnected, to which every node is connected:
/// the number of connected components.
pub open spec fn is_component_count(n: nat, edges: Seq<(nat, nat)>, mask: Seq<bool>, count: nat) -> bool {
    exists|reps: Set<nat>| {
        &&& reps.finite()
        &&& reps.len() == count
        &&& forall|r: nat| #[trigger] reps.contains(r) ==> r < n
        &&& forall|v: nat| v < n ==> #[trigger] joined_to(edges, mask, reps, v)
        &&& forall|r1: nat, r2: nat| #[trigger] reps.contains(r1) && #[trigger] reps.contains(r2)
            && connected(edges, mask, r1, r2) ==> r1 == r2
    }
}

/// Allowing more edges keeps nodes connected.
proof fn lemma_mask_monotone(edges: Seq<(nat, nat)>, m1: Seq<bool>, m2: Seq<bool>, u: nat, v: nat)
    requires
        m1.len() == edges.len(),
        m2.len() == edges.len(),
        forall|e: int| 0 <= e < edges.len() && #[trigger] m1[e] ==> m2[e],
        connected(edges, m1, u, v),
    ensures
        connected(edges, m2, u, v),
{
    let und = undirected(edges);
    let b1 = both(m1);
    let b2 = both(m2);
    let p = choose|p: Seq<nat>| #[trigger] is_walk(und, b1, p) && p[0] == u && p[p.len() - 1] == v;
    assert forall|i: int| 0 <= i < p.len() - 1 implies #[trigger] has_edge(und, b2, p[i], p[i + 1]) by {
        assert(has_edge(und, b1, p[i], p[i + 1]));
        let e = choose|e: int| #[trigger] allowed(und, b1, e) && und[e].0 == p[i] && und[e].1 == p[i + 1];
        if e < edges.len() {
            assert(b1[e] == m1[e]);
            assert(b2[e] == m2[e]);
        } else {
            assert(b1[e] == m1[e - edges.len()]);
            assert(b2[e] == m2[e - edges.len()]);
        }
        assert(allowed(und, b2, e));
    }
    assert(is_walk(und, b2, p));
}

/// An allowed edge connects its two ends, both ways.
proof fn lemma_edge_connects(edges: Seq<(nat, nat)>, mask: Seq<bool>, e: int)
    requires
        mask.len() == edges.len(),
        allowed(edges, mask, e),
    ensures
        connected(edges, mask, edges[e].0, edges[e].1),
        connected(edges, mask, edges[e].1, edges[e].0),
{
    let a = edges[e].0;
    let b = edges[e].1;
    assert(has_edge(edges, mask, a, b));
    lemma_undirected_edge(edges, mask, a, b);
    lemma_undirected_edge(edges, mask, b, a);
    lemma_reaches_refl(undirected(edges), both(mask), a);
    lemma_reaches_step(undirected(edges), both(mask), a, a, b);
    lemma_reaches_refl(undirected(edges), both(mask), b);
    lemma_reaches_step(undirected(edges), both(mask), b, b, a);
}

/// A set of nodes holding `u` and closed under the allowed edges, taken
/// both ways, holds every node connected to `u`.
proof fn lemma_same_class(edges: Seq<(nat, nat)>, mask: Seq<bool>, rep: Seq<nat>, u: nat, v: nat)
    requires
        mask.len() == edges.len(),
        forall|e: int| #[trigger] allowed(edges, mask, e) ==> edges[e].0 < rep.len() && edges[e].1 < rep.len()
            && rep[edges[e].0 as int] == rep[edges[e].1 as int],
        connected(edges, mask, u, v),
        u < rep.len(),
    ensures
        v < rep.len(),
        rep[v as int] == rep[u as int],
{
    let inside = |a: nat| a < rep.len() && rep[a as int] == rep[u as int];
    assert forall|a: nat, b: nat| inside(a) && #[trigger] has_edge(undirected(edges), both(mask), a, b) implies inside(b) by {
        lemma_undirected_edge(edges, mask, a, b);
        if has_edge(edges, mask, a, b) {
            let e = choose|e: int| #[trigger] allowed(edges, mask, e) && edges[e].0 == a && edges[e].1 == b;
        } else {
            let e = choose|e: int| #[trigger] allowed(edges, mask, e) && edges[e].0 == b && edges[e].1 == a;
        }
    }
    crate::reach::lemma_closed_reach(undirected(edges), both(mask), inside, u, v);
}

/// `weights[e]` is a value that `f` returned for edge `e`, for every edge.
pub open spec fn is_weight_list<F: Fn(EdgeIndex) -> u64>(f: F, edge_count: nat, weights: Seq<u64>) -> bool {
    &&& weights.len() == edge_count
    &&& forall|e: EdgeIndex| e@ < edge_count ==> #[trigger] f.ensures((e,), weights[e@ as int])
}

/// `order` lists every edge once, as `(weight, position)`, in increasing
/// order of weight and then position.
spec fn is_edge_order(weights: Seq<u64>, order: Seq<(u64, usize)>) -> bool {
    &&& order.len() == weights.len()
    &&& forall|k: int| 0 <= k < order.len() ==> (#[trigger] order[k]).1 < weights.len() && order[k].0 == weights[order[k].1 as int]
    &&& forall|i: int, j: int| 0 <= i < j < order.len() ==> key_less(weights, (#[trigger] order[i]).1 as nat, (#[trigger] order[j]).1 as nat)
    &&& forall|e: nat| e < weights.len() ==> #[trigger] in_order(order, e)
}

/// Edge `e` has a place in `order`.
spec fn in_order(order: Seq<(u64, usize)>, e: nat) -> bool {
    exists|k: int| 0 <= k < order.len() && (#[trigger] order[k]).1 == e
}

/// Weighs every edge once, in edge order, and orders the edges by weight
/// and then position.
fn edge_order<G: IndexUndirectedGraphView, F: Fn(EdgeIndex) -> u64>(graph: &G, edge_weight: &F) -> (r: (Vec<(u64, usize)>, Ghost<Seq<u64>>))
    requires
        forall|e: EdgeIndex| edge_weight.requires((e,)),
    ensures
        is_weight_list(*edge_weight, graph.spec_edges().len(), r.1@),
        is_edge_order(r.1@, r.0@),
{
    let count = graph.edge_bound();
    let mut order: Vec<(u64, usize)> = Vec::new();
    let ghost mut ws: Seq<u64> = Seq::empty();
    let mut e: usize = 0;
    while e < count
        invariant
            e <= count,
            count == graph.spec_edges().len(),
            count <= u32::MAX,
            forall|x: EdgeIndex| edge_weight.requires((x,)),
            ws.len() == e,
            forall|x: EdgeIndex| x@ < e ==> #[trigger] edge_weight.ensures((x,), ws[x@ as int]),
            order@.len() == e,
            forall|k: int| 0 <= k < order@.len() ==> (#[trigger] order@[k]).1 < e && order@[k].0 == ws[order@[k].1 as int],
            forall|i: int, j: int| 0 <= i < j < order@.len() ==> key_less(ws, (#[trigger] order@[i]).1 as nat, (#[trigger] order@[j]).1 as nat),
            forall|x: nat| x < e ==> #[trigger] in_order(order@, x),
        decreases count - e,
    {
        let edge = EdgeIndex::new(e as u32);
        let w = edge_weight(edge);
        let mut lo: usize = 0;
        let mut hi: usize = order.len();
        while lo < hi
            invariant
                lo <= hi <= order@.len(),
                forall|p: int| 0 <= p < lo ==> (#[trigger] order@[p]).0 <= w,
                forall|p: int| hi <= p < order@.len() ==> (#[trigger] order@[p]).0 > w,
                forall|i: int, j: int| 0 <= i < j < order@.len() ==> key_less(ws, (#[trigger] order@[i]).1 as nat, (#[trigger] order@[j]).1 as nat),
                forall|k: int| 0 <= k < order@.len() ==> (#[trigger] order@[k]).1 < e && order@[k].0 == ws[order@[k].1 as int],
            decreases hi - lo,
        {
            let mid = lo + (hi - lo) / 2;
            if order[mid].0 <= w {
                proof {
                    assert forall|p: int| 0 <= p < mid + 1 implies (#[trigger] order@[p]).0 <= w by {
                        if p < mid {
                            assert(key_less(ws, order@[p].1 as nat, order@[mid as int].1 as nat));
                        }
                    }
                }
                lo = mid + 1;
            } else {
                proof {
                    assert forall|p: int| mid <= p < order@.len() implies (#[trigger] order@[p]).0 > w by {
                        if p > mid {
                            assert(key_less(ws, order@[mid as int].1 as nat, order@[p].1 as nat));
                        }
                    }
                }
                hi = mid;
            }
        }
        let ghost before = order@;
        let ghost ws0 = ws;
        order.insert(lo, (w, e));
        proof {
            ws = ws.push(w);
            assert forall|x: EdgeIndex| x@ < e + 1 implies #[trigger] edge_weight.ensures((x,), ws[x@ as int]) by {
                if x@ == e {
                    crate::index::lemma_edge_index_view(x, edge);
                } else {
                    assert(ws[x@ as int] == ws0[x@ as int]);
                }
            }
            assert forall|k: int| 0 <= k < order@.len() implies (#[trigger] order@[k]).1 < e + 1 && order@[k].0 == ws[order@[k].1 as int] by {
                if k < lo {
                    assert(order@[k] == before[k]);
                } else if k > lo {
                    assert(order@[k] == before[k - 1]);
                }
            }
            assert forall|i: int, j: int| 0 <= i < j < order@.len() implies key_less(ws, (#[trigger] order@[i]).1 as nat, (#[trigger] order@[j]).1 as nat) by {
                if i < lo && j < lo {
                    assert(order@[i] == before[i] && order@[j] == before[j]);
                    assert(key_less(ws0, before[i].1 as nat, before[j].1 as nat));
                } else if i < lo && j == lo {
                    assert(order@[i] == before[i]);
                } else if i < lo {
                    assert(order@[i] == before[i] && order@[j] == before[j - 1]);
                    assert(key_less(ws0, before[i].1 as nat, before[j - 1].1 as nat));
                } else if i == lo {
                    assert(order@[j] == before[j - 1]);
                } else {
                    assert(order@[i] == before[i - 1] && order@[j] == before[j - 1]);
                    assert(key_less(ws0, before[i - 1].1 as nat, before[j - 1].1 as nat));
                }
            }
            assert forall|x: nat| x < e + 1 implies #[trigger] in_order(order@, x) by {
                if x == e {
                    assert(order@[lo as int].1 == x);
                } else {
                    assert(in_order(before, x));
                    let k = choose|k: int| 0 <= k < before.len() && (#[trigger] before[k]).1 == x;
                    if k < lo {
                        assert(order@[k] == before[k]);
                    } else {
                        assert(order@[k + 1] == before[k]);
                    }
                }
            }
        }
        e = e + 1;
    }
    (order, Ghost(ws))
}

/// The representatives of a union-find state are finite and at most as
/// many as the nodes.
proof fn lemma_roots_finite(rep: Seq<nat>)
    ensures
        roots(rep).finite(),
        roots(rep).len() <= rep.len(),
{
    crate::digraph::lemma_nat_below(rep.len());
    assert(roots(rep).subset_of(crate::digraph::nat_below(rep.len())));
    vstd::set_lib::lemma_len_subset(roots(rep), crate::digraph::nat_below(rep.len()));
}

/// Merging one class into another removes its representative.
proof fn lemma_roots_merged(rep: Seq<nat>, w: nat, l: nat)
    requires
        w < rep.len(),
        l < rep.len(),
        rep[w as int] == w,
        rep[l as int] == l,
        w != l,
    ensures
        roots(merged(rep, w, l)) == roots(rep).remove(l),
        roots(rep).contains(l),
        roots(rep).remove(l).contains(w),
{
    assert(roots(merged(rep, w, l)) =~= roots(rep).remove(l));
}

/// A minimum spanning forest: its edges, their total weight and the number
/// of connected components.
#[derive(Debug, Clone, PartialEq, Eq)]
pub struct SpanningForest {
    edges: Vec<EdgeIndex>,
    total_weight: u128,
    component_count: usize,
}

impl SpanningForest {
    /// The positions of the chosen edges, in the order chosen.
    pub closed spec fn edge_list(&self) -> Seq<nat> {
        crate::topology::edge_positions(self.edges@)
    }

    pub closed spec fn weight(&self) -> u128 {
        self.total_weight
    }

    pub closed spec fn components(&self) -> usize {
        self.component_count
    }

    pub fn edges(&self) -> (r: &[EdgeIndex])
        ensures
            crate::topology::edge_positions(r@) == self.edge_list(),
    {
        self.edges.as_slice()
    }

    pub fn total_weight(&self) -> (r: u128)
        ensures
            r == self.weight(),
    {
        self.total_weight
    }

    pub fn component_count(&self) -> (r: usize)
        ensures
            r == self.components(),
    {
        self.component_count
    }

    pub fn into_edges(self) -> (r: Vec<EdgeIndex>)
        ensures
            crate::topology::edge_positions(r@) == self.edge_list(),
    {
        self.edges
    }
}

/// The forest Kruskal's rule chooses over `edges` with `weights`: taking
/// the edges by increasing weight, then position, an edge is chosen exactly
/// when the edges chosen before it do not yet connect its ends. The chosen
/// edges connect exactly the nodes the whole graph connects, and `count`
/// is the number of connected components.
pub open spec fn is_kruskal_forest(
    n: nat,
    edges: Seq<(nat, nat)>,
    weights: Seq<u64>,
    chosen: Seq<nat>,
    total: int,
    count: nat,
) -> bool {
    &&& forall|i: int| 0 <= i < chosen.len() ==> #[trigger] chosen[i] < edges.len()
    &&& forall|i: int, j: int| 0 <= i < j < chosen.len() ==> key_less(weights, #[trigger] chosen[i], #[trigger] chosen[j])
    &&& forall|e: nat| e < edges.len() ==> (#[trigger] chosen.contains(e) <==> !connected(edges,
        lighter_mask(weights, chosen, e), edges[e as int].0, edges[e as int].1))
    &&& forall|u: nat, v: nat| u < n && v < n ==> (connected(edges, crate::digraph::full_mask(edges.len()), u, v)
        <==> #[trigger] connected(edges, listed_mask(edges.len(), chosen), u, v))
    &&& is_component_count(n, edges, crate::digraph::full_mask(edges.len()), count)
    &&& chosen.len() + count == n
    &&& total == weight_sum(weights, chosen)
}

/// Edge `e` was taken from `order` before position `k`.
spec fn taken_before(order: Seq<(u64, usize)>, k: int, e: nat) -> bool {
    exists|j: int| 0 <= j < k && (#[trigger] order[j]).1 == e
}

/// What holds after the first `k` edges of `order`: `rep` names the
/// classes of the chosen edges `sel`, every edge taken so far joins one
/// class, and each was chosen exactly when the lighter chosen edges did not
/// yet connect its ends.
spec fn kruskal_state(
    n: nat,
    edges: Seq<(nat, nat)>,
    ws: Seq<u64>,
    order: Seq<(u64, usize)>,
    k: int,
    rep: Seq<nat>,
    sel: Seq<nat>,
) -> bool {
    let m = listed_mask(edges.len(), sel);
    &&& rep.len() == n
    &&& forall|x: int| 0 <= x < n ==> #[trigger] rep[x] < n && rep[rep[x] as int] == rep[x]
    &&& 0 <= k <= order.len()
    &&& sel.len() <= k
    &&& forall|i: int| 0 <= i < sel.len() ==> #[trigger] taken_before(order, k, sel[i])
    &&& forall|i: int| 0 <= i < sel.len() ==> #[trigger] sel[i] < edges.len()
    &&& forall|i: int, j: int| 0 <= i < j < sel.len() ==> key_less(ws, #[trigger] sel[i], #[trigger] sel[j])
    &&& forall|x: nat| x < n ==> connected(edges, m, x, #[trigger] rep[x as int])
    &&& forall|e: int| #[trigger] allowed(edges, m, e) ==> rep[edges[e].0 as int] == rep[edges[e].1 as int]
    &&& forall|j: int| 0 <= j < k ==> rep[edges[(#[trigger] order[j]).1 as int].0 as int] == rep[edges[order[j].1 as int].1 as int]
    &&& forall|j: int| 0 <= j < k ==> (sel.contains((#[trigger] order[j]).1 as nat) <==> !connected(edges,
        lighter_mask(ws, sel, order[j].1 as nat), edges[order[j].1 as int].0, edges[order[j].1 as int].1))
}

/// Facts about the next edge of the order: every chosen edge comes before
/// it, so the chosen edges lighter than it are all the chosen edges, and it
/// is not chosen yet.
proof fn lemma_next_edge(n: nat, edges: Seq<(nat, nat)>, ws: Seq<u64>, order: Seq<(u64, usize)>, k: int, rep: Seq<nat>, sel: Seq<nat>)
    requires
        kruskal_state(n, edges, ws, order, k, rep, sel),
        is_edge_order(ws, order),
        ws.len() == edges.len(),
        k < order.len(),
    ensures
        forall|i: int| 0 <= i < sel.len() ==> key_less(ws, #[trigger] sel[i], order[k].1 as nat),
        lighter_mask(ws, sel, order[k].1 as nat) == listed_mask(edges.len(), sel),
        !sel.contains(order[k].1 as nat),
{
    let e = order[k].1 as nat;
    assert forall|i: int| 0 <= i < sel.len() implies key_less(ws, #[trigger] sel[i], e) by {
        assert(taken_before(order, k, sel[i]));
        let j = choose|j: int| 0 <= j < k && (#[trigger] order[j]).1 == sel[i];
    }
    assert forall|f: int| 0 <= f < edges.len() implies lighter_mask(ws, sel, e)[f] == listed_mask(edges.len(), sel)[f] by {
        if sel.contains(f as nat) {
            let i = choose|i: int| 0 <= i < sel.len() && sel[i] == f as nat;
            assert(key_less(ws, sel[i], e));
        }
    }
    assert(lighter_mask(ws, sel, e) =~= listed_mask(edges.len(), sel));
    if sel.contains(e) {
        let i = choose|i: int| 0 <= i < sel.len() && sel[i] == e;
        assert(key_less(ws, sel[i], e));
    }
}

/// The next edge joins two classes: it is chosen and the classes merge.
proof fn lemma_kruskal_join(
    n: nat,
    edges: Seq<(nat, nat)>,
    ws: Seq<u64>,
    order: Seq<(u64, usize)>,
    k: int,
    rep0: Seq<nat>,
    rep1: Seq<nat>,
    sel: Seq<nat>,
)
    requires
        kruskal_state(n, edges, ws, order, k, rep0, sel),
        is_edge_order(ws, order),
        ws.len() == edges.len(),
        valid_model(n, edges),
        k < order.len(),
        rep0[edges[order[k].1 as int].0 as int] != rep0[edges[order[k].1 as int].1 as int],
        ({
            let a = rep0[edges[order[k].1 as int].0 as int];
            let b = rep0[edges[order[k].1 as int].1 as int];
            rep1 == merged(rep0, a, b) || rep1 == merged(rep0, b, a)
        }),
    ensures
        kruskal_state(n, edges, ws, order, k + 1, rep1, sel.push(order[k].1 as nat)),
{
    lemma_next_edge(n, edges, ws, order, k, rep0, sel);
    let e = order[k].1 as nat;
    let s = edges[e as int].0;
    let t = edges[e as int].1;
    let a = rep0[s as int];
    let b = rep0[t as int];
    let sel1 = sel.push(e);
    let m0 = listed_mask(edges.len(), sel);
    let m1 = listed_mask(edges.len(), sel1);
    assert(s < n && t < n);
    assert forall|f: int| 0 <= f < edges.len() && #[trigger] m0[f] implies m1[f] by {
        let i = choose|i: int| 0 <= i < sel.len() && sel[i] == f as nat;
        assert(sel1[i] == f as nat);
    }
    assert(m1[e as int]) by {
        assert(sel1[sel.len() as int] == e);
    }
    assert(allowed(edges, m1, e as int));
    lemma_edge_connects(edges, m1, e as int);
    let (w, l) = if rep1 == merged(rep0, a, b) { (a, b) } else { (b, a) };
    assert(rep1 == merged(rep0, w, l));
    // classes of the chosen edges
    assert forall|x: nat| x < n implies connected(edges, m1, x, #[trigger] rep1[x as int]) by {
        assert(connected(edges, m0, x, rep0[x as int]));
        lemma_mask_monotone(edges, m0, m1, x, rep0[x as int]);
        if rep0[x as int] == l {
            assert(connected(edges, m0, s, rep0[s as int]));
            assert(connected(edges, m0, t, rep0[t as int]));
            lemma_mask_monotone(edges, m0, m1, s, a);
            lemma_mask_monotone(edges, m0, m1, t, b);
            lemma_connected_sym(edges, m1, s, a);
            lemma_connected_sym(edges, m1, t, b);
            if l == b {
                // x ~ b ~ t ~ s ~ a
                lemma_connected_trans(edges, m1, x, b, t);
                lemma_connected_trans(edges, m1, x, t, s);
                lemma_connected_trans(edges, m1, x, s, a);
            } else {
                lemma_connected_trans(edges, m1, x, a, s);
                lemma_connected_trans(edges, m1, x, s, t);
                lemma_connected_trans(edges, m1, x, t, b);
            }
        }
    }
    assert forall|f: int| #[trigger] allowed(edges, m1, f) implies rep1[edges[f].0 as int] == rep1[edges[f].1 as int] by {
        assert(edges[f].0 < n && edges[f].1 < n);
        if f != e {
            assert(m0[f]) by {
                let i = choose|i: int| 0 <= i < sel1.len() && sel1[i] == f as nat;
                if i < sel.len() {
                    assert(sel[i] == f as nat);
                }
            }
            assert(allowed(edges, m0, f));
        }
    }
    assert forall|j: int| 0 <= j < k + 1 implies rep1[edges[(#[trigger] order[j]).1 as int].0 as int]
        == rep1[edges[order[j].1 as int].1 as int] by {
        let f = order[j].1 as int;
        assert(edges[f].0 < n && edges[f].1 < n);
    }
    assert forall|i: int| 0 <= i < sel1.len() implies #[trigger] taken_before(order, k + 1, sel1[i]) by {
        if i < sel.len() {
            assert(taken_before(order, k, sel[i]));
            let j = choose|j: int| 0 <= j < k && (#[trigger] order[j]).1 == sel[i];
            assert(sel1[i] == sel[i]);
        } else {
            assert(order[k].1 == sel1[i]);
        }
    }
    assert forall|i: int, j: int| 0 <= i < j < sel1.len() implies key_less(ws, #[trigger] sel1[i], #[trigger] sel1[j]) by {
        if j < sel.len() {
            assert(sel1[i] == sel[i] && sel1[j] == sel[j]);
        } else {
            assert(sel1[i] == sel[i]);
        }
    }
    assert forall|j: int| 0 <= j < k + 1 implies (sel1.contains((#[trigger] order[j]).1 as nat) <==> !connected(edges,
        lighter_mask(ws, sel1, order[j].1 as nat), edges[order[j].1 as int].0, edges[order[j].1 as int].1)) by {
        let f = order[j].1 as nat;
        if j < k {
            assert(key_less(ws, f, e));
            assert(lighter_mask(ws, sel1, f) =~= lighter_mask(ws, sel, f)) by {
                assert forall|g: int| 0 <= g < ws.len() implies lighter_mask(ws, sel1, f)[g] == lighter_mask(ws, sel, f)[g] by {
                    if g == e as int {
                        assert(!key_less(ws, e, f));
                    }
                }
            }
            assert(sel1.contains(f) <==> sel.contains(f)) by {
                assert(f != e) by {
                    assert(order[j].1 != order[k].1);
                }
            }
        } else {
            assert(sel1.contains(e));
            assert(lighter_mask(ws, sel1, e) =~= m0) by {
                assert forall|g: int| 0 <= g < ws.len() implies lighter_mask(ws, sel1, e)[g] == m0[g] by {
                    if g == e as int {
                    } else if sel1.contains(g as nat) {
                        let i = choose|i: int| 0 <= i < sel1.len() && sel1[i] == g as nat;
                        assert(i < sel.len());
                        assert(sel[i] == g as nat);
                    }
                }
            }
            if connected(edges, m0, s, t) {
                lemma_same_class(edges, m0, rep0, s, t);
            }
        }
    }
}

/// The next edge lies inside one class: it is skipped.
proof fn lemma_kruskal_skip(n: nat, edges: Seq<(nat, nat)>, ws: Seq<u64>, order: Seq<(u64, usize)>, k: int, rep: Seq<nat>, sel: Seq<nat>)
    requires
        kruskal_state(n, edges, ws, order, k, rep, sel),
        is_edge_order(ws, order),
        ws.len() == edges.len(),
        valid_model(n, edges),
        k < order.len(),
        rep[edges[order[k].1 as int].0 as int] == rep[edges[order[k].1 as int].1 as int],
    ensures
        kruskal_state(n, edges, ws, order, k + 1, rep, sel),
{
    lemma_next_edge(n, edges, ws, order, k, rep, sel);
    let e = order[k].1 as nat;
    let s = edges[e as int].0;
    let t = edges[e as int].1;
    let m = listed_mask(edges.len(), sel);
    assert(s < n && t < n);
    assert forall|i: int| 0 <= i < sel.len() implies #[trigger] taken_before(order, k + 1, sel[i]) by {
        assert(taken_before(order, k, sel[i]));
        let j = choose|j: int| 0 <= j < k && (#[trigger] order[j]).1 == sel[i];
    }
    assert(connected(edges, m, s, rep[s as int]));
    assert(connected(edges, m, t, rep[t as int]));
    lemma_connected_sym(edges, m, t, rep[t as int]);
    lemma_connected_trans(edges, m, s, rep[s as int], t);
}

/// After every edge: the chosen edges form the forest Kruskal's rule
/// describes.
proof fn lemma_kruskal_done(n: nat, edges: Seq<(nat, nat)>, ws: Seq<u64>, order: Seq<(u64, usize)>, rep: Seq<nat>, sel: Seq<nat>, count: nat)
    requires
        kruskal_state(n, edges, ws, order, order.len() as int, rep, sel),
        is_edge_order(ws, order),
        ws.len() == edges.len(),
        valid_model(n, edges),
        roots(rep).finite(),
        count == roots(rep).len(),
        sel.len() + count == n,
    ensures
        is_kruskal_forest(n, edges, ws, sel, weight_sum(ws, sel), count),
{
    let full = crate::digraph::full_mask(edges.len());
    let m = listed_mask(edges.len(), sel);
    assert forall|e: int| #[trigger] allowed(edges, full, e) implies edges[e].0 < rep.len() && edges[e].1 < rep.len()
        && rep[edges[e].0 as int] == rep[edges[e].1 as int] by {
        assert(in_order(order, e as nat));
        let j = choose|j: int| 0 <= j < order.len() && (#[trigger] order[j]).1 == e as nat;
        assert(edges[e].0 < n && edges[e].1 < n);
    }
    assert forall|f: int| 0 <= f < edges.len() && #[trigger] m[f] implies full[f] by {}
    assert forall|u: nat, v: nat| u < n && v < n implies (connected(edges, full, u, v)
        <==> #[trigger] connected(edges, m, u, v)) by {
        if connected(edges, full, u, v) {
            lemma_same_class(edges, full, rep, u, v);
            assert(connected(edges, m, u, rep[u as int]));
            assert(connected(edges, m, v, rep[v as int]));
            lemma_connected_sym(edges, m, v, rep[v as int]);
            lemma_connected_trans(edges, m, u, rep[u as int], v);
        }
        if connected(edges, m, u, v) {
            lemma_mask_monotone(edges, m, full, u, v);
        }
    }
    assert forall|e: nat| e < edges.len() implies (#[trigger] sel.contains(e) <==> !connected(edges,
        lighter_mask(ws, sel, e), edges[e as int].0, edges[e as int].1)) by {
        assert(in_order(order, e));
        let j = choose|j: int| 0 <= j < order.len() && (#[trigger] order[j]).1 == e;
    }
    let reps = roots(rep);
    assert forall|r: nat| #[trigger] reps.contains(r) implies r < n by {}
    assert forall|v: nat| v < n implies #[trigger] joined_to(edges, full, reps, v) by {
        assert(connected(edges, m, v, rep[v as int]));
        lemma_mask_monotone(edges, m, full, v, rep[v as int]);
        assert(rep[v as int] < n && rep[rep[v as int] as int] == rep[v as int]);
        assert(reps.contains(rep[v as int]));
    }
    assert forall|r1: nat, r2: nat| #[trigger] reps.contains(r1) && #[trigger] reps.contains(r2)
        && connected(edges, full, r1, r2) implies r1 == r2 by {
        lemma_same_class(edges, full, rep, r1, r2);
    }
    assert(is_component_count(n, edges, full, count));
}

/// A minimum spanning forest by Kruskal's rule: edges by increasing weight
/// (then position), each kept when it joins two components so far.
pub fn minimum_spanning_forest<G: IndexUndirectedGraphView, F: Fn(EdgeIndex) -> u64>(graph: &G, edge_weight: F) -> (r: SpanningForest)
    requires
        forall|e: EdgeIndex| edge_weight.requires((e,)),
    ensures
        exists|weights: Seq<u64>| {
            &&& is_weight_list(edge_weight, graph.spec_edges().len(), weights)
            &&& is_kruskal_forest(graph.spec_node_count(), graph.spec_edges(), weights, r.edge_list(), r.weight() as int,
                r.components() as nat)
        },
{
    let (order, Ghost(ws)) = edge_order(graph, &edge_weight);
    let n = graph.node_bound();
    let ghost edges = graph.spec_edges();
    let ghost ecount = edges.len();
    let mut sets = DisjointSets::new(n);
    let mut selected: Vec<EdgeIndex> = Vec::new();
    let ghost mut selp: Seq<nat> = Seq::empty();
    let mut total: u128 = 0;
    let mut count: usize = graph.node_count();
    proof {
        assert(roots(sets.rep@) =~= crate::digraph::nat_below(n as nat));
        crate::digraph::lemma_nat_below(n as nat);
        assert forall|x: nat| x < n implies connected(edges, listed_mask(ecount, selp), x, #[trigger] sets.rep@[x as int]) by {
            lemma_reaches_refl(undirected(edges), both(listed_mask(ecount, selp)), x);
        }
        assert forall|e: int| #[trigger] allowed(edges, listed_mask(ecount, selp), e)
            implies sets.rep@[edges[e].0 as int] == sets.rep@[edges[e].1 as int] by {
            assert(!selp.contains(e as nat));
        }
    }
    let mut k: usize = 0;
    while k < order.len()
        invariant
            n == graph.spec_node_count(),
            edges == graph.spec_edges(),
            ecount == edges.len(),
            valid_model(n as nat, edges),
            is_edge_order(ws, order@),
            ws.len() == ecount,
            k <= order@.len(),
            sets.wf(),
            sets.len() == n,
            crate::topology::edge_positions(selected@) == selp,
            kruskal_state(n as nat, edges, ws, order@, k as int, sets.rep@, selp),
            total == weight_sum(ws, selp),
            total <= selp.len() * 0xffff_ffff_ffff_ffff,
            roots(sets.rep@).finite(),
            count == roots(sets.rep@).len(),
            selp.len() + count == n,
        decreases order@.len() - k,
    {
        let (w, slot) = order[k];
        let edge = EdgeIndex::new(slot as u32);
        let ends = graph.edge_endpoints(edge).unwrap();
        let s = ends.source().index();
        let t = ends.target().index();
        let ghost rep0 = sets.rep@;
        let ghost m0 = listed_mask(ecount, selp);
        proof {
            assert(order@[k as int] == (w, slot));
            assert(edges[slot as int] == (s as nat, t as nat));
            assert(edges[slot as int].0 < n && edges[slot as int].1 < n);
        }
        let joined = sets.union(s, t);
        if joined {
            proof {
                lemma_roots_finite(rep0);
                let a = rep0[s as int];
                let b = rep0[t as int];
                if sets.rep@ == merged(rep0, a, b) {
                    lemma_roots_merged(rep0, a, b);
                } else {
                    lemma_roots_merged(rep0, b, a);
                }
                assert(count >= 2) by {
                    if sets.rep@ == merged(rep0, a, b) {
                        assert(roots(rep0).remove(b).contains(a));
                        assert(roots(rep0).remove(b).len() >= 1);
                    } else {
                        assert(roots(rep0).remove(a).contains(b));
                        assert(roots(rep0).remove(a).len() >= 1);
                    }
                }
            }
            selected.push(edge);
            total = total + w as u128;
            count = count - 1;
            proof {
                let old_selp = selp;
                selp = selp.push(slot as nat);
                lemma_kruskal_join(n as nat, edges, ws, order@, k as int, rep0, sets.rep@, old_selp);
                assert(crate::topology::edge_positions(selected@) =~= selp);
                assert(selp.drop_last() =~= old_selp);
                lemma_roots_finite(sets.rep@);
            }
        } else {
            proof {
                lemma_kruskal_skip(n as nat, edges, ws, order@, k as int, rep0, selp);
            }
        }
        k = k + 1;
    }
    proof {
        lemma_kruskal_done(n as nat, edges, ws, order@, sets.rep@, selp, count as nat);
        assert(is_weight_list(edge_weight, graph.spec_edges().len(), ws));
    }
    SpanningForest { edges: selected, total_weight: total, component_count: count }
}

} // verus!

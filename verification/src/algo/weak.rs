//! Weakly connected components.
use crate::algo::mask::{edge_mask, full_edge_mask};
use crate::digraph::{allowed, full_mask, has_edge, is_edge_mask, lemma_in_list, lemma_out_list, strictly_increasing, valid_model};
use crate::index::{EdgeIndex, NodeIndex};
use crate::reach::{
    both, connected, is_weak_components, lemma_closed_reach, lemma_connected_sym, lemma_connected_trans,
    lemma_reaches_refl, lemma_reaches_step, lemma_undirected_edge, undirected,
};
use crate::topology::{edge_positions, node_positions, IndexGraphView};
use vstd::prelude::*;

verus! {

broadcast use {crate::index::group_index_lemmas, crate::digraph::lemma_push_contains};

/// The node positions of each listed component.
pub open spec fn component_positions(comps: Seq<Vec<NodeIndex>>) -> Seq<Seq<nat>> {
    comps.map_values(|c: Vec<NodeIndex>| node_positions(c@))
}

/// `labels` names, for the nodes labelled so far, the component whose
/// smallest node is `heads[d]`: label `d` is exactly "connected to `heads[d]`".
spec fn labelled_classes(
    n: nat,
    edges: Seq<(nat, nat)>,
    mask: Seq<bool>,
    labels: Seq<Option<usize>>,
    heads: Seq<usize>,
) -> bool {
    &&& labels.len() == n
    &&& forall|d: int| 0 <= d < heads.len() ==> #[trigger] heads[d] < n
    &&& forall|d1: int, d2: int| 0 <= d1 < d2 < heads.len() ==> #[trigger] heads[d1] < #[trigger] heads[d2]
    &&& forall|v: int| 0 <= v < n && (#[trigger] labels[v]) is Some ==> labels[v]->0 < heads.len()
    &&& forall|d: int, v: nat| 0 <= d < heads.len() && v < n ==>
        (#[trigger] labels[v as int] == Some(d as usize) <==> #[trigger] connected(edges, mask, heads[d] as nat, v))
    &&& forall|d: int, v: int| #![trigger labels[v], heads[d]] 0 <= d < heads.len() && 0 <= v < n && labels[v] == Some(d as usize) ==> heads[d] <= v
}

/// An allowed edge of the two-way graph joins two existing nodes.
proof fn lemma_undirected_edge_in_range(n: nat, edges: Seq<(nat, nat)>, mask: Seq<bool>, a: nat, b: nat)
    requires
        valid_model(n, edges),
        mask.len() == edges.len(),
        has_edge(undirected(edges), both(mask), a, b),
    ensures
        a < n,
        b < n,
{
    lemma_undirected_edge(edges, mask, a, b);
    if has_edge(edges, mask, a, b) {
        let e = choose|e: int| #[trigger] allowed(edges, mask, e) && edges[e].0 == a && edges[e].1 == b;
        assert(edges[e].0 < n);
    } else {
        let e = choose|e: int| #[trigger] allowed(edges, mask, e) && edges[e].0 == b && edges[e].1 == a;
        assert(edges[e].0 < n);
    }
}

/// Labels with `heads.len()` every node connected to `s`, by a breadth-first
/// search over allowed edges in both directions.
fn spread<G: IndexGraphView>(graph: &G, mask: &Vec<bool>, labels: &mut Vec<Option<usize>>, s: usize, c: usize, Ghost(heads): Ghost<Seq<usize>>)
    requires
        c == heads.len(),
        mask@.len() == graph.spec_edges().len(),
        valid_model(graph.spec_node_count(), graph.spec_edges()),
        labelled_classes(graph.spec_node_count(), graph.spec_edges(), mask@, old(labels)@, heads),
        s < graph.spec_node_count(),
        old(labels)@[s as int] is None,
        forall|v: int| 0 <= v < s ==> (#[trigger] old(labels)@[v]) is Some,
        forall|d: int| 0 <= d < heads.len() ==> #[trigger] heads[d] < s,
        heads.len() <= s,
    ensures
        labelled_classes(graph.spec_node_count(), graph.spec_edges(), mask@, final(labels)@, heads.push(s)),
        forall|v: int| 0 <= v < final(labels)@.len() && (#[trigger] old(labels)@[v]) is Some ==> final(labels)@[v] == old(labels)@[v],
        final(labels)@[s as int] == Some(c),
{
    let ghost n = graph.spec_node_count();
    let ghost edges = graph.spec_edges();
    let ghost m = mask@;
    let ghost und = undirected(edges);
    let ghost m2 = both(m);
    let ghost old_labels = labels@;
    proof {
        assert forall|v: int| 0 <= v < n && (#[trigger] old_labels[v]) is Some && old_labels[v] != Some(c)
            implies !connected(edges, m, s as nat, v as nat) by {
            let d = old_labels[v]->0 as int;
            assert(old_labels[v as nat as int] == Some(d as usize));
            assert(connected(edges, m, heads[d] as nat, v as nat));
            if connected(edges, m, s as nat, v as nat) {
                lemma_connected_sym(edges, m, s as nat, v as nat);
                lemma_connected_trans(edges, m, heads[d] as nat, v as nat, s as nat);
                assert(old_labels[s as nat as int] == Some(d as usize));
            }
        }
        lemma_reaches_refl(und, m2, s as nat);
    }
    labels.set(s, Some(c));
    let mut members: Vec<NodeIndex> = Vec::new();
    members.push(NodeIndex::new(s as u32));
    let mut head: usize = 0;
    proof {
        assert(node_positions(members@)[0] == s as nat);
    }
    while head < members.len()
        invariant
            mask@ == m,
            m.len() == edges.len(),
            n == graph.spec_node_count(),
            edges == graph.spec_edges(),
            valid_model(n, edges),
            und == undirected(edges),
            m2 == both(m),
            c == heads.len(),
            s < n,
            labelled_classes(n, edges, m, old_labels, heads),
            old_labels[s as int] is None,
            labels@.len() == n,
            old_labels.len() == n,
            head <= members@.len(),
            labels@[s as int] == Some(c),
            forall|v: int| 0 <= v < n && (#[trigger] old_labels[v]) is Some ==> labels@[v] == old_labels[v],
            forall|v: int| 0 <= v < n && (#[trigger] labels@[v]) is Some ==> old_labels[v] is Some || labels@[v] == Some(c),
            forall|i: int| 0 <= i < members@.len() ==> (#[trigger] members@[i])@ < n && labels@[members@[i]@ as int] == Some(c)
                && connected(edges, m, s as nat, members@[i]@),
            forall|v: nat| v < n && labels@[v as int] == Some(c) ==> #[trigger] node_positions(members@).contains(v),
            node_positions(members@).no_duplicates(),
            forall|i: int| 0 <= i < members@.len() ==> #[trigger] node_positions(members@)[i] < n,
            forall|v: int| 0 <= v < n && (#[trigger] labels@[v]) is Some && labels@[v] != Some(c) ==> !connected(edges, m, s as nat, v as nat),
            forall|i: int, b: nat| 0 <= i < head && #[trigger] has_edge(und, m2, members@[i]@, b) ==> labels@[b as int] == Some(c),
        decreases n - head,
    {
        proof {
            crate::digraph::lemma_distinct_below(node_positions(members@), n);
        }
        let u = members[head];
        proof {
            lemma_out_list(edges, u@);
            lemma_in_list(edges, u@);
        }
        let out = graph.outgoing_edges(u);
        let mut k: usize = 0;
        while k < out.len()
            invariant
                mask@ == m,
                m.len() == edges.len(),
                n == graph.spec_node_count(),
                edges == graph.spec_edges(),
                valid_model(n, edges),
                und == undirected(edges),
                m2 == both(m),
                c == heads.len(),
                s < n,
                labels@.len() == n,
                old_labels.len() == n,
                head < members@.len(),
                u == members@[head as int],
                u@ < n,
                connected(edges, m, s as nat, u@),
                edge_positions(out@) == crate::digraph::out_list(edges, u@),
                labels@[s as int] == Some(c),
                forall|v: int| 0 <= v < n && (#[trigger] old_labels[v]) is Some ==> labels@[v] == old_labels[v],
                forall|v: int| 0 <= v < n && (#[trigger] labels@[v]) is Some ==> old_labels[v] is Some || labels@[v] == Some(c),
                forall|i: int| 0 <= i < members@.len() ==> (#[trigger] members@[i])@ < n && labels@[members@[i]@ as int] == Some(c)
                    && connected(edges, m, s as nat, members@[i]@),
                forall|v: nat| v < n && labels@[v as int] == Some(c) ==> #[trigger] node_positions(members@).contains(v),
                node_positions(members@).no_duplicates(),
                forall|i: int| 0 <= i < members@.len() ==> #[trigger] node_positions(members@)[i] < n,
            node_positions(members@).no_duplicates(),
            forall|i: int| 0 <= i < members@.len() ==> #[trigger] node_positions(members@)[i] < n,
                forall|v: int| 0 <= v < n && (#[trigger] labels@[v]) is Some && labels@[v] != Some(c) ==> !connected(edges, m, s as nat, v as nat),
                forall|i: int, b: nat| 0 <= i < head && #[trigger] has_edge(und, m2, members@[i]@, b) ==> labels@[b as int] == Some(c),
                forall|j: int| 0 <= j < k && #[trigger] allowed(edges, m, out@[j]@ as int) ==> labels@[edges[out@[j]@ as int].1 as int] == Some(c),
                k <= out@.len(),
            decreases out@.len() - k,
        {
            let e = out[k];
            proof {
                lemma_out_list(edges, u@);
                assert(edge_positions(out@)[k as int] == out@[k as int]@);
            }
            if mask[e.index()] {
                let ends = graph.edge_endpoints(e).unwrap();
                let w = ends.target();
                proof {
                    assert(allowed(edges, m, e@ as int));
                    assert(has_edge(edges, m, u@, w@));
                    lemma_undirected_edge(edges, m, u@, w@);
                    lemma_reaches_step(und, m2, s as nat, u@, w@);
                }
                if labels[w.index()].is_none() {
                    let ghost before = node_positions(members@);
                    proof {
                        if before.contains(w@) {
                            let i = choose|i: int| 0 <= i < members@.len() && before[i] == w@;
                            assert(before[i] == members@[i]@);
                        }
                    }
                    labels.set(w.index(), Some(c));
                    members.push(w);
                    proof {
                        assert(node_positions(members@) =~= before.push(w@));
                        assert forall|i: int, j: int| 0 <= i < j < before.push(w@).len() implies
                            before.push(w@)[i] != before.push(w@)[j] by {
                            if j == before.len() {
                                assert(before.contains(before[i]));
                            }
                        }
                    }
                }
            }
            k = k + 1;
        }
        let inc = graph.incoming_edges(u);
        let mut k: usize = 0;
        while k < inc.len()
            invariant
                mask@ == m,
                m.len() == edges.len(),
                n == graph.spec_node_count(),
                edges == graph.spec_edges(),
                valid_model(n, edges),
                und == undirected(edges),
                m2 == both(m),
                c == heads.len(),
                s < n,
                labels@.len() == n,
                old_labels.len() == n,
                head < members@.len(),
                u == members@[head as int],
                u@ < n,
                connected(edges, m, s as nat, u@),
                edge_positions(out@) == crate::digraph::out_list(edges, u@),
                edge_positions(inc@) == crate::digraph::in_list(edges, u@),
                labels@[s as int] == Some(c),
                forall|v: int| 0 <= v < n && (#[trigger] old_labels[v]) is Some ==> labels@[v] == old_labels[v],
                forall|v: int| 0 <= v < n && (#[trigger] labels@[v]) is Some ==> old_labels[v] is Some || labels@[v] == Some(c),
                forall|i: int| 0 <= i < members@.len() ==> (#[trigger] members@[i])@ < n && labels@[members@[i]@ as int] == Some(c)
                    && connected(edges, m, s as nat, members@[i]@),
                forall|v: nat| v < n && labels@[v as int] == Some(c) ==> #[trigger] node_positions(members@).contains(v),
                node_positions(members@).no_duplicates(),
                forall|i: int| 0 <= i < members@.len() ==> #[trigger] node_positions(members@)[i] < n,
            node_positions(members@).no_duplicates(),
            forall|i: int| 0 <= i < members@.len() ==> #[trigger] node_positions(members@)[i] < n,
                forall|v: int| 0 <= v < n && (#[trigger] labels@[v]) is Some && labels@[v] != Some(c) ==> !connected(edges, m, s as nat, v as nat),
                forall|i: int, b: nat| 0 <= i < head && #[trigger] has_edge(und, m2, members@[i]@, b) ==> labels@[b as int] == Some(c),
                forall|j: int| 0 <= j < out@.len() && #[trigger] allowed(edges, m, out@[j]@ as int) ==> labels@[edges[out@[j]@ as int].1 as int] == Some(c),
                forall|j: int| 0 <= j < k && #[trigger] allowed(edges, m, inc@[j]@ as int) ==> labels@[edges[inc@[j]@ as int].0 as int] == Some(c),
                k <= inc@.len(),
            decreases inc@.len() - k,
        {
            let e = inc[k];
            proof {
                lemma_in_list(edges, u@);
                assert(edge_positions(inc@)[k as int] == inc@[k as int]@);
            }
            if mask[e.index()] {
                let ends = graph.edge_endpoints(e).unwrap();
                let w = ends.source();
                proof {
                    assert(allowed(edges, m, e@ as int));
                    assert(has_edge(edges, m, w@, u@));
                    lemma_undirected_edge(edges, m, u@, w@);
                    lemma_reaches_step(und, m2, s as nat, u@, w@);
                }
                if labels[w.index()].is_none() {
                    let ghost before = node_positions(members@);
                    proof {
                        if before.contains(w@) {
                            let i = choose|i: int| 0 <= i < members@.len() && before[i] == w@;
                            assert(before[i] == members@[i]@);
                        }
                    }
                    labels.set(w.index(), Some(c));
                    members.push(w);
                    proof {
                        assert(node_positions(members@) =~= before.push(w@));
                        assert forall|i: int, j: int| 0 <= i < j < before.push(w@).len() implies
                            before.push(w@)[i] != before.push(w@)[j] by {
                            if j == before.len() {
                                assert(before.contains(before[i]));
                            }
                        }
                    }
                }
            }
            k = k + 1;
        }
        proof {
            assert forall|i: int, b: nat| 0 <= i < head + 1 && #[trigger] has_edge(und, m2, members@[i]@, b)
                implies labels@[b as int] == Some(c) by {
                if i == head {
                    lemma_undirected_edge(edges, m, u@, b);
                    if has_edge(edges, m, u@, b) {
                        let e = choose|e: int| #[trigger] allowed(edges, m, e) && edges[e].0 == u@ && edges[e].1 == b;
                        assert(crate::digraph::out_list(edges, u@).contains(e as nat));
                        let j = choose|j: int| 0 <= j < out@.len() && edge_positions(out@)[j] == e as nat;
                        assert(edge_positions(out@)[j] == out@[j]@);
                        assert(allowed(edges, m, out@[j]@ as int));
                    } else {
                        let e = choose|e: int| #[trigger] allowed(edges, m, e) && edges[e].0 == b && edges[e].1 == u@;
                        assert(crate::digraph::in_list(edges, u@).contains(e as nat));
                        let j = choose|j: int| 0 <= j < inc@.len() && edge_positions(inc@)[j] == e as nat;
                        assert(edge_positions(inc@)[j] == inc@[j]@);
                        assert(allowed(edges, m, inc@[j]@ as int));
                    }
                }
            }
        }
        head = head + 1;
    }
    proof {
        let lab = labels@;
        let inside = |a: nat| a < n && lab[a as int] == Some(c);
        assert forall|a: nat, b: nat| inside(a) && #[trigger] has_edge(und, m2, a, b) implies inside(b) by {
            lemma_undirected_edge_in_range(n, edges, m, a, b);
            assert(node_positions(members@).contains(a));
            let i = choose|i: int| 0 <= i < members@.len() && node_positions(members@)[i] == a;
            assert(node_positions(members@)[i] == members@[i]@);
            assert(has_edge(und, m2, members@[i]@, b));
        }
        let hs = heads.push(s);
        assert forall|d: int, v: nat| 0 <= d < hs.len() && v < n implies
            (#[trigger] lab[v as int] == Some(d as usize) <==> #[trigger] connected(edges, m, hs[d] as nat, v)) by {
            if d == heads.len() {
                if connected(edges, m, s as nat, v) {
                    lemma_closed_reach(und, m2, inside, s as nat, v);
                }
                if lab[v as int] == Some(d as usize) {
                    assert(node_positions(members@).contains(v));
                    let i = choose|i: int| 0 <= i < members@.len() && node_positions(members@)[i] == v;
                    assert(node_positions(members@)[i] == members@[i]@);
                }
            } else {
                assert(hs[d] == heads[d]);
                if lab[v as int] == Some(d as usize) {
                    assert(old_labels[v as int] is Some);
                }
            }
        }
        assert forall|d: int, v: int| #![trigger lab[v], hs[d]] 0 <= d < hs.len() && 0 <= v < n && lab[v] == Some(d as usize) implies hs[d] <= v by {
            if d == heads.len() {
                if v < s {
                    assert(old_labels[v] is Some);
                    assert(lab[v] == old_labels[v]);
                }
            } else {
                assert(old_labels[v] is Some);
            }
        }
        assert forall|v: int| 0 <= v < n && (#[trigger] lab[v]) is Some implies lab[v]->0 < hs.len() by {
            if old_labels[v] is Some {
            }
        }
    }
}

/// The weakly connected components of the edges that `mask` allows.
fn weak_with_mask<G: IndexGraphView>(graph: &G, mask: &Vec<bool>) -> (r: Vec<Vec<NodeIndex>>)
    requires
        mask@.len() == graph.spec_edges().len(),
    ensures
        is_weak_components(graph.spec_node_count(), graph.spec_edges(), mask@, component_positions(r@)),
{
    let n = graph.node_bound();
    let ghost edges = graph.spec_edges();
    let ghost m = mask@;
    let mut labels: Vec<Option<usize>> = Vec::new();
    let mut i: usize = 0;
    while i < n
        invariant
            i <= n,
            labels@.len() == i,
            forall|v: int| 0 <= v < i ==> (#[trigger] labels@[v]) is None,
        decreases n - i,
    {
        labels.push(None);
        i = i + 1;
    }
    let mut heads: Vec<usize> = Vec::new();
    let mut s: usize = 0;
    while s < n
        invariant
            n == graph.spec_node_count(),
            edges == graph.spec_edges(),
            m == mask@,
            m.len() == edges.len(),
            valid_model(n as nat, edges),
            s <= n,
            labelled_classes(n as nat, edges, m, labels@, heads@),
            forall|v: int| 0 <= v < s ==> (#[trigger] labels@[v]) is Some,
            forall|d: int| 0 <= d < heads@.len() ==> #[trigger] heads@[d] < s,
            heads@.len() <= s,
        decreases n - s,
    {
        if labels[s].is_none() {
            let c = heads.len();
            let ghost before = labels@;
            spread(graph, mask, &mut labels, s, c, Ghost(heads@));
            heads.push(s);
            proof {
                assert forall|v: int| 0 <= v < s + 1 implies (#[trigger] labels@[v]) is Some by {
                    if v < s {
                        assert(before[v] is Some);
                    }
                }
            }
        }
        s = s + 1;
    }
    let count = heads.len();
    let mut groups: Vec<Vec<NodeIndex>> = Vec::new();
    let mut d: usize = 0;
    while d < count
        invariant
            d <= count,
            groups@.len() == d,
            forall|j: int| 0 <= j < d ==> (#[trigger] groups@[j])@.len() == 0,
        decreases count - d,
    {
        groups.push(Vec::new());
        d = d + 1;
    }
    let mut v: usize = 0;
    while v < n
        invariant
            n == graph.spec_node_count(),
            edges == graph.spec_edges(),
            m == mask@,
            n <= u32::MAX,
            v <= n,
            count == heads@.len(),
            groups@.len() == count,
            labelled_classes(n as nat, edges, m, labels@, heads@),
            forall|x: int| 0 <= x < n ==> (#[trigger] labels@[x]) is Some,
            forall|j: int| 0 <= j < count ==> strictly_increasing(#[trigger] node_positions(groups@[j]@)),
            forall|j: int, k: int| 0 <= j < count && 0 <= k < groups@[j]@.len() ==>
                (#[trigger] groups@[j]@[k])@ < v && labels@[groups@[j]@[k]@ as int] == Some(j as usize),
            forall|x: nat| x < v ==> #[trigger] node_positions(groups@[labels@[x as int]->0 as int]@).contains(x),
        decreases n - v,
    {
        let d = labels[v].unwrap();
        let ghost before = groups@;
        let node = NodeIndex::new(v as u32);
        groups[d].push(node);
        proof {
            assert(groups@[d as int]@ == before[d as int]@.push(node));
            assert(node_positions(groups@[d as int]@) =~= node_positions(before[d as int]@).push(v as nat));
            assert forall|j: int| 0 <= j < count implies strictly_increasing(#[trigger] node_positions(groups@[j]@)) by {
                if j == d {
                    let old_pos = node_positions(before[j]@);
                    assert forall|a: int, b: int| 0 <= a < b < old_pos.len() + 1 implies
                        old_pos.push(v as nat)[a] < old_pos.push(v as nat)[b] by {
                        if b == old_pos.len() {
                            assert(old_pos[a] == before[j]@[a]@);
                        }
                    }
                } else {
                    assert(groups@[j] == before[j]);
                }
            }
            assert forall|j: int, k: int| 0 <= j < count && 0 <= k < groups@[j]@.len() implies
                (#[trigger] groups@[j]@[k])@ < v + 1 && labels@[groups@[j]@[k]@ as int] == Some(j as usize) by {
                if j != d {
                    assert(groups@[j] == before[j]);
                } else if k < before[j]@.len() {
                    assert(groups@[j]@[k] == before[j]@[k]);
                }
            }
            assert forall|x: nat| x < v + 1 implies #[trigger] node_positions(groups@[labels@[x as int]->0 as int]@).contains(x) by {
                let j = labels@[x as int]->0 as int;
                if x < v {
                    assert(node_positions(before[j]@).contains(x));
                    if j != d {
                        assert(groups@[j] == before[j]);
                    }
                }
            }
        }
        v = v + 1;
    }
    proof {
        let comps = component_positions(groups@);
        let related = |a: nat, b: nat| connected(edges, m, a, b);
        assert(comps.len() == count);
        assert forall|j: int| 0 <= j < count implies (#[trigger] comps[j])[0] == heads@[j] && comps[j].len() > 0
            && strictly_increasing(comps[j]) by {
            let h = heads@[j] as nat;
            lemma_reaches_refl(undirected(edges), both(m), h);
            assert(connected(edges, m, heads@[j] as nat, h));
            assert(labels@[h as int] == Some(j as usize));
            assert(node_positions(groups@[labels@[h as int]->0 as int]@).contains(h));
            assert(comps[j] == node_positions(groups@[j]@));
            let k = choose|k: int| 0 <= k < comps[j].len() && comps[j][k] == h;
            assert(comps[j][0] == groups@[j]@[0]@);
            assert(labels@[groups@[j]@[0]@ as int] == Some(j as usize));
            assert(heads@[j] <= comps[j][0]);
            if k > 0 {
                assert(comps[j][0] < comps[j][k]);
            }
        }
        assert forall|a: int, b: int| 0 <= a < b < comps.len() implies (#[trigger] comps[a])[0] < (#[trigger] comps[b])[0] by {
            assert(heads@[a] < heads@[b]);
        }
        assert forall|j: int, k: int| 0 <= j < comps.len() && 0 <= k < comps[j].len() implies
            (#[trigger] comps[j][k]) < n && related(comps[j][0], comps[j][k]) by {
            assert(comps[j] == node_positions(groups@[j]@));
            assert(comps[j][k] == groups@[j]@[k]@);
            assert(labels@[comps[j][k] as int] == Some(j as usize));
        }
        assert forall|j: int, x: nat| 0 <= j < comps.len() && x < n && #[trigger] related(comps[j][0], x) implies comps[j].contains(x) by {
            assert(comps[j] == node_positions(groups@[j]@));
            assert(connected(edges, m, heads@[j] as nat, x));
            assert(labels@[x as int] == Some(j as usize));
            assert(node_positions(groups@[labels@[x as int]->0 as int]@).contains(x));
        }
        assert forall|x: nat| x < n implies #[trigger] crate::reach::listed(comps, x) by {
            let j = labels@[x as int]->0 as int;
            assert(node_positions(groups@[j]@).contains(x));
            assert(comps[j] == node_positions(groups@[j]@));
        }
    }
    groups
}

/// The weakly connected components: nodes joined by edges followed in
/// either direction, each component in increasing node order and the
/// components ordered by their smallest node.
pub fn weakly_connected_components<G: IndexGraphView>(graph: &G) -> (r: Vec<Vec<NodeIndex>>)
    ensures
        is_weak_components(graph.spec_node_count(), graph.spec_edges(), full_mask(graph.spec_edges().len()), component_positions(r@)),
{
    let mask = full_edge_mask(graph);
    weak_with_mask(graph, &mask)
}

/// The weakly connected components of the edges that `allows_edge` accepts.
pub fn weakly_connected_components_filtered<G: IndexGraphView, F: Fn(EdgeIndex) -> bool>(graph: &G, allows_edge: F) -> (r: Vec<Vec<NodeIndex>>)
    requires
        forall|e: EdgeIndex| allows_edge.requires((e,)),
    ensures
        exists|mask: Seq<bool>| {
            &&& is_edge_mask(allows_edge, graph.spec_edges().len(), mask)
            &&& is_weak_components(graph.spec_node_count(), graph.spec_edges(), mask, component_positions(r@))
        },
{
    let mask = edge_mask(graph, &allows_edge);
    weak_with_mask(graph, &mask)
}

} // verus!

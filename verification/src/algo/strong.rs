//! Strongly connected components by two depth-first passes: one that
//! records finishing order, one that follows edges backwards from the
//! latest finisher still unassigned.
use crate::algo::mask::{edge_mask, full_edge_mask};
use crate::algo::weak::component_positions;
use crate::digraph::{allowed, full_mask, has_edge, is_edge_mask, is_walk, lemma_in_list, lemma_out_list, reaches, valid_model};
use crate::index::{EdgeIndex, NodeIndex};
use crate::reach::{lemma_closed_reach, lemma_reaches_refl, lemma_reaches_trans, listed, mutually_reach};
use crate::topology::{edge_positions, node_positions, IndexGraphView};
use vstd::prelude::*;

verus! {

broadcast use {crate::index::group_index_lemmas, crate::digraph::lemma_push_contains};

/// Every node below `n` lies in exactly one of the non-empty lists, once.
pub open spec fn is_partition(n: nat, comps: Seq<Seq<nat>>) -> bool {
    &&& forall|i: int| 0 <= i < comps.len() ==> (#[trigger] comps[i]).len() > 0
    &&& forall|i: int, k: int| 0 <= i < comps.len() && 0 <= k < comps[i].len() ==> #[trigger] comps[i][k] < n
    &&& forall|v: nat| v < n ==> #[trigger] listed(comps, v)
    &&& forall|i: int, k: int, j: int, l: int|
        0 <= i < comps.len() && 0 <= k < comps[i].len() && 0 <= j < comps.len() && 0 <= l < comps[j].len()
        && #[trigger] comps[i][k] == #[trigger] comps[j][l] ==> i == j && k == l
}

/// The lists partition the nodes; every member of a list reaches the
/// list's first node, and every node that reaches it lies in that list
/// or an earlier one.
pub open spec fn is_backward_cover(n: nat, edges: Seq<(nat, nat)>, mask: Seq<bool>, comps: Seq<Seq<nat>>) -> bool {
    &&& is_partition(n, comps)
    &&& forall|i: int, k: int| 0 <= i < comps.len() && 0 <= k < comps[i].len()
        ==> reaches(edges, mask, #[trigger] comps[i][k], comps[i][0])
    &&& forall|i: int, v: nat| 0 <= i < comps.len() && v < n && #[trigger] reaches(edges, mask, v, comps[i][0])
        ==> exists|j: int| 0 <= j <= i && #[trigger] comps[j].contains(v)
}

/// Every allowed edge out of a finished node leads to a seen node.
spec fn finished_closed(edges: Seq<(nat, nat)>, mask: Seq<bool>, seen: Seq<bool>, fin: Seq<nat>) -> bool {
    forall|a: int, e: int| 0 <= a < fin.len() && #[trigger] allowed(edges, mask, e) && edges[e].0 == #[trigger] fin[a]
        ==> seen[edges[e].1 as int]
}

/// What finishing order tells of `x`: each node `y` that `x` reaches but
/// that does not reach back finished before some node in both directions
/// joined to `x`, or such a node is still being searched.
spec fn finish_key(edges: Seq<(nat, nat)>, mask: Seq<bool>, fin: Seq<nat>, stack: Seq<(usize, bool)>, x: nat) -> bool {
    forall|y: nat| #[trigger] reaches(edges, mask, x, y) && !reaches(edges, mask, y, x) ==>
        (exists|a: int, b: int| #![trigger fin[a], fin[b]] 0 <= b < a < fin.len() && fin[b] == y && mutually_reach(edges, mask, fin[a], x))
        || (exists|i: int| 0 <= i < stack.len() && (#[trigger] stack[i]).1 && mutually_reach(edges, mask, stack[i].0 as nat, x))
}

/// The finishing-order facts of every finished node.
spec fn finish_keys(edges: Seq<(nat, nat)>, mask: Seq<bool>, fin: Seq<nat>, stack: Seq<(usize, bool)>) -> bool {
    forall|a: int| 0 <= a < fin.len() ==> #[trigger] finish_key(edges, mask, fin, stack, fin[a])
}

/// A walk from a seen node to an unseen one steps from a seen node to an
/// unseen one somewhere.
proof fn first_unseen_step(edges: Seq<(nat, nat)>, mask: Seq<bool>, seen: Seq<bool>, w: Seq<nat>, k: int) -> (q: int)
    requires
        is_walk(edges, mask, w),
        0 <= k < w.len(),
        w[k] < seen.len() && seen[w[k] as int],
        forall|i: int| 0 <= i < w.len() ==> #[trigger] w[i] < seen.len(),
        !seen[w[w.len() - 1] as int],
    ensures
        k < q < w.len(),
        seen[w[q - 1] as int],
        !seen[w[q] as int],
    decreases w.len() - k,
{
    if !seen[w[k + 1] as int] {
        k + 1
    } else {
        first_unseen_step(edges, mask, seen, w, k + 1)
    }
}

/// The nodes of a walk that starts below `n` lie below `n`.
proof fn lemma_walk_below(n: nat, edges: Seq<(nat, nat)>, mask: Seq<bool>, w: Seq<nat>)
    requires
        valid_model(n, edges),
        is_walk(edges, mask, w),
        w[0] < n,
    ensures
        forall|i: int| 0 <= i < w.len() ==> #[trigger] w[i] < n,
{
    assert forall|i: int| 0 <= i < w.len() implies #[trigger] w[i] < n by {
        if i > 0 {
            let j = i - 1;
            assert(has_edge(edges, mask, w[j], w[j + 1]));
            let e = choose|e: int| #[trigger] allowed(edges, mask, e) && edges[e].0 == w[j] && edges[e].1 == w[j + 1];
        }
    }
}

/// The first `k + 1` nodes of a walk form a walk.
proof fn lemma_walk_prefix(edges: Seq<(nat, nat)>, mask: Seq<bool>, w: Seq<nat>, k: int)
    requires
        is_walk(edges, mask, w),
        0 <= k < w.len(),
    ensures
        reaches(edges, mask, w[0], w[k]),
{
    let p = w.subrange(0, k + 1);
    assert forall|i: int| 0 <= i < p.len() - 1 implies #[trigger] has_edge(edges, mask, p[i], p[i + 1]) by {
        assert(p[i] == w[i] && p[i + 1] == w[i + 1]);
        assert(has_edge(edges, mask, w[i], w[i + 1]));
    }
    assert(is_walk(edges, mask, p));
}

/// When the top node `v` of the stack finishes, every node it reaches that
/// does not reach back has finished already, or some node still on the
/// stack below it lies on a cycle with `v`.
proof fn lemma_finishing(
    n: nat,
    edges: Seq<(nat, nat)>,
    mask: Seq<bool>,
    seen: Seq<bool>,
    fin: Seq<nat>,
    stack: Seq<(usize, bool)>,
    v: nat,
    y: nat,
)
    requires
        valid_model(n, edges),
        seen.len() == n,
        stack.len() > 0,
        stack[stack.len() - 1] == (v as usize, true),
        v < n,
        finished_closed(edges, mask, seen, fin),
        forall|i: int| 0 <= i < stack.len() && (#[trigger] stack[i]).1 ==> stack[i].0 < n && seen[stack[i].0 as int],
        forall|x: nat| x < n && seen[x as int] ==> #[trigger] fin.contains(x)
            || exists|i: int| 0 <= i < stack.len() && #[trigger] stack[i] == (x as usize, true),
        forall|i: int, j: int| 0 <= i < j < stack.len() && (#[trigger] stack[i]).1 ==> reaches(edges, mask, stack[i].0 as nat, (#[trigger] stack[j]).0 as nat),
        forall|i: int, j: int| 0 <= i < j < stack.len() && (#[trigger] stack[i]).1 && (#[trigger] stack[j]).1 ==> stack[i].0 != stack[j].0,
        forall|e: int| #[trigger] allowed(edges, mask, e) && edges[e].0 == v ==> seen[edges[e].1 as int],
        reaches(edges, mask, v, y),
        !reaches(edges, mask, y, v),
    ensures
        fin.contains(y) || exists|i: int| 0 <= i < stack.len() - 1 && (#[trigger] stack[i]).1
            && mutually_reach(edges, mask, stack[i].0 as nat, v),
{
    let w = choose|w: Seq<nat>| #[trigger] is_walk(edges, mask, w) && w[0] == v && w[w.len() - 1] == y;
    lemma_walk_below(n, edges, mask, w);
    let top = stack.len() - 1;
    if seen[y as int] {
        if !fin.contains(y) {
            let i = choose|i: int| 0 <= i < stack.len() && stack[i] == (y as usize, true);
            if i == top {
                lemma_reaches_refl(edges, mask, v);
            } else {
                assert(reaches(edges, mask, stack[i].0 as nat, stack[top].0 as nat));
            }
        }
    } else {
        assert(seen[w[0] as int]) by {
            assert(stack[top].1);
        }
        let q = first_unseen_step(edges, mask, seen, w, 0);
        let p = w[q - 1];
        let j = q - 1;
        assert(has_edge(edges, mask, w[j], w[j + 1]));
        let e = choose|e: int| #[trigger] allowed(edges, mask, e) && edges[e].0 == w[j] && edges[e].1 == w[j + 1];
        if fin.contains(p) {
            let a = choose|a: int| 0 <= a < fin.len() && fin[a] == p;
            assert(seen[edges[e].1 as int]);
        }
        assert(p != v);
        let i = choose|i: int| 0 <= i < stack.len() && stack[i] == (p as usize, true);
        assert(i != top);
        assert(reaches(edges, mask, stack[i].0 as nat, stack[top].0 as nat));
        lemma_walk_prefix(edges, mask, w, j);
        assert(mutually_reach(edges, mask, stack[i].0 as nat, v));
    }
}

/// The lists are the strongly connected components: a backward cover
/// whose lists' first nodes reach every member of their list.
pub open spec fn is_strong_components(n: nat, edges: Seq<(nat, nat)>, mask: Seq<bool>, comps: Seq<Seq<nat>>) -> bool {
    &&& is_backward_cover(n, edges, mask, comps)
    &&& forall|i: int, k: int| 0 <= i < comps.len() && 0 <= k < comps[i].len()
        ==> reaches(edges, mask, comps[i][0], #[trigger] comps[i][k])
}

/// Two listed nodes share a list exactly when each reaches the other.
pub proof fn lemma_same_list_iff_mutual(n: nat, edges: Seq<(nat, nat)>, mask: Seq<bool>, comps: Seq<Seq<nat>>, i: int, k: int, j: int, l: int)
    requires
        is_strong_components(n, edges, mask, comps),
        0 <= i < comps.len(),
        0 <= k < comps[i].len(),
        0 <= j < comps.len(),
        0 <= l < comps[j].len(),
    ensures
        i == j <==> mutually_reach(edges, mask, comps[i][k], comps[j][l]),
{
    let u = comps[i][k];
    let v = comps[j][l];
    assert(reaches(edges, mask, u, comps[i][0]));
    assert(reaches(edges, mask, v, comps[j][0]));
    assert(reaches(edges, mask, comps[i][0], u));
    assert(reaches(edges, mask, comps[j][0], v));
    if i == j {
        lemma_reaches_trans(edges, mask, u, comps[i][0], v);
        lemma_reaches_trans(edges, mask, v, comps[i][0], u);
    } else if mutually_reach(edges, mask, u, v) {
        lemma_reaches_trans(edges, mask, v, u, comps[i][0]);
        lemma_reaches_trans(edges, mask, u, v, comps[j][0]);
        assert(v < n && u < n);
        let a = choose|a: int| 0 <= a <= i && #[trigger] comps[a].contains(v);
        let b = choose|b: int| 0 <= b <= j && #[trigger] comps[b].contains(u);
        let la = choose|la: int| 0 <= la < comps[a].len() && comps[a][la] == v;
        let lb = choose|lb: int| 0 <= lb < comps[b].len() && comps[b][lb] == u;
        assert(comps[a][la] == comps[j][l]);
        assert(comps[b][lb] == comps[i][k]);
    }
}

/// Depth-first search from `start` along allowed edges, appending every
/// node it finishes to `finish`.
fn finish_from<G: IndexGraphView>(
    graph: &G,
    mask: &Vec<bool>,
    start: usize,
    seen: &mut Vec<bool>,
    finish: &mut Vec<NodeIndex>,
    Ghost(marked): Ghost<Seq<nat>>,
) -> (r: Ghost<Seq<nat>>)
    requires
        valid_model(graph.spec_node_count(), graph.spec_edges()),
        mask@.len() == graph.spec_edges().len(),
        old(seen)@.len() == graph.spec_node_count(),
        start < graph.spec_node_count(),
        first_pass(graph.spec_node_count(), old(seen)@, node_positions(old(finish)@), marked),
        finished_closed(graph.spec_edges(), mask@, old(seen)@, node_positions(old(finish)@)),
        finish_keys(graph.spec_edges(), mask@, node_positions(old(finish)@), Seq::empty()),
    ensures
        first_pass(graph.spec_node_count(), final(seen)@, node_positions(final(finish)@), r@),
        finished_closed(graph.spec_edges(), mask@, final(seen)@, node_positions(final(finish)@)),
        finish_keys(graph.spec_edges(), mask@, node_positions(final(finish)@), Seq::empty()),
        final(seen)@.len() == graph.spec_node_count(),
        final(seen)@[start as int],
        forall|v: int| 0 <= v < graph.spec_node_count() && #[trigger] old(seen)@[v] ==> final(seen)@[v],
{
    let ghost n = graph.spec_node_count();
    let ghost edges = graph.spec_edges();
    let ghost m = mask@;
    if seen[start] {
        return Ghost(marked);
    }
    let ghost mut marked = marked;
    let ghost seen0 = seen@;
    let mut stack: Vec<(usize, bool)> = Vec::new();
    stack.push((start, false));
    proof {
        lemma_keys_any_stack(edges, m, node_positions(finish@), stack@);
    }
    while stack.len() > 0
        invariant
            n == graph.spec_node_count(),
            edges == graph.spec_edges(),
            m == mask@,
            valid_model(n, edges),
            mask@.len() == edges.len(),
            seen@.len() == n,
            start < n,
            seen0.len() == n,
            seen@[start as int] || stack@ == seq![(start, false)],
            forall|v: int| 0 <= v < n && #[trigger] seen0[v] ==> seen@[v],
            marked.no_duplicates(),
            forall|i: int| 0 <= i < marked.len() ==> #[trigger] marked[i] < n,
            forall|v: nat| v < n ==> (seen@[v as int] <==> #[trigger] marked.contains(v)),
            node_positions(finish@).no_duplicates(),
            forall|i: int| 0 <= i < finish@.len() ==> #[trigger] node_positions(finish@)[i] < n
                && seen@[node_positions(finish@)[i] as int],
            forall|i: int| 0 <= i < stack@.len() ==> (#[trigger] stack@[i]).0 < n,
            forall|i: int| 0 <= i < stack@.len() && (#[trigger] stack@[i]).1 ==> seen@[stack@[i].0 as int]
                && !node_positions(finish@).contains(stack@[i].0 as nat),
            forall|i: int, j: int| 0 <= i < j < stack@.len() && (#[trigger] stack@[i]).1 && (#[trigger] stack@[j]).1
                ==> stack@[i].0 != stack@[j].0,
            forall|v: nat| v < n && seen@[v as int] ==> #[trigger] node_positions(finish@).contains(v)
                || exists|i: int| 0 <= i < stack@.len() && #[trigger] stack@[i] == (v as usize, true),
            finished_closed(edges, m, seen@, node_positions(finish@)),
            forall|i: int, j: int| 0 <= i < j < stack@.len() && (#[trigger] stack@[i]).1
                ==> reaches(edges, m, stack@[i].0 as nat, (#[trigger] stack@[j]).0 as nat),
            forall|i: int, e: int| 0 <= i < stack@.len() && (#[trigger] stack@[i]).1 && #[trigger] allowed(edges, m, e)
                && edges[e].0 == stack@[i].0 ==> seen@[edges[e].1 as int]
                    || exists|k: int| i < k < stack@.len() && #[trigger] stack@[k] == (edges[e].1 as usize, false),
            finish_keys(edges, m, node_positions(finish@), stack@),
        decreases n - marked.len(), stack@.len(),
    {
        proof {
            crate::digraph::lemma_distinct_below(marked, n);
        }
        let ghost pre = stack@;
        let ghost fin0 = node_positions(finish@);
        let top = stack.pop().unwrap();
        let (node, exiting) = top;
        let ghost popped = stack@;
        let ghost seen_before = seen@;
        proof {
            assert(pre =~= popped.push(top));
            assert(pre[popped.len() as int] == top);
        }
        if exiting {
            proof {
                assert forall|e: int| #[trigger] allowed(edges, m, e) && edges[e].0 == node implies seen@[edges[e].1 as int] by {
                    assert(pre[popped.len() as int].1);
                    if !seen@[edges[e].1 as int] {
                        let k = choose|k: int| popped.len() < k < pre.len() && #[trigger] pre[k] == (edges[e].1 as usize, false);
                    }
                }
                assert forall|y: nat| #[trigger] reaches(edges, m, node as nat, y) && !reaches(edges, m, y, node as nat) implies
                    fin0.contains(y) || exists|i: int| 0 <= i < pre.len() - 1 && (#[trigger] pre[i]).1
                        && mutually_reach(edges, m, pre[i].0 as nat, node as nat) by {
                    lemma_finishing(n, edges, m, seen@, fin0, pre, node as nat, y);
                }
            }
            finish.push(NodeIndex::new(node as u32));
            proof {
                let fin1 = node_positions(finish@);
                assert(fin1 =~= fin0.push(node as nat));
                assert forall|v: nat| v < n && seen@[v as int] implies #[trigger] node_positions(finish@).contains(v)
                    || exists|i: int| 0 <= i < stack@.len() && #[trigger] stack@[i] == (v as usize, true) by {
                    if v != node && !fin0.contains(v) {
                        let i = choose|i: int| 0 <= i < popped.len() + 1 && #[trigger] pre[i] == (v as usize, true);
                        assert(pre[i] == popped[i]);
                    }
                }
                assert forall|i: int| 0 <= i < stack@.len() && (#[trigger] stack@[i]).1 implies seen@[stack@[i].0 as int]
                    && !node_positions(finish@).contains(stack@[i].0 as nat) by {
                    assert(pre[i] == stack@[i]);
                    assert(pre[popped.len() as int] == top);
                }
                assert forall|a: int, e: int| 0 <= a < fin1.len() && #[trigger] allowed(edges, m, e) && edges[e].0 == #[trigger] fin1[a]
                    implies seen@[edges[e].1 as int] by {
                    if a < fin0.len() {
                        assert(fin1[a] == fin0[a]);
                    }
                }
                assert forall|i: int, j: int| 0 <= i < j < stack@.len() && (#[trigger] stack@[i]).1
                    implies reaches(edges, m, stack@[i].0 as nat, (#[trigger] stack@[j]).0 as nat) by {
                    assert(pre[i] == stack@[i] && pre[j] == stack@[j]);
                }
                assert forall|i: int, e: int| 0 <= i < stack@.len() && (#[trigger] stack@[i]).1 && #[trigger] allowed(edges, m, e)
                    && edges[e].0 == stack@[i].0 implies seen@[edges[e].1 as int]
                        || exists|k: int| i < k < stack@.len() && #[trigger] stack@[k] == (edges[e].1 as usize, false) by {
                    assert(pre[i] == stack@[i]);
                    if !seen@[edges[e].1 as int] {
                        let k = choose|k: int| i < k < pre.len() && #[trigger] pre[k] == (edges[e].1 as usize, false);
                        assert(k != popped.len());
                        assert(stack@[k] == pre[k]);
                    }
                }
                lemma_keys_after_finish(edges, m, fin0, pre, node as nat);
                assert(stack@ =~= pre.drop_last());
            }
        } else if !seen[node] {
            seen.set(node, true);
            proof {
                assert(!marked.contains(node as nat));
                let prior = marked;
                marked = marked.push(node as nat);
                assert forall|a: int, b: int| 0 <= a < b < marked.len() implies marked[a] != marked[b] by {
                    if b == prior.len() {
                        assert(prior.contains(marked[a]));
                    }
                }
                crate::digraph::lemma_distinct_below(marked, n);
            }
            stack.push((node, true));
            let out = graph.outgoing_edges(NodeIndex::new(node as u32));
            proof {
                lemma_out_list(edges, node as nat);
                assert forall|i: int| 0 <= i < popped.len() && (#[trigger] popped[i]).1
                    implies reaches(edges, m, popped[i].0 as nat, node as nat) by {
                    assert(pre[i] == popped[i]);
                    assert(pre[popped.len() as int].0 == node);
                }
            }
            let mut j: usize = out.len();
            while j > 0
                invariant
                    n == graph.spec_node_count(),
                    edges == graph.spec_edges(),
                    m == mask@,
                    valid_model(n, edges),
                    mask@.len() == edges.len(),
                    seen@.len() == n,
                    node < n,
                    seen@[node as int],
                    j <= out@.len(),
                    edge_positions(out@) == crate::digraph::out_list(edges, node as nat),
                    stack@.len() >= popped.len() + 1,
                    stack@.subrange(0, popped.len() as int + 1) == popped.push((node, true)),
                    forall|i: int| popped.len() + 1 <= i < stack@.len() ==> !(#[trigger] stack@[i]).1,
                    forall|i: int| 0 <= i < stack@.len() ==> (#[trigger] stack@[i]).0 < n,
                    forall|i: int| popped.len() + 1 <= i < stack@.len() ==> reaches(edges, m, node as nat, (#[trigger] stack@[i]).0 as nat),
                    forall|i: int| 0 <= i < popped.len() && (#[trigger] popped[i]).1 ==> reaches(edges, m, popped[i].0 as nat, node as nat),
                    forall|k: int| j <= k < out@.len() && #[trigger] allowed(edges, m, out@[k]@ as int) ==> seen@[edges[out@[k]@ as int].1 as int]
                        || exists|l: int| popped.len() < l < stack@.len() && #[trigger] stack@[l] == (edges[out@[k]@ as int].1 as usize, false),
                decreases j,
            {
                j = j - 1;
                let edge = out[j];
                let ghost before_push = stack@;
                proof {
                    lemma_out_list(edges, node as nat);
                    assert(edge_positions(out@)[j as int] == edge@);
                    assert(crate::digraph::out_list(edges, node as nat)[j as int] < edges.len());
                }
                if mask[edge.index()] {
                    match graph.edge_endpoints(edge) {
                        Some(ends) => {
                            let target = ends.target().index();
                            proof {
                                assert(edges[edge@ as int].1 < n);
                            }
                            if !seen[target] {
                                stack.push((target, false));
                                proof {
                                    assert(stack@.subrange(0, popped.len() as int + 1) =~= before_push.subrange(0, popped.len() as int + 1));
                                    assert(allowed(edges, m, edge@ as int));
                                    assert(has_edge(edges, m, node as nat, target as nat));
                                    lemma_reaches_refl(edges, m, node as nat);
                                    crate::reach::lemma_reaches_step(edges, m, node as nat, node as nat, target as nat);
                                    assert forall|k: int| j <= k < out@.len() && #[trigger] allowed(edges, m, out@[k]@ as int) implies
                                        seen@[edges[out@[k]@ as int].1 as int] || exists|l: int| popped.len() < l < stack@.len()
                                            && #[trigger] stack@[l] == (edges[out@[k]@ as int].1 as usize, false) by {
                                        if k == j {
                                            assert(stack@[before_push.len() as int] == (target, false));
                                        } else if !seen@[edges[out@[k]@ as int].1 as int] {
                                            let l = choose|l: int| popped.len() < l < before_push.len()
                                                && #[trigger] before_push[l] == (edges[out@[k]@ as int].1 as usize, false);
                                            assert(stack@[l] == before_push[l]);
                                        }
                                    }
                                }
                            }
                        },
                        None => {},
                    }
                }
            }
            proof {
                let base = popped.push((node, true));
                assert forall|i: int| 0 <= i < base.len() implies #[trigger] stack@[i] == base[i] by {
                    assert(stack@.subrange(0, popped.len() as int + 1)[i] == stack@[i]);
                }
                assert forall|i: int| 0 <= i < stack@.len() && (#[trigger] stack@[i]).1 implies seen@[stack@[i].0 as int]
                    && !node_positions(finish@).contains(stack@[i].0 as nat) by {
                    if i < popped.len() {
                        assert(stack@[i] == base[i]);
                        assert(pre[i] == popped[i]);
                    } else {
                        assert(stack@[i] == base[i]);
                    }
                }
                assert forall|i: int, k: int| 0 <= i < k < stack@.len() && (#[trigger] stack@[i]).1 && (#[trigger] stack@[k]).1
                    implies stack@[i].0 != stack@[k].0 by {
                    assert(stack@[i] == base[i]);
                    assert(stack@[k] == base[k]);
                    if k == popped.len() {
                        assert(pre[i] == popped[i]);
                        assert(seen_before[popped[i].0 as int]);
                    } else {
                        assert(pre[i] == popped[i]);
                        assert(pre[k] == popped[k]);
                    }
                }
                assert forall|v: nat| v < n && seen@[v as int] implies #[trigger] node_positions(finish@).contains(v)
                    || exists|i: int| 0 <= i < stack@.len() && #[trigger] stack@[i] == (v as usize, true) by {
                    if v == node {
                        assert(stack@[popped.len() as int] == (v as usize, true));
                    } else if !node_positions(finish@).contains(v) {
                        let i = choose|i: int| 0 <= i < popped.len() + 1 && #[trigger] pre[i] == (v as usize, true);
                        assert(pre[i] == popped[i]);
                        assert(stack@[i] == base[i]);
                    }
                }
                assert forall|i: int, k: int| 0 <= i < k < stack@.len() && (#[trigger] stack@[i]).1
                    implies reaches(edges, m, stack@[i].0 as nat, (#[trigger] stack@[k]).0 as nat) by {
                    assert(stack@[i] == base[i]);
                    if k < popped.len() {
                        assert(stack@[k] == base[k]);
                        assert(pre[i] == popped[i] && pre[k] == popped[k]);
                    } else if k == popped.len() {
                        assert(stack@[k] == base[k]);
                    } else if i == popped.len() {
                    } else {
                        assert(popped[i] == base[i]);
                        crate::reach::lemma_reaches_trans(edges, m, stack@[i].0 as nat, node as nat, stack@[k].0 as nat);
                    }
                }
                assert forall|i: int, e: int| 0 <= i < stack@.len() && (#[trigger] stack@[i]).1 && #[trigger] allowed(edges, m, e)
                    && edges[e].0 == stack@[i].0 implies seen@[edges[e].1 as int]
                        || exists|k: int| i < k < stack@.len() && #[trigger] stack@[k] == (edges[e].1 as usize, false) by {
                    assert(stack@[i] == base[i]);
                    if i == popped.len() {
                        assert(crate::digraph::out_list(edges, node as nat).contains(e as nat));
                        let k = choose|k: int| 0 <= k < out@.len() && crate::digraph::out_list(edges, node as nat)[k] == e as nat;
                        assert(edge_positions(out@)[k] == out@[k]@);
                    } else {
                        assert(pre[i] == popped[i]);
                        if !seen_before[edges[e].1 as int] {
                            let k = choose|k: int| i < k < pre.len() && #[trigger] pre[k] == (edges[e].1 as usize, false);
                            if k < popped.len() {
                                assert(stack@[k] == base[k]);
                            } else {
                                assert(k == popped.len());
                                assert(pre[k].0 == node);
                                assert(seen@[node as int]);
                            }
                        }
                    }
                }
                assert forall|a: int, e: int| 0 <= a < node_positions(finish@).len() && #[trigger] allowed(edges, m, e)
                    && edges[e].0 == #[trigger] node_positions(finish@)[a] implies seen@[edges[e].1 as int] by {
                    assert(seen_before[edges[e].1 as int]);
                }
                lemma_keys_grow(edges, m, fin0, pre, stack@, popped.len() as int);
            }
        } else {
            proof {
                assert forall|i: int| 0 <= i < stack@.len() && (#[trigger] stack@[i]).1 implies seen@[stack@[i].0 as int]
                    && !node_positions(finish@).contains(stack@[i].0 as nat) by {
                    assert(pre[i] == stack@[i]);
                }
                assert forall|v: nat| v < n && seen@[v as int] implies #[trigger] node_positions(finish@).contains(v)
                    || exists|i: int| 0 <= i < stack@.len() && #[trigger] stack@[i] == (v as usize, true) by {
                    if !node_positions(finish@).contains(v) {
                        let i = choose|i: int| 0 <= i < popped.len() + 1 && #[trigger] pre[i] == (v as usize, true);
                        assert(pre[i] == popped[i]);
                    }
                }
                assert forall|i: int, j: int| 0 <= i < j < stack@.len() && (#[trigger] stack@[i]).1
                    implies reaches(edges, m, stack@[i].0 as nat, (#[trigger] stack@[j]).0 as nat) by {
                    assert(pre[i] == stack@[i] && pre[j] == stack@[j]);
                }
                assert forall|i: int, e: int| 0 <= i < stack@.len() && (#[trigger] stack@[i]).1 && #[trigger] allowed(edges, m, e)
                    && edges[e].0 == stack@[i].0 implies seen@[edges[e].1 as int]
                        || exists|k: int| i < k < stack@.len() && #[trigger] stack@[k] == (edges[e].1 as usize, false) by {
                    assert(pre[i] == stack@[i]);
                    if !seen@[edges[e].1 as int] {
                        let k = choose|k: int| i < k < pre.len() && #[trigger] pre[k] == (edges[e].1 as usize, false);
                        if k == popped.len() {
                            assert(pre[k].0 == node);
                        } else {
                            assert(stack@[k] == pre[k]);
                        }
                    }
                }
                lemma_keys_grow(edges, m, fin0, pre, stack@, popped.len() as int);
            }
        }
    }
    proof {
        assert(stack@ =~= Seq::<(usize, bool)>::empty());
    }
    Ghost(marked)
}

/// With nothing on the stack, the finishing facts rest on finished nodes
/// alone, and so hold whatever stack comes next.
proof fn lemma_keys_any_stack(edges: Seq<(nat, nat)>, mask: Seq<bool>, fin: Seq<nat>, stack: Seq<(usize, bool)>)
    requires
        finish_keys(edges, mask, fin, Seq::empty()),
    ensures
        finish_keys(edges, mask, fin, stack),
{
    assert forall|a: int| 0 <= a < fin.len() implies #[trigger] finish_key(edges, mask, fin, stack, fin[a]) by {
        assert(finish_key(edges, mask, fin, Seq::empty(), fin[a]));
    }
}

/// Popping the top frame and pushing frames above what stays keeps every
/// entered frame that stays: the finishing facts still hold.
proof fn lemma_keys_grow(
    edges: Seq<(nat, nat)>,
    mask: Seq<bool>,
    fin: Seq<nat>,
    pre: Seq<(usize, bool)>,
    post: Seq<(usize, bool)>,
    keep: int,
)
    requires
        finish_keys(edges, mask, fin, pre),
        keep == pre.len() - 1,
        0 <= keep,
        !pre[keep].1,
        keep <= post.len(),
        forall|i: int| 0 <= i < keep ==> #[trigger] post[i] == pre[i],
    ensures
        finish_keys(edges, mask, fin, post),
{
    assert forall|a: int| 0 <= a < fin.len() implies #[trigger] finish_key(edges, mask, fin, post, fin[a]) by {
        assert(finish_key(edges, mask, fin, pre, fin[a]));
        assert forall|y: nat| #[trigger] reaches(edges, mask, fin[a], y) && !reaches(edges, mask, y, fin[a]) implies
            (exists|c: int, b: int| #![trigger fin[c], fin[b]] 0 <= b < c < fin.len() && fin[b] == y && mutually_reach(edges, mask, fin[c], fin[a]))
            || (exists|i: int| 0 <= i < post.len() && (#[trigger] post[i]).1 && mutually_reach(edges, mask, post[i].0 as nat, fin[a])) by {
            if !(exists|c: int, b: int| #![trigger fin[c], fin[b]] 0 <= b < c < fin.len() && fin[b] == y && mutually_reach(edges, mask, fin[c], fin[a])) {
                let i = choose|i: int| 0 <= i < pre.len() && (#[trigger] pre[i]).1 && mutually_reach(edges, mask, pre[i].0 as nat, fin[a]);
                assert(i != keep);
                assert(post[i] == pre[i]);
            }
        }
    }
}

/// Finishing the top node `v` keeps the finishing facts, for `v` and for
/// every node finished before it.
proof fn lemma_keys_after_finish(edges: Seq<(nat, nat)>, mask: Seq<bool>, fin: Seq<nat>, pre: Seq<(usize, bool)>, v: nat)
    requires
        finish_keys(edges, mask, fin, pre),
        pre.len() > 0,
        v <= u32::MAX,
        pre[pre.len() - 1] == (v as usize, true),
        forall|y: nat| #[trigger] reaches(edges, mask, v, y) && !reaches(edges, mask, y, v) ==>
            fin.contains(y) || exists|i: int| 0 <= i < pre.len() - 1 && (#[trigger] pre[i]).1
                && mutually_reach(edges, mask, pre[i].0 as nat, v),
    ensures
        finish_keys(edges, mask, fin.push(v), pre.drop_last()),
{
    let fin1 = fin.push(v);
    let post = pre.drop_last();
    let top = pre.len() - 1;
    assert forall|a: int| 0 <= a < fin1.len() implies #[trigger] finish_key(edges, mask, fin1, post, fin1[a]) by {
        let x = fin1[a];
        assert forall|y: nat| #[trigger] reaches(edges, mask, x, y) && !reaches(edges, mask, y, x) implies
            (exists|c: int, b: int| #![trigger fin1[c], fin1[b]] 0 <= b < c < fin1.len() && fin1[b] == y && mutually_reach(edges, mask, fin1[c], x))
            || (exists|i: int| 0 <= i < post.len() && (#[trigger] post[i]).1 && mutually_reach(edges, mask, post[i].0 as nat, x)) by {
            // the cases where `v` itself stands in for a node joined to `x`
            let through_v = a == fin.len() || mutually_reach(edges, mask, v, x);
            if a < fin.len() {
                assert(fin1[a] == fin[a]);
                assert(finish_key(edges, mask, fin, pre, fin[a]));
            }
            if through_v {
                if a == fin.len() {
                    lemma_reaches_refl(edges, mask, v);
                }
                assert(mutually_reach(edges, mask, v, x));
                crate::reach::lemma_reaches_trans(edges, mask, v, x, y);
                if reaches(edges, mask, y, v) {
                    crate::reach::lemma_reaches_trans(edges, mask, y, v, x);
                }
                if fin.contains(y) {
                    let b = choose|b: int| 0 <= b < fin.len() && fin[b] == y;
                    assert(fin1[b] == y);
                    assert(fin1[fin.len() as int] == v);
                } else {
                    let i = choose|i: int| 0 <= i < pre.len() - 1 && (#[trigger] pre[i]).1 && mutually_reach(edges, mask, pre[i].0 as nat, v);
                    assert(post[i] == pre[i]);
                    crate::reach::lemma_reaches_trans(edges, mask, pre[i].0 as nat, v, x);
                    crate::reach::lemma_reaches_trans(edges, mask, x, v, pre[i].0 as nat);
                }
            } else {
                if exists|c: int, b: int| #![trigger fin[c], fin[b]] 0 <= b < c < fin.len() && fin[b] == y && mutually_reach(edges, mask, fin[c], x) {
                    let (c, b) = choose|c: int, b: int| #![trigger fin[c], fin[b]] 0 <= b < c < fin.len() && fin[b] == y && mutually_reach(edges, mask, fin[c], x);
                    assert(fin1[b] == fin[b] && fin1[c] == fin[c]);
                } else {
                    let i = choose|i: int| 0 <= i < pre.len() && (#[trigger] pre[i]).1 && mutually_reach(edges, mask, pre[i].0 as nat, x);
                    if i == top {
                        assert(pre[i].0 == v);
                    }
                    assert(post[i] == pre[i]);
                }
            }
        }
    }
}

/// The state between searches of the first pass: every marked node is
/// finished, once, and the marks list the marked nodes once.
spec fn first_pass(n: nat, seen: Seq<bool>, finish: Seq<nat>, marked: Seq<nat>) -> bool {
    &&& seen.len() == n
    &&& marked.no_duplicates()
    &&& forall|i: int| 0 <= i < marked.len() ==> #[trigger] marked[i] < n
    &&& forall|v: nat| v < n ==> (seen[v as int] <==> #[trigger] marked.contains(v))
    &&& finish.no_duplicates()
    &&& forall|i: int| 0 <= i < finish.len() ==> #[trigger] finish[i] < n && seen[finish[i] as int]
    &&& forall|v: nat| v < n && seen[v as int] ==> #[trigger] finish.contains(v)
}

/// The state between searches of the second pass: the lists found so far
/// hold exactly the marked nodes, each once; every member reaches its
/// list's first node; and every allowed edge into a list comes from that
/// list or an earlier one.
spec fn second_pass(n: nat, edges: Seq<(nat, nat)>, mask: Seq<bool>, seen: Seq<bool>, comps: Seq<Seq<nat>>) -> bool {
    &&& seen.len() == n
    &&& forall|v: nat| v < n ==> (seen[v as int] <==> #[trigger] listed(comps, v))
    &&& forall|i: int| 0 <= i < comps.len() ==> (#[trigger] comps[i]).len() > 0
    &&& forall|i: int, k: int| 0 <= i < comps.len() && 0 <= k < comps[i].len() ==> #[trigger] comps[i][k] < n
    &&& forall|i: int, k: int, j: int, l: int|
        0 <= i < comps.len() && 0 <= k < comps[i].len() && 0 <= j < comps.len() && 0 <= l < comps[j].len()
        && #[trigger] comps[i][k] == #[trigger] comps[j][l] ==> i == j && k == l
    &&& forall|i: int, k: int| 0 <= i < comps.len() && 0 <= k < comps[i].len()
        ==> reaches(edges, mask, #[trigger] comps[i][k], comps[i][0])
    &&& forall|i: int, k: int, e: int| 0 <= i < comps.len() && 0 <= k < comps[i].len() && #[trigger] allowed(edges, mask, e)
        && edges[e].1 == #[trigger] comps[i][k] ==> exists|j: int| 0 <= j <= i && #[trigger] comps[j].contains(edges[e].0)
}

/// An allowed edge into a node that reaches `t` comes from a node that
/// reaches `t` too.
proof fn lemma_reaches_back(edges: Seq<(nat, nat)>, mask: Seq<bool>, e: int, t: nat)
    requires
        allowed(edges, mask, e),
        reaches(edges, mask, edges[e].1, t),
    ensures
        reaches(edges, mask, edges[e].0, t),
{
    lemma_reaches_refl(edges, mask, edges[e].0);
    assert(has_edge(edges, mask, edges[e].0, edges[e].1));
    crate::reach::lemma_reaches_step(edges, mask, edges[e].0, edges[e].0, edges[e].1);
    lemma_reaches_trans(edges, mask, edges[e].0, edges[e].1, t);
}

/// In the second-pass state, every node that reaches the first node of
/// list `i` lies in list `i` or an earlier one.
proof fn lemma_second_pass_cover(n: nat, edges: Seq<(nat, nat)>, mask: Seq<bool>, seen: Seq<bool>, comps: Seq<Seq<nat>>, i: int, v: nat)
    requires
        second_pass(n, edges, mask, seen, comps),
        0 <= i < comps.len(),
        reaches(edges, mask, v, comps[i][0]),
    ensures
        exists|j: int| 0 <= j <= i && #[trigger] comps[j].contains(v),
{
    let inside = |a: nat| !exists|j: int| 0 <= j <= i && #[trigger] comps[j].contains(a);
    if inside(v) {
        assert forall|a: nat, b: nat| inside(a) && #[trigger] has_edge(edges, mask, a, b) implies inside(b) by {
            if !inside(b) {
                let j = choose|j: int| 0 <= j <= i && #[trigger] comps[j].contains(b);
                let l = choose|l: int| 0 <= l < comps[j].len() && comps[j][l] == b;
                let e = choose|e: int| #[trigger] allowed(edges, mask, e) && edges[e].0 == a && edges[e].1 == b;
                assert(edges[e].1 == comps[j][l]);
                let j2 = choose|j2: int| 0 <= j2 <= j && #[trigger] comps[j2].contains(edges[e].0);
                assert(comps[j2].contains(a));
            }
        }
        lemma_closed_reach(edges, mask, inside, v, comps[i][0]);
        assert(comps[i].contains(comps[i][0]));
    }
}

/// A node collected into the list started at `fin[k]` is reached from it:
/// otherwise some node joined to it in both directions finished after
/// `fin[k]`, was listed earlier, and would have taken it into its list.
proof fn lemma_root_reaches_member(
    n: nat,
    edges: Seq<(nat, nat)>,
    mask: Seq<bool>,
    fin: Seq<nat>,
    k: int,
    old_seen: Seq<bool>,
    new_seen: Seq<bool>,
    before: Seq<Seq<nat>>,
    cs: Seq<Seq<nat>>,
    q: int,
)
    requires
        second_pass(n, edges, mask, old_seen, before),
        second_pass(n, edges, mask, new_seen, cs),
        fin.no_duplicates(),
        forall|x: nat| x < n ==> #[trigger] fin.contains(x),
        forall|j: int| 0 <= j < fin.len() ==> #[trigger] fin[j] < n,
        finish_keys(edges, mask, fin, Seq::empty()),
        0 <= k < fin.len(),
        forall|j: int| k < j < fin.len() ==> old_seen[#[trigger] fin[j] as int],
        cs.len() == before.len() + 1,
        forall|i: int| 0 <= i < before.len() ==> #[trigger] cs[i] == before[i],
        cs[before.len() as int][0] == fin[k],
        0 <= q < cs[before.len() as int].len(),
    ensures
        reaches(edges, mask, cs[before.len() as int][0], cs[before.len() as int][q]),
{
    let last = before.len() as int;
    let w = cs[last][q];
    let r = fin[k];
    assert(reaches(edges, mask, cs[last][q], cs[last][0]));
    assert(w < n);
    if !reaches(edges, mask, r, w) {
        assert(fin.contains(w));
        let aw = choose|aw: int| 0 <= aw < fin.len() && fin[aw] == w;
        assert(finish_key(edges, mask, fin, Seq::empty(), fin[aw]));
        assert(reaches(edges, mask, w, r) && !reaches(edges, mask, r, w));
        assert(exists|c: int, b: int| #![trigger fin[c], fin[b]] 0 <= b < c < fin.len() && fin[b] == r
            && mutually_reach(edges, mask, fin[c], w));
        let (c, b) = choose|c: int, b: int| #![trigger fin[c], fin[b]] 0 <= b < c < fin.len() && fin[b] == r
            && mutually_reach(edges, mask, fin[c], w);
        assert(b == k);
        let z = fin[c];
        assert(old_seen[z as int]);
        assert(listed(before, z));
        let j = choose|j: int| 0 <= j < before.len() && #[trigger] before[j].contains(z);
        let l = choose|l: int| 0 <= l < before[j].len() && before[j][l] == z;
        assert(reaches(edges, mask, before[j][l], before[j][0]));
        lemma_reaches_trans(edges, mask, w, z, before[j][0]);
        lemma_second_pass_cover(n, edges, mask, old_seen, before, j, w);
        let j2 = choose|j2: int| 0 <= j2 <= j && #[trigger] before[j2].contains(w);
        let l2 = choose|l2: int| 0 <= l2 < before[j2].len() && before[j2][l2] == w;
        assert(cs[j2] == before[j2]);
        assert(cs[j2][l2] == cs[last][q]);
    }
}

/// The marks list exactly the seen nodes, each once.
spec fn marks_seen(n: nat, seen: Seq<bool>, marked: Seq<nat>) -> bool {
    &&& marked.no_duplicates()
    &&& forall|i: int| 0 <= i < marked.len() ==> #[trigger] marked[i] < n
    &&& forall|v: nat| v < n ==> (seen[v as int] <==> #[trigger] marked.contains(v))
}

/// Collects, by a depth-first search along allowed edges taken backwards,
/// every unseen node that reaches `start`.
fn backward_from<G: IndexGraphView>(
    graph: &G,
    mask: &Vec<bool>,
    start: usize,
    seen: &mut Vec<bool>,
    Ghost(comps): Ghost<Seq<Seq<nat>>>,
    Ghost(marked): Ghost<Seq<nat>>,
) -> (r: (Vec<NodeIndex>, Ghost<Seq<nat>>))
    requires
        valid_model(graph.spec_node_count(), graph.spec_edges()),
        mask@.len() == graph.spec_edges().len(),
        second_pass(graph.spec_node_count(), graph.spec_edges(), mask@, old(seen)@, comps),
        marks_seen(graph.spec_node_count(), old(seen)@, marked),
        start < graph.spec_node_count(),
        !old(seen)@[start as int],
    ensures
        second_pass(graph.spec_node_count(), graph.spec_edges(), mask@, final(seen)@, comps.push(node_positions(r.0@))),
        marks_seen(graph.spec_node_count(), final(seen)@, r.1@),
        forall|v: int| 0 <= v < graph.spec_node_count() && #[trigger] old(seen)@[v] ==> final(seen)@[v],
        final(seen)@[start as int],
        r.0@.len() > 0,
        node_positions(r.0@)[0] == start as nat,
{
    let ghost n = graph.spec_node_count();
    let ghost edges = graph.spec_edges();
    let ghost m = mask@;
    let ghost mut marked = marked;
    proof {
        lemma_reaches_refl(edges, m, start as nat);
        assert(!marked.contains(start as nat));
        let prior = marked;
        marked = marked.push(start as nat);
        assert forall|a: int, b: int| 0 <= a < b < marked.len() implies marked[a] != marked[b] by {
            if b == prior.len() {
                assert(prior.contains(marked[a]));
            }
        }
    }
    seen.set(start, true);
    let mut component: Vec<NodeIndex> = Vec::new();
    let mut stack: Vec<usize> = Vec::new();
    stack.push(start);
    while stack.len() > 0
        invariant
            n == graph.spec_node_count(),
            edges == graph.spec_edges(),
            m == mask@,
            valid_model(n, edges),
            m.len() == edges.len(),
            seen@.len() == n,
            start < n,
            second_pass(n, edges, m, old(seen)@, comps),
            forall|v: int| 0 <= v < n && #[trigger] old(seen)@[v] ==> seen@[v],
            seen@[start as int],
            marks_seen(n, seen@, marked),
            forall|v: nat| v < n ==> (seen@[v as int] <==> (old(seen)@[v as int] || #[trigger] node_positions(component@).contains(v)
                || stack@.contains(v as usize))),
            node_positions(component@).no_duplicates(),
            stack@.no_duplicates(),
            forall|i: int| 0 <= i < stack@.len() ==> #[trigger] stack@[i] < n && !old(seen)@[stack@[i] as int]
                && !node_positions(component@).contains(stack@[i] as nat) && reaches(edges, m, stack@[i] as nat, start as nat),
            forall|i: int| 0 <= i < component@.len() ==> #[trigger] node_positions(component@)[i] < n
                && !old(seen)@[node_positions(component@)[i] as int] && reaches(edges, m, node_positions(component@)[i], start as nat),
            component@.len() == 0 ==> stack@ == seq![start],
            component@.len() > 0 ==> node_positions(component@)[0] == start,
            forall|k: int, e: int| 0 <= k < component@.len() && #[trigger] allowed(edges, m, e)
                && edges[e].1 == #[trigger] node_positions(component@)[k] ==> seen@[edges[e].0 as int],
        decreases n - marked.len(), stack@.len(),
    {
        proof {
            crate::digraph::lemma_distinct_below(marked, n);
        }
        let ghost pre = stack@;
        let node = stack.pop().unwrap();
        proof {
            assert(pre =~= stack@.push(node));
            assert(pre[pre.len() - 1] == node);
        }
        let ghost comp_before = node_positions(component@);
        component.push(NodeIndex::new(node as u32));
        proof {
            assert(node_positions(component@) =~= comp_before.push(node as nat));
        }
        let incoming = graph.incoming_edges(NodeIndex::new(node as u32));
        let ghost m0 = marked.len();
        let ghost s0 = stack@.len();
        let mut j: usize = 0;
        while j < incoming.len()
            invariant
                marked.len() >= m0,
                marked.len() == m0 ==> stack@.len() == s0,
                s0 + 1 == pre.len(),
                marked.len() <= n,
                n == graph.spec_node_count(),
                edges == graph.spec_edges(),
                m == mask@,
                valid_model(n, edges),
                m.len() == edges.len(),
                seen@.len() == n,
                start < n,
                node < n,
                j <= incoming@.len(),
                edge_positions(incoming@) == crate::digraph::in_list(edges, node as nat),
                second_pass(n, edges, m, old(seen)@, comps),
                forall|v: int| 0 <= v < n && #[trigger] old(seen)@[v] ==> seen@[v],
                seen@[start as int],
                marks_seen(n, seen@, marked),
                forall|v: nat| v < n ==> (seen@[v as int] <==> (old(seen)@[v as int] || #[trigger] node_positions(component@).contains(v)
                    || stack@.contains(v as usize))),
                node_positions(component@).no_duplicates(),
                stack@.no_duplicates(),
                forall|i: int| 0 <= i < stack@.len() ==> #[trigger] stack@[i] < n && !old(seen)@[stack@[i] as int]
                    && !node_positions(component@).contains(stack@[i] as nat) && reaches(edges, m, stack@[i] as nat, start as nat),
                forall|i: int| 0 <= i < component@.len() ==> #[trigger] node_positions(component@)[i] < n
                    && !old(seen)@[node_positions(component@)[i] as int] && reaches(edges, m, node_positions(component@)[i], start as nat),
                component@.len() > 0,
                node_positions(component@)[0] == start,
                node_positions(component@)[component@.len() - 1] == node,
                forall|k: int, e: int| 0 <= k < component@.len() - 1 && #[trigger] allowed(edges, m, e)
                    && edges[e].1 == #[trigger] node_positions(component@)[k] ==> seen@[edges[e].0 as int],
                forall|i: int| 0 <= i < j && #[trigger] allowed(edges, m, incoming@[i]@ as int) ==> seen@[edges[incoming@[i]@ as int].0 as int],
            decreases incoming@.len() - j,
        {
            let edge = incoming[j];
            proof {
                lemma_in_list(edges, node as nat);
                assert(edge_positions(incoming@)[j as int] == edge@);
                assert(crate::digraph::in_list(edges, node as nat)[j as int] < edges.len());
            }
            if mask[edge.index()] {
                match graph.edge_endpoints(edge) {
                    Some(ends) => {
                        let source = ends.source().index();
                        proof {
                            assert(edges[edge@ as int].0 < n);
                        }
                        if !seen[source] {
                            proof {
                                assert(allowed(edges, m, edge@ as int));
                                assert(reaches(edges, m, node as nat, start as nat));
                                lemma_reaches_back(edges, m, edge@ as int, start as nat);
                                assert(!marked.contains(source as nat));
                                let prior = marked;
                                marked = marked.push(source as nat);
                                assert forall|a: int, b: int| 0 <= a < b < marked.len() implies marked[a] != marked[b] by {
                                    if b == prior.len() {
                                        assert(prior.contains(marked[a]));
                                    }
                                }
                                crate::digraph::lemma_distinct_below(marked, n);
                                assert(!stack@.contains(source));
                                assert(!node_positions(component@).contains(source as nat));
                            }
                            seen.set(source, true);
                            stack.push(source);
                        }
                    },
                    None => {},
                }
            }
            j = j + 1;
        }
        proof {
            lemma_in_list(edges, node as nat);
            let cp = node_positions(component@);
            assert forall|k: int, e: int| 0 <= k < component@.len() && #[trigger] allowed(edges, m, e)
                && edges[e].1 == #[trigger] cp[k] implies seen@[edges[e].0 as int] by {
                if k == component@.len() - 1 {
                    assert(crate::digraph::in_list(edges, node as nat).contains(e as nat));
                    let i = choose|i: int| 0 <= i < incoming@.len() && crate::digraph::in_list(edges, node as nat)[i] == e as nat;
                    assert(edge_positions(incoming@)[i] == incoming@[i]@);
                }
            }
        }
    }
    let r = component;
    proof {
        let cp = node_positions(r@);
        let c2 = comps.push(cp);
        assert(c2[comps.len() as int] == cp);
        assert forall|v: nat| v < n implies (seen@[v as int] <==> #[trigger] listed(c2, v)) by {
            if listed(c2, v) {
                let i = choose|i: int| 0 <= i < c2.len() && #[trigger] c2[i].contains(v);
                if i < comps.len() {
                    assert(c2[i] == comps[i]);
                    assert(listed(comps, v));
                }
            }
            if seen@[v as int] {
                if old(seen)@[v as int] {
                    assert(listed(comps, v));
                    let i = choose|i: int| 0 <= i < comps.len() && #[trigger] comps[i].contains(v);
                    assert(c2[i] == comps[i]);
                } else {
                    assert(cp.contains(v));
                }
            }
        }
        assert forall|i: int| 0 <= i < c2.len() implies (#[trigger] c2[i]).len() > 0 by {
            if i < comps.len() {
                assert(c2[i] == comps[i]);
            }
        }
        assert forall|i: int, k: int| 0 <= i < c2.len() && 0 <= k < c2[i].len() implies #[trigger] c2[i][k] < n by {
            if i < comps.len() {
                assert(c2[i] == comps[i]);
            }
        }
        assert forall|i: int, k: int, j: int, l: int|
            0 <= i < c2.len() && 0 <= k < c2[i].len() && 0 <= j < c2.len() && 0 <= l < c2[j].len()
            && #[trigger] c2[i][k] == #[trigger] c2[j][l] implies i == j && k == l by {
            if i < comps.len() {
                assert(c2[i] == comps[i]);
                assert(comps[i].contains(c2[i][k]));
                assert(listed(comps, comps[i][k]));
            }
            if j < comps.len() {
                assert(c2[j] == comps[j]);
                assert(comps[j].contains(c2[j][l]));
                assert(listed(comps, comps[j][l]));
            }
            if i < comps.len() && j < comps.len() {
            } else if i == comps.len() && j == comps.len() {
            } else if i < comps.len() {
                assert(old(seen)@[comps[i][k] as int]);
            } else {
                assert(old(seen)@[comps[j][l] as int]);
            }
        }
        assert forall|i: int, k: int| 0 <= i < c2.len() && 0 <= k < c2[i].len()
            implies reaches(edges, m, #[trigger] c2[i][k], c2[i][0]) by {
            if i < comps.len() {
                assert(c2[i] == comps[i]);
            }
        }
        assert forall|i: int, k: int, e: int| 0 <= i < c2.len() && 0 <= k < c2[i].len() && #[trigger] allowed(edges, m, e)
            && edges[e].1 == #[trigger] c2[i][k] implies exists|j: int| 0 <= j <= i && #[trigger] c2[j].contains(edges[e].0) by {
            if i < comps.len() {
                assert(c2[i] == comps[i]);
                let j = choose|j: int| 0 <= j <= i && #[trigger] comps[j].contains(edges[e].0);
                assert(c2[j] == comps[j]);
            } else {
                let a = edges[e].0;
                assert(edges[e].0 < n);
                assert(seen@[a as int]);
                if old(seen)@[a as int] {
                    assert(listed(comps, a));
                    let j = choose|j: int| 0 <= j < comps.len() && #[trigger] comps[j].contains(a);
                    assert(c2[j] == comps[j]);
                } else {
                    assert(cp.contains(a));
                }
            }
        }
    }
    (r, Ghost(marked))
}

/// The strongly connected components, by two depth-first passes over the
/// edges that the mask allows.
pub(crate) fn strong_with_mask<G: IndexGraphView>(graph: &G, mask: &Vec<bool>) -> (r: Vec<Vec<NodeIndex>>)
    requires
        mask@.len() == graph.spec_edges().len(),
    ensures
        is_strong_components(graph.spec_node_count(), graph.spec_edges(), mask@, component_positions(r@)),
{
    let n = graph.node_bound();
    let ghost edges = graph.spec_edges();
    let ghost m = mask@;
    let mut seen: Vec<bool> = Vec::new();
    let mut i: usize = 0;
    while i < n
        invariant
            i <= n,
            seen@.len() == i,
            forall|v: int| 0 <= v < i ==> !(#[trigger] seen@[v]),
        decreases n - i,
    {
        seen.push(false);
        i = i + 1;
    }
    let mut finish: Vec<NodeIndex> = Vec::new();
    let ghost mut marked: Seq<nat> = Seq::empty();
    proof {
        assert forall|v: nat| v < n implies (seen@[v as int] <==> #[trigger] marked.contains(v)) by {}
    }
    let mut start: usize = 0;
    while start < n
        invariant
            n == graph.spec_node_count(),
            edges == graph.spec_edges(),
            m == mask@,
            valid_model(n as nat, edges),
            m.len() == edges.len(),
            start <= n,
            seen@.len() == n,
            first_pass(n as nat, seen@, node_positions(finish@), marked),
            finished_closed(edges, m, seen@, node_positions(finish@)),
            finish_keys(edges, m, node_positions(finish@), Seq::empty()),
            forall|v: int| 0 <= v < start ==> #[trigger] seen@[v],
        decreases n - start,
    {
        let ghost seen_before = seen@;
        let Ghost(next) = finish_from(graph, mask, start, &mut seen, &mut finish, Ghost(marked));
        proof {
            marked = next;
            assert forall|v: int| 0 <= v < start + 1 implies #[trigger] seen@[v] by {
                if v < start {
                    assert(seen_before[v]);
                }
            }
        }
        start = start + 1;
    }
    let ghost fin = node_positions(finish@);
    proof {
        assert forall|v: nat| v < n implies #[trigger] fin.contains(v) by {
            assert(seen@[v as int]);
        }
    }
    let mut v: usize = 0;
    while v < n
        invariant
            v <= n,
            seen@.len() == n,
            forall|w: int| 0 <= w < v ==> !(#[trigger] seen@[w]),
        decreases n - v,
    {
        seen.set(v, false);
        v = v + 1;
    }
    let mut comps: Vec<Vec<NodeIndex>> = Vec::new();
    let ghost mut marked2: Seq<nat> = Seq::empty();
    proof {
        assert forall|x: nat| x < n implies (seen@[x as int] <==> #[trigger] listed(component_positions(comps@), x)) by {}
        assert forall|x: nat| x < n implies (seen@[x as int] <==> #[trigger] marked2.contains(x)) by {}
    }
    let mut k: usize = finish.len();
    while k > 0
        invariant
            n == graph.spec_node_count(),
            edges == graph.spec_edges(),
            m == mask@,
            valid_model(n as nat, edges),
            m.len() == edges.len(),
            fin == node_positions(finish@),
            forall|x: nat| x < n ==> #[trigger] fin.contains(x),
            forall|j: int| 0 <= j < fin.len() ==> #[trigger] fin[j] < n,
            k <= finish@.len(),
            seen@.len() == n,
            second_pass(n as nat, edges, m, seen@, component_positions(comps@)),
            marks_seen(n as nat, seen@, marked2),
            forall|j: int| k <= j < fin.len() ==> seen@[#[trigger] fin[j] as int],
            fin.no_duplicates(),
            finish_keys(edges, m, fin, Seq::empty()),
            forall|i: int, q: int| 0 <= i < component_positions(comps@).len() && 0 <= q < component_positions(comps@)[i].len()
                ==> reaches(edges, m, component_positions(comps@)[i][0], #[trigger] component_positions(comps@)[i][q]),
        decreases k,
    {
        k = k - 1;
        let start = finish[k].index();
        proof {
            assert(fin[k as int] == start);
        }
        if !seen[start] {
            let ghost old_seen = seen@;
            let ghost before = component_positions(comps@);
            let (component, Ghost(next)) = backward_from(graph, mask, start, &mut seen, Ghost(component_positions(comps@)), Ghost(marked2));
            comps.push(component);
            proof {
                marked2 = next;
                let cp = node_positions(component@);
                let cs = component_positions(comps@);
                assert(cs =~= before.push(cp));
                assert(cs[before.len() as int] == cp);
                assert forall|q: int| 0 <= q < cp.len() implies reaches(edges, m, cp[0], #[trigger] cp[q]) by {
                    lemma_root_reaches_member(n as nat, edges, m, fin, k as int, old_seen, seen@, before, cs, q);
                }
                assert forall|i: int, q: int| 0 <= i < cs.len() && 0 <= q < cs[i].len()
                    implies reaches(edges, m, cs[i][0], #[trigger] cs[i][q]) by {
                    if i < before.len() {
                        assert(cs[i] == before[i]);
                    }
                }
            }
        }
    }
    proof {
        let cs = component_positions(comps@);
        assert forall|x: nat| x < n implies #[trigger] listed(cs, x) by {
            assert(fin.contains(x));
            let j = choose|j: int| 0 <= j < fin.len() && fin[j] == x;
            assert(seen@[fin[j] as int]);
        }
        assert forall|i: int, x: nat| 0 <= i < cs.len() && x < n && #[trigger] reaches(edges, m, x, cs[i][0])
            implies exists|j: int| 0 <= j <= i && #[trigger] cs[j].contains(x) by {
            lemma_second_pass_cover(n as nat, edges, m, seen@, cs, i, x);
        }
    }
    comps
}

/// The strongly connected components of the graph: nodes that reach each
/// other along edges.
///
/// The lists partition the nodes; the first node of a list and each of its
/// members reach each other, and every node that reaches that first node
/// lies in the list or an earlier one.
pub fn strongly_connected_components<G: IndexGraphView>(graph: &G) -> (r: Vec<Vec<NodeIndex>>)
    ensures
        is_strong_components(graph.spec_node_count(), graph.spec_edges(), full_mask(graph.spec_edges().len()), component_positions(r@)),
{
    let mask = full_edge_mask(graph);
    strong_with_mask(graph, &mask)
}

/// The strongly connected components of the edges that `allows_edge`
/// accepts, as [`strongly_connected_components`] describes them.
pub fn strongly_connected_components_filtered<G: IndexGraphView, F: Fn(EdgeIndex) -> bool>(graph: &G, allows_edge: F) -> (r: Vec<Vec<NodeIndex>>)
    requires
        forall|e: EdgeIndex| allows_edge.requires((e,)),
    ensures
        exists|mask: Seq<bool>| {
            &&& is_edge_mask(allows_edge, graph.spec_edges().len(), mask)
            &&& is_strong_components(graph.spec_node_count(), graph.spec_edges(), mask, component_positions(r@))
        },
{
    let mask = edge_mask(graph, &allows_edge);
    strong_with_mask(graph, &mask)
}

} // verus!

//! Deterministic topologies: paths, cycles and complete graphs.
use crate::error::{GraphError, Result};
use crate::index::{EdgeEndpoints, NodeIndex};
use crate::topology::{endpoint_pairs, Topology};
use vstd::prelude::*;

verus! {

broadcast use {crate::index::group_index_lemmas, crate::digraph::lemma_push_contains};

/// The edges `i -> i + 1` of a path through `n` nodes.
pub open spec fn path_pairs(n: nat) -> Seq<(nat, nat)> {
    Seq::new((if n > 0 { n - 1 } else { 0 }) as nat, |i: int| (i as nat, (i + 1) as nat))
}

/// The edges `i -> (i + 1) mod n` of a cycle through `n` nodes.
pub open spec fn cycle_pairs(n: nat) -> Seq<(nat, nat)> {
    Seq::new(n, |i: int| (i as nat, ((i + 1) % (n as int)) as nat))
}

/// `p` comes before `q`: by source, then by target.
pub open spec fn pair_lt(p: (nat, nat), q: (nat, nat)) -> bool {
    p.0 < q.0 || (p.0 == q.0 && p.1 < q.1)
}

/// `list` holds every pair of distinct nodes below `n` once, in
/// increasing order.
pub open spec fn is_complete_list(n: nat, list: Seq<(nat, nat)>) -> bool {
    &&& forall|i: int, j: int| 0 <= i < j < list.len() ==> pair_lt(#[trigger] list[i], #[trigger] list[j])
    &&& forall|i: int| 0 <= i < list.len() ==> (#[trigger] list[i]).0 < n && list[i].1 < n && list[i].0 != list[i].1
    &&& forall|s: nat, t: nat| s < n && t < n && s != t ==> #[trigger] list.contains((s, t))
}

/// Generates `0 -> 1 -> ... -> n-1`.
///
/// Fails when `node_count` does not fit a compact index.
pub fn path_topology(node_count: usize) -> (r: Result<Topology>)
    ensures
        node_count > u32::MAX ==> r == Err::<Topology, GraphError>(
            GraphError::IndexCapacityExceeded { category: "nodes", count: node_count },
        ),
        node_count <= u32::MAX ==> (r matches Ok(t) && t.view_node_count() == node_count
            && t.view_edges() == path_pairs(node_count as nat)),
{
    if node_count > u32::MAX as usize {
        return Err(GraphError::IndexCapacityExceeded { category: "nodes", count: node_count });
    }
    let mut edges: Vec<EdgeEndpoints> = Vec::new();
    let mut target: usize = 1;
    while target < node_count
        invariant
            node_count <= u32::MAX,
            1 <= target,
            target <= node_count || target == 1,
            edges@.len() == target - 1,
            forall|i: int| 0 <= i < edges@.len() ==> (#[trigger] edges@[i])@ == (i as nat, (i + 1) as nat),
        decreases node_count - target,
    {
        edges.push(EdgeEndpoints::new(NodeIndex::new((target - 1) as u32), NodeIndex::new(target as u32)));
        target = target + 1;
    }
    proof {
        let len = (if node_count > 0 { node_count - 1 } else { 0 }) as nat;
        assert(path_pairs(node_count as nat).len() == len);
        if node_count > 0 {
            assert(target == node_count);
            assert(edges@.len() == len);
        } else {
            assert(edges@.len() == 0);
        }
        assert forall|i: int| 0 <= i < edges@.len() implies endpoint_pairs(edges@)[i] == path_pairs(node_count as nat)[i] by {
            assert(endpoint_pairs(edges@)[i] == edges@[i]@);
        }
        assert(endpoint_pairs(edges@) =~= path_pairs(node_count as nat));
    }
    Topology::try_from_edges(node_count, edges)
}

/// Generates one directed cycle, a self-loop for a single node.
///
/// Fails when `node_count` does not fit a compact index.
pub fn cycle_topology(node_count: usize) -> (r: Result<Topology>)
    ensures
        node_count > u32::MAX ==> r == Err::<Topology, GraphError>(
            GraphError::IndexCapacityExceeded { category: "nodes", count: node_count },
        ),
        node_count <= u32::MAX ==> (r matches Ok(t) && t.view_node_count() == node_count
            && t.view_edges() == cycle_pairs(node_count as nat)),
{
    if node_count > u32::MAX as usize {
        return Err(GraphError::IndexCapacityExceeded { category: "nodes", count: node_count });
    }
    let mut edges: Vec<EdgeEndpoints> = Vec::new();
    let mut source: usize = 0;
    while source < node_count
        invariant
            node_count <= u32::MAX,
            source <= node_count,
            edges@.len() == source,
            forall|i: int| 0 <= i < edges@.len() ==> (#[trigger] edges@[i])@ == (i as nat, ((i + 1) % (node_count as int)) as nat),
        decreases node_count - source,
    {
        let next = (source + 1) % node_count;
        edges.push(EdgeEndpoints::new(NodeIndex::new(source as u32), NodeIndex::new(next as u32)));
        source = source + 1;
    }
    proof {
        assert forall|i: int| 0 <= i < edges@.len() implies endpoint_pairs(edges@)[i] == cycle_pairs(node_count as nat)[i] by {
            assert(endpoint_pairs(edges@)[i] == edges@[i]@);
        }
        assert(endpoint_pairs(edges@) =~= cycle_pairs(node_count as nat));
    }
    Topology::try_from_edges(node_count, edges)
}

/// Generates every directed edge between distinct nodes, ordered by
/// source and then target.
///
/// Fails when the edge count `n * (n - 1)` does not fit `usize`, or does
/// not fit a compact index.
pub fn complete_topology(node_count: usize) -> (r: Result<Topology>)
    ensures
        node_count * (if node_count > 0 { node_count - 1 } else { 0 }) > usize::MAX ==> r == Err::<Topology, GraphError>(
            GraphError::IndexCapacityExceeded { category: "generated edges", count: usize::MAX },
        ),
        u32::MAX < node_count * (if node_count > 0 { node_count - 1 } else { 0 }) <= usize::MAX ==> r == Err::<Topology, GraphError>(
            GraphError::IndexCapacityExceeded {
                category: "generated edges",
                count: (node_count * (if node_count > 0 { node_count - 1 } else { 0 })) as usize,
            },
        ),
        node_count * (if node_count > 0 { node_count - 1 } else { 0 }) <= u32::MAX ==> (r matches Ok(t)
            && t.view_node_count() == node_count && is_complete_list(node_count as nat, t.view_edges())),
{
    let below = node_count.saturating_sub(1);
    let edge_count = match node_count.checked_mul(below) {
        Some(c) => c,
        None => {
            return Err(GraphError::IndexCapacityExceeded { category: "generated edges", count: usize::MAX });
        },
    };
    if edge_count > u32::MAX as usize {
        return Err(GraphError::IndexCapacityExceeded { category: "generated edges", count: edge_count });
    }
    assert(node_count <= u32::MAX) by (nonlinear_arith)
        requires
            node_count * below <= u32::MAX,
            below == (if node_count > 0 { node_count - 1 } else { 0 }),
    {
        if node_count > u32::MAX {
            assert(below >= u32::MAX);
            assert(node_count * below > u32::MAX);
        }
    }
    let mut edges: Vec<EdgeEndpoints> = Vec::new();
    let mut source: usize = 0;
    while source < node_count
        invariant
            node_count <= u32::MAX,
            below == (if node_count > 0 { node_count - 1 } else { 0 }),
            node_count * below <= u32::MAX,
            source <= node_count,
            edges@.len() == source * below,
            forall|i: int, j: int| 0 <= i < j < edges@.len() ==> pair_lt(#[trigger] edges@[i]@, #[trigger] edges@[j]@),
            forall|i: int| 0 <= i < edges@.len() ==> (#[trigger] edges@[i])@.0 < source && edges@[i]@.1 < node_count
                && edges@[i]@.0 != edges@[i]@.1,
            forall|s: nat, t: nat| s < source && t < node_count && s != t ==> #[trigger] endpoint_pairs(edges@).contains((s, t)),
        decreases node_count - source,
    {
        let mut target: usize = 0;
        while target < node_count
            invariant
                node_count <= u32::MAX,
                below == (if node_count > 0 { node_count - 1 } else { 0 }),
                node_count * below <= u32::MAX,
                source < node_count,
                target <= node_count,
                edges@.len() == source * below + target - (if source < target { 1int } else { 0 }),
                forall|i: int, j: int| 0 <= i < j < edges@.len() ==> pair_lt(#[trigger] edges@[i]@, #[trigger] edges@[j]@),
                forall|i: int| 0 <= i < edges@.len() ==> (#[trigger] edges@[i])@.0 <= source && edges@[i]@.1 < node_count
                    && edges@[i]@.0 != edges@[i]@.1 && (edges@[i]@.0 == source ==> edges@[i]@.1 < target),
                forall|s: nat, t: nat| s < source && t < node_count && s != t ==> #[trigger] endpoint_pairs(edges@).contains((s, t)),
                forall|t: nat| t < target && t != source ==> #[trigger] endpoint_pairs(edges@).contains((source as nat, t)),
            decreases node_count - target,
        {
            if target != source {
                let ghost before = endpoint_pairs(edges@);
                let ghost before_edges = edges@;
                let pair = EdgeEndpoints::new(NodeIndex::new(source as u32), NodeIndex::new(target as u32));
                edges.push(pair);
                proof {
                    assert(endpoint_pairs(edges@) =~= before.push((source as nat, target as nat)));
                    assert forall|s: nat, t: nat| s < source && t < node_count && s != t implies
                        #[trigger] endpoint_pairs(edges@).contains((s, t)) by {
                        assert(before.contains((s, t)));
                    }
                    assert forall|t: nat| t < target + 1 && t != source implies
                        #[trigger] endpoint_pairs(edges@).contains((source as nat, t)) by {
                        if t < target {
                            assert(before.contains((source as nat, t)));
                        } else {
                            assert(endpoint_pairs(edges@)[edges@.len() - 1] == (source as nat, t));
                        }
                    }
                    assert forall|i: int, j: int| 0 <= i < j < edges@.len() implies pair_lt(#[trigger] edges@[i]@, #[trigger] edges@[j]@) by {
                        if j == edges@.len() - 1 {
                            assert(edges@[i] == before_edges[i]);
                        } else {
                            assert(edges@[i] == before_edges[i] && edges@[j] == before_edges[j]);
                        }
                    }
                }
            }
            target = target + 1;
        }
        assert((source + 1) * below == source * below + below) by (nonlinear_arith);
        source = source + 1;
    }
    proof {
        let pairs = endpoint_pairs(edges@);
        assert(edges@.len() == node_count * below);
        assert forall|i: int, j: int| 0 <= i < j < pairs.len() implies pair_lt(#[trigger] pairs[i], #[trigger] pairs[j]) by {
            assert(pairs[i] == edges@[i]@ && pairs[j] == edges@[j]@);
        }
        assert forall|i: int| 0 <= i < pairs.len() implies (#[trigger] pairs[i]).0 < node_count && pairs[i].1 < node_count
            && pairs[i].0 != pairs[i].1 by {
            assert(pairs[i] == edges@[i]@);
        }
    }
    Topology::try_from_edges(node_count, edges)
}

} // verus!

//! Seeded Erdos-Renyi topologies drawn from a splitmix64 stream.
use crate::error::{GraphError, Result};
use crate::index::{EdgeEndpoints, NodeIndex};
use crate::topology::{endpoint_pairs, Topology};
use crate::undirected::UndirectedTopology;
use vstd::prelude::*;
use vstd::wrapping::u64_specs;

verus! {

broadcast use crate::index::group_index_lemmas;

/// The increment that advances the generator state on every draw.
pub const GOLDEN_GAMMA: u64 = 0x9e37_79b9_7f4a_7c15;

/// The splitmix64 output for an advanced state.
pub open spec fn splitmix(state: u64) -> u64 {
    let a = u64_specs::wrapping_mul(state ^ (state >> 30u64), 0xbf58_476d_1ce4_e5b9u64);
    let b = u64_specs::wrapping_mul(a ^ (a >> 27u64), 0x94d0_49bb_1331_11ebu64);
    b ^ (b >> 31u64)
}

/// The state after one draw.
pub open spec fn advanced(state: u64) -> u64 {
    u64_specs::wrapping_add(state, GOLDEN_GAMMA)
}

/// One Bernoulli trial with probability `numerator / denominator`: its
/// outcome and the state after it. Certain and impossible outcomes draw
/// nothing.
pub open spec fn trial(state: u64, numerator: u64, denominator: u64) -> (bool, u64) {
    if numerator == denominator {
        (true, state)
    } else if numerator == 0 {
        (false, state)
    } else {
        (splitmix(advanced(state)) % denominator < numerator, advanced(state))
    }
}

/// The pairs `(source, t)` kept by the trials for the targets `lo..hi`,
/// skipping `t == source`, with the state after them.
pub open spec fn row_draws(state: u64, numerator: u64, denominator: u64, source: nat, lo: nat, hi: nat) -> (Seq<(nat, nat)>, u64)
    decreases hi - lo,
{
    if hi <= lo {
        (Seq::empty(), state)
    } else {
        let (kept, st) = row_draws(state, numerator, denominator, source, lo, (hi - 1) as nat);
        if (hi - 1) as nat == source {
            (kept, st)
        } else {
            let (hit, st2) = trial(st, numerator, denominator);
            (if hit { kept.push((source, (hi - 1) as nat)) } else { kept }, st2)
        }
    }
}

/// The first target a source is paired with: every node for a directed
/// graph, the later nodes for an undirected one.
pub open spec fn first_target(directed: bool, source: nat) -> nat {
    if directed { 0 } else { source + 1 }
}

/// The pairs kept for the sources `0..s`, in order, with the state after.
pub open spec fn sweep_draws(state: u64, n: nat, numerator: u64, denominator: u64, directed: bool, s: nat) -> (Seq<(nat, nat)>, u64)
    decreases s,
{
    if s == 0 {
        (Seq::empty(), state)
    } else {
        let (kept, st) = sweep_draws(state, n, numerator, denominator, directed, (s - 1) as nat);
        let (row, st2) = row_draws(st, numerator, denominator, (s - 1) as nat, first_target(directed, (s - 1) as nat), n);
        (kept + row, st2)
    }
}

/// The kept pairs of a whole draw over `n` nodes.
pub open spec fn drawn_pairs(state: u64, n: nat, numerator: u64, denominator: u64, directed: bool) -> Seq<(nat, nat)> {
    sweep_draws(state, n, numerator, denominator, directed, n).0
}

/// The state after a whole draw over `n` nodes.
pub open spec fn drawn_state(state: u64, n: nat, numerator: u64, denominator: u64, directed: bool) -> u64 {
    sweep_draws(state, n, numerator, denominator, directed, n).1
}

proof fn lemma_row_never(state: u64, denominator: u64, source: nat, lo: nat, hi: nat)
    requires
        denominator > 0,
    ensures
        row_draws(state, 0, denominator, source, lo, hi) == (Seq::<(nat, nat)>::empty(), state),
    decreases hi - lo,
{
    if hi > lo {
        lemma_row_never(state, denominator, source, lo, (hi - 1) as nat);
    }
}

proof fn lemma_sweep_never(state: u64, n: nat, denominator: u64, directed: bool, s: nat)
    requires
        denominator > 0,
    ensures
        sweep_draws(state, n, 0, denominator, directed, s) == (Seq::<(nat, nat)>::empty(), state),
    decreases s,
{
    if s > 0 {
        lemma_sweep_never(state, n, denominator, directed, (s - 1) as nat);
        lemma_row_never(state, denominator, (s - 1) as nat, first_target(directed, (s - 1) as nat), n);
        assert(Seq::<(nat, nat)>::empty() + Seq::<(nat, nat)>::empty() =~= Seq::<(nat, nat)>::empty());
    }
}

/// With probability zero nothing is drawn: no pair is kept and the state
/// does not move.
pub proof fn lemma_probability_zero(state: u64, n: nat, denominator: u64, directed: bool)
    requires
        denominator > 0,
    ensures
        drawn_pairs(state, n, 0, denominator, directed) == Seq::<(nat, nat)>::empty(),
        drawn_state(state, n, 0, denominator, directed) == state,
{
    lemma_sweep_never(state, n, denominator, directed, n);
}

/// The pairs `(source, t)` for the targets `lo <= t < hi` other than
/// `source`, in increasing order.
pub open spec fn row_all(source: nat, lo: nat, hi: nat) -> Seq<(nat, nat)>
    decreases hi - lo,
{
    if hi <= lo {
        Seq::empty()
    } else {
        let rest = row_all(source, lo, (hi - 1) as nat);
        if (hi - 1) as nat == source {
            rest
        } else {
            rest.push((source, (hi - 1) as nat))
        }
    }
}

/// The pairs for the sources below `s`, each with its targets from
/// [`first_target`] up to `n`.
pub open spec fn sweep_all(n: nat, directed: bool, s: nat) -> Seq<(nat, nat)>
    decreases s,
{
    if s == 0 {
        Seq::empty()
    } else {
        sweep_all(n, directed, (s - 1) as nat) + row_all((s - 1) as nat, first_target(directed, (s - 1) as nat), n)
    }
}

proof fn lemma_row_always(state: u64, denominator: u64, source: nat, lo: nat, hi: nat)
    requires
        denominator > 0,
    ensures
        row_draws(state, denominator, denominator, source, lo, hi) == (row_all(source, lo, hi), state),
    decreases hi - lo,
{
    if hi > lo {
        lemma_row_always(state, denominator, source, lo, (hi - 1) as nat);
    }
}

proof fn lemma_sweep_always(state: u64, n: nat, denominator: u64, directed: bool, s: nat)
    requires
        denominator > 0,
    ensures
        sweep_draws(state, n, denominator, denominator, directed, s) == (sweep_all(n, directed, s), state),
    decreases s,
{
    if s > 0 {
        lemma_sweep_always(state, n, denominator, directed, (s - 1) as nat);
        lemma_row_always(state, denominator, (s - 1) as nat, first_target(directed, (s - 1) as nat), n);
    }
}

/// With probability one every pair is drawn and the state does not move:
/// for a directed graph each ordered pair of distinct nodes, for an
/// undirected one each pair `(s, t)` with `s < t`, in increasing order.
pub proof fn lemma_probability_one(state: u64, n: nat, denominator: u64, directed: bool)
    requires
        denominator > 0,
    ensures
        drawn_pairs(state, n, denominator, denominator, directed) == sweep_all(n, directed, n),
        drawn_state(state, n, denominator, denominator, directed) == state,
{
    lemma_sweep_always(state, n, denominator, directed, n);
}

proof fn lemma_row_all(source: nat, lo: nat, hi: nat)
    ensures
        forall|i: int, j: int| 0 <= i < j < row_all(source, lo, hi).len() ==> (#[trigger] row_all(source, lo, hi)[i]).1
            < (#[trigger] row_all(source, lo, hi)[j]).1,
        forall|i: int| 0 <= i < row_all(source, lo, hi).len() ==> (#[trigger] row_all(source, lo, hi)[i]).0 == source
            && lo <= row_all(source, lo, hi)[i].1 < hi && row_all(source, lo, hi)[i].1 != source,
        forall|t: nat| lo <= t < hi && t != source ==> #[trigger] row_all(source, lo, hi).contains((source, t)),
    decreases hi - lo,
{
    if hi > lo {
        let h = (hi - 1) as nat;
        lemma_row_all(source, lo, h);
        let rest = row_all(source, lo, h);
        assert forall|t: nat| lo <= t < hi && t != source implies #[trigger] row_all(source, lo, hi).contains((source, t)) by {
            if t < h {
                assert(rest.contains((source, t)));
                let k = choose|k: int| 0 <= k < rest.len() && rest[k] == (source, t);
                assert(row_all(source, lo, hi)[k] == (source, t));
            } else {
                assert(row_all(source, lo, hi)[rest.len() as int] == (source, t));
            }
        }
    }
}

proof fn lemma_sweep_all_directed(n: nat, s: nat)
    requires
        s <= n,
    ensures
        forall|i: int, j: int| 0 <= i < j < sweep_all(n, true, s).len() ==> crate::generator::pair_lt(
            #[trigger] sweep_all(n, true, s)[i],
            #[trigger] sweep_all(n, true, s)[j],
        ),
        forall|i: int| 0 <= i < sweep_all(n, true, s).len() ==> (#[trigger] sweep_all(n, true, s)[i]).0 < s
            && sweep_all(n, true, s)[i].1 < n && sweep_all(n, true, s)[i].0 != sweep_all(n, true, s)[i].1,
        forall|a: nat, b: nat| a < s && b < n && a != b ==> #[trigger] sweep_all(n, true, s).contains((a, b)),
    decreases s,
{
    if s > 0 {
        let p = (s - 1) as nat;
        lemma_sweep_all_directed(n, p);
        lemma_row_all(p, 0, n);
        let x = sweep_all(n, true, p);
        let y = row_all(p, 0, n);
        let z = sweep_all(n, true, s);
        assert(z == x + y);
        assert forall|i: int, j: int| 0 <= i < j < z.len() implies crate::generator::pair_lt(#[trigger] z[i], #[trigger] z[j]) by {
            if j < x.len() {
                assert(z[i] == x[i] && z[j] == x[j]);
            } else if i < x.len() {
                assert(z[i] == x[i] && z[j] == y[j - x.len()]);
            } else {
                assert(z[i] == y[i - x.len()] && z[j] == y[j - x.len()]);
            }
        }
        assert forall|i: int| 0 <= i < z.len() implies (#[trigger] z[i]).0 < s && z[i].1 < n && z[i].0 != z[i].1 by {
            if i < x.len() {
                assert(z[i] == x[i]);
            } else {
                assert(z[i] == y[i - x.len()]);
            }
        }
        assert forall|a: nat, b: nat| a < s && b < n && a != b implies #[trigger] z.contains((a, b)) by {
            if a < p {
                assert(x.contains((a, b)));
                let k = choose|k: int| 0 <= k < x.len() && x[k] == (a, b);
                assert(z[k] == (a, b));
            } else {
                assert(y.contains((a, b)));
                let k = choose|k: int| 0 <= k < y.len() && y[k] == (a, b);
                assert(z[x.len() + k] == (a, b));
            }
        }
    }
}

/// With probability one a directed draw keeps every ordered pair of
/// distinct nodes once, in increasing order: the complete graph.
pub proof fn lemma_probability_one_complete(state: u64, n: nat, denominator: u64)
    requires
        denominator > 0,
    ensures
        crate::generator::is_complete_list(n, drawn_pairs(state, n, denominator, denominator, true)),
{
    lemma_probability_one(state, n, denominator, true);
    lemma_sweep_all_directed(n, n);
}

/// The probability `numerator / denominator` is well formed.
pub open spec fn valid_probability(numerator: u64, denominator: u64) -> bool {
    denominator != 0 && numerator <= denominator
}

proof fn lemma_row_bounds(state: u64, numerator: u64, denominator: u64, source: nat, lo: nat, hi: nat)
    ensures
        forall|i: int| 0 <= i < row_draws(state, numerator, denominator, source, lo, hi).0.len() ==>
            (#[trigger] row_draws(state, numerator, denominator, source, lo, hi).0[i]).0 == source
            && row_draws(state, numerator, denominator, source, lo, hi).0[i].1 < hi
            && row_draws(state, numerator, denominator, source, lo, hi).0[i].1 >= lo
            && row_draws(state, numerator, denominator, source, lo, hi).0[i].1 != source,
    decreases hi - lo,
{
    if hi > lo {
        lemma_row_bounds(state, numerator, denominator, source, lo, (hi - 1) as nat);
        let (kept, st) = row_draws(state, numerator, denominator, source, lo, (hi - 1) as nat);
        let cur = row_draws(state, numerator, denominator, source, lo, hi).0;
        if (hi - 1) as nat != source {
            let (hit, st2) = trial(st, numerator, denominator);
            if hit {
                assert forall|i: int| 0 <= i < cur.len() implies (#[trigger] cur[i]).0 == source && cur[i].1 < hi
                    && cur[i].1 >= lo && cur[i].1 != source by {
                    if i < kept.len() {
                        assert(cur[i] == kept[i]);
                    }
                }
            }
        }
    }
}

/// A splitmix64 generator of directed and undirected random topologies.
#[derive(Debug, Clone, Copy, PartialEq, Eq, Structural)]
pub struct RandomGraphGenerator {
    state: u64,
}

impl RandomGraphGenerator {
    pub closed spec fn spec_state(self) -> u64 {
        self.state
    }

    /// A generator whose stream starts from `seed`.
    pub fn new(seed: u64) -> (r: Self)
        ensures
            r.spec_state() == seed,
    {
        RandomGraphGenerator { state: seed }
    }

    /// Advances the state and returns the next splitmix64 output.
    fn next_u64(&mut self) -> (r: u64)
        ensures
            final(self).spec_state() == advanced(old(self).spec_state()),
            r == splitmix(final(self).spec_state()),
    {
        self.state = self.state.wrapping_add(GOLDEN_GAMMA);
        let mut value = self.state;
        value = (value ^ (value >> 30)).wrapping_mul(0xbf58_476d_1ce4_e5b9);
        value = (value ^ (value >> 27)).wrapping_mul(0x94d0_49bb_1331_11eb);
        value ^ (value >> 31)
    }

    /// One trial with probability `numerator / denominator`.
    fn sample(&mut self, numerator: u64, denominator: u64) -> (r: bool)
        requires
            denominator != 0,
        ensures
            (r, final(self).spec_state()) == trial(old(self).spec_state(), numerator, denominator),
    {
        if numerator == denominator {
            return true;
        }
        if numerator == 0 {
            return false;
        }
        self.next_u64() % denominator < numerator
    }

    /// Runs the trials of one source for the targets `lo..node_count`,
    /// appending the kept edges.
    fn draw_row(&mut self, edges: &mut Vec<EdgeEndpoints>, node_count: usize, numerator: u64, denominator: u64, source: usize, lo: usize)
        -> (r: Result<()>)
        requires
            denominator != 0,
            node_count <= u32::MAX,
            source < node_count,
            lo <= node_count,
        ensures
            r is Ok,
            ({
                let (row, st) = row_draws(old(self).spec_state(), numerator, denominator, source as nat, lo as nat, node_count as nat);
                &&& endpoint_pairs(final(edges)@) == endpoint_pairs(old(edges)@) + row
                &&& final(self).spec_state() == st
            }),
    {
        let ghost st0 = self.spec_state();
        let ghost base = endpoint_pairs(edges@);
        let mut target = lo;
        while target < node_count
            invariant
                denominator != 0,
                node_count <= u32::MAX,
                source < node_count,
                lo <= target <= node_count,
                ({
                    let (row, st) = row_draws(st0, numerator, denominator, source as nat, lo as nat, target as nat);
                    &&& endpoint_pairs(edges@) == base + row
                    &&& self.spec_state() == st
                }),
            decreases node_count - target,
        {
            let ghost before = endpoint_pairs(edges@);
            if source != target && self.sample(numerator, denominator) {
                let pair = endpoints(source, target)?;
                edges.push(pair);
                proof {
                    assert(endpoint_pairs(edges@) =~= before.push((source as nat, target as nat)));
                }
            }
            proof {
                let (row, st) = row_draws(st0, numerator, denominator, source as nat, lo as nat, (target + 1) as nat);
                let (prev, _) = row_draws(st0, numerator, denominator, source as nat, lo as nat, target as nat);
                assert(base + prev.push((source as nat, target as nat)) =~= (base + prev).push((source as nat, target as nat)));
            }
            target = target + 1;
        }
        Ok(())
    }

    /// Draws every pair for `node_count` nodes: all ordered pairs of
    /// distinct nodes when `directed`, the pairs `s < t` otherwise.
    fn draw_all(&mut self, node_count: usize, numerator: u64, denominator: u64, directed: bool) -> (r: Result<Vec<EdgeEndpoints>>)
        requires
            denominator != 0,
            node_count <= u32::MAX,
        ensures
            r matches Ok(edges) && endpoint_pairs(edges@) == drawn_pairs(old(self).spec_state(), node_count as nat, numerator, denominator, directed),
            final(self).spec_state() == drawn_state(old(self).spec_state(), node_count as nat, numerator, denominator, directed),
    {
        let ghost st0 = self.spec_state();
        let mut edges: Vec<EdgeEndpoints> = Vec::new();
        let mut source: usize = 0;
        while source < node_count
            invariant
                denominator != 0,
                node_count <= u32::MAX,
                source <= node_count,
                ({
                    let (kept, st) = sweep_draws(st0, node_count as nat, numerator, denominator, directed, source as nat);
                    &&& endpoint_pairs(edges@) == kept
                    &&& self.spec_state() == st
                }),
            decreases node_count - source,
        {
            let lo = if directed { 0 } else { source + 1 };
            self.draw_row(&mut edges, node_count, numerator, denominator, source, lo)?;
            source = source + 1;
        }
        Ok(edges)
    }

    /// Generates a directed random graph without self-loops: each ordered
    /// pair of distinct nodes, sources then targets in increasing order,
    /// becomes an edge with probability `numerator / denominator`.
    ///
    /// Fails for an ill-formed probability (the state is then unchanged),
    /// a node count beyond compact indices (likewise), or more drawn edges
    /// than compact indices hold.
    pub fn directed(&mut self, node_count: usize, numerator: u64, denominator: u64) -> (r: Result<Topology>)
        ensures
            !valid_probability(numerator, denominator) ==> r == Err::<Topology, GraphError>(
                GraphError::InvalidProbability { numerator, denominator },
            ) && *final(self) == *old(self),
            valid_probability(numerator, denominator) && node_count > u32::MAX ==> r == Err::<Topology, GraphError>(
                GraphError::IndexCapacityExceeded { category: "generated nodes", count: node_count },
            ) && *final(self) == *old(self),
            valid_probability(numerator, denominator) && node_count <= u32::MAX ==> ({
                let drawn = drawn_pairs(old(self).spec_state(), node_count as nat, numerator, denominator, true);
                &&& final(self).spec_state() == drawn_state(old(self).spec_state(), node_count as nat, numerator, denominator, true)
                &&& drawn.len() <= u32::MAX ==> (r matches Ok(t) && t.view_node_count() == node_count && t.view_edges() == drawn)
                &&& drawn.len() > u32::MAX ==> r == Err::<Topology, GraphError>(
                    GraphError::IndexCapacityExceeded { category: "edges", count: drawn.len() as usize },
                )
            }),
    {
        validate_probability(numerator, denominator)?;
        validate_node_count(node_count)?;
        let ghost st0 = self.spec_state();
        let edges = self.draw_all(node_count, numerator, denominator, true)?;
        proof {
            lemma_sweep_bounds(st0, node_count as nat, numerator, denominator, true, node_count as nat);
        }
        Topology::try_from_edges(node_count, edges)
    }

    /// Generates an undirected random graph without self-loops: each pair
    /// `s < t`, in increasing order, becomes an edge with probability
    /// `numerator / denominator`.
    ///
    /// Fails as [`RandomGraphGenerator::directed`] does.
    pub fn undirected(&mut self, node_count: usize, numerator: u64, denominator: u64) -> (r: Result<UndirectedTopology>)
        ensures
            !valid_probability(numerator, denominator) ==> r == Err::<UndirectedTopology, GraphError>(
                GraphError::InvalidProbability { numerator, denominator },
            ) && *final(self) == *old(self),
            valid_probability(numerator, denominator) && node_count > u32::MAX ==> r == Err::<UndirectedTopology, GraphError>(
                GraphError::IndexCapacityExceeded { category: "generated nodes", count: node_count },
            ) && *final(self) == *old(self),
            valid_probability(numerator, denominator) && node_count <= u32::MAX ==> ({
                let drawn = drawn_pairs(old(self).spec_state(), node_count as nat, numerator, denominator, false);
                &&& final(self).spec_state() == drawn_state(old(self).spec_state(), node_count as nat, numerator, denominator, false)
                &&& drawn.len() <= u32::MAX ==> (r matches Ok(t) && t.view_node_count() == node_count && t.view_edges() == drawn)
                &&& drawn.len() > u32::MAX ==> r == Err::<UndirectedTopology, GraphError>(
                    GraphError::IndexCapacityExceeded { category: "edges", count: drawn.len() as usize },
                )
            }),
    {
        validate_probability(numerator, denominator)?;
        validate_node_count(node_count)?;
        let ghost st0 = self.spec_state();
        let edges = self.draw_all(node_count, numerator, denominator, false)?;
        proof {
            lemma_sweep_bounds(st0, node_count as nat, numerator, denominator, false, node_count as nat);
        }
        UndirectedTopology::try_from_edges(node_count, edges)
    }
}

/// Every drawn pair names two distinct nodes below `n`.
proof fn lemma_sweep_bounds(state: u64, n: nat, numerator: u64, denominator: u64, directed: bool, s: nat)
    requires
        s <= n,
    ensures
        forall|i: int| 0 <= i < sweep_draws(state, n, numerator, denominator, directed, s).0.len() ==>
            (#[trigger] sweep_draws(state, n, numerator, denominator, directed, s).0[i]).0 < n
            && sweep_draws(state, n, numerator, denominator, directed, s).0[i].1 < n,
    decreases s,
{
    if s > 0 {
        lemma_sweep_bounds(state, n, numerator, denominator, directed, (s - 1) as nat);
        let (kept, st) = sweep_draws(state, n, numerator, denominator, directed, (s - 1) as nat);
        lemma_row_bounds(st, numerator, denominator, (s - 1) as nat, first_target(directed, (s - 1) as nat), n);
        let (row, _) = row_draws(st, numerator, denominator, (s - 1) as nat, first_target(directed, (s - 1) as nat), n);
        assert forall|i: int| 0 <= i < (kept + row).len() implies (#[trigger] (kept + row)[i]).0 < n && (kept + row)[i].1 < n by {
            if i >= kept.len() {
                assert((kept + row)[i] == row[i - kept.len()]);
            }
        }
    }
}

/// Rejects a probability whose denominator is zero or below its numerator.
fn validate_probability(numerator: u64, denominator: u64) -> (r: Result<()>)
    ensures
        r is Ok <==> valid_probability(numerator, denominator),
        r is Err ==> r == Err::<(), GraphError>(GraphError::InvalidProbability { numerator, denominator }),
{
    if denominator == 0 || numerator > denominator {
        return Err(GraphError::InvalidProbability { numerator, denominator });
    }
    Ok(())
}

/// Rejects a node count beyond compact indices.
fn validate_node_count(node_count: usize) -> (r: Result<()>)
    ensures
        r is Ok <==> node_count <= u32::MAX,
        r is Err ==> r == Err::<(), GraphError>(GraphError::IndexCapacityExceeded { category: "generated nodes", count: node_count }),
{
    if node_count > u32::MAX as usize {
        return Err(GraphError::IndexCapacityExceeded { category: "generated nodes", count: node_count });
    }
    Ok(())
}

/// The edge `source -> target` in compact indices.
fn endpoints(source: usize, target: usize) -> (r: Result<EdgeEndpoints>)
    ensures
        source <= u32::MAX && target <= u32::MAX ==> (r matches Ok(p) && p@ == (source as nat, target as nat)),
        source > u32::MAX ==> r == Err::<EdgeEndpoints, GraphError>(
            GraphError::IndexCapacityExceeded { category: "generated node index", count: source },
        ),
        source <= u32::MAX && target > u32::MAX ==> r == Err::<EdgeEndpoints, GraphError>(
            GraphError::IndexCapacityExceeded { category: "generated node index", count: target },
        ),
{
    let source = compact(source)?;
    let target = compact(target)?;
    Ok(EdgeEndpoints::new(source, target))
}

/// `index` as a compact node index.
fn compact(index: usize) -> (r: Result<NodeIndex>)
    ensures
        index <= u32::MAX ==> (r matches Ok(n) && n@ == index),
        index > u32::MAX ==> r == Err::<NodeIndex, GraphError>(
            GraphError::IndexCapacityExceeded { category: "generated node index", count: index },
        ),
{
    if index > u32::MAX as usize {
        return Err(GraphError::IndexCapacityExceeded { category: "generated node index", count: index });
    }
    Ok(NodeIndex::new(index as u32))
}

} // verus!

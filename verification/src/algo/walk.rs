//! Weighted walks along edges followed forward or backward.
use vstd::prelude::*;

verus! {

/// Which way edges are followed.
#[derive(Debug, Clone, Copy, PartialEq, Eq, Hash, Structural)]
pub enum Direction {
    /// From source to target.
    Outgoing,
    /// From target to source.
    Incoming,
}

/// The two ends of edge `e` in the order it is followed.
pub open spec fn step(edges: Seq<(nat, nat)>, direction: Direction, e: nat) -> (nat, nat) {
    match direction {
        Direction::Outgoing => edges[e as int],
        Direction::Incoming => (edges[e as int].1, edges[e as int].0),
    }
}

/// The node reached after following the first `i` edges of `es` from `u`.
pub open spec fn walk_at(edges: Seq<(nat, nat)>, direction: Direction, es: Seq<nat>, u: nat, i: int) -> nat {
    if i == 0 {
        u
    } else {
        step(edges, direction, es[i - 1]).1
    }
}

/// `es` is a walk from `u` to `v`: every edge exists, has a weight, and
/// starts where the previous one ended.
pub open spec fn is_weighted_walk(
    edges: Seq<(nat, nat)>,
    direction: Direction,
    weights: Seq<Option<u64>>,
    es: Seq<nat>,
    u: nat,
    v: nat,
) -> bool {
    &&& forall|i: int| 0 <= i < es.len() ==> es[i] < edges.len() && weights[es[i] as int] is Some
        && step(edges, direction, es[i]).0 == #[trigger] walk_at(edges, direction, es, u, i)
    &&& walk_at(edges, direction, es, u, es.len() as int) == v
}

/// The weight of edge `e`, zero when it has none.
pub open spec fn weight_of(weights: Seq<Option<u64>>, e: nat) -> nat {
    match weights[e as int] {
        Some(w) => w as nat,
        None => 0,
    }
}

/// The sum of the weights along `es`.
pub open spec fn walk_cost(weights: Seq<Option<u64>>, es: Seq<nat>) -> nat
    decreases es.len(),
{
    if es.len() == 0 {
        0
    } else {
        walk_cost(weights, es.drop_last()) + weight_of(weights, es.last())
    }
}

/// The nodes visited by `es` from `u`, both ends included.
pub open spec fn walk_nodes(edges: Seq<(nat, nat)>, direction: Direction, es: Seq<nat>, u: nat) -> Seq<nat> {
    Seq::new(es.len() + 1, |i: int| walk_at(edges, direction, es, u, i))
}

/// A walk extended by one edge at its end.
pub proof fn lemma_walk_push(
    edges: Seq<(nat, nat)>,
    direction: Direction,
    weights: Seq<Option<u64>>,
    es: Seq<nat>,
    u: nat,
    v: nat,
    e: nat,
)
    requires
        is_weighted_walk(edges, direction, weights, es, u, v),
        e < edges.len(),
        weights[e as int] is Some,
        step(edges, direction, e).0 == v,
    ensures
        is_weighted_walk(edges, direction, weights, es.push(e), u, step(edges, direction, e).1),
        walk_cost(weights, es.push(e)) == walk_cost(weights, es) + weight_of(weights, e),
{
    let t = es.push(e);
    assert(t.drop_last() =~= es);
    assert forall|i: int| 0 <= i < t.len() implies (#[trigger] t[i]) < edges.len() && weights[t[i] as int] is Some
        && step(edges, direction, t[i]).0 == walk_at(edges, direction, t, u, i) by {
        if i < es.len() {
            assert(t[i] == es[i]);
            assert(step(edges, direction, es[i]).0 == walk_at(edges, direction, es, u, i));
            if i > 0 {
                assert(t[i - 1] == es[i - 1]);
            }
        } else if i > 0 {
            assert(t[i - 1] == es[i - 1]);
        }
    }
}

/// A walk extended by one edge at its start.
pub proof fn lemma_walk_prepend(
    edges: Seq<(nat, nat)>,
    direction: Direction,
    weights: Seq<Option<u64>>,
    es: Seq<nat>,
    u: nat,
    v: nat,
    e: nat,
)
    requires
        is_weighted_walk(edges, direction, weights, es, u, v),
        e < edges.len(),
        weights[e as int] is Some,
        step(edges, direction, e).1 == u,
    ensures
        is_weighted_walk(edges, direction, weights, seq![e] + es, step(edges, direction, e).0, v),
        walk_cost(weights, seq![e] + es) == weight_of(weights, e) + walk_cost(weights, es),
        walk_nodes(edges, direction, seq![e] + es, step(edges, direction, e).0)
            =~= seq![step(edges, direction, e).0] + walk_nodes(edges, direction, es, u),
    decreases es.len(),
{
    let t = seq![e] + es;
    let a = step(edges, direction, e).0;
    assert forall|i: int| 0 <= i < t.len() implies (#[trigger] t[i]) < edges.len() && weights[t[i] as int] is Some
        && step(edges, direction, t[i]).0 == walk_at(edges, direction, t, a, i) by {
        if i > 0 {
            assert(t[i] == es[i - 1]);
            assert(step(edges, direction, es[i - 1]).0 == walk_at(edges, direction, es, u, i - 1));
            if i > 1 {
                assert(t[i - 1] == es[i - 2]);
            }
        }
    }
    if es.len() > 0 {
        assert(t.last() == es.last());
    }
    assert(walk_at(edges, direction, t, a, t.len() as int) == v) by {
        if es.len() > 0 {
            assert(t[t.len() - 1] == es[es.len() - 1]);
        }
    }
    if es.len() == 0 {
        assert(t.drop_last() =~= Seq::<nat>::empty());
        assert(t.last() == e);
        assert(walk_cost(weights, t) == walk_cost(weights, t.drop_last()) + weight_of(weights, t.last()));
    } else {
        let init = es.drop_last();
        let last = es.last();
        let v0 = walk_at(edges, direction, es, u, init.len() as int);
        assert(is_weighted_walk(edges, direction, weights, init, u, v0)) by {
            assert forall|i: int| 0 <= i < init.len() implies (#[trigger] init[i]) < edges.len() && weights[init[i] as int] is Some
                && step(edges, direction, init[i]).0 == walk_at(edges, direction, init, u, i) by {
                assert(init[i] == es[i]);
                assert(step(edges, direction, es[i]).0 == walk_at(edges, direction, es, u, i));
                if i > 0 {
                    assert(init[i - 1] == es[i - 1]);
                }
            }
            if init.len() > 0 {
                assert(init[init.len() - 1] == es[init.len() - 1]);
            }
        }
        lemma_walk_prepend(edges, direction, weights, init, u, v0, e);
        assert(t.drop_last() =~= seq![e] + init);
        assert(walk_cost(weights, t) == walk_cost(weights, t.drop_last()) + weight_of(weights, t.last()));
        assert(walk_cost(weights, es) == walk_cost(weights, init) + weight_of(weights, last));
    }
    assert forall|i: int| 0 <= i < t.len() + 1 implies walk_nodes(edges, direction, t, a)[i]
        == (seq![a] + walk_nodes(edges, direction, es, u))[i] by {
        if i > 1 {
            assert(t[i - 1] == es[i - 2]);
        }
    }
}

/// A prefix of a walk is a walk, and costs no more.
pub proof fn lemma_walk_take(
    edges: Seq<(nat, nat)>,
    direction: Direction,
    weights: Seq<Option<u64>>,
    es: Seq<nat>,
    u: nat,
    v: nat,
    j: int,
)
    requires
        is_weighted_walk(edges, direction, weights, es, u, v),
        0 <= j <= es.len(),
    ensures
        is_weighted_walk(edges, direction, weights, es.take(j), u, walk_at(edges, direction, es, u, j)),
        walk_cost(weights, es.take(j)) <= walk_cost(weights, es),
    decreases es.len() - j,
{
    let p = es.take(j);
    assert forall|i: int| 0 <= i < p.len() implies (#[trigger] p[i]) < edges.len() && weights[p[i] as int] is Some
        && step(edges, direction, p[i]).0 == walk_at(edges, direction, p, u, i) by {
        assert(p[i] == es[i]);
        assert(step(edges, direction, es[i]).0 == walk_at(edges, direction, es, u, i));
        if i > 0 {
            assert(p[i - 1] == es[i - 1]);
        }
    }
    if j > 0 {
        assert(p[j - 1] == es[j - 1]);
    }
    if j < es.len() {
        lemma_walk_take(edges, direction, weights, es, u, v, j + 1);
        assert(es.take(j + 1).drop_last() =~= p);
    } else {
        assert(p =~= es);
    }
}

/// The rest of a walk after its first `j` edges is a walk from where
/// they lead, and the two parts' weights add up to the whole.
pub proof fn lemma_walk_skip(
    edges: Seq<(nat, nat)>,
    direction: Direction,
    weights: Seq<Option<u64>>,
    es: Seq<nat>,
    u: nat,
    v: nat,
    j: int,
)
    requires
        is_weighted_walk(edges, direction, weights, es, u, v),
        0 <= j <= es.len(),
    ensures
        is_weighted_walk(edges, direction, weights, es.skip(j), walk_at(edges, direction, es, u, j), v),
        walk_cost(weights, es.take(j)) + walk_cost(weights, es.skip(j)) == walk_cost(weights, es),
    decreases es.len() - j,
{
    lemma_walk_take(edges, direction, weights, es, u, v, j);
    if j == es.len() {
        assert(es.skip(j) =~= Seq::<nat>::empty());
        assert(es.take(j) =~= es);
    } else {
        lemma_walk_skip(edges, direction, weights, es, u, v, j + 1);
        let e = es[j];
        let rest = es.skip(j + 1);
        assert(step(edges, direction, e).0 == walk_at(edges, direction, es, u, j));
        assert(step(edges, direction, e).1 == walk_at(edges, direction, es, u, j + 1));
        lemma_walk_prepend(edges, direction, weights, rest, walk_at(edges, direction, es, u, j + 1), v, e);
        assert(seq![e] + rest =~= es.skip(j));
        assert(es.take(j + 1).drop_last() =~= es.take(j));
        assert(es.take(j + 1).last() == e);
    }
}

} // verus!

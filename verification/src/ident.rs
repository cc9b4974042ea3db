//! An index from node identifiers to stable keys, kept in identifier
//! order and searched by halving.
use crate::graph::{compare_text, lemma_text_less_irreflexive, lemma_text_less_trans, strictly_sorted, text_less};
use crate::working::StableNodeKey;
use vstd::prelude::*;

verus! {

/// Identifiers, each with the key of its node, in strictly increasing
/// identifier order.
pub struct IdIndex {
    entries: Vec<(String, StableNodeKey)>,
}

/// The identifiers of a list of entries.
pub open spec fn entry_ids(entries: Seq<(String, StableNodeKey)>) -> Seq<Seq<char>> {
    entries.map_values(|e: (String, StableNodeKey)| e.0@)
}

/// A position of `id` among the entries, where it is one of them.
pub open spec fn entry_at(entries: Seq<(String, StableNodeKey)>, id: Seq<char>) -> int {
    choose|i: int| 0 <= i < entries.len() && entries[i].0@ == id
}

/// The map a list of entries stands for.
pub open spec fn entry_map(entries: Seq<(String, StableNodeKey)>) -> Map<Seq<char>, (nat, nat)> {
    Map::new(|id: Seq<char>| entry_ids(entries).contains(id), |id: Seq<char>| entries[entry_at(entries, id)].1@)
}

/// In strictly increasing order, the entry at `i` is the one the map
/// gives for its identifier.
proof fn lemma_entry_at(entries: Seq<(String, StableNodeKey)>, i: int)
    requires
        strictly_sorted(entry_ids(entries)),
        0 <= i < entries.len(),
    ensures
        entry_map(entries).contains_key(entries[i].0@),
        entry_map(entries)[entries[i].0@] == entries[i].1@,
{
    let ids = entry_ids(entries);
    assert(ids[i] == entries[i].0@);
    let id = entries[i].0@;
    assert(ids.contains(id));
    assert(exists|j: int| 0 <= j < entries.len() && entries[j].0@ == id);
    let j = entry_at(entries, id);
    assert(0 <= j < entries.len() && entries[j].0@ == id);
    assert(entry_map(entries)[id] == entries[j].1@);
    assert(ids[j] == entries[j].0@);
    if j < i {
        assert(text_less(ids[j], ids[i]));
        lemma_text_less_irreflexive(id);
    } else if j > i {
        assert(text_less(ids[i], ids[j]));
        lemma_text_less_irreflexive(id);
    }
}

impl IdIndex {
    /// The identifiers indexed, each with its key.
    pub closed spec fn map(&self) -> Map<Seq<char>, (nat, nat)> {
        entry_map(self.entries@)
    }

    /// Identifiers are kept in strictly increasing order.
    pub closed spec fn wf(&self) -> bool {
        strictly_sorted(entry_ids(self.entries@))
    }

    /// An empty index.
    pub fn new() -> (r: Self)
        ensures
            r.wf(),
            r.map() == Map::<Seq<char>, (nat, nat)>::empty(),
    {
        let r = IdIndex { entries: Vec::new() };
        assert(r.map() =~= Map::<Seq<char>, (nat, nat)>::empty());
        r
    }

    /// Where `id` is or would go: every identifier before the position
    /// comes before `id`, every one from it on comes after `id` or is it.
    fn position(&self, id: &str) -> (r: (usize, bool))
        requires
            self.wf(),
        ensures
            r.0 <= self.entries@.len(),
            forall|p: int| 0 <= p < r.0 ==> text_less(#[trigger] entry_ids(self.entries@)[p], id@),
            forall|p: int| r.0 < p < self.entries@.len() ==> text_less(id@, #[trigger] entry_ids(self.entries@)[p]),
            r.1 <==> r.0 < self.entries@.len() && entry_ids(self.entries@)[r.0 as int] == id@,
            !r.1 && r.0 < self.entries@.len() ==> text_less(id@, entry_ids(self.entries@)[r.0 as int]),
    {
        let ghost ids = entry_ids(self.entries@);
        let mut lo: usize = 0;
        let mut hi: usize = self.entries.len();
        while lo < hi
            invariant
                ids == entry_ids(self.entries@),
                strictly_sorted(ids),
                lo <= hi <= ids.len(),
                forall|p: int| 0 <= p < lo ==> text_less(#[trigger] ids[p], id@),
                forall|p: int| hi <= p < ids.len() ==> text_less(id@, #[trigger] ids[p]),
            decreases hi - lo,
        {
            let mid = lo + (hi - lo) / 2;
            let c = compare_text(self.entries[mid].0.as_str(), id);
            proof {
                assert(ids[mid as int] == self.entries@[mid as int].0@);
            }
            if c == 0 {
                proof {
                    assert forall|p: int| mid < p < ids.len() implies text_less(id@, #[trigger] ids[p]) by {
                        assert(text_less(ids[mid as int], ids[p]));
                    }
                }
                return (mid, true);
            } else if c == -1 {
                proof {
                    assert forall|p: int| 0 <= p < mid + 1 implies text_less(#[trigger] ids[p], id@) by {
                        if p < mid {
                            lemma_text_less_trans(ids[p], ids[mid as int], id@);
                        }
                    }
                }
                lo = mid + 1;
            } else {
                proof {
                    assert forall|p: int| mid <= p < ids.len() implies text_less(id@, #[trigger] ids[p]) by {
                        if p > mid {
                            lemma_text_less_trans(id@, ids[mid as int], ids[p]);
                        }
                    }
                }
                hi = mid;
            }
        }
        proof {
            if lo < ids.len() {
                assert(text_less(id@, ids[lo as int]));
                if ids[lo as int] == id@ {
                    lemma_text_less_irreflexive(id@);
                }
            }
        }
        (lo, false)
    }

    /// The key indexed under `id`, if any.
    pub fn find(&self, id: &str) -> (r: Option<StableNodeKey>)
        requires
            self.wf(),
        ensures
            r is Some <==> self.map().contains_key(id@),
            r matches Some(k) ==> k@ == self.map()[id@],
    {
        let (p, found) = self.position(id);
        proof {
            let ids = entry_ids(self.entries@);
            if self.map().contains_key(id@) && !found {
                let j = choose|j: int| 0 <= j < ids.len() && ids[j] == id@;
                if j < p {
                    assert(text_less(ids[j], id@));
                } else if j > p {
                    assert(text_less(id@, ids[j]));
                } else {
                    assert(text_less(id@, ids[j]));
                }
                lemma_text_less_irreflexive(id@);
            }
        }
        if found {
            proof {
                lemma_entry_at(self.entries@, p as int);
            }
            Some(self.entries[p].1)
        } else {
            None
        }
    }

    /// Indexes `key` under `id`, which is not indexed yet.
    pub fn insert(&mut self, id: String, key: StableNodeKey)
        requires
            old(self).wf(),
            !old(self).map().contains_key(id@),
        ensures
            final(self).wf(),
            final(self).map() == old(self).map().insert(id@, key@),
    {
        let (p, found) = self.position(id.as_str());
        let ghost before = self.entries@;
        let ghost ids0 = entry_ids(before);
        proof {
            if found {
                assert(ids0[p as int] == id@);
                assert(ids0.contains(id@));
            }
        }
        let ghost idv = id@;
        self.entries.insert(p, (id, key));
        proof {
            let after = self.entries@;
            let ids1 = entry_ids(after);
            assert(after =~= before.subrange(0, p as int).push((after[p as int].0, key)).add(before.subrange(p as int, before.len() as int)));
            assert forall|t: int| 0 <= t < ids1.len() implies #[trigger] ids1[t] == if t < p {
                ids0[t]
            } else if t == p {
                idv
            } else {
                ids0[t - 1]
            } by {
                assert(ids1[t] == after[t].0@);
                if t < p {
                    assert(after[t] == before[t]);
                } else if t > p {
                    assert(after[t] == before[t - 1]);
                }
            }
            assert forall|a: int, b: int| 0 <= a < b < ids1.len() implies text_less(#[trigger] ids1[a], #[trigger] ids1[b]) by {
                if b < p {
                } else if a < p && b == p {
                } else if a < p {
                    lemma_text_less_trans(ids0[a], idv, ids0[b - 1]);
                } else if a == p {
                } else {
                    assert(text_less(ids0[a - 1], ids0[b - 1]));
                }
            }
            let m0 = entry_map(before);
            let m1 = entry_map(after);
            assert forall|x: Seq<char>| #[trigger] m1.contains_key(x) <==> m0.insert(idv, key@).contains_key(x) by {
                if ids1.contains(x) {
                    let t = choose|t: int| 0 <= t < ids1.len() && ids1[t] == x;
                    if t < p {
                        assert(ids0[t] == x);
                    } else if t > p {
                        assert(ids0[t - 1] == x);
                    }
                }
                if ids0.contains(x) {
                    let t = choose|t: int| 0 <= t < ids0.len() && ids0[t] == x;
                    if t < p {
                        assert(ids1[t] == x);
                    } else {
                        assert(ids1[t + 1] == x);
                    }
                }
                if x == idv {
                    assert(ids1[p as int] == x);
                }
            }
            assert forall|x: Seq<char>| #[trigger] m1.contains_key(x) implies m1[x] == m0.insert(idv, key@)[x] by {
                let t = choose|t: int| 0 <= t < ids1.len() && ids1[t] == x;
                assert(after[t].0@ == x);
                lemma_entry_at(after, t);
                if t < p {
                    assert(after[t] == before[t]);
                    lemma_entry_at(before, t);
                } else if t > p {
                    assert(after[t] == before[t - 1]);
                    lemma_entry_at(before, t - 1);
                } else {
                    assert(after[t].1 == key);
                }
            }
            assert(m1 =~= m0.insert(idv, key@));
        }
    }

    /// Drops `id` from the index.
    pub fn remove(&mut self, id: &str)
        requires
            old(self).wf(),
        ensures
            final(self).wf(),
            final(self).map() == old(self).map().remove(id@),
    {
        let (p, found) = self.position(id);
        let ghost before = self.entries@;
        let ghost ids0 = entry_ids(before);
        if !found {
            proof {
                if ids0.contains(id@) {
                    let j = choose|j: int| 0 <= j < ids0.len() && ids0[j] == id@;
                    if j < p {
                        assert(text_less(ids0[j], id@));
                    } else {
                        assert(text_less(id@, ids0[j]));
                    }
                    lemma_text_less_irreflexive(id@);
                }
                assert(entry_map(before) =~= entry_map(before).remove(id@));
            }
            return;
        }
        let _gone = self.entries.remove(p);
        proof {
            let after = self.entries@;
            let ids1 = entry_ids(after);
            assert forall|t: int| 0 <= t < ids1.len() implies #[trigger] ids1[t] == if t < p { ids0[t] } else { ids0[t + 1] } by {
                assert(ids1[t] == after[t].0@);
                if t < p {
                    assert(after[t] == before[t]);
                } else {
                    assert(after[t] == before[t + 1]);
                }
            }
            assert forall|a: int, b: int| 0 <= a < b < ids1.len() implies text_less(#[trigger] ids1[a], #[trigger] ids1[b]) by {
                let a0 = if a < p { a } else { a + 1 };
                let b0 = if b < p { b } else { b + 1 };
                assert(text_less(ids0[a0], ids0[b0]));
            }
            let m0 = entry_map(before);
            let m1 = entry_map(after);
            assert forall|x: Seq<char>| #[trigger] m1.contains_key(x) <==> m0.remove(id@).contains_key(x) by {
                if ids1.contains(x) {
                    let t = choose|t: int| 0 <= t < ids1.len() && ids1[t] == x;
                    let t0 = if t < p { t } else { t + 1 };
                    assert(ids0[t0] == x);
                    assert(ids0.contains(x));
                    if x == id@ {
                        assert(ids0[p as int] == id@);
                        if t0 < p {
                            assert(text_less(ids0[t0], ids0[p as int]));
                        } else {
                            assert(text_less(ids0[p as int], ids0[t0]));
                        }
                        lemma_text_less_irreflexive(x);
                    }
                }
                if ids0.contains(x) && x != id@ {
                    let t = choose|t: int| 0 <= t < ids0.len() && ids0[t] == x;
                    assert(t != p);
                    if t < p {
                        assert(ids1[t] == x);
                    } else {
                        assert(ids1[t - 1] == x);
                    }
                }
            }
            assert forall|x: Seq<char>| #[trigger] m1.contains_key(x) implies m1[x] == m0.remove(id@)[x] by {
                let t = choose|t: int| 0 <= t < ids1.len() && ids1[t] == x;
                lemma_entry_at(after, t);
                let t0 = if t < p { t } else { t + 1 };
                assert(after[t] == before[t0]);
                lemma_entry_at(before, t0);
            }
            assert(m1 =~= m0.remove(id@));
        }
    }
}

} // verus!

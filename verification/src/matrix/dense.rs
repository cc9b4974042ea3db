//! Dense directed adjacency matrix with one optional value per ordered pair.
use crate::error::{GraphError, Result};
use crate::index::NodeIndex;
use vstd::prelude::*;

verus! {

broadcast use crate::index::group_index_lemmas;

/// Number of occupied cells among the first `k`.
pub open spec fn count_some<T>(cells: Seq<Option<T>>, k: nat) -> nat
    decreases k,
{
    if k == 0 {
        0
    } else {
        count_some(cells, (k - 1) as nat) + if cells[k - 1] is Some { 1nat } else { 0nat }
    }
}

/// Occupied cell positions among the first `k`, in increasing order.
pub open spec fn some_slots<T>(cells: Seq<Option<T>>, k: nat) -> Seq<nat>
    decreases k,
{
    if k == 0 {
        Seq::empty()
    } else {
        let rest = some_slots(cells, (k - 1) as nat);
        if cells[k - 1] is Some {
            rest.push((k - 1) as nat)
        } else {
            rest
        }
    }
}

/// There are as many occupied positions as occupied cells: the edges a
/// matrix lists number its edge count.
pub proof fn lemma_edges_counted<T>(cells: Seq<Option<T>>, k: nat)
    ensures
        some_slots(cells, k).len() == count_some(cells, k),
    decreases k,
{
    if k > 0 {
        lemma_edges_counted(cells, (k - 1) as nat);
    }
}

/// Columns `c < k` whose cell in row `row` is occupied, in increasing order.
pub open spec fn row_columns<T>(cells: Seq<Option<T>>, n: nat, row: nat, k: nat) -> Seq<nat>
    decreases k,
{
    if k == 0 {
        Seq::empty()
    } else {
        let rest = row_columns(cells, n, row, (k - 1) as nat);
        if cells[row * n + (k - 1)] is Some {
            rest.push((k - 1) as nat)
        } else {
            rest
        }
    }
}

/// Rows `r < k` whose cell in column `col` is occupied, in increasing order.
pub open spec fn column_rows<T>(cells: Seq<Option<T>>, n: nat, col: nat, k: nat) -> Seq<nat>
    decreases k,
{
    if k == 0 {
        Seq::empty()
    } else {
        let rest = column_rows(cells, n, col, (k - 1) as nat);
        if cells[(k - 1) * n + col] is Some {
            rest.push((k - 1) as nat)
        } else {
            rest
        }
    }
}

/// Setting one cell changes the count of occupied cells by what it adds
/// and what it takes away: removing a present edge lowers the edge count
/// by one.
pub proof fn lemma_count_update<T>(cells: Seq<Option<T>>, i: int, v: Option<T>, k: nat)
    requires
        0 <= i < cells.len(),
        k <= cells.len(),
    ensures
        count_some(cells.update(i, v), k) + (if i < k && cells[i] is Some { 1nat } else { 0nat })
            == count_some(cells, k) + (if i < k && v is Some { 1nat } else { 0nat }),
        count_some(cells, k) <= k,
    decreases k,
{
    if k > 0 {
        lemma_count_update(cells, i, v, (k - 1) as nat);
    }
}

proof fn lemma_slot(n: nat, s: nat, t: nat)
    requires
        s < n,
        t < n,
    ensures
        s * n + t < n * n,
        (s * n + t) / n == s,
        (s * n + t) % n == t,
{
    assert(s * n + t < n * n) by (nonlinear_arith)
        requires s < n, t < n;
    assert((s * n + t) / n == s && (s * n + t) % n == t) by (nonlinear_arith)
        requires s < n, t < n;
}

/// A fixed-size directed adjacency matrix over nodes `0..node_count`.
#[derive(Debug)]
pub struct DenseMatrix<T> {
    node_count: u32,
    edge_count: usize,
    cells: Vec<Option<T>>,
}

impl<T> DenseMatrix<T> {
    /// The cells cover every ordered pair of nodes and the edge counter
    /// counts the occupied cells.
    pub closed spec fn wf(&self) -> bool {
        &&& self.cells@.len() == self.node_count as nat * self.node_count as nat
        &&& self.edge_count == count_some(self.cells@, self.cells@.len())
    }

    /// The number of nodes.
    pub closed spec fn dim(&self) -> nat {
        self.node_count as nat
    }

    /// The cells in row-major order: cell `(s, t)` is at `s * dim + t`.
    pub closed spec fn cells(&self) -> Seq<Option<T>> {
        self.cells@
    }

    /// The value stored for the edge `source -> target`, if any.
    pub open spec fn cell(&self, source: nat, target: nat) -> Option<T> {
        self.cells()[(source * self.dim() + target) as int]
    }

    /// Creates an empty matrix over `node_count` nodes.
    ///
    /// Fails when `node_count` does not fit a compact `u32` index or when
    /// `node_count * node_count` overflows `usize`.
    pub fn try_new(node_count: usize) -> (r: Result<Self>)
        ensures
            node_count > u32::MAX ==> r == Err::<Self, GraphError>(
                GraphError::IndexCapacityExceeded { category: "matrix nodes", count: node_count },
            ),
            node_count <= u32::MAX && node_count * node_count > usize::MAX ==> r == Err::<Self, GraphError>(
                GraphError::ArithmeticOverflow { operation: "dense matrix dimensions" },
            ),
            node_count <= u32::MAX && node_count * node_count <= usize::MAX ==> (r matches Ok(m) && m.wf() && m.dim() == node_count
                && m.cells().len() == node_count * node_count
                && forall|i: int| 0 <= i < m.cells().len() ==> m.cells()[i] is None),
    {
        if node_count > u32::MAX as usize {
            return Err(GraphError::IndexCapacityExceeded { category: "matrix nodes", count: node_count });
        }
        let cells = match node_count.checked_mul(node_count) {
            Some(cells) => cells,
            None => {
                return Err(GraphError::ArithmeticOverflow { operation: "dense matrix dimensions" });
            },
        };
        let mut values: Vec<Option<T>> = Vec::new();
        let mut i: usize = 0;
        while i < cells
            invariant
                i <= cells,
                values@.len() == i,
                forall|j: int| 0 <= j < i ==> values@[j] is None,
                count_some(values@, i as nat) == 0,
            decreases cells - i,
        {
            let ghost old_values = values@;
            values.push(None);
            proof {
                assert forall|j: nat| j <= i implies count_some(values@, j) == count_some(old_values, j) by {
                    lemma_count_prefix(values@, old_values, j);
                }
            }
            i = i + 1;
        }
        Ok(DenseMatrix { node_count: node_count as u32, edge_count: 0, cells: values })
    }

    pub fn node_count(&self) -> (r: usize)
        requires
            self.wf(),
        ensures
            r == self.dim(),
    {
        self.node_count as usize
    }

    /// The number of occupied cells, that is of edges.
    pub fn edge_count(&self) -> (r: usize)
        requires
            self.wf(),
        ensures
            r == count_some(self.cells(), self.cells().len()),
    {
                self.edge_count
    }

    /// Position of cell `(source, target)`, or the error for the first
    /// endpoint outside the matrix.
    fn slot(&self, source: NodeIndex, target: NodeIndex) -> (r: Result<usize>)
        requires
            self.wf(),
        ensures
            source@ < self.dim() && target@ < self.dim() ==> (r matches Ok(slot) && slot == source@ * self.dim() + target@
                && slot < self.cells().len()),
            source@ >= self.dim() ==> r == Err::<usize, GraphError>(
                GraphError::InvalidNodeIndex { node: source@ as usize, node_count: self.dim() as usize },
            ),
            source@ < self.dim() && target@ >= self.dim() ==> r == Err::<usize, GraphError>(
                GraphError::InvalidNodeIndex { node: target@ as usize, node_count: self.dim() as usize },
            ),
    {
                let count = self.node_count as usize;
        if source.index() >= count {
            return Err(GraphError::InvalidNodeIndex { node: source.index(), node_count: count });
        }
        if target.index() >= count {
            return Err(GraphError::InvalidNodeIndex { node: target.index(), node_count: count });
        }
        let total = self.cells.len();
        proof {
            lemma_slot(count as nat, source@, target@);
            assert(source@ * count <= source@ * count + target@);
        }
        Ok(source.index() * count + target.index())
    }

    /// The value of the edge `source -> target`, if both are in range and
    /// the edge is present.
    pub fn get(&self, source: NodeIndex, target: NodeIndex) -> (r: Option<&T>)
        requires
            self.wf(),
        ensures
            r is Some <==> source@ < self.dim() && target@ < self.dim() && self.cell(source@, target@) is Some,
            r matches Some(v) ==> *v == self.cell(source@, target@).unwrap(),
    {
        match self.slot(source, target) {
            Ok(slot) => self.cells[slot].as_ref(),
            Err(_) => None,
        }
    }

    /// Mutable access to the value of the edge `source -> target`.
    pub fn get_mut(&mut self, source: NodeIndex, target: NodeIndex) -> (r: Option<&mut T>)
        requires
            old(self).wf(),
        ensures
            final(self).wf(),
            r is Some <==> source@ < old(self).dim() && target@ < old(self).dim() && old(self).cell(source@, target@) is Some,
            r matches Some(v) ==> (*v == old(self).cell(source@, target@).unwrap()
                && final(self).dim() == old(self).dim()
                && final(self).cells() == old(self).cells().update(
                    (source@ * old(self).dim() + target@) as int,
                    Some(*final(v)),
                )),
            r is None ==> final(self).dim() == old(self).dim() && final(self).cells() == old(self).cells(),
    {
                match self.slot(source, target) {
            Ok(slot) => {
                proof {
                    lemma_count_same_shape(self.cells@, slot as int, self.cells@.len());
                }
                self.cells[slot].as_mut()
            },
            Err(_) => None,
        }
    }

    /// Inserts or replaces the value of the edge `source -> target` and
    /// returns the value it replaced.
    pub fn insert(&mut self, source: NodeIndex, target: NodeIndex, value: T) -> (r: Result<Option<T>>)
        requires
            old(self).wf(),
        ensures
            final(self).wf(),
            final(self).dim() == old(self).dim(),
            source@ < old(self).dim() && target@ < old(self).dim() ==> r == Ok::<Option<T>, GraphError>(old(self).cell(source@, target@))
                && final(self).cells() == old(self).cells().update((source@ * old(self).dim() + target@) as int, Some(value)),
            source@ >= old(self).dim() ==> r == Err::<Option<T>, GraphError>(
                GraphError::InvalidNodeIndex { node: source@ as usize, node_count: old(self).dim() as usize },
            ) && final(self).cells() == old(self).cells(),
            source@ < old(self).dim() && target@ >= old(self).dim() ==> r == Err::<Option<T>, GraphError>(
                GraphError::InvalidNodeIndex { node: target@ as usize, node_count: old(self).dim() as usize },
            ) && final(self).cells() == old(self).cells(),
    {
                let slot = match self.slot(source, target) {
            Ok(slot) => slot,
            Err(error) => {
                return Err(error);
            },
        };
        proof {
            lemma_count_update(self.cells@, slot as int, Some(value), self.cells@.len());
        }
        let mut previous = Some(value);
        std::mem::swap(&mut self.cells[slot], &mut previous);
        proof {
            lemma_count_update(self.cells@, slot as int, None, self.cells@.len());
        }
        let total = self.cells.len();
        if previous.is_none() {
            self.edge_count = self.edge_count + 1;
        }
        Ok(previous)
    }

    /// Removes the edge `source -> target` and returns its value.
    pub fn remove(&mut self, source: NodeIndex, target: NodeIndex) -> (r: Option<T>)
        requires
            old(self).wf(),
        ensures
            final(self).wf(),
            final(self).dim() == old(self).dim(),
            source@ < old(self).dim() && target@ < old(self).dim() ==> r == old(self).cell(source@, target@)
                && final(self).cells() == old(self).cells().update((source@ * old(self).dim() + target@) as int, None),
            !(source@ < old(self).dim() && target@ < old(self).dim()) ==> r is None && final(self).cells() == old(self).cells(),
    {
                let slot = match self.slot(source, target) {
            Ok(slot) => slot,
            Err(_) => {
                return None;
            },
        };
        proof {
            lemma_count_update(self.cells@, slot as int, None, self.cells@.len());
            assert(slot == source@ * self.dim() + target@);
            assert(self.cells()[slot as int] == self.cell(source@, target@));
        }
        let previous = self.cells[slot].take();
        assert(previous == old(self).cell(source@, target@));
        if previous.is_some() {
            self.edge_count = self.edge_count - 1;
        }
        previous
    }

    /// The edges leaving `source` with their values, by increasing target;
    /// empty when `source` is outside the matrix.
    pub fn outgoing(&self, source: NodeIndex) -> (r: Vec<(NodeIndex, &T)>)
        requires
            self.wf(),
        ensures
            source@ >= self.dim() ==> r@.len() == 0,
            source@ < self.dim() ==> r@.len() == row_columns(self.cells(), self.dim(), source@, self.dim()).len()
                && forall|i: int| 0 <= i < r@.len() ==> (#[trigger] r@[i]).0@ == row_columns(self.cells(), self.dim(), source@, self.dim())[i]
                    && Some(*r@[i].1) == self.cell(source@, r@[i].0@),
    {
        let count = self.node_count as usize;
        let valid = source.index() < count;
        let mut result: Vec<(NodeIndex, &T)> = Vec::new();
        let mut target: usize = 0;
        while target < count
            invariant
                self.wf(),
                count == self.dim(),
                target <= count,
                valid == (source@ < count),
                !valid ==> result@.len() == 0,
                valid ==> result@.len() == row_columns(self.cells(), self.dim(), source@, target as nat).len()
                    && forall|i: int| 0 <= i < result@.len() ==> (#[trigger] result@[i]).0@ == row_columns(self.cells(), self.dim(), source@, target as nat)[i]
                        && Some(*result@[i].1) == self.cell(source@, result@[i].0@),
            decreases count - target,
        {
            let node = NodeIndex::new(target as u32);
            if valid {
                match self.get(source, node) {
                    Some(value) => {
                        result.push((node, value));
                    },
                    None => {},
                }
            }
            target = target + 1;
        }
        result
    }

    /// The edges entering `target` with their values, by increasing source;
    /// empty when `target` is outside the matrix.
    pub fn incoming(&self, target: NodeIndex) -> (r: Vec<(NodeIndex, &T)>)
        requires
            self.wf(),
        ensures
            target@ >= self.dim() ==> r@.len() == 0,
            target@ < self.dim() ==> r@.len() == column_rows(self.cells(), self.dim(), target@, self.dim()).len()
                && forall|i: int| 0 <= i < r@.len() ==> (#[trigger] r@[i]).0@ == column_rows(self.cells(), self.dim(), target@, self.dim())[i]
                    && Some(*r@[i].1) == self.cell(r@[i].0@, target@),
    {
        let count = self.node_count as usize;
        let valid = target.index() < count;
        let mut result: Vec<(NodeIndex, &T)> = Vec::new();
        let mut source: usize = 0;
        while source < count
            invariant
                self.wf(),
                count == self.dim(),
                source <= count,
                valid == (target@ < count),
                !valid ==> result@.len() == 0,
                valid ==> result@.len() == column_rows(self.cells(), self.dim(), target@, source as nat).len()
                    && forall|i: int| 0 <= i < result@.len() ==> (#[trigger] result@[i]).0@ == column_rows(self.cells(), self.dim(), target@, source as nat)[i]
                        && Some(*result@[i].1) == self.cell(result@[i].0@, target@),
            decreases count - source,
        {
            let node = NodeIndex::new(source as u32);
            if valid {
                match self.get(node, target) {
                    Some(value) => {
                        result.push((node, value));
                    },
                    None => {},
                }
            }
            source = source + 1;
        }
        result
    }

    /// Every present edge with its value, in row-major cell order.
    pub fn edges(&self) -> (r: Vec<(NodeIndex, NodeIndex, &T)>)
        requires
            self.wf(),
        ensures
            r@.len() == some_slots(self.cells(), self.cells().len()).len(),
            forall|i: int| 0 <= i < r@.len() ==> {
                let slot = #[trigger] some_slots(self.cells(), self.cells().len())[i];
                &&& r@[i].0@ == slot / self.dim()
                &&& r@[i].1@ == slot % self.dim()
                &&& Some(*r@[i].2) == self.cells()[slot as int]
            },
    {
        let count = self.node_count as usize;
        let total = self.cells.len();
        let mut result: Vec<(NodeIndex, NodeIndex, &T)> = Vec::new();
        let mut slot: usize = 0;
        while slot < total
            invariant
                self.wf(),
                count == self.dim(),
                total == self.cells().len(),
                total == count * count,
                slot <= total,
                result@.len() == some_slots(self.cells(), slot as nat).len(),
                forall|i: int| 0 <= i < result@.len() ==> {
                    let s = #[trigger] some_slots(self.cells(), slot as nat)[i];
                    &&& result@[i].0@ == s / self.dim()
                    &&& result@[i].1@ == s % self.dim()
                    &&& Some(*result@[i].2) == self.cells()[s as int]
                },
            decreases total - slot,
        {
            match self.cells[slot].as_ref() {
                Some(value) => {
                    proof {
                        lemma_slot_bounds(count as nat, slot as nat);
                    }
                    let source = (slot / count) as u32;
                    let target = (slot % count) as u32;
                    result.push((NodeIndex::new(source), NodeIndex::new(target), value));
                },
                None => {},
            }
            slot = slot + 1;
        }
        result
    }
}

impl<T: Clone> DenseMatrix<T> {
    /// Inserts `value` for both `left -> right` and `right -> left` and
    /// returns the two values it replaced (the same one twice for a
    /// self-loop).
    pub fn insert_undirected(&mut self, left: NodeIndex, right: NodeIndex, value: T) -> (r: Result<(Option<T>, Option<T>)>)
        requires
            old(self).wf(),
        ensures
            final(self).wf(),
            final(self).dim() == old(self).dim(),
            left@ >= old(self).dim() ==> r == Err::<(Option<T>, Option<T>), GraphError>(
                GraphError::InvalidNodeIndex { node: left@ as usize, node_count: old(self).dim() as usize },
            ) && final(self).cells() == old(self).cells(),
            left@ < old(self).dim() && right@ >= old(self).dim() ==> r == Err::<(Option<T>, Option<T>), GraphError>(
                GraphError::InvalidNodeIndex { node: right@ as usize, node_count: old(self).dim() as usize },
            ) && final(self).cells() == old(self).cells(),
            left@ < old(self).dim() && right@ < old(self).dim() ==> (r matches Ok((first, second))
                && first == old(self).cell(left@, right@)
                && final(self).cell(left@, right@) == Some(value)
                && (left@ == right@ ==> (first is None <==> second is None)
                    && (first is Some ==> cloned(first.unwrap(), second.unwrap()))
                    && final(self).cells() == old(self).cells().update((left@ * old(self).dim() + right@) as int, Some(value)))
                && (left@ != right@ ==> (final(self).cell(right@, left@) matches Some(reverse)
                    && second == old(self).cell(right@, left@) && cloned(value, reverse)
                    && final(self).cells() == old(self).cells().update((left@ * old(self).dim() + right@) as int, Some(value))
                        .update((right@ * old(self).dim() + left@) as int, Some(reverse))))),
    {
        let ghost original = value;
        let ghost before = self.cells();
        let reverse = value.clone();
        let first = match self.insert(left, right, value) {
            Ok(previous) => previous,
            Err(error) => {
                return Err(error);
            },
        };
        let ghost after_first = self.cells();
        proof {
            lemma_slot(self.dim(), left@, right@);
        }
        assert(after_first[(left@ * self.dim() + right@) as int] == Some(original));
        if left == right {
            let second = first.clone();
            Ok((first, second))
        } else {
            let ghost mid = self.cells();
            proof {
                let n = self.dim();
                lemma_slot(n, left@, right@);
                lemma_slot(n, right@, left@);
            }
            let second = match self.insert(right, left, reverse) {
                Ok(previous) => previous,
                Err(error) => {
                    return Err(error);
                },
            };
            proof {
                let n = self.dim();
                assert(left@ * n + right@ != right@ * n + left@) by {
                    if left@ * n + right@ == right@ * n + left@ {
                        assert((left@ * n + right@) / n == left@);
                        assert((right@ * n + left@) / n == right@);
                    }
                }
                assert(self.cells() == after_first.update((right@ * n + left@) as int, Some(reverse)));
                assert(self.cells()[(left@ * n + right@) as int] == Some(original));
            }
            Ok((first, second))
        }
    }

}

proof fn lemma_slot_bounds(n: nat, slot: nat)
    requires
        slot < n * n,
    ensures
        n > 0,
        slot / n < n,
        slot % n < n,
        slot == (slot / n) * n + slot % n,
{
    assert(n > 0) by (nonlinear_arith)
        requires slot < n * n;
    assert(slot / n < n) by (nonlinear_arith)
        requires slot < n * n, n > 0;
    assert(slot == (slot / n) * n + slot % n && slot % n < n) by (nonlinear_arith)
        requires n > 0;
}

proof fn lemma_count_same_shape<T>(cells: Seq<Option<T>>, i: int, k: nat)
    requires
        0 <= i < cells.len(),
        k <= cells.len(),
    ensures
        forall|v: Option<T>| (v is Some) == (cells[i] is Some) ==> #[trigger] count_some(cells.update(i, v), k) == count_some(cells, k),
{
    assert forall|v: Option<T>| (v is Some) == (cells[i] is Some) implies #[trigger] count_some(cells.update(i, v), k) == count_some(cells, k) by {
        lemma_count_update(cells, i, v, k);
    }
}

proof fn lemma_count_prefix<T>(a: Seq<Option<T>>, b: Seq<Option<T>>, k: nat)
    requires
        k <= a.len(),
        k <= b.len(),
        forall|j: int| 0 <= j < k ==> a[j] == b[j],
    ensures
        count_some(a, k) == count_some(b, k),
    decreases k,
{
    if k > 0 {
        lemma_count_prefix(a, b, (k - 1) as nat);
    }
}

} // verus!

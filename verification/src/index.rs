use vstd::prelude::*;

verus! {

/// Compact position of a node in an indexed graph.
#[derive(Debug, Clone, Copy, PartialEq, Eq, PartialOrd, Ord, Hash, Structural)]
pub struct NodeIndex(u32);

/// Compact position of an edge in an indexed graph.
#[derive(Debug, Clone, Copy, PartialEq, Eq, PartialOrd, Ord, Hash, Structural)]
pub struct EdgeIndex(u32);

impl View for NodeIndex {
    type V = nat;

    closed spec fn view(&self) -> nat {
        self.0 as nat
    }
}

impl View for EdgeIndex {
    type V = nat;

    closed spec fn view(&self) -> nat {
        self.0 as nat
    }
}

impl NodeIndex {
    pub fn new(index: u32) -> (r: Self)
        ensures
            r@ == index,
    {
        NodeIndex(index)
    }

    pub fn get(self) -> (r: u32)
        ensures
            r == self@,
    {
        self.0
    }

    pub fn index(self) -> (r: usize)
        ensures
            r == self@,
    {
        self.0 as usize
    }
}

impl EdgeIndex {
    pub fn new(index: u32) -> (r: Self)
        ensures
            r@ == index,
    {
        EdgeIndex(index)
    }

    pub fn get(self) -> (r: u32)
        ensures
            r == self@,
    {
        self.0
    }

    pub fn index(self) -> (r: usize)
        ensures
            r == self@,
    {
        self.0 as usize
    }
}

/// A node index is determined by its position, which fits in `u32`.
pub broadcast proof fn lemma_node_index_view(a: NodeIndex, b: NodeIndex)
    ensures
        #![trigger a@, b@]
        a@ == b@ ==> a == b,
        a@ <= u32::MAX,
{
}

/// An edge index is determined by its position, which fits in `u32`.
pub broadcast proof fn lemma_edge_index_view(a: EdgeIndex, b: EdgeIndex)
    ensures
        #![trigger a@, b@]
        a@ == b@ ==> a == b,
        a@ <= u32::MAX,
{
}

/// The source and target of a directed edge.
#[derive(Debug, Clone, Copy, PartialEq, Eq, Hash, Structural)]
pub struct EdgeEndpoints<Node = NodeIndex> {
    source: Node,
    target: Node,
}

impl<Node> EdgeEndpoints<Node> {
    pub closed spec fn src(self) -> Node {
        self.source
    }

    pub closed spec fn tgt(self) -> Node {
        self.target
    }
}

impl<Node: Copy> EdgeEndpoints<Node> {
    pub fn new(source: Node, target: Node) -> (r: Self)
        ensures
            r.src() == source,
            r.tgt() == target,
    {
        EdgeEndpoints { source, target }
    }

    pub fn source(self) -> (r: Node)
        ensures
            r == self.src(),
    {
        self.source
    }

    pub fn target(self) -> (r: Node)
        ensures
            r == self.tgt(),
    {
        self.target
    }
}

impl<Node: View> View for EdgeEndpoints<Node> {
    type V = (Node::V, Node::V);

    open spec fn view(&self) -> (Node::V, Node::V) {
        (self.src()@, self.tgt()@)
    }
}

/// Endpoints are determined by their source and target.
pub broadcast proof fn lemma_endpoints_ext<Node>(a: EdgeEndpoints<Node>, b: EdgeEndpoints<Node>)
    ensures
        #![trigger a.src(), b.src()]
        a.src() == b.src() && a.tgt() == b.tgt() ==> a == b,
{
}

pub broadcast group group_index_lemmas {
    lemma_node_index_view,
    lemma_edge_index_view,
    lemma_endpoints_ext,
}

} // verus!

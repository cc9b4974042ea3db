use weavatrix_graph::{Confidence, Edge, EdgeKind, EvidenceKind, GraphError, Node, NodeId, NodeKind, Provenance, WorkingGraph};

fn node(id: &str) -> Node {
    Node::new(id, id, NodeKind::File).unwrap()
}

fn edge(source: &str, target: &str) -> Edge {
    Edge::new(
        NodeId::new(source).unwrap(),
        NodeId::new(target).unwrap(),
        EdgeKind::Contains,
        Provenance::new("test", EvidenceKind::Parsed, Confidence::High).unwrap(),
    )
}

#[test]
fn working_graph_indexes_nodes_by_identifier() {
    let mut g = WorkingGraph::new();
    let a = g.insert_node(node("a")).unwrap();
    let b = g.insert_node(node("b")).unwrap();
    assert_eq!(g.node_key("a"), Some(a));
    assert_eq!(g.node_key("b"), Some(b));
    assert_eq!(g.node_key("c"), None);
    assert!(matches!(g.insert_node(node("a")), Err(GraphError::ConflictingNode { id }) if id == "a"));
    assert_eq!(g.node_count(), 2);
}

#[test]
fn working_graph_edges_need_known_endpoints() {
    let mut g = WorkingGraph::with_capacity(2, 2);
    g.insert_node(node("a")).unwrap();
    assert!(matches!(g.insert_edge(edge("x", "a")), Err(GraphError::MissingEdgeSource { id }) if id == "x"));
    assert!(matches!(g.insert_edge(edge("a", "y")), Err(GraphError::MissingEdgeTarget { id }) if id == "y"));
    let e = g.insert_edge(edge("a", "a")).unwrap();
    assert_eq!(g.edge_count(), 1);
    assert_eq!(g.remove_edge(e).map(|x| x.kind), Some(EdgeKind::Contains));
    assert!(g.is_empty() == false);
}

#[test]
fn working_graph_replace_node_renames_edges() {
    let mut g = WorkingGraph::new();
    let a = g.insert_node(node("a")).unwrap();
    let b = g.insert_node(node("b")).unwrap();
    let ab = g.insert_edge(edge("a", "b")).unwrap();
    let ba = g.insert_edge(edge("b", "a")).unwrap();
    let old = g.replace_node(a, node("z")).unwrap().unwrap();
    assert_eq!(old.id.as_str(), "a");
    assert_eq!(g.node_key("a"), None);
    assert_eq!(g.node_key("z"), Some(a));
    assert_eq!(g.edge(ab).unwrap().source.as_str(), "z");
    assert_eq!(g.edge(ab).unwrap().target.as_str(), "b");
    assert_eq!(g.edge(ba).unwrap().target.as_str(), "z");
    assert!(matches!(g.replace_node(a, node("b")), Err(GraphError::ConflictingNode { id }) if id == "b"));
    g.remove_node(b);
    assert_eq!(g.replace_node(b, node("q")).unwrap(), None);
    assert_eq!(g.edge(ab), None);
}

#[test]
fn working_graph_replace_edge_moves_it() {
    let mut g = WorkingGraph::new();
    let a = g.insert_node(node("a")).unwrap();
    let b = g.insert_node(node("b")).unwrap();
    let e = g.insert_edge(edge("a", "b")).unwrap();
    let old = g.replace_edge(e, edge("b", "a")).unwrap().unwrap();
    assert_eq!(old.source.as_str(), "a");
    assert_eq!(g.edge_endpoints(e), Some((b, a)));
    assert!(matches!(g.replace_edge(e, edge("b", "q")), Err(GraphError::MissingEdgeTarget { id }) if id == "q"));
    assert_eq!(g.remove_node(a).unwrap().id.as_str(), "a");
    assert_eq!(g.node_key("a"), None);
    assert_eq!(g.edge(e), None);
    let (nodes, edges) = g.into_entries();
    assert_eq!(nodes.len(), 1);
    assert!(edges.is_empty());
}

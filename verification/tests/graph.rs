use weavatrix_graph::{
    compare_text, find_node, has_cycle, resolve_edges, sort_nodes_by_id, strictly_sorted_nodes, topological_sort,
    Confidence, Edge, EdgeIndex, EdgeKind, EvidenceKind, Graph, GraphError, IndexGraphView, Node, NodeId, NodeIndex,
    NodeKind, Provenance, FreezeMap, StableEdgeKey, StableNodeKey,
};

fn node(id: &str) -> Node {
    Node::new(id, id, NodeKind::File).unwrap()
}

fn link(source: &str, target: &str) -> Edge {
    Edge::new(
        NodeId::new(source).unwrap(),
        NodeId::new(target).unwrap(),
        EdgeKind::Contains,
        Provenance::new("example", EvidenceKind::Parsed, Confidence::High).unwrap(),
    )
}

#[test]
fn compare_text_is_lexicographic() {
    assert_eq!(compare_text("a", "b"), -1);
    assert_eq!(compare_text("b", "a"), 1);
    assert_eq!(compare_text("ab", "ab"), 0);
    assert_eq!(compare_text("ab", "abc"), -1);
    assert_eq!(compare_text("", "a"), -1);
    assert_eq!(compare_text("Z", "a"), -1);
    assert_eq!(compare_text("é", "z"), 1);
}

#[test]
fn sorting_nodes_orders_by_identifier() {
    let nodes = vec![node("file:b"), node("repo:demo"), node("file:a")];
    assert!(!strictly_sorted_nodes(&nodes));
    let sorted = sort_nodes_by_id(nodes);
    let ids: Vec<&str> = sorted.iter().map(|n| n.id.as_str()).collect();
    assert_eq!(ids, vec!["file:a", "file:b", "repo:demo"]);
    assert!(strictly_sorted_nodes(&sorted));
}

#[test]
fn node_order_is_independent_of_insertion_order() {
    let first = sort_nodes_by_id(vec![node("c"), node("a"), node("b")]);
    let second = sort_nodes_by_id(vec![node("b"), node("c"), node("a")]);
    assert_eq!(first, second);
}

#[test]
fn find_node_uses_sorted_identifiers() {
    let nodes = vec![node("a"), node("c"), node("e")];
    assert_eq!(find_node(&nodes, "c"), Some(1));
    assert_eq!(find_node(&nodes, "e"), Some(2));
    assert_eq!(find_node(&nodes, "d"), None);
}

#[test]
fn builds_graph_from_sorted_parts() {
    let nodes = vec![node("file:src/lib.rs"), node("repo:demo")];
    let edges = vec![link("repo:demo", "file:src/lib.rs")];
    let graph = Graph::from_validated_sorted_parts(nodes, edges).unwrap();
    assert_eq!(graph.node_count(), 2);
    assert_eq!(graph.edge_count(), 1);
    assert!(!graph.is_empty());
    let repo = graph.node_index("repo:demo").unwrap();
    let file = graph.node_index("file:src/lib.rs").unwrap();
    assert_eq!(repo.index(), 1);
    assert_eq!(file.index(), 0);
    assert_eq!(graph.out_degree(repo), Some(1));
    assert_eq!(graph.in_degree(file), Some(1));
    assert_eq!(graph.out_degree(NodeIndex::new(7)), None);
    assert_eq!(graph.node("repo:demo").unwrap().label, "repo:demo");
    assert!(graph.node("missing").is_none());
    let outgoing = graph.outgoing(&NodeId::new("repo:demo").unwrap());
    assert_eq!(outgoing.len(), 1);
    assert_eq!(outgoing[0].target.as_str(), "file:src/lib.rs");
    assert_eq!(graph.incoming(&NodeId::new("repo:demo").unwrap()).len(), 0);
    assert_eq!(graph.incoming_at(file).len(), 1);
    assert_eq!(graph.edge_at(EdgeIndex::new(0)).unwrap().source.as_str(), "repo:demo");
    assert!(graph.edge_at(EdgeIndex::new(1)).is_none());
}

#[test]
fn graph_rejects_dangling_source_first() {
    let nodes = vec![node("a"), node("b")];
    let edges = vec![link("a", "b"), link("x", "y")];
    match Graph::from_validated_sorted_parts(nodes, edges) {
        Err(GraphError::MissingEdgeSource { id }) => assert_eq!(id, "x"),
        other => panic!("unexpected {other:?}"),
    }
}

#[test]
fn graph_rejects_dangling_target() {
    let nodes = vec![node("a"), node("b")];
    let edges = vec![link("a", "z")];
    match Graph::from_validated_sorted_parts(nodes, edges) {
        Err(GraphError::MissingEdgeTarget { id }) => assert_eq!(id, "z"),
        other => panic!("unexpected {other:?}"),
    }
}

#[test]
fn resolve_edges_maps_identifiers_to_positions() {
    let nodes = vec![node("a"), node("b"), node("c")];
    let ends = resolve_edges(&nodes, &[link("c", "a"), link("b", "b")]).unwrap();
    assert_eq!(ends[0].source().index(), 2);
    assert_eq!(ends[0].target().index(), 0);
    assert_eq!(ends[1].source().index(), 1);
}

#[test]
fn graph_algorithms_run_over_the_graph() {
    let nodes = vec![node("a"), node("b"), node("c")];
    let edges = vec![link("a", "b"), link("b", "c")];
    let graph = Graph::from_validated_sorted_parts(nodes, edges).unwrap();
    let order: Vec<usize> = topological_sort(&graph).unwrap().iter().map(|n| n.index()).collect();
    assert_eq!(order, vec![0, 1, 2]);
    assert!(!has_cycle(&graph));
    assert_eq!(IndexGraphView::edge_count(&graph), 2);
}

#[test]
fn empty_graph_is_empty() {
    let graph = Graph::from_validated_sorted_parts(Vec::new(), Vec::new()).unwrap();
    assert!(graph.is_empty());
    let (nodes, edges) = graph.into_parts();
    assert!(nodes.is_empty() && edges.is_empty());
}

#[test]
fn freeze_map_finds_recorded_keys_only() {
    let mut map = FreezeMap::new();
    map.record_node(StableNodeKey::new(2, 1), NodeIndex::new(0));
    map.record_node(StableNodeKey::new(0, 0), NodeIndex::new(1));
    map.record_edge(StableEdgeKey::new(3, 4), EdgeIndex::new(7));
    assert_eq!(map.node(StableNodeKey::new(2, 1)), Some(NodeIndex::new(0)));
    assert_eq!(map.node(StableNodeKey::new(0, 0)), Some(NodeIndex::new(1)));
    assert_eq!(map.node(StableNodeKey::new(2, 0)), None);
    assert_eq!(map.node(StableNodeKey::new(1, 0)), None);
    assert_eq!(map.node(StableNodeKey::new(9, 0)), None);
    assert_eq!(map.edge(StableEdgeKey::new(3, 4)), Some(EdgeIndex::new(7)));
    assert_eq!(map.edge(StableEdgeKey::new(3, 5)), None);
    map.record_node(StableNodeKey::new(2, 2), NodeIndex::new(5));
    assert_eq!(map.node(StableNodeKey::new(2, 1)), None);
    assert_eq!(map.node(StableNodeKey::new(2, 2)), Some(NodeIndex::new(5)));
    let key = StableNodeKey::new(6, 3);
    assert_eq!((key.slot(), key.generation(), key.index()), (6, 3, 6));
}

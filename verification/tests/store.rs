use weavatrix_graph::{SlotError, StableEdgeKey, StableNodeKey, WorkingStore};

fn keys(list: &[StableEdgeKey]) -> Vec<(u32, u32)> {
    list.iter().map(|k| (k.slot(), k.generation())).collect()
}

#[test]
fn store_places_nodes_in_new_slots() {
    let mut store: WorkingStore<&str, u32> = WorkingStore::new();
    let a = store.insert_node("a").unwrap();
    let b = store.insert_node("b").unwrap();
    assert_eq!((a.slot(), a.generation()), (0, 0));
    assert_eq!((b.slot(), b.generation()), (1, 0));
    assert_eq!(store.node(a), Some(&"a"));
    assert_eq!(store.node_count(), 2);
    assert_eq!(store.edge_count(), 0);
}

#[test]
fn store_reuses_freed_slot_with_new_generation() {
    let mut store: WorkingStore<&str, u32> = WorkingStore::new();
    let a = store.insert_node("a").unwrap();
    let _b = store.insert_node("b").unwrap();
    assert_eq!(store.remove_node(a), Some("a"));
    assert_eq!(store.node(a), None);
    assert!(!store.contains_node(a));
    let c = store.insert_node("c").unwrap();
    assert_eq!((c.slot(), c.generation()), (0, 1));
    assert_eq!(store.node(a), None);
    assert_eq!(store.node(c), Some(&"c"));
    assert_eq!(store.node_slot_count(), 2);
}

#[test]
fn store_edges_join_endpoint_lists() {
    let mut store: WorkingStore<&str, u32> = WorkingStore::new();
    let a = store.insert_node("a").unwrap();
    let b = store.insert_node("b").unwrap();
    let e = store.insert_edge(a, b, 7).unwrap();
    let f = store.insert_edge(a, a, 8).unwrap();
    assert_eq!(keys(&store.outgoing_edges(a)), vec![(0, 0), (1, 0)]);
    assert_eq!(keys(&store.incoming_edges(a)), vec![(1, 0)]);
    assert_eq!(keys(&store.incoming_edges(b)), vec![(0, 0)]);
    assert_eq!(store.edge_endpoints(e), Some((a, b)));
    assert_eq!(store.edge(f), Some(&8));
    assert_eq!(keys(&store.incident_edges(a)), vec![(0, 0), (1, 0)]);
}

#[test]
fn store_rejects_edges_to_missing_nodes() {
    let mut store: WorkingStore<&str, u32> = WorkingStore::new();
    let a = store.insert_node("a").unwrap();
    let ghost = StableNodeKey::new(5, 0);
    assert_eq!(store.insert_edge(ghost, a, 1), Err(SlotError::MissingSource));
    assert_eq!(store.insert_edge(a, ghost, 1), Err(SlotError::MissingTarget));
    assert_eq!(store.edge_count(), 0);
}

#[test]
fn store_remove_edge_detaches_and_retires() {
    let mut store: WorkingStore<&str, u32> = WorkingStore::new();
    let a = store.insert_node("a").unwrap();
    let b = store.insert_node("b").unwrap();
    let e = store.insert_edge(a, b, 7).unwrap();
    assert_eq!(store.remove_edge(e), Some(7));
    assert_eq!(store.remove_edge(e), None);
    assert!(store.outgoing_edges(a).is_empty());
    assert!(store.incoming_edges(b).is_empty());
    let f = store.insert_edge(b, a, 9).unwrap();
    assert_eq!((f.slot(), f.generation()), (0, 1));
    assert_eq!(store.edge(e), None);
}

#[test]
fn store_remove_node_removes_its_edges() {
    let mut store: WorkingStore<&str, u32> = WorkingStore::new();
    let a = store.insert_node("a").unwrap();
    let b = store.insert_node("b").unwrap();
    let c = store.insert_node("c").unwrap();
    let ab = store.insert_edge(a, b, 1).unwrap();
    let ca = store.insert_edge(c, a, 2).unwrap();
    let bc = store.insert_edge(b, c, 3).unwrap();
    assert_eq!(store.remove_node(a), Some("a"));
    assert_eq!(store.edge(ab), None);
    assert_eq!(store.edge(ca), None);
    assert_eq!(store.edge(bc), Some(&3));
    assert_eq!(store.edge_count(), 1);
    assert_eq!(store.node_count(), 2);
    assert!(store.incoming_edges(b).is_empty());
    assert!(store.outgoing_edges(c).is_empty());
    let next = store.insert_edge(b, c, 4).unwrap();
    assert_eq!((next.slot(), next.generation()), (1, 1));
}

#[test]
fn store_replace_edge_moves_it_between_lists() {
    let mut store: WorkingStore<&str, u32> = WorkingStore::new();
    let a = store.insert_node("a").unwrap();
    let b = store.insert_node("b").unwrap();
    let e = store.insert_edge(a, b, 1).unwrap();
    let f = store.insert_edge(a, b, 2).unwrap();
    assert_eq!(store.replace_edge(e, b, a, 10), Ok(Some(1)));
    assert_eq!(keys(&store.outgoing_edges(a)), keys(&[f]));
    assert_eq!(keys(&store.outgoing_edges(b)), keys(&[e]));
    assert_eq!(store.edge(e), Some(&10));
    assert_eq!(store.replace_edge(StableEdgeKey::new(9, 0), a, b, 3), Ok(None));
    assert_eq!(store.replace_edge(f, StableNodeKey::new(9, 0), b, 3), Err(SlotError::MissingSource));
    assert_eq!(store.replace_edge_value(f, 20), Some(2));
    assert_eq!(keys(&store.outgoing_edges(a)), keys(&[f]));
    assert_eq!(store.replace_node_value(a, "z"), Some("a"));
    assert_eq!(store.node(a), Some(&"z"));
}

#[test]
fn store_lists_keys_in_slot_order() {
    let mut store: WorkingStore<&str, u32> = WorkingStore::with_capacity(4, 4);
    let a = store.insert_node("a").unwrap();
    let b = store.insert_node("b").unwrap();
    let c = store.insert_node("c").unwrap();
    store.remove_node(b);
    let listed: Vec<(u32, u32)> = store.node_keys().iter().map(|k| (k.slot(), k.generation())).collect();
    assert_eq!(listed, vec![(a.slot(), 0), (c.slot(), 0)]);
    assert!(store.edge_keys().is_empty());
}

#[test]
fn store_updates_edge_in_place() {
    let mut store: WorkingStore<&str, u32> = WorkingStore::new();
    let a = store.insert_node("a").unwrap();
    let b = store.insert_node("b").unwrap();
    let e = store.insert_edge(a, b, 5).unwrap();
    let f = store.insert_edge(a, b, 6).unwrap();
    assert!(store.update_edge_value(e, |w| w * 10));
    assert_eq!(store.edge(e), Some(&50));
    assert_eq!(keys(&store.outgoing_edges(a)), keys(&[e, f]));
    assert!(!store.update_edge_value(StableEdgeKey::new(7, 0), |w| w + 1));
}

#[test]
fn store_hands_over_entries_in_slot_order() {
    let mut store: WorkingStore<&str, u32> = WorkingStore::new();
    let a = store.insert_node("a").unwrap();
    let b = store.insert_node("b").unwrap();
    let c = store.insert_node("c").unwrap();
    let _ab = store.insert_edge(a, b, 1).unwrap();
    let bc = store.insert_edge(b, c, 2).unwrap();
    store.remove_node(a);
    let (nodes, edges) = store.into_entries();
    let listed: Vec<(u32, &str)> = nodes.iter().map(|(k, v)| (k.slot(), *v)).collect();
    assert_eq!(listed, vec![(b.slot(), "b"), (c.slot(), "c")]);
    assert_eq!(edges.len(), 1);
    assert_eq!((edges[0].0.slot(), edges[0].1), (bc.slot(), 2));
}

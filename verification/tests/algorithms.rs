use weavatrix_graph::{
    astar, astar_filtered, dominators, dominators_filtered, bellman_ford, bellman_ford_filtered, complete_topology, cycle_topology, dag_transitive_reduction_closure, dijkstra,
    dijkstra_filtered, find_cycle, has_cycle, maximum_flow, minimum_spanning_forest, path_topology,
    strongly_connected_components, strongly_connected_components_filtered, topological_sort, topological_sort_filtered,
    weakly_connected_components, weakly_connected_components_filtered, DenseMatrix, Direction, EdgeEndpoints,
    EdgeIndex, GraphError, IndexGraphView, IndexUndirectedGraphView, NodeIndex, RandomGraphGenerator, Topology,
    UndirectedTopology,
};

fn n(i: u32) -> NodeIndex {
    NodeIndex::new(i)
}

fn topology(node_count: usize, pairs: &[(u32, u32)]) -> Topology {
    Topology::try_from_edges(node_count, pairs.iter().map(|&(s, t)| EdgeEndpoints::new(n(s), n(t))).collect()).unwrap()
}

fn undirected(node_count: usize, pairs: &[(u32, u32)]) -> UndirectedTopology {
    UndirectedTopology::try_from_edges(node_count, pairs.iter().map(|&(s, t)| EdgeEndpoints::new(n(s), n(t))).collect())
        .unwrap()
}

fn positions(nodes: &[NodeIndex]) -> Vec<usize> {
    nodes.iter().map(|node| node.index()).collect()
}

fn pairs(ends: &[EdgeEndpoints]) -> Vec<(usize, usize)> {
    ends.iter().map(|e| (e.source().index(), e.target().index())).collect()
}

#[test]
fn topology_rejects_endpoint_outside_graph() {
    let result = Topology::try_from_edges(2, vec![EdgeEndpoints::new(n(0), n(1)), EdgeEndpoints::new(n(1), n(5))]);
    assert!(matches!(result, Err(GraphError::InvalidNodeIndex { node: 5, node_count: 2 })));
}

#[test]
fn topology_lists_edges_by_node() {
    let t = topology(3, &[(0, 1), (0, 2), (2, 1)]);
    assert_eq!(t.node_count(), 3);
    assert_eq!(t.edge_count(), 3);
    let out: Vec<usize> = t.outgoing_edges(n(0)).iter().map(|e| e.index()).collect();
    assert_eq!(out, vec![0, 1]);
    let inc: Vec<usize> = t.incoming_edges(n(1)).iter().map(|e| e.index()).collect();
    assert_eq!(inc, vec![0, 2]);
    assert!(t.edge_endpoints(EdgeIndex::new(3)).is_none());
}

#[test]
fn topological_sort_orders_a_dag() {
    let t = topology(4, &[(2, 0), (0, 1), (2, 3), (3, 1)]);
    let order = topological_sort(&t).unwrap();
    assert_eq!(positions(&order), vec![2, 0, 3, 1]);
    assert!(!has_cycle(&t));
    assert!(find_cycle(&t).is_none());
}

#[test]
fn cycle_is_found_and_sorting_fails() {
    let t = topology(3, &[(0, 1), (1, 2), (2, 0)]);
    assert!(topological_sort(&t).is_none());
    assert!(has_cycle(&t));
    let cycle = positions(&find_cycle(&t).unwrap());
    assert!(cycle.len() >= 2);
    assert_eq!(cycle.first(), cycle.last());
}

#[test]
fn filtered_sort_ignores_refused_edges() {
    let t = topology(3, &[(0, 1), (1, 2), (2, 0)]);
    let order = topological_sort_filtered(&t, |e: EdgeIndex| e.index() != 2).unwrap();
    assert_eq!(positions(&order), vec![0, 1, 2]);
}

#[test]
fn weak_components_are_sorted_by_smallest_node() {
    let t = topology(5, &[(3, 0), (1, 4)]);
    let comps: Vec<Vec<usize>> = weakly_connected_components(&t).iter().map(|c| positions(c)).collect();
    assert_eq!(comps, vec![vec![0, 3], vec![1, 4], vec![2]]);
    let filtered: Vec<Vec<usize>> =
        weakly_connected_components_filtered(&t, |e: EdgeIndex| e.index() == 0).iter().map(|c| positions(c)).collect();
    assert_eq!(filtered, vec![vec![0, 3], vec![1], vec![2], vec![4]]);
}

#[test]
fn strong_components_follow_finishing_order() {
    let t = topology(5, &[(0, 1), (1, 2), (2, 0), (2, 3), (3, 4), (4, 3)]);
    let comps: Vec<Vec<usize>> = strongly_connected_components(&t).iter().map(|c| positions(c)).collect();
    assert_eq!(comps, vec![vec![0, 2, 1], vec![3, 4]]);
    let single: Vec<Vec<usize>> = strongly_connected_components(&topology(3, &[])).iter().map(|c| positions(c)).collect();
    assert_eq!(single, vec![vec![2], vec![1], vec![0]]);
    let cut: Vec<Vec<usize>> =
        strongly_connected_components_filtered(&t, |e: EdgeIndex| e.index() != 2).iter().map(|c| positions(c)).collect();
    assert_eq!(cut, vec![vec![0], vec![1], vec![2], vec![3, 4]]);
}

#[test]
fn dijkstra_finds_the_cheapest_walk() {
    let t = topology(4, &[(0, 1), (1, 3), (0, 2), (2, 3)]);
    let weights = [5u64, 5, 1, 2];
    let path = dijkstra(&t, n(0), n(3), |e: EdgeIndex| weights[e.index()]).unwrap();
    assert_eq!(positions(path.nodes()), vec![0, 2, 3]);
    assert_eq!(path.total_cost(), 3);
    assert!(dijkstra(&t, n(3), n(0), |e: EdgeIndex| weights[e.index()]).is_none());
    assert!(dijkstra(&t, n(0), n(9), |e: EdgeIndex| weights[e.index()]).is_none());
}

#[test]
fn dijkstra_filtered_follows_incoming_edges() {
    let t = topology(3, &[(0, 1), (1, 2)]);
    let path = dijkstra_filtered(&t, n(2), n(0), Direction::Incoming, |_e: EdgeIndex| Some(4u64)).unwrap();
    assert_eq!(positions(path.nodes()), vec![2, 1, 0]);
    assert_eq!(path.total_cost(), 8);
    assert!(dijkstra_filtered(&t, n(0), n(2), Direction::Outgoing, |e: EdgeIndex| if e.index() == 1 { None } else { Some(1) })
        .is_none());
}

#[test]
fn bellman_ford_handles_negative_edges() {
    let t = topology(4, &[(0, 1), (0, 2), (2, 1), (1, 3)]);
    let weights = [4i64, 1, -2, 3];
    let result = bellman_ford(&t, n(0), |e: EdgeIndex| weights[e.index()]).unwrap().unwrap();
    assert_eq!(result.distance_to(n(1)), Some(-1));
    assert_eq!(result.distance_to(n(3)), Some(2));
    assert_eq!(result.distance_to(n(0)), Some(0));
    let path = result.path_to(n(3)).unwrap();
    assert_eq!(positions(path.nodes()), vec![0, 2, 1, 3]);
    assert_eq!(path.total_cost(), 2);
    assert_eq!(result.predecessor(n(1)), Some(n(2)));
    assert_eq!(result.source(), n(0));
}

#[test]
fn bellman_ford_reports_unreachable_and_missing_source() {
    let t = topology(3, &[(0, 1)]);
    let result = bellman_ford(&t, n(0), |_e: EdgeIndex| 1i64).unwrap().unwrap();
    assert_eq!(result.distance_to(n(2)), None);
    assert!(result.path_to(n(2)).is_none());
    assert!(bellman_ford(&t, n(3), |_e: EdgeIndex| 1i64).unwrap().is_none());
}

#[test]
fn bellman_ford_rejects_negative_cycle() {
    let t = topology(3, &[(0, 1), (1, 2), (2, 1)]);
    let weights = [1i64, -3, 1];
    let result = bellman_ford(&t, n(0), |e: EdgeIndex| weights[e.index()]);
    assert!(matches!(result, Err(GraphError::NegativeCycle { algorithm: "Bellman-Ford" })));
    let cut = bellman_ford_filtered(&t, n(0), |e: EdgeIndex| if e.index() == 2 { None } else { Some(weights[e.index()]) });
    assert_eq!(cut.unwrap().unwrap().distance_to(n(2)), Some(-2));
}

#[test]
fn maximum_flow_saturates_the_minimum_cut() {
    let t = topology(4, &[(0, 1), (0, 2), (1, 2), (1, 3), (2, 3)]);
    let caps = [3u64, 2, 1, 2, 3];
    let flow = maximum_flow(&t, n(0), n(3), |e: EdgeIndex| caps[e.index()]).unwrap().unwrap();
    assert_eq!(flow.value(), 5);
    assert_eq!(positions(flow.source_side()), vec![0]);
    assert!(maximum_flow(&t, n(0), n(7), |e: EdgeIndex| caps[e.index()]).unwrap().is_none());
}

#[test]
fn transitive_reduction_and_closure_of_a_dag() {
    let t = topology(3, &[(0, 1), (1, 2), (0, 2)]);
    let result = dag_transitive_reduction_closure(&t).unwrap();
    assert_eq!(pairs(result.reduction_edges()), vec![(0, 1), (1, 2)]);
    assert_eq!(pairs(result.closure_edges()), vec![(0, 1), (0, 2), (1, 2)]);
    assert!(dag_transitive_reduction_closure(&topology(2, &[(0, 1), (1, 0)])).is_none());
}

#[test]
fn minimum_spanning_forest_takes_light_edges() {
    let g = undirected(5, &[(0, 1), (1, 2), (0, 2), (3, 4)]);
    let weights = [4u64, 1, 2, 7];
    let forest = minimum_spanning_forest(&g, |e: EdgeIndex| weights[e.index()]);
    let chosen: Vec<usize> = forest.edges().iter().map(|e| e.index()).collect();
    assert_eq!(chosen, vec![1, 2, 3]);
    assert_eq!(forest.total_weight(), 10);
    assert_eq!(forest.component_count(), 2);
}

#[test]
fn undirected_degree_counts_self_loop_twice() {
    let g = undirected(3, &[(0, 1), (1, 1), (1, 2)]);
    assert_eq!(g.degree(n(1)), Some(4));
    assert_eq!(g.degree(n(0)), Some(1));
    assert_eq!(g.degree(n(3)), None);
    assert_eq!(positions(&g.neighbors(n(1))), vec![0, 1, 2]);
    let incident: Vec<usize> = g.incident_edges(n(1)).iter().map(|e| e.index()).collect();
    assert_eq!(incident, vec![0, 1, 2]);
    assert_eq!(g.opposite(EdgeIndex::new(0), n(1)), Some(n(0)));
    assert_eq!(g.opposite(EdgeIndex::new(2), n(0)), None);
}

#[test]
fn deterministic_topologies() {
    let path = path_topology(3).unwrap();
    assert_eq!(path.edge_count(), 2);
    let cycle = cycle_topology(1).unwrap();
    assert_eq!(cycle.edge_endpoints(EdgeIndex::new(0)).map(|e| (e.source().index(), e.target().index())), Some((0, 0)));
    let complete = complete_topology(3).unwrap();
    assert_eq!(complete.edge_count(), 6);
    assert_eq!(path_topology(0).unwrap().edge_count(), 0);
}

#[test]
fn random_graphs_follow_the_seeded_stream() {
    let mut generator = RandomGraphGenerator::new(42);
    let directed = generator.directed(4, 1, 2).unwrap();
    let drawn: Vec<(usize, usize)> = (0..directed.edge_count())
        .map(|e| directed.edge_endpoints(EdgeIndex::new(e as u32)).unwrap())
        .map(|e| (e.source().index(), e.target().index()))
        .collect();
    assert_eq!(drawn, vec![(0, 3), (1, 0), (1, 2), (1, 3), (2, 1), (3, 0), (3, 2)]);
    let mut again = RandomGraphGenerator::new(42);
    let undirected = again.undirected(5, 1, 2).unwrap();
    let drawn: Vec<(usize, usize)> = (0..IndexUndirectedGraphView::edge_count(&undirected))
        .map(|e| undirected.edge_endpoints(EdgeIndex::new(e as u32)).unwrap())
        .map(|e| (e.source().index(), e.target().index()))
        .collect();
    assert_eq!(drawn, vec![(0, 3), (0, 4), (1, 2), (1, 3), (2, 3), (3, 4)]);
}

#[test]
fn random_generator_validates_its_inputs() {
    let mut generator = RandomGraphGenerator::new(7);
    assert!(matches!(
        generator.directed(3, 3, 2),
        Err(GraphError::InvalidProbability { numerator: 3, denominator: 2 })
    ));
    assert!(matches!(generator.undirected(3, 1, 0), Err(GraphError::InvalidProbability { .. })));
    assert_eq!(generator.directed(3, 1, 1).unwrap().edge_count(), 6);
    assert_eq!(generator.directed(3, 0, 1).unwrap().edge_count(), 0);
}

#[test]
fn dense_matrix_stores_and_removes_values() {
    let mut matrix: DenseMatrix<u32> = DenseMatrix::try_new(3).unwrap();
    assert_eq!(matrix.insert(n(0), n(2), 7).unwrap(), None);
    assert_eq!(matrix.insert(n(0), n(2), 9).unwrap(), Some(7));
    assert_eq!(matrix.get(n(0), n(2)), Some(&9));
    assert_eq!(matrix.edge_count(), 1);
    assert_eq!(matrix.remove(n(0), n(2)), Some(9));
    assert_eq!(matrix.get(n(0), n(2)), None);
    assert_eq!(matrix.edge_count(), 0);
    assert!(matrix.insert(n(3), n(0), 1).is_err());
}

#[test]
fn astar_with_zero_estimate_finds_the_cheapest_walk() {
    let t = topology(4, &[(0, 1), (1, 3), (0, 2), (2, 3)]);
    let weights = [5u64, 5, 1, 2];
    let path = astar(&t, n(0), n(3), |e: EdgeIndex| weights[e.index()], |_v: NodeIndex| 0u64).unwrap();
    assert_eq!(positions(path.nodes()), vec![0, 2, 3]);
    assert_eq!(path.total_cost(), 3);
    assert!(astar(&t, n(3), n(0), |e: EdgeIndex| weights[e.index()], |_v: NodeIndex| 0u64).is_none());
    assert!(astar(&t, n(0), n(7), |e: EdgeIndex| weights[e.index()], |_v: NodeIndex| 0u64).is_none());
}

#[test]
fn astar_follows_a_misleading_estimate() {
    let t = topology(4, &[(0, 1), (1, 3), (0, 2), (2, 3)]);
    let weights = [5u64, 5, 1, 2];
    let estimate = |v: NodeIndex| if v.index() == 2 { 100u64 } else { 0 };
    let path = astar(&t, n(0), n(3), |e: EdgeIndex| weights[e.index()], estimate).unwrap();
    assert_eq!(positions(path.nodes()), vec![0, 1, 3]);
    assert_eq!(path.total_cost(), 10);
}

#[test]
fn astar_filtered_follows_incoming_edges() {
    let t = topology(3, &[(0, 1), (1, 2), (0, 2)]);
    let path = astar_filtered(&t, n(2), n(0), Direction::Incoming, |e: EdgeIndex| if e.index() == 2 { None } else { Some(3u64) },
        |_v: NodeIndex| 1u64).unwrap();
    assert_eq!(positions(path.nodes()), vec![2, 1, 0]);
    assert_eq!(path.total_cost(), 6);
    let same = astar_filtered(&t, n(1), n(1), Direction::Outgoing, |_e: EdgeIndex| Some(1u64), |_v: NodeIndex| 0u64).unwrap();
    assert_eq!(positions(same.nodes()), vec![1]);
    assert_eq!(same.total_cost(), 0);
}

#[test]
fn dominators_of_a_graph_with_a_loop() {
    let t = topology(6, &[(0, 1), (0, 2), (1, 3), (2, 3), (3, 4), (4, 1), (5, 0)]);
    let tree = dominators(&t, n(0)).unwrap();
    assert_eq!(tree.root(), n(0));
    assert_eq!(positions(tree.reachable_nodes()), vec![0, 2, 1, 3, 4]);
    assert_eq!(tree.immediate_dominator(n(0)), None);
    assert_eq!(tree.immediate_dominator(n(1)), Some(n(0)));
    assert_eq!(tree.immediate_dominator(n(2)), Some(n(0)));
    assert_eq!(tree.immediate_dominator(n(3)), Some(n(0)));
    assert_eq!(tree.immediate_dominator(n(4)), Some(n(3)));
    assert_eq!(tree.immediate_dominator(n(5)), None);
    assert_eq!(positions(&tree.dominators(n(4)).unwrap()), vec![4, 3, 0]);
    assert_eq!(positions(&tree.strict_dominators(n(4)).unwrap()), vec![3, 0]);
    assert_eq!(positions(&tree.dominators(n(0)).unwrap()), vec![0]);
    assert!(tree.strict_dominators(n(0)).unwrap().is_empty());
    assert!(tree.dominators(n(5)).is_none());
    assert!(tree.strict_dominators(n(9)).is_none());
    assert_eq!(positions(&tree.immediately_dominated_by(n(0))), vec![2, 1, 3]);
    assert_eq!(positions(&tree.immediately_dominated_by(n(3))), vec![4]);
    assert!(tree.immediately_dominated_by(n(4)).is_empty());
    assert!(tree.dominates(n(3), n(4)));
    assert!(tree.dominates(n(4), n(4)));
    assert!(!tree.dominates(n(1), n(4)));
    assert!(!tree.dominates(n(0), n(5)));
    assert!(dominators(&t, n(6)).is_none());
}

#[test]
fn dominators_filtered_skips_refused_edges() {
    let t = topology(5, &[(0, 1), (0, 2), (1, 3), (2, 3), (3, 4), (4, 1)]);
    let tree = dominators_filtered(&t, n(0), |e: EdgeIndex| e.index() != 0).unwrap();
    assert_eq!(positions(tree.reachable_nodes()), vec![0, 2, 3, 4, 1]);
    assert_eq!(tree.immediate_dominator(n(1)), Some(n(4)));
    assert_eq!(positions(&tree.dominators(n(1)).unwrap()), vec![1, 4, 3, 2, 0]);
    assert!(tree.dominates(n(2), n(1)));
}

#[test]
fn maximum_flow_on_unit_capacities() {
    let g = topology(6, &[(0, 1), (0, 2), (1, 3), (1, 4), (2, 3), (3, 5), (4, 5)]);
    let f = maximum_flow(&g, n(0), n(5), |_| 1).unwrap().unwrap();
    assert_eq!(f.value(), 2);
    let flows: Vec<(usize, u64)> = f.edge_flows().iter().map(|&(e, v)| (e.index(), v)).collect();
    assert_eq!(flows, vec![(0, 1), (1, 1), (2, 0), (3, 1), (4, 1), (5, 1), (6, 1)]);
    assert_eq!(positions(f.source_side()), vec![0]);
}

#[test]
fn found_cycle_is_simple() {
    let g = topology(4, &[(0, 1), (1, 2), (2, 1), (2, 3), (3, 0)]);
    let c = positions(&find_cycle(&g).unwrap());
    assert!(c.len() >= 2);
    assert_eq!(c[0], c[c.len() - 1]);
    let mut inner = c[..c.len() - 1].to_vec();
    inner.sort();
    inner.dedup();
    assert_eq!(inner.len(), c.len() - 1);
    let looped = topology(1, &[(0, 0)]);
    assert_eq!(positions(&find_cycle(&looped).unwrap()), vec![0, 0]);
}

#[test]
fn dijkstra_from_a_node_to_itself_is_that_node() {
    let g = topology(2, &[(0, 1), (1, 0)]);
    let p = dijkstra(&g, n(0), n(0), |_| 0).unwrap();
    assert_eq!(positions(p.nodes()), vec![0]);
    assert_eq!(p.total_cost(), 0);
}

use weavatrix_graph::{condensation, condensation_filtered, EdgeEndpoints, IndexGraphView, NodeIndex, Topology};

fn n(i: u32) -> NodeIndex {
    NodeIndex::new(i)
}

fn topology(node_count: usize, pairs: &[(u32, u32)]) -> Topology {
    Topology::try_from_edges(node_count, pairs.iter().map(|&(s, t)| EdgeEndpoints::new(n(s), n(t))).collect()).unwrap()
}

fn condensed_pairs(t: &Topology) -> Vec<(usize, usize)> {
    (0..t.edge_count())
        .map(|e| {
            let ends = t.edge_endpoints(weavatrix_graph::EdgeIndex::new(e as u32)).unwrap();
            (ends.source().index(), ends.target().index())
        })
        .collect()
}

#[test]
fn condensation_joins_components_once() {
    // 0 <-> 1 form a component, 2 <-> 3 another; two edges join them.
    let g = topology(5, &[(0, 1), (1, 0), (1, 2), (0, 3), (2, 3), (3, 2), (3, 4)]);
    let c = condensation(&g).unwrap();
    let comps = c.components();
    assert_eq!(comps.len(), 3);
    let a = c.component_of(n(0)).unwrap();
    assert_eq!(c.component_of(n(1)), Some(a));
    let b = c.component_of(n(2)).unwrap();
    assert_eq!(c.component_of(n(3)), Some(b));
    let d = c.component_of(n(4)).unwrap();
    assert!(a != b && b != d && a != d);
    assert_eq!(c.component_of(n(5)), None);
    let t = c.topology();
    assert_eq!(t.node_count(), 3);
    let edges = condensed_pairs(t);
    assert_eq!(edges.len(), 2);
    for &(s, target) in &edges {
        assert!(s < target);
    }
    assert!(edges.contains(&(a.index(), b.index())));
    assert!(edges.contains(&(b.index(), d.index())));
    let members: Vec<usize> = c.component(a).unwrap().iter().map(|x| x.index()).collect();
    assert!(members.contains(&0) && members.contains(&1));
}

#[test]
fn condensation_filtered_drops_refused_edges() {
    let g = topology(2, &[(0, 1), (1, 0)]);
    let c = condensation_filtered(&g, |e: weavatrix_graph::EdgeIndex| e.index() == 0).unwrap();
    assert_eq!(c.components().len(), 2);
    let t = c.topology();
    assert_eq!(condensed_pairs(t).len(), 1);
    let (parts, topo) = c.into_parts();
    assert_eq!(parts.len(), 2);
    assert_eq!(topo.edge_count(), 1);
}

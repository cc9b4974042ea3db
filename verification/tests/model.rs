use weavatrix_graph::{
    Confidence, Edge, EdgeFilter, EdgeKind, EvidenceKind, FiniteF64, GraphError, Language, Node, NodeId, NodeKind,
    Provenance, SourcePosition, SourceSpan,
};

fn provenance(extractor: &str, evidence: EvidenceKind, confidence: Confidence) -> Provenance {
    Provenance::new(extractor, evidence, confidence).unwrap()
}

fn edge(source: &str, target: &str, kind: EdgeKind, provenance: Provenance) -> Edge {
    Edge::new(NodeId::new(source).unwrap(), NodeId::new(target).unwrap(), kind, provenance)
}

#[test]
fn node_id_rejects_empty_text() {
    assert!(matches!(NodeId::new(""), Err(GraphError::EmptyNodeId)));
    assert_eq!(NodeId::new("repo:demo").unwrap().as_str(), "repo:demo");
}

#[test]
fn node_new_keeps_its_parts() {
    let node = Node::new("file:src/lib.rs", "src/lib.rs", NodeKind::File).unwrap();
    assert_eq!(node.id.as_str(), "file:src/lib.rs");
    assert_eq!(node.label, "src/lib.rs");
    assert_eq!(node.kind, NodeKind::File);
    assert!(node.language.is_none());
    assert!(node.span.is_none());
    assert!(node.attributes.is_empty());
    assert!(matches!(Node::new("", "empty", NodeKind::File), Err(GraphError::EmptyNodeId)));
}

#[test]
fn node_builders_set_one_field() {
    let span = SourceSpan::new("src/lib.rs", SourcePosition::new(1, 1), SourcePosition::new(2, 3));
    let node = Node::new("a", "a", NodeKind::Function).unwrap().with_language("rust").with_span(span.clone());
    assert_eq!(node.language.as_deref(), Some("rust"));
    assert_eq!(node.span, Some(span));
    assert_eq!(node.kind, NodeKind::Function);
}

#[test]
fn provenance_rejects_empty_extractor() {
    assert!(matches!(
        Provenance::new("", EvidenceKind::Parsed, Confidence::High),
        Err(GraphError::EmptyExtractor)
    ));
    let p = provenance("example", EvidenceKind::Parsed, Confidence::High).with_detail("why");
    assert_eq!(p.extractor, "example");
    assert_eq!(p.detail.as_deref(), Some("why"));
    assert_eq!(p.confidence, Confidence::High);
}

#[test]
fn custom_node_kind_round_trips_its_text() {
    let kind = NodeKind::custom("terraform_resource").unwrap();
    assert_eq!(kind.as_str(), "terraform_resource");
    assert!(matches!(kind, NodeKind::Custom(_)));
}

#[test]
fn custom_kind_with_known_text_is_the_known_kind() {
    assert_eq!(EdgeKind::custom("contains").unwrap(), EdgeKind::Contains);
    assert_eq!(NodeKind::custom("file").unwrap(), NodeKind::File);
    assert_eq!(EvidenceKind::custom("parsed").unwrap(), EvidenceKind::Parsed);
    assert_eq!(Language::custom("rust").unwrap(), Language::Rust);
    assert_eq!(EdgeKind::Contains.as_str(), "contains");
}

#[test]
fn custom_kind_rejects_blank_or_padded_text() {
    assert!(matches!(NodeKind::custom(" padded"), Err(GraphError::InvalidKind { category: "node", .. })));
    assert!(matches!(NodeKind::custom(""), Err(GraphError::InvalidKind { .. })));
    assert!(matches!(Language::custom("rust "), Err(GraphError::InvalidKind { category: "language", .. })));
}

#[test]
fn finite_float_keeps_bits_and_refuses_nan() {
    let value = FiniteF64::from_bits(1.5f64.to_bits()).unwrap();
    assert_eq!(value.to_bits(), 1.5f64.to_bits());
    assert_eq!(f64::from_bits(value.to_bits()), 1.5);
    assert!(FiniteF64::from_bits(f64::NAN.to_bits()).is_none());
    assert!(FiniteF64::from_bits(f64::INFINITY.to_bits()).is_none());
}

#[test]
fn finite_float_orders_as_total_order() {
    let low = FiniteF64::from_bits((-2.0f64).to_bits()).unwrap();
    let zero = FiniteF64::from_bits(0.0f64.to_bits()).unwrap();
    let high = FiniteF64::from_bits(3.25f64.to_bits()).unwrap();
    assert!(low < zero);
    assert!(zero < high);
}

#[test]
fn empty_filter_accepts_every_edge() {
    let filter = EdgeFilter::new();
    let e = edge("a", "b", EdgeKind::Calls, provenance("x", EvidenceKind::Inferred, Confidence::Low));
    assert!(filter.matches(&e));
}

#[test]
fn filter_by_kind_and_confidence() {
    let filter = EdgeFilter::new().with_kind(EdgeKind::Calls).with_minimum_confidence(Confidence::Medium);
    let calls_high = edge("a", "b", EdgeKind::Calls, provenance("x", EvidenceKind::Parsed, Confidence::High));
    let calls_low = edge("a", "b", EdgeKind::Calls, provenance("x", EvidenceKind::Parsed, Confidence::Low));
    let imports = edge("a", "b", EdgeKind::Imports, provenance("x", EvidenceKind::Parsed, Confidence::Exact));
    assert!(filter.matches(&calls_high));
    assert!(!filter.matches(&calls_low));
    assert!(!filter.matches(&imports));
}

#[test]
fn filter_by_evidence_and_extractor() {
    let filter = EdgeFilter::new().with_evidence(EvidenceKind::Parsed).with_extractor("lsp");
    let good = edge("a", "b", EdgeKind::Calls, provenance("lsp", EvidenceKind::Parsed, Confidence::High));
    let other_extractor = edge("a", "b", EdgeKind::Calls, provenance("grep", EvidenceKind::Parsed, Confidence::High));
    let other_evidence = edge("a", "b", EdgeKind::Calls, provenance("lsp", EvidenceKind::Inferred, Confidence::High));
    assert!(filter.matches(&good));
    assert!(!filter.matches(&other_extractor));
    assert!(!filter.matches(&other_evidence));
}

use std::collections::BTreeMap;
use weavatrix_graph::{
    AttributeValue, Confidence, EdgeKind, EvidenceKind, GraphError, LegacyLink, LegacyNode, LegacyPoint, LegacyRange, NodeKind,
    SourcePosition,
};

fn legacy_node(id: &str) -> LegacyNode {
    LegacyNode {
        id: id.to_owned(),
        label: None,
        kind: None,
        node_type: None,
        language: None,
        source_file: None,
        source_range: None,
        selection_start: None,
        selection_end: None,
        attributes: BTreeMap::new(),
    }
}

fn legacy_link(source: &str, target: &str) -> LegacyLink {
    LegacyLink {
        source: source.to_owned(),
        target: target.to_owned(),
        relation: None,
        kind: None,
        edge_type: None,
        confidence: None,
        provenance: None,
        line: None,
        character: None,
        compile_only: None,
        type_only: None,
        specifier: None,
        usage: None,
        attributes: BTreeMap::new(),
    }
}

#[test]
fn legacy_node_infers_label_and_kind() {
    let file = legacy_node("src/lib.rs").into_node().unwrap();
    assert_eq!(file.label, "lib.rs");
    assert_eq!(file.kind, NodeKind::File);
    let function = legacy_node("src/lib.rs#entry@1").into_node().unwrap();
    assert_eq!(function.label, "entry@1");
    assert_eq!(function.kind, NodeKind::Function);
}

#[test]
fn legacy_node_prefers_explicit_label_and_kind() {
    let mut node = legacy_node("src/a.rs");
    node.label = Some("A".to_owned());
    node.node_type = Some("module".to_owned());
    let converted = node.into_node().unwrap();
    assert_eq!(converted.label, "A");
    assert_eq!(converted.kind, NodeKind::Module);
}

#[test]
fn legacy_node_range_becomes_one_based_span() {
    let mut node = legacy_node("src/a.rs#f");
    node.source_file = Some("src/a.rs".to_owned());
    node.source_range = Some(LegacyRange {
        start: LegacyPoint { line: 0, character: 4 },
        end: LegacyPoint { line: 2, character: 0 },
    });
    let span = node.into_node().unwrap().span.unwrap();
    assert_eq!(span.file, "src/a.rs");
    assert_eq!(span.start, SourcePosition::new(1, 5));
    assert_eq!(span.end, SourcePosition::new(3, 1));
}

#[test]
fn legacy_node_rejects_empty_id() {
    assert!(matches!(legacy_node("").into_node(), Err(GraphError::EmptyNodeId)));
}

#[test]
fn legacy_range_saturates_at_the_largest_line() {
    let range = LegacyRange {
        start: LegacyPoint { line: u32::MAX, character: 0 },
        end: LegacyPoint { line: u32::MAX, character: 1 },
    };
    let span = range.into_span("f".to_owned());
    assert_eq!(span.start, SourcePosition::new(u32::MAX, 1));
    assert_eq!(span.end, SourcePosition::new(u32::MAX, 2));
}

#[test]
fn legacy_link_defaults_to_references_and_extracted_high() {
    let edge = legacy_link("src/lib.rs", "src/lib.rs#entry@1").into_edge("weavatrix-js").unwrap();
    assert_eq!(edge.kind, EdgeKind::References);
    assert_eq!(edge.provenance.evidence, EvidenceKind::Extracted);
    assert_eq!(edge.provenance.confidence, Confidence::High);
    assert_eq!(edge.provenance.extractor, "weavatrix-js");
    assert!(edge.provenance.span.is_none());
}

#[test]
fn legacy_link_relation_and_confidence() {
    let mut link = legacy_link("src/lib.rs", "src/lib.rs#entry@1");
    link.relation = Some("contains".to_owned());
    link.confidence = Some("EXTRACTED".to_owned());
    let edge = link.into_edge("weavatrix-js").unwrap();
    assert_eq!(edge.kind, EdgeKind::Contains);
    assert_eq!(edge.provenance.confidence, Confidence::High);
}

#[test]
fn legacy_link_inferred_evidence_is_low_confidence() {
    let mut link = legacy_link("a", "b");
    link.provenance = Some("INFERRED".to_owned());
    let edge = link.into_edge("x").unwrap();
    assert_eq!(edge.provenance.evidence, EvidenceKind::Inferred);
    assert_eq!(edge.provenance.confidence, Confidence::Low);
    let mut exact = legacy_link("a", "b");
    exact.confidence = Some("  Exact ".to_owned());
    assert_eq!(exact.into_edge("x").unwrap().provenance.confidence, Confidence::Exact);
}

#[test]
fn legacy_link_line_becomes_span_in_source_file() {
    let mut link = legacy_link("src/lib.rs#entry", "b");
    link.line = Some(12);
    link.character = Some(4);
    let span = link.into_edge("x").unwrap().provenance.span.unwrap();
    assert_eq!(span.file, "src/lib.rs");
    assert_eq!(span.start, SourcePosition::new(12, 5));
    assert_eq!(span.end, SourcePosition::new(12, 6));
}

#[test]
fn legacy_link_errors_come_in_order() {
    let mut bad_kind = legacy_link("", "");
    bad_kind.kind = Some(" bad".to_owned());
    assert!(matches!(bad_kind.into_edge(""), Err(GraphError::InvalidKind { category: "edge", .. })));
    assert!(matches!(legacy_link("", "").into_edge(""), Err(GraphError::EmptyExtractor)));
    assert!(matches!(legacy_link("a", "").into_edge("x"), Err(GraphError::EmptyNodeId)));
}

#[test]
fn legacy_link_facts_become_attributes() {
    let mut link = legacy_link("a", "b");
    link.line = Some(3);
    link.character = Some(7);
    link.compile_only = Some(true);
    link.type_only = Some(false);
    link.specifier = Some("./dep".to_owned());
    link.usage = Some("call".to_owned());
    link.attributes.insert("usage".to_owned(), AttributeValue::Null);
    link.attributes.insert("extra".to_owned(), AttributeValue::Unsigned(9));
    let attributes = link.into_edge("x").unwrap().attributes;
    assert_eq!(attributes.len(), 7);
    assert_eq!(attributes["line"], AttributeValue::Integer(3));
    assert_eq!(attributes["character"], AttributeValue::Integer(7));
    assert_eq!(attributes["compileOnly"], AttributeValue::Bool(true));
    assert_eq!(attributes["typeOnly"], AttributeValue::Bool(false));
    assert_eq!(attributes["specifier"], AttributeValue::String("./dep".to_owned()));
    assert_eq!(attributes["usage"], AttributeValue::String("call".to_owned()));
    assert_eq!(attributes["extra"], AttributeValue::Unsigned(9));
}

#[test]
fn legacy_point_becomes_an_object() {
    let value = LegacyPoint { line: 4, character: 2 }.into_attribute();
    let mut expected = BTreeMap::new();
    expected.insert("line".to_owned(), AttributeValue::Integer(4));
    expected.insert("character".to_owned(), AttributeValue::Integer(2));
    assert_eq!(value, AttributeValue::Object(expected));
}

#[test]
fn legacy_node_rejects_inverted_range() {
    let mut node = legacy_node("src/lib.rs#entry@1");
    node.source_file = Some("src/lib.rs".to_owned());
    node.source_range = Some(LegacyRange {
        start: LegacyPoint { line: 5, character: 0 },
        end: LegacyPoint { line: 1, character: 0 },
    });
    match node.into_node() {
        Err(GraphError::InvalidSpan { file, reason }) => {
            assert_eq!(file, "src/lib.rs");
            assert_eq!(reason, "end precedes start");
        }
        other => panic!("unexpected {other:?}"),
    }
}

#[test]
fn legacy_node_keeps_range_without_file() {
    let mut node = legacy_node("a.rs");
    node.source_range = Some(LegacyRange {
        start: LegacyPoint { line: 0, character: 0 },
        end: LegacyPoint { line: 1, character: 0 },
    });
    let converted = node.into_node().unwrap();
    assert!(converted.span.is_none());
    assert!(matches!(converted.attributes.get("source_range"), Some(AttributeValue::Object(_))));
}

#[test]
fn legacy_node_keeps_source_file_and_selection() {
    let mut node = legacy_node("a.rs");
    node.source_file = Some("a.rs".to_owned());
    node.selection_start = Some(LegacyPoint { line: 2, character: 3 });
    node.attributes.insert("source_file".to_owned(), AttributeValue::Bool(true));
    let converted = node.into_node().unwrap();
    assert_eq!(converted.attributes.get("source_file"), Some(&AttributeValue::Bool(true)));
    assert!(matches!(converted.attributes.get("selection_start"), Some(AttributeValue::Object(_))));
    assert!(converted.attributes.get("source_range").is_none());
}

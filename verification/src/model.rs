//! Graph elements: node identities, source spans, provenance, nodes and edges.
use crate::attribute::{string_order_lawful, AttributeValue};
use crate::error::{GraphError, Result};
use crate::kind::{EdgeKind, EvidenceKind, NodeKind};
use std::collections::BTreeMap;
use vstd::prelude::*;

verus! {

/// A position in a source file.
#[derive(Debug, Clone, Copy, PartialEq, Eq, PartialOrd, Ord, Hash, Structural)]
pub struct SourcePosition {
    /// One-based line number.
    pub line: u32,
    /// One-based byte column.
    pub column: u32,
}

impl SourcePosition {
    pub fn new(line: u32, column: u32) -> (r: Self)
        ensures
            r == (SourcePosition { line, column }),
    {
        SourcePosition { line, column }
    }
}

/// `a` comes strictly before `b`: by line, then by column.
pub open spec fn position_before(a: SourcePosition, b: SourcePosition) -> bool {
    a.line < b.line || (a.line == b.line && a.column < b.column)
}

/// A range of a source file.
#[derive(Debug, Clone, PartialEq, Eq, PartialOrd, Ord, Hash)]
pub struct SourceSpan {
    pub file: String,
    pub start: SourcePosition,
    /// Exclusive end position.
    pub end: SourcePosition,
}

impl SourceSpan {
    pub fn new(file: &str, start: SourcePosition, end: SourcePosition) -> (r: Self)
        ensures
            r.file@ == file@,
            r.start == start,
            r.end == end,
    {
        SourceSpan { file: file.to_owned(), start, end }
    }
}

/// How sure an extractor is of an edge.
#[derive(Debug, Clone, Copy, PartialEq, Eq, PartialOrd, Ord, Hash, Structural)]
#[non_exhaustive]
pub enum Confidence {
    Exact,
    High,
    Medium,
    Low,
}

/// Rank of a confidence: higher is surer.
pub open spec fn confidence_rank(confidence: Confidence) -> nat {
    match confidence {
        Confidence::Exact => 4,
        Confidence::High => 3,
        Confidence::Medium => 2,
        Confidence::Low => 1,
    }
}

/// Who asserted an edge, on what evidence, how surely, and where.
#[derive(Debug, PartialEq, Eq, PartialOrd, Ord, Hash)]
pub struct Provenance {
    pub extractor: String,
    pub evidence: EvidenceKind,
    pub confidence: Confidence,
    pub span: Option<SourceSpan>,
    pub detail: Option<String>,
}

impl Provenance {
    /// Creates evidence provenance with a non-empty extractor identity.
    pub fn new(extractor: &str, evidence: EvidenceKind, confidence: Confidence) -> (r: Result<Self>)
        ensures
            r is Err <==> extractor@.len() == 0,
            r matches Err(e) ==> e is EmptyExtractor,
            r matches Ok(p) ==> p.extractor@ == extractor@ && p.evidence == evidence && p.confidence == confidence
                && p.span is None && p.detail is None,
    {
        let extractor = extractor.to_owned();
        if extractor.unicode_len() == 0 {
            return Err(GraphError::EmptyExtractor);
        }
        Ok(Provenance { extractor, evidence, confidence, span: None, detail: None })
    }

    pub fn with_span(self, span: SourceSpan) -> (r: Self)
        ensures
            r == (Provenance { span: Some(span), ..self }),
    {
        Provenance { span: Some(span), ..self }
    }

    pub fn with_detail(self, detail: &str) -> (r: Self)
        ensures
            r.detail matches Some(d) && d@ == detail@,
            r.extractor == self.extractor,
            r.evidence == self.evidence,
            r.confidence == self.confidence,
            r.span == self.span,
    {
        Provenance { detail: Some(detail.to_owned()), ..self }
    }
}

/// A non-empty node identifier.
#[derive(Debug, PartialEq, Eq, PartialOrd, Ord, Hash)]
pub struct NodeId(String);

impl View for NodeId {
    type V = Seq<char>;

    closed spec fn view(&self) -> Seq<char> {
        self.0@
    }
}

impl NodeId {
    /// Creates a node identifier; the empty text is refused.
    pub fn new(id: &str) -> (r: Result<Self>)
        ensures
            r is Err <==> id@.len() == 0,
            r matches Err(e) ==> e is EmptyNodeId,
            r matches Ok(n) ==> n@ == id@,
    {
        let value = id.to_owned();
        if value.unicode_len() == 0 {
            return Err(GraphError::EmptyNodeId);
        }
        Ok(NodeId(value))
    }

    pub fn as_str(&self) -> (r: &str)
        ensures
            r@ == self@,
    {
        self.0.as_str()
    }
}

impl Clone for NodeId {
    fn clone(&self) -> (r: Self)
        ensures
            r@ == self@,
    {
        NodeId(self.0.clone())
    }
}

/// A graph node.
#[derive(Debug, PartialEq, Eq)]
pub struct Node {
    pub id: NodeId,
    pub label: String,
    pub kind: NodeKind,
    pub language: Option<String>,
    pub span: Option<SourceSpan>,
    pub attributes: BTreeMap<String, AttributeValue>,
}

impl Node {
    /// Creates a graph node; an empty identifier is refused.
    pub fn new(id: &str, label: &str, kind: NodeKind) -> (r: Result<Self>)
        ensures
            r is Err <==> id@.len() == 0,
            r matches Err(e) ==> e is EmptyNodeId,
            r matches Ok(n) ==> n.id@ == id@ && n.label@ == label@ && n.kind == kind && n.language is None
                && n.span is None && n.attributes@ == Map::<String, AttributeValue>::empty(),
    {
        let id = match NodeId::new(id) {
            Ok(id) => id,
            Err(e) => return Err(e),
        };
        Ok(Node { id, label: label.to_owned(), kind, language: None, span: None, attributes: BTreeMap::new() })
    }

    pub fn with_language(self, language: &str) -> (r: Self)
        ensures
            r.language matches Some(l) && l@ == language@,
            r.id == self.id,
            r.label == self.label,
            r.kind == self.kind,
            r.span == self.span,
            r.attributes == self.attributes,
    {
        Node { language: Some(language.to_owned()), ..self }
    }

    pub fn with_span(self, span: SourceSpan) -> (r: Self)
        ensures
            r == (Node { span: Some(span), ..self }),
    {
        Node { span: Some(span), ..self }
    }

    /// Sets an attribute; a later value for the same key replaces an earlier one.
    pub fn with_attribute(self, key: String, value: AttributeValue) -> (r: Self)
        ensures
            r.id == self.id,
            r.label == self.label,
            r.kind == self.kind,
            r.language == self.language,
            r.span == self.span,
            string_order_lawful() ==> r.attributes@ == self.attributes@.insert(key, value),
    {
        let mut node = self;
        node.attributes.insert(key, value);
        node
    }
}

/// A directed, typed edge between two node identifiers.
#[derive(Debug, PartialEq, Eq, PartialOrd, Ord, Hash)]
pub struct Edge {
    pub source: NodeId,
    pub target: NodeId,
    pub kind: EdgeKind,
    pub provenance: Provenance,
    pub attributes: BTreeMap<String, AttributeValue>,
}

impl Edge {
    pub fn new(source: NodeId, target: NodeId, kind: EdgeKind, provenance: Provenance) -> (r: Self)
        ensures
            r.source == source,
            r.target == target,
            r.kind == kind,
            r.provenance == provenance,
            r.attributes@ == Map::<String, AttributeValue>::empty(),
    {
        Edge { source, target, kind, provenance, attributes: BTreeMap::new() }
    }

    /// Sets an attribute; a later value for the same key replaces an earlier one.
    pub fn with_attribute(self, key: String, value: AttributeValue) -> (r: Self)
        ensures
            r.source == self.source,
            r.target == self.target,
            r.kind == self.kind,
            r.provenance == self.provenance,
            string_order_lawful() ==> r.attributes@ == self.attributes@.insert(key, value),
    {
        let mut edge = self;
        edge.attributes.insert(key, value);
        edge
    }
}

} // verus!

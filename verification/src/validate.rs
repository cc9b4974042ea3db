//! Validation of nodes, edges and source spans.
use crate::error::{GraphError, Result};
use crate::model::{position_before, Edge, Node, SourceSpan};
use crate::text::{is_trimmed, trimmed};
use vstd::prelude::*;

verus! {

/// Why a span is refused, if it is: an empty file, a zero line or column,
/// or an end before the start, checked in that order.
pub open spec fn span_problem(span: SourceSpan) -> Option<Seq<char>> {
    if span.file@.len() == 0 {
        Some("file must not be empty"@)
    } else if span.start.line == 0 || span.start.column == 0 || span.end.line == 0 || span.end.column == 0 {
        Some("positions are one-based"@)
    } else if position_before(span.end, span.start) {
        Some("end precedes start"@)
    } else {
        None
    }
}

/// The error a span gives, if any.
pub open spec fn span_error(span: SourceSpan, r: Result<()>) -> bool {
    match span_problem(span) {
        None => r is Ok,
        Some(reason) => r matches Err(GraphError::InvalidSpan { file, reason: given })
            && file@ == span.file@ && given@ == reason,
    }
}

/// A node is valid when its span is valid and its language label, if
/// any, is non-empty text without surrounding white space.
pub open spec fn node_error(node: &Node, r: Result<()>) -> bool {
    match node.span {
        Some(span) if span_problem(span) is Some => span_error(span, r),
        _ => match node.language {
            Some(language) if !is_trimmed(language@) => r matches Err(GraphError::InvalidKind { category, value })
                && category@ == "language"@ && value@ == language@,
            _ => r is Ok,
        },
    }
}

/// An edge is valid when its extractor is non-empty and its span, if any, is valid.
pub open spec fn edge_error(edge: &Edge, r: Result<()>) -> bool {
    if edge.provenance.extractor@.len() == 0 {
        r matches Err(e) && e is EmptyExtractor
    } else {
        match edge.provenance.span {
            Some(span) => span_error(span, r),
            None => r is Ok,
        }
    }
}

/// A span with a named file and one-based positions is refused exactly
/// when its end comes before its start, line first and then column (so a
/// span on one line whose end column is below its start column is
/// refused), and then for that reason.
pub proof fn lemma_span_order(span: SourceSpan, r: Result<()>)
    requires
        span_error(span, r),
        span.file@.len() > 0,
        span.start.line >= 1 && span.start.column >= 1 && span.end.line >= 1 && span.end.column >= 1,
    ensures
        r is Ok <==> !(span.end.line < span.start.line || (span.end.line == span.start.line && span.end.column < span.start.column)),
        r is Err ==> (r matches Err(GraphError::InvalidSpan { file, reason }) && file@ == span.file@ && reason@ == "end precedes start"@),
{
}

/// Whatever else holds of a span, an empty file is refused first, and a
/// zero line or column next.
pub proof fn lemma_span_refusal_order(span: SourceSpan, r: Result<()>)
    requires
        span_error(span, r),
    ensures
        span.file@.len() == 0 ==> (r matches Err(GraphError::InvalidSpan { reason, .. }) && reason@ == "file must not be empty"@),
        span.file@.len() > 0 && (span.start.line == 0 || span.start.column == 0 || span.end.line == 0 || span.end.column == 0)
            ==> (r matches Err(GraphError::InvalidSpan { reason, .. }) && reason@ == "positions are one-based"@),
{
}

pub fn validate_span(span: &SourceSpan) -> (r: Result<()>)
    ensures
        span_error(*span, r),
{
    if span.file.unicode_len() == 0 {
        return Err(GraphError::InvalidSpan { file: span.file.clone(), reason: "file must not be empty" });
    }
    if span.start.line == 0 || span.start.column == 0 || span.end.line == 0 || span.end.column == 0 {
        return Err(GraphError::InvalidSpan { file: span.file.clone(), reason: "positions are one-based" });
    }
    if span.end.line < span.start.line || (span.end.line == span.start.line && span.end.column < span.start.column) {
        return Err(GraphError::InvalidSpan { file: span.file.clone(), reason: "end precedes start" });
    }
    Ok(())
}

pub fn validate_node(node: &Node) -> (r: Result<()>)
    ensures
        node_error(node, r),
{
    if let Some(span) = &node.span {
        let checked = validate_span(span);
        if checked.is_err() {
            return checked;
        }
    }
    if let Some(language) = &node.language {
        if !trimmed(language.as_str()) {
            return Err(GraphError::InvalidKind { category: "language", value: language.clone() });
        }
    }
    Ok(())
}

pub fn validate_edge(edge: &Edge) -> (r: Result<()>)
    ensures
        edge_error(edge, r),
{
    if edge.provenance.extractor.unicode_len() == 0 {
        return Err(GraphError::EmptyExtractor);
    }
    if let Some(span) = &edge.provenance.span {
        return validate_span(span);
    }
    Ok(())
}

} // verus!

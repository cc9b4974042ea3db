//! Conversion of the legacy `{ nodes, links }` graph shape into nodes and edges.
use crate::attribute::{string_order_lawful, AttributeValue};
use crate::error::{GraphError, Result};
use crate::kind::{EdgeKind, EvidenceKind, NodeKind};
use crate::model::{Confidence, Edge, Node, NodeId, Provenance, SourcePosition, SourceSpan};
use crate::validate::{span_error, span_problem, validate_span};
use crate::text::{
    after_last_separator, before_first_hash, before_hash, has_hash, is_trimmed, last_segment, lower_ascii,
    lower_matches, trim_bounds, trim_text,
};
use std::collections::BTreeMap;
use vstd::prelude::*;

verus! {

/// A zero-based position in the legacy format.
#[derive(Debug, Clone, PartialEq, Eq, Structural)]
pub struct LegacyPoint {
    pub line: u32,
    pub character: u32,
}

/// A zero-based range in the legacy format.
#[derive(Debug, Clone, PartialEq, Eq, Structural)]
pub struct LegacyRange {
    pub start: LegacyPoint,
    pub end: LegacyPoint,
}

/// `x + 1`, saturating at `u32::MAX`.
pub open spec fn succ_saturating(x: u32) -> u32 {
    if x < u32::MAX {
        (x + 1) as u32
    } else {
        u32::MAX
    }
}

/// The one-based position of a zero-based legacy point.
pub open spec fn one_based(p: LegacyPoint) -> SourcePosition {
    SourcePosition { line: succ_saturating(p.line), column: succ_saturating(p.character) }
}

/// The entries of a point's attribute object, under the keys `a` and `b`.
pub open spec fn point_entries(p: LegacyPoint, a: String, b: String) -> Map<String, AttributeValue> {
    Map::<String, AttributeValue>::empty().insert(a, AttributeValue::Integer(p.line as i64)).insert(
        b,
        AttributeValue::Integer(p.character as i64),
    )
}

/// `v` is the attribute object of point `p`: its `line` and `character`
/// entries, stated where the order of `String` obeys its laws.
pub open spec fn point_attribute(v: AttributeValue, p: LegacyPoint) -> bool {
    v matches AttributeValue::Object(m) && (string_order_lawful() ==> exists|a: String, b: String|
        a@ == "line"@ && b@ == "character"@ && #[trigger] point_entries(p, a, b) == m@)
}

/// `v` is the attribute object of range `r`: its `start` and `end` points,
/// stated where the order of `String` obeys its laws.
pub open spec fn range_attribute(v: AttributeValue, r: LegacyRange) -> bool {
    v matches AttributeValue::Object(m) && (string_order_lawful() ==> exists|a: String, b: String, x: AttributeValue, y: AttributeValue|
        a@ == "start"@ && b@ == "end"@ && point_attribute(x, r.start) && point_attribute(y, r.end)
        && #[trigger] Map::<String, AttributeValue>::empty().insert(a, x).insert(b, y) == m@)
}

impl LegacyPoint {
    /// The point as an attribute object with `line` and `character` entries.
    ///
    /// What the object holds is stated where the order of `String` obeys
    /// its laws, the condition on which vstd specifies `BTreeMap::insert`.
    pub fn into_attribute(self) -> (r: AttributeValue)
        ensures
            point_attribute(r, self),
    {
        let mut object: BTreeMap<String, AttributeValue> = BTreeMap::new();
        let line_key = "line".to_owned();
        let character_key = "character".to_owned();
        let ghost a = line_key;
        let ghost b = character_key;
        object.insert(line_key, AttributeValue::Integer(self.line as i64));
        object.insert(character_key, AttributeValue::Integer(self.character as i64));
        proof {
            reveal_strlit("line");
            reveal_strlit("character");
            if string_order_lawful() {
                assert(point_entries(self, a, b) == object@);
            }
        }
        AttributeValue::Object(object)
    }
}

impl LegacyRange {
    /// The range as an attribute object with `start` and `end` points.
    pub fn into_attribute(self) -> (r: AttributeValue)
        ensures
            range_attribute(r, self),
    {
        let mut object: BTreeMap<String, AttributeValue> = BTreeMap::new();
        let start_key = "start".to_owned();
        let end_key = "end".to_owned();
        let ghost a = start_key;
        let ghost b = end_key;
        let x = self.start.into_attribute();
        let y = self.end.into_attribute();
        let ghost gx = x;
        let ghost gy = y;
        object.insert(start_key, x);
        object.insert(end_key, y);
        proof {
            reveal_strlit("start");
            reveal_strlit("end");
            if string_order_lawful() {
                assert(Map::<String, AttributeValue>::empty().insert(a, gx).insert(b, gy) == object@);
            }
        }
        AttributeValue::Object(object)
    }

    /// The one-based span of this zero-based range in `file`.
    pub fn into_span(self, file: String) -> (r: SourceSpan)
        ensures
            r.file@ == file@,
            r.start == one_based(self.start),
            r.end == one_based(self.end),
    {
        SourceSpan {
            file,
            start: SourcePosition::new(self.start.line.saturating_add(1), self.start.character.saturating_add(1)),
            end: SourcePosition::new(self.end.line.saturating_add(1), self.end.character.saturating_add(1)),
        }
    }
}

/// The confidence a legacy confidence word names, if it names one.
pub open spec fn confidence_word(word: Seq<char>) -> Option<Confidence> {
    if word == "exact"@ || word == "exact_lsp"@ {
        Some(Confidence::Exact)
    } else if word == "high"@ || word == "extracted"@ || word == "resolved"@ {
        Some(Confidence::High)
    } else if word == "medium"@ {
        Some(Confidence::Medium)
    } else if word == "low"@ || word == "inferred"@ || word == "conflict"@ {
        Some(Confidence::Low)
    } else {
        None
    }
}

/// The name of a confidence: its variant's name in lower case.
pub open spec fn confidence_name(c: Confidence) -> Seq<char> {
    match c {
        Confidence::Exact => "exact"@,
        Confidence::High => "high"@,
        Confidence::Medium => "medium"@,
        Confidence::Low => "low"@,
    }
}

/// A legacy confidence text that names a confidence, once trimmed and in
/// lower case, gives that confidence, whatever the evidence.
pub proof fn lemma_named_confidence(text: Seq<char>, c: Confidence, evidence: EvidenceKind)
    requires
        lower_ascii(trim_text(text)) == confidence_name(c),
    ensures
        legacy_confidence(Some(text), evidence) == c,
{
    reveal_strlit("exact");
    reveal_strlit("exact_lsp");
    reveal_strlit("high");
    reveal_strlit("extracted");
    reveal_strlit("resolved");
    reveal_strlit("medium");
    reveal_strlit("low");
    reveal_strlit("inferred");
    reveal_strlit("conflict");
    let w = confidence_name(c);
    assert(w.len() != "exact_lsp"@.len() && w.len() != "extracted"@.len() && w.len() != "resolved"@.len()
        && w.len() != "inferred"@.len() && w.len() != "conflict"@.len());
    assert("exact"@ != "high"@ && "exact"@ != "medium"@ && "exact"@ != "low"@ && "high"@ != "medium"@ && "high"@ != "low"@
        && "medium"@ != "low"@) by {
        assert("exact"@[0] != "high"@[0] && "exact"@[0] != "medium"@[0] && "exact"@[0] != "low"@[0]);
        assert("high"@[0] != "medium"@[0] && "high"@[0] != "low"@[0] && "medium"@[0] != "low"@[0]);
    }
}

/// The other words a legacy confidence text may use, once trimmed and in
/// lower case: `exact_lsp` is exact, `extracted` and `resolved` are high,
/// `inferred` and `conflict` are low, whatever the evidence.
pub proof fn lemma_confidence_aliases(text: Seq<char>, evidence: EvidenceKind)
    ensures
        lower_ascii(trim_text(text)) == "exact_lsp"@ ==> legacy_confidence(Some(text), evidence) == Confidence::Exact,
        lower_ascii(trim_text(text)) == "extracted"@ ==> legacy_confidence(Some(text), evidence) == Confidence::High,
        lower_ascii(trim_text(text)) == "resolved"@ ==> legacy_confidence(Some(text), evidence) == Confidence::High,
        lower_ascii(trim_text(text)) == "inferred"@ ==> legacy_confidence(Some(text), evidence) == Confidence::Low,
        lower_ascii(trim_text(text)) == "conflict"@ ==> legacy_confidence(Some(text), evidence) == Confidence::Low,
{
    reveal_strlit("exact");
    reveal_strlit("exact_lsp");
    reveal_strlit("high");
    reveal_strlit("extracted");
    reveal_strlit("resolved");
    reveal_strlit("medium");
    reveal_strlit("low");
    reveal_strlit("inferred");
    reveal_strlit("conflict");
    let w = lower_ascii(trim_text(text));
    if w == "resolved"@ {
        assert(w[0] != "exact"@[0] && w[0] != "exact_lsp"@[0] && w[0] != "high"@[0] && w[0] != "extracted"@[0]);
    }
    if w == "conflict"@ {
        assert(w[0] != "exact"@[0] && w[0] != "exact_lsp"@[0] && w[0] != "high"@[0] && w[0] != "extracted"@[0]
            && w[0] != "resolved"@[0] && w[0] != "medium"@[0] && w[0] != "low"@[0] && w[0] != "inferred"@[0]);
    }
    if w == "inferred"@ {
        assert(w[0] != "exact"@[0] && w[0] != "exact_lsp"@[0] && w[0] != "high"@[0] && w[0] != "extracted"@[0]
            && w[0] != "resolved"@[0] && w[0] != "medium"@[0] && w[0] != "low"@[0]);
    }
    if w == "extracted"@ {
        assert(w.len() != "exact"@.len() && w[3] != "exact_lsp"@[3] && w.len() != "high"@.len());
    }
    if w == "exact_lsp"@ {
        assert(w.len() != "exact"@.len());
    }
}

/// Without a confidence text, the evidence decides: exact LSP evidence is
/// exact, inferred and conflicting evidence is low, any other is high.
pub proof fn lemma_confidence_from_evidence(evidence: EvidenceKind)
    ensures
        evidence == EvidenceKind::ExactLsp ==> legacy_confidence(None, evidence) == Confidence::Exact,
        evidence == EvidenceKind::Inferred ==> legacy_confidence(None, evidence) == Confidence::Low,
        evidence == EvidenceKind::Conflict ==> legacy_confidence(None, evidence) == Confidence::Low,
        !(evidence is ExactLsp || evidence is Inferred || evidence is Conflict)
            ==> legacy_confidence(None, evidence) == Confidence::High,
{
    reveal_strlit("exact");
    reveal_strlit("exact_lsp");
    reveal_strlit("high");
    reveal_strlit("extracted");
    reveal_strlit("resolved");
    reveal_strlit("medium");
    reveal_strlit("low");
    reveal_strlit("inferred");
    reveal_strlit("conflict");
    let w = lower_ascii(trim_text(Seq::<char>::empty()));
    assert(trim_text(Seq::<char>::empty()).len() == 0);
    assert(w.len() == 0);
}

/// The confidence of a legacy link: its confidence text, trimmed and in
/// lower case, when that names one; otherwise what the evidence implies.
pub open spec fn legacy_confidence(value: Option<Seq<char>>, evidence: EvidenceKind) -> Confidence {
    let text = match value {
        Some(v) => v,
        None => Seq::empty(),
    };
    match confidence_word(lower_ascii(trim_text(text))) {
        Some(c) => c,
        None => match evidence {
            EvidenceKind::ExactLsp => Confidence::Exact,
            EvidenceKind::Inferred => Confidence::Low,
            EvidenceKind::Conflict => Confidence::Low,
            _ => Confidence::High,
        },
    }
}

pub fn parse_confidence(value: Option<&str>, evidence: &EvidenceKind) -> (r: Confidence)
    ensures
        r == legacy_confidence(text_of(value), *evidence),
{
    let text = match value {
        Some(v) => v,
        None => "",
    };
    proof {
        reveal_strlit("");
        assert(text@ =~= (match value {
            Some(v) => v@,
            None => Seq::<char>::empty(),
        }));
    }
    let (a, b) = trim_bounds(text);
    if lower_matches(text, a, b, "exact") || lower_matches(text, a, b, "exact_lsp") {
        return Confidence::Exact;
    }
    if lower_matches(text, a, b, "high") || lower_matches(text, a, b, "extracted") || lower_matches(text, a, b, "resolved") {
        return Confidence::High;
    }
    if lower_matches(text, a, b, "medium") {
        return Confidence::Medium;
    }
    if lower_matches(text, a, b, "low") || lower_matches(text, a, b, "inferred") || lower_matches(text, a, b, "conflict") {
        return Confidence::Low;
    }
    match evidence {
        EvidenceKind::ExactLsp => Confidence::Exact,
        EvidenceKind::Inferred => Confidence::Low,
        EvidenceKind::Conflict => Confidence::Low,
        _ => Confidence::High,
    }
}

/// `r` is the evidence a legacy text names: its kind when the text is a
/// valid kind, `Extracted` otherwise.
pub open spec fn evidence_of(value: Option<Seq<char>>, r: EvidenceKind) -> bool {
    match value {
        Some(v) => if is_trimmed(v) {
            r.text() == v && (r is Custom <==> !crate::kind::reserved_evidence_kind(v))
        } else {
            r == EvidenceKind::Extracted
        },
        None => r == EvidenceKind::Extracted,
    }
}

/// The text of an optional text.
pub open spec fn text_of(value: Option<&str>) -> Option<Seq<char>> {
    match value {
        Some(v) => Some(v@),
        None => None,
    }
}

/// The text of an optional owned text.
pub open spec fn owned_text(value: Option<String>) -> Option<Seq<char>> {
    match value {
        Some(v) => Some(v@),
        None => None,
    }
}

/// The first of two optional texts that is present.
pub open spec fn first_of(a: Option<Seq<char>>, b: Option<Seq<char>>) -> Option<Seq<char>> {
    match a {
        Some(x) => Some(x),
        None => b,
    }
}

pub fn parse_evidence(value: Option<&str>) -> (r: EvidenceKind)
    ensures
        evidence_of(text_of(value), r),
{
    match value {
        Some(v) => match EvidenceKind::custom(v) {
            Ok(kind) => kind,
            Err(_) => EvidenceKind::Extracted,
        },
        None => EvidenceKind::Extracted,
    }
}

/// The node kind a legacy text names; without a valid one, `Function` for
/// ids with a `#` and `File` for the others.
pub fn parse_node_kind(value: Option<&str>, id: &str) -> (r: NodeKind)
    ensures
        (value matches Some(v) && is_trimmed(v@)) ==> r.text() == value->0@
            && (r is Custom <==> !crate::kind::reserved_node_kind(value->0@)),
        !(value matches Some(v) && is_trimmed(v@)) ==> (if id@.contains('#') {
            r == NodeKind::Function
        } else {
            r == NodeKind::File
        }),
{
    if let Some(v) = value {
        if let Ok(kind) = NodeKind::custom(v) {
            return kind;
        }
    }
    if has_hash(id) {
        NodeKind::Function
    } else {
        NodeKind::File
    }
}

/// The label a legacy node gets without one: the part of its id after the
/// last `/` or `#`.
pub fn infer_label(id: &str) -> (r: String)
    ensures
        r@ == after_last_separator(id@),
{
    last_segment(id)
}

/// The file a legacy link's source id names: the part before the first `#`.
pub fn infer_edge_file(source: &str) -> (r: String)
    ensures
        r@ == before_first_hash(source@),
{
    before_hash(source)
}

/// A borrowed view of an optional owned text.
fn as_text(value: &Option<String>) -> (r: Option<&str>)
    ensures
        text_of(r) == owned_text(*value),
{
    match value {
        Some(v) => Some(v.as_str()),
        None => None,
    }
}

/// The first present text of two.
fn or_text<'a>(a: Option<&'a str>, b: Option<&'a str>) -> (r: Option<&'a str>)
    ensures
        text_of(r) == first_of(text_of(a), text_of(b)),
{
    match a {
        Some(x) => Some(x),
        None => b,
    }
}

/// Legacy node shape with all unknown fields kept as attributes.
#[derive(Debug, PartialEq, Eq)]
pub struct LegacyNode {
    pub id: String,
    pub label: Option<String>,
    pub kind: Option<String>,
    pub node_type: Option<String>,
    pub language: Option<String>,
    pub source_file: Option<String>,
    pub source_range: Option<LegacyRange>,
    pub selection_start: Option<LegacyPoint>,
    pub selection_end: Option<LegacyPoint>,
    pub attributes: BTreeMap<String, AttributeValue>,
}

/// The kind a legacy node gets.
pub open spec fn legacy_node_kind(kind: Option<Seq<char>>, id: Seq<char>, r: NodeKind) -> bool {
    &&& (kind matches Some(v) && is_trimmed(v)) ==> r.text() == kind->0 && (r is Custom <==> !crate::kind::reserved_node_kind(kind->0))
    &&& !(kind matches Some(v) && is_trimmed(v)) ==> (if id.contains('#') {
        r == NodeKind::Function
    } else {
        r == NodeKind::File
    })
}

/// The span a legacy node's range gives in its source file.
pub open spec fn legacy_span(range: LegacyRange, file: String) -> SourceSpan {
    SourceSpan { file, start: one_based(range.start), end: one_based(range.end) }
}

/// The attributes of the node a legacy node becomes: its source file,
/// selection points and (with no source file to place it in) its source
/// range under `keys`, with values `vals`, each overridden by an entry of
/// the node's own attributes under the same key.
pub open spec fn node_attributes(node: LegacyNode, keys: Seq<String>, vals: Seq<AttributeValue>) -> Map<String, AttributeValue> {
    let f0 = match node.source_file {
        Some(f) => Map::<String, AttributeValue>::empty().insert(keys[0], AttributeValue::String(f)),
        None => Map::<String, AttributeValue>::empty(),
    };
    let f1 = if node.selection_start is Some { f0.insert(keys[1], vals[1]) } else { f0 };
    let f2 = if node.selection_end is Some { f1.insert(keys[2], vals[2]) } else { f1 };
    let f3 = if node.source_range is Some && node.source_file is None { f2.insert(keys[3], vals[3]) } else { f2 };
    f3.union_prefer_right(node.attributes@)
}

/// The keys `source_file`, `selection_start`, `selection_end` and
/// `source_range`, and the attribute objects of the node's points and range.
pub open spec fn node_keys(node: LegacyNode, keys: Seq<String>, vals: Seq<AttributeValue>) -> bool {
    &&& keys.len() == 4 && vals.len() == 4
    &&& keys[0]@ == "source_file"@ && keys[1]@ == "selection_start"@
    &&& keys[2]@ == "selection_end"@ && keys[3]@ == "source_range"@
    &&& node.selection_start matches Some(p) ==> point_attribute(vals[1], p)
    &&& node.selection_end matches Some(p) ==> point_attribute(vals[2], p)
    &&& node.source_file is None ==> (node.source_range matches Some(r) ==> range_attribute(vals[3], r))
}

/// The span a legacy node is refused for: the one its range gives in its
/// source file, when that span is invalid.
pub open spec fn bad_legacy_span(node: LegacyNode) -> bool {
    node.source_range is Some && node.source_file is Some
        && span_problem(legacy_span(node.source_range->0, node.source_file->0)) is Some
}

impl LegacyNode {
    /// Converts this node. Refused, in this order: an empty id, and an
    /// invalid span of the source range in the source file. The label
    /// defaults to the part of the id after its last `/` or `#`, the kind
    /// comes from `kind` or else `type`, a source range in a known file
    /// becomes the span, and the source file, selection points and a source
    /// range with no file are kept as attributes unless the node's own
    /// attributes hold the same key.
    pub fn into_node(self) -> (r: Result<Node>)
        ensures
            r is Err <==> self.id@.len() == 0 || bad_legacy_span(self),
            self.id@.len() == 0 ==> (r matches Err(e) && e is EmptyNodeId),
            self.id@.len() > 0 && bad_legacy_span(self) ==> (r matches Err(e)
                && span_error(legacy_span(self.source_range->0, self.source_file->0), Err(e))),
            r matches Ok(node) ==> {
                &&& node.id@ == self.id@
                &&& node.label@ == (match self.label {
                    Some(l) => l@,
                    None => after_last_separator(self.id@),
                })
                &&& legacy_node_kind(first_of(owned_text(self.kind), owned_text(self.node_type)), self.id@, node.kind)
                &&& node.language == self.language
                &&& (match (self.source_range, self.source_file) {
                    (Some(range), Some(file)) => node.span matches Some(span) && span.file@ == file@
                        && span.start == one_based(range.start) && span.end == one_based(range.end),
                    _ => node.span is None,
                })
                &&& string_order_lawful() ==> exists|keys: Seq<String>, vals: Seq<AttributeValue>| node_keys(self, keys, vals)
                    && #[trigger] node_attributes(self, keys, vals) == node.attributes@
            },
    {
        let inferred = infer_label(self.id.as_str());
        let kind_text = or_text(as_text(&self.kind), as_text(&self.node_type));
        let kind = parse_node_kind(kind_text, self.id.as_str());
        let id = match NodeId::new(self.id.as_str()) {
            Ok(id) => id,
            Err(e) => return Err(e),
        };
        let label = match self.label {
            Some(l) => l,
            None => inferred,
        };
        let (span, loose_range) = match (self.source_range, &self.source_file) {
            (Some(range), Some(file)) => (Some(range.into_span(file.clone())), None),
            (Some(range), None) => (None, Some(range)),
            _ => (None, None),
        };
        if let Some(sp) = &span {
            let checked = validate_span(sp);
            if let Err(e) = checked {
                return Err(e);
            }
        }
        let ghost orig = self.attributes@;
        let mut attributes = self.attributes;
        let ghost mut k0: String = vstd::pervasive::arbitrary();
        let ghost mut k1: String = vstd::pervasive::arbitrary();
        let ghost mut k2: String = vstd::pervasive::arbitrary();
        let ghost mut k3: String = vstd::pervasive::arbitrary();
        let ghost mut v1: AttributeValue = vstd::pervasive::arbitrary();
        let ghost mut v2: AttributeValue = vstd::pervasive::arbitrary();
        let ghost mut v3: AttributeValue = vstd::pervasive::arbitrary();
        let ghost mut f: Map<String, AttributeValue> = Map::empty();
        let key = "source_file".to_owned();
        proof {
            k0 = key;
        }
        if let Some(file) = self.source_file {
            let value = AttributeValue::String(file);
            let ghost v0 = value;
            if !attributes.contains_key(&key) {
                attributes.insert(key, value);
            }
            proof {
                f = f.insert(k0, v0);
            }
        }
        proof {
            if string_order_lawful() {
                assert(attributes@ == f.union_prefer_right(orig));
            }
        }
        let key = "selection_start".to_owned();
        proof {
            k1 = key;
        }
        if let Some(point) = self.selection_start {
            let value = point.into_attribute();
            proof {
                v1 = value;
            }
            if !attributes.contains_key(&key) {
                attributes.insert(key, value);
            }
            proof {
                reveal_strlit("source_file");
                reveal_strlit("selection_start");
                reveal_strlit("selection_end");
                reveal_strlit("source_range");
                assert(k0@ == "source_file"@);
                assert(k1@ == "selection_start"@);
                assert(k1@.len() != k0@.len());
                assert(k1@ != k0@);
                if string_order_lawful() {
                    assert(forall|x: String| f.dom().contains(x) ==> x == k0);
                    assert(!f.dom().contains(k1));
                    assert(attributes@ =~= f.insert(k1, v1).union_prefer_right(orig));
                }
                f = f.insert(k1, v1);
            }
        }
        proof {
            if string_order_lawful() {
                assert(attributes@ == f.union_prefer_right(orig));
            }
        }
        let key = "selection_end".to_owned();
        proof {
            k2 = key;
        }
        if let Some(point) = self.selection_end {
            let value = point.into_attribute();
            proof {
                v2 = value;
            }
            if !attributes.contains_key(&key) {
                attributes.insert(key, value);
            }
            proof {
                reveal_strlit("source_file");
                reveal_strlit("selection_start");
                reveal_strlit("selection_end");
                reveal_strlit("source_range");
                assert(k0@ == "source_file"@ && k1@ == "selection_start"@ && k2@ == "selection_end"@);
                assert(k2@.len() != k0@.len() && k2@.len() != k1@.len());
                assert(k2@ != k0@ && k2@ != k1@);
                if string_order_lawful() {
                    assert(forall|x: String| f.dom().contains(x) ==> x == k0 || x == k1);
                    assert(!f.dom().contains(k2));
                    assert(attributes@ =~= f.insert(k2, v2).union_prefer_right(orig));
                }
                f = f.insert(k2, v2);
            }
        }
        proof {
            if string_order_lawful() {
                assert(attributes@ == f.union_prefer_right(orig));
            }
        }
        let key = "source_range".to_owned();
        proof {
            k3 = key;
        }
        if let Some(range) = loose_range {
            let value = range.into_attribute();
            proof {
                v3 = value;
            }
            if !attributes.contains_key(&key) {
                attributes.insert(key, value);
            }
            proof {
                reveal_strlit("source_file");
                reveal_strlit("selection_start");
                reveal_strlit("selection_end");
                reveal_strlit("source_range");
                assert(k0@ == "source_file"@ && k1@ == "selection_start"@ && k2@ == "selection_end"@ && k3@ == "source_range"@);
                assert(k3@.len() != k0@.len() && k3@.len() != k1@.len() && k3@.len() != k2@.len());
                assert(k3@ != k0@ && k3@ != k1@ && k3@ != k2@);
                if string_order_lawful() {
                    assert(forall|x: String| f.dom().contains(x) ==> x == k0 || x == k1 || x == k2);
                    assert(!f.dom().contains(k3));
                    assert(attributes@ =~= f.insert(k3, v3).union_prefer_right(orig));
                }
                f = f.insert(k3, v3);
            }
        }
        proof {
            reveal_strlit("source_file");
            reveal_strlit("selection_start");
            reveal_strlit("selection_end");
            reveal_strlit("source_range");
            assert(k0@ == "source_file"@ && k1@ == "selection_start"@ && k2@ == "selection_end"@ && k3@ == "source_range"@);
            let keys = seq![k0, k1, k2, k3];
            let vals = seq![AttributeValue::Null, v1, v2, v3];
            if string_order_lawful() {
                assert(attributes@ == f.union_prefer_right(orig));
                assert(node_attributes(self, keys, vals) == f.union_prefer_right(orig));
                assert(node_keys(self, keys, vals));
            }
        }
        Ok(Node { id, label, kind, language: self.language, span, attributes })
    }
}

/// Legacy link shape with all unknown fields kept as attributes.
#[derive(Debug, PartialEq, Eq)]
pub struct LegacyLink {
    pub source: String,
    pub target: String,
    pub relation: Option<String>,
    pub kind: Option<String>,
    pub edge_type: Option<String>,
    pub confidence: Option<String>,
    pub provenance: Option<String>,
    pub line: Option<u32>,
    pub character: Option<u32>,
    pub compile_only: Option<bool>,
    pub type_only: Option<bool>,
    pub specifier: Option<String>,
    pub usage: Option<String>,
    pub attributes: BTreeMap<String, AttributeValue>,
}

/// The kind text of a legacy link: `relation`, else `kind`, else `type`,
/// else `references`.
pub open spec fn link_kind_text(link: LegacyLink) -> Seq<char> {
    match first_of(owned_text(link.relation), first_of(owned_text(link.kind), owned_text(link.edge_type))) {
        Some(t) => t,
        None => "references"@,
    }
}

/// The span a legacy link's position gives, in the file its source names.
pub open spec fn link_span(link: LegacyLink, span: Option<SourceSpan>) -> bool {
    match link.line {
        None => span is None,
        Some(line) => {
            let column = succ_saturating(match link.character {
                Some(c) => c,
                None => 0,
            });
            span matches Some(sp) && sp.file@ == before_first_hash(link.source@)
                && sp.start == (SourcePosition { line, column })
                && sp.end == (SourcePosition { line, column: succ_saturating(column) })
        },
    }
}

/// The attributes of the edge a legacy link becomes: the link's own, with
/// its position and import facts added under `keys`.
pub open spec fn link_attributes(link: LegacyLink, keys: Seq<String>) -> Map<String, AttributeValue> {
    let m0 = link.attributes@;
    let m1 = match link.line {
        Some(l) => m0.insert(keys[0], AttributeValue::Integer(l as i64)),
        None => m0,
    };
    let m2 = match link.character {
        Some(c) => m1.insert(keys[1], AttributeValue::Integer(c as i64)),
        None => m1,
    };
    let m3 = match link.compile_only {
        Some(b) => m2.insert(keys[2], AttributeValue::Bool(b)),
        None => m2,
    };
    let m4 = match link.type_only {
        Some(b) => m3.insert(keys[3], AttributeValue::Bool(b)),
        None => m3,
    };
    let m5 = match link.specifier {
        Some(t) => m4.insert(keys[4], AttributeValue::String(t)),
        None => m4,
    };
    match link.usage {
        Some(u) => m5.insert(keys[5], AttributeValue::String(u)),
        None => m5,
    }
}

/// The keys under which a link's facts are added: `line`, `character`,
/// `compileOnly`, `typeOnly`, `specifier` and `usage`, each where used.
pub open spec fn link_keys(link: LegacyLink, keys: Seq<String>) -> bool {
    &&& keys.len() == 6
    &&& link.line is Some ==> keys[0]@ == "line"@
    &&& link.character is Some ==> keys[1]@ == "character"@
    &&& link.compile_only is Some ==> keys[2]@ == "compileOnly"@
    &&& link.type_only is Some ==> keys[3]@ == "typeOnly"@
    &&& link.specifier is Some ==> keys[4]@ == "specifier"@
    &&& link.usage is Some ==> keys[5]@ == "usage"@
}

impl LegacyLink {
    /// Converts this link into an edge asserted by `extractor`.
    ///
    /// Refused, in this order: a kind text that is not a valid kind, an
    /// empty extractor, an empty source id, an empty target id.
    pub fn into_edge(self, extractor: &str) -> (r: Result<Edge>)
        ensures
            r is Ok <==> is_trimmed(link_kind_text(self)) && extractor@.len() > 0 && self.source@.len() > 0 && self.target@.len() > 0,
            !is_trimmed(link_kind_text(self)) ==> (r matches Err(GraphError::InvalidKind { category, value })
                && category@ == "edge"@ && value@ == link_kind_text(self)),
            is_trimmed(link_kind_text(self)) && extractor@.len() == 0 ==> (r matches Err(e) && e is EmptyExtractor),
            is_trimmed(link_kind_text(self)) && extractor@.len() > 0 && (self.source@.len() == 0 || self.target@.len() == 0)
                ==> (r matches Err(e) && e is EmptyNodeId),
            r matches Ok(edge) ==> {
                &&& edge.source@ == self.source@
                &&& edge.target@ == self.target@
                &&& edge.kind.text() == link_kind_text(self)
                &&& (edge.kind is Custom <==> !crate::kind::reserved_edge_kind(link_kind_text(self)))
                &&& edge.provenance.extractor@ == extractor@
                &&& evidence_of(first_of(owned_text(self.provenance), owned_text(self.confidence)), edge.provenance.evidence)
                &&& edge.provenance.confidence == legacy_confidence(owned_text(self.confidence), edge.provenance.evidence)
                &&& link_span(self, edge.provenance.span)
                &&& edge.provenance.detail is None
                &&& string_order_lawful() ==> exists|keys: Seq<String>| link_keys(self, keys)
                    && #[trigger] link_attributes(self, keys) == edge.attributes@
            },
    {
        let ghost link = self;
        let kind_text = match or_text(as_text(&self.relation), or_text(as_text(&self.kind), as_text(&self.edge_type))) {
            Some(t) => t,
            None => "references",
        };
        let kind = match EdgeKind::custom(kind_text) {
            Ok(kind) => kind,
            Err(e) => return Err(e),
        };
        let evidence = parse_evidence(or_text(as_text(&self.provenance), as_text(&self.confidence)));
        let confidence = parse_confidence(as_text(&self.confidence), &evidence);
        let mut provenance = match Provenance::new(extractor, evidence, confidence) {
            Ok(p) => p,
            Err(e) => return Err(e),
        };
        let mut attributes = self.attributes;
        let ghost mut k0: String = vstd::pervasive::arbitrary();
        let ghost mut k1: String = vstd::pervasive::arbitrary();
        let ghost mut k2: String = vstd::pervasive::arbitrary();
        let ghost mut k3: String = vstd::pervasive::arbitrary();
        let ghost mut k4: String = vstd::pervasive::arbitrary();
        let ghost mut k5: String = vstd::pervasive::arbitrary();
        if let Some(line) = self.line {
            let column = match self.character {
                Some(c) => c,
                None => 0,
            }.saturating_add(1);
            let file = infer_edge_file(self.source.as_str());
            provenance.span = Some(SourceSpan {
                file,
                start: SourcePosition::new(line, column),
                end: SourcePosition::new(line, column.saturating_add(1)),
            });
            let key = "line".to_owned();
            proof {
                k0 = key;
            }
            attributes.insert(key, AttributeValue::Integer(line as i64));
        }
        if let Some(character) = self.character {
            let key = "character".to_owned();
            proof {
                k1 = key;
            }
            attributes.insert(key, AttributeValue::Integer(character as i64));
        }
        if let Some(value) = self.compile_only {
            let key = "compileOnly".to_owned();
            proof {
                k2 = key;
            }
            attributes.insert(key, AttributeValue::Bool(value));
        }
        if let Some(value) = self.type_only {
            let key = "typeOnly".to_owned();
            proof {
                k3 = key;
            }
            attributes.insert(key, AttributeValue::Bool(value));
        }
        if let Some(specifier) = self.specifier {
            let key = "specifier".to_owned();
            proof {
                k4 = key;
            }
            attributes.insert(key, AttributeValue::String(specifier));
        }
        if let Some(usage) = self.usage {
            let key = "usage".to_owned();
            proof {
                k5 = key;
            }
            attributes.insert(key, AttributeValue::String(usage));
        }
        proof {
            reveal_strlit("line");
            reveal_strlit("character");
            reveal_strlit("compileOnly");
            reveal_strlit("typeOnly");
            reveal_strlit("specifier");
            reveal_strlit("usage");
            let keys = seq![k0, k1, k2, k3, k4, k5];
            assert(link_keys(link, keys));
            if string_order_lawful() {
                assert(link_attributes(link, keys) == attributes@);
            }
        }
        let source = match NodeId::new(self.source.as_str()) {
            Ok(id) => id,
            Err(e) => return Err(e),
        };
        let target = match NodeId::new(self.target.as_str()) {
            Ok(id) => id,
            Err(e) => return Err(e),
        };
        Ok(Edge { source, target, kind, provenance, attributes })
    }
}

} // verus!

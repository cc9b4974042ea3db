//! Edge filters by kind, evidence, extractor and minimum confidence.
use crate::kind::{EdgeKind, EvidenceKind};
use crate::model::{confidence_rank, Confidence, Edge};
use crate::text::text_is;
use vstd::prelude::*;

verus! {

/// Some listed kind equals `kind`.
pub open spec fn has_kind(kinds: Seq<EdgeKind>, kind: EdgeKind) -> bool {
    exists|i: int| 0 <= i < kinds.len() && (#[trigger] kinds[i]).same(&kind)
}

/// Some listed evidence kind equals `evidence`.
pub open spec fn has_evidence(list: Seq<EvidenceKind>, evidence: EvidenceKind) -> bool {
    exists|i: int| 0 <= i < list.len() && (#[trigger] list[i]).same(&evidence)
}

/// Some listed text equals `text`.
pub open spec fn has_text(list: Seq<Seq<char>>, text: Seq<char>) -> bool {
    exists|i: int| 0 <= i < list.len() && #[trigger] list[i] == text
}

/// The list with `x` added at the end unless it is already there.
pub open spec fn added<T>(list: Seq<T>, x: T, present: bool) -> Seq<T> {
    if present {
        list
    } else {
        list.push(x)
    }
}

/// `c` is `minimum` or surer, in the order Exact, High, Medium, Low from
/// surest to least sure.
pub open spec fn at_least_as_sure(c: Confidence, minimum: Confidence) -> bool {
    match minimum {
        Confidence::Low => true,
        Confidence::Medium => c == Confidence::Medium || c == Confidence::High || c == Confidence::Exact,
        Confidence::High => c == Confidence::High || c == Confidence::Exact,
        Confidence::Exact => c == Confidence::Exact,
    }
}

/// A minimum confidence keeps exactly the edges that are that sure or
/// surer: an accepted edge is at least as sure as the minimum, and a filter
/// that asks nothing else accepts every such edge (an `Exact` edge passes
/// every minimum, a `Low` one only the minimum `Low`).
pub proof fn lemma_minimum_confidence(filter: EdgeFilter, edge: Edge, minimum: Confidence)
    requires
        filter.minimum() == Some(minimum),
    ensures
        filter.accepts(&edge) ==> at_least_as_sure(edge.provenance.confidence, minimum),
        filter.kinds().len() == 0 && filter.evidence_kinds().len() == 0 && filter.extractors().len() == 0
            ==> (filter.accepts(&edge) <==> at_least_as_sure(edge.provenance.confidence, minimum)),
{
}

/// Adding a kind twice adds it once: the list after the second addition
/// is the list after the first.
pub proof fn lemma_with_kind_idempotent(kinds: Seq<EdgeKind>, kind: EdgeKind)
    ensures
        ({
            let once = added(kinds, kind, has_kind(kinds, kind));
            added(once, kind, has_kind(once, kind)) == once
        }),
{
    let once = added(kinds, kind, has_kind(kinds, kind));
    if !has_kind(kinds, kind) {
        assert(once[kinds.len() as int] == kind);
        assert(once[kinds.len() as int].same(&kind));
        assert(has_kind(once, kind));
    }
}

/// Selects edges by kind, evidence kind, extractor and minimum confidence;
/// an empty list accepts every value of its field.
#[derive(Debug, Clone, PartialEq, Eq, Default)]
pub struct EdgeFilter {
    kinds: Vec<EdgeKind>,
    evidence: Vec<EvidenceKind>,
    extractors: Vec<String>,
    minimum_confidence: Option<Confidence>,
}

impl EdgeFilter {
    /// The accepted edge kinds, in the order they were added.
    pub closed spec fn kinds(&self) -> Seq<EdgeKind> {
        self.kinds@
    }

    /// The accepted evidence kinds, in the order they were added.
    pub closed spec fn evidence_kinds(&self) -> Seq<EvidenceKind> {
        self.evidence@
    }

    /// The accepted extractors, in the order they were added.
    pub closed spec fn extractors(&self) -> Seq<Seq<char>> {
        self.extractors@.map_values(|s: String| s@)
    }

    /// The lowest accepted confidence, if any.
    pub closed spec fn minimum(&self) -> Option<Confidence> {
        self.minimum_confidence
    }

    /// Whether the filter accepts `edge`.
    pub open spec fn accepts(&self, edge: &Edge) -> bool {
        &&& (self.kinds().len() == 0 || has_kind(self.kinds(), edge.kind))
        &&& (self.evidence_kinds().len() == 0 || has_evidence(self.evidence_kinds(), edge.provenance.evidence))
        &&& (self.extractors().len() == 0 || has_text(self.extractors(), edge.provenance.extractor@))
        &&& match self.minimum() {
            None => true,
            Some(minimum) => confidence_rank(edge.provenance.confidence) >= confidence_rank(minimum),
        }
    }

    /// The filter that accepts every edge.
    pub fn new() -> (r: Self)
        ensures
            r.kinds().len() == 0,
            r.evidence_kinds().len() == 0,
            r.extractors().len() == 0,
            r.minimum() is None,
    {
        EdgeFilter { kinds: Vec::new(), evidence: Vec::new(), extractors: Vec::new(), minimum_confidence: None }
    }

    /// Also accepts edges of `kind`.
    pub fn with_kind(self, kind: EdgeKind) -> (r: Self)
        ensures
            r.kinds() == added(self.kinds(), kind, has_kind(self.kinds(), kind)),
            r.evidence_kinds() == self.evidence_kinds(),
            r.extractors() == self.extractors(),
            r.minimum() == self.minimum(),
    {
        let mut filter = self;
        let mut present = false;
        let mut i: usize = 0;
        while i < filter.kinds.len()
            invariant
                i <= filter.kinds@.len(),
                present <==> exists|j: int| 0 <= j < i && (#[trigger] filter.kinds@[j]).same(&kind),
            decreases filter.kinds@.len() - i,
        {
            if filter.kinds[i] == kind {
                present = true;
            }
            i = i + 1;
        }
        if !present {
            filter.kinds.push(kind);
        }
        filter
    }

    /// Also accepts edges with evidence of kind `evidence`.
    pub fn with_evidence(self, evidence: EvidenceKind) -> (r: Self)
        ensures
            r.evidence_kinds() == added(self.evidence_kinds(), evidence, has_evidence(self.evidence_kinds(), evidence)),
            r.kinds() == self.kinds(),
            r.extractors() == self.extractors(),
            r.minimum() == self.minimum(),
    {
        let mut filter = self;
        let mut present = false;
        let mut i: usize = 0;
        while i < filter.evidence.len()
            invariant
                i <= filter.evidence@.len(),
                present <==> exists|j: int| 0 <= j < i && (#[trigger] filter.evidence@[j]).same(&evidence),
            decreases filter.evidence@.len() - i,
        {
            if filter.evidence[i] == evidence {
                present = true;
            }
            i = i + 1;
        }
        if !present {
            filter.evidence.push(evidence);
        }
        filter
    }

    /// Also accepts edges asserted by `extractor`.
    pub fn with_extractor(self, extractor: &str) -> (r: Self)
        ensures
            r.extractors() == added(self.extractors(), extractor@, has_text(self.extractors(), extractor@)),
            r.kinds() == self.kinds(),
            r.evidence_kinds() == self.evidence_kinds(),
            r.minimum() == self.minimum(),
    {
        let mut filter = self;
        let ghost texts = filter.extractors@.map_values(|s: String| s@);
        let mut present = false;
        let mut i: usize = 0;
        while i < filter.extractors.len()
            invariant
                i <= filter.extractors@.len(),
                texts == filter.extractors@.map_values(|s: String| s@),
                present <==> exists|j: int| 0 <= j < i && #[trigger] texts[j] == extractor@,
            decreases filter.extractors@.len() - i,
        {
            proof {
                assert(texts[i as int] == filter.extractors@[i as int]@);
            }
            if text_is(filter.extractors[i].as_str(), extractor) {
                present = true;
            }
            i = i + 1;
        }
        if !present {
            filter.extractors.push(extractor.to_owned());
            proof {
                assert(filter.extractors@.map_values(|s: String| s@) =~= texts.push(extractor@));
            }
        }
        filter
    }

    /// Accepts only edges at least as sure as `confidence`.
    pub fn with_minimum_confidence(self, confidence: Confidence) -> (r: Self)
        ensures
            r.minimum() == Some(confidence),
            r.kinds() == self.kinds(),
            r.evidence_kinds() == self.evidence_kinds(),
            r.extractors() == self.extractors(),
    {
        EdgeFilter { minimum_confidence: Some(confidence), ..self }
    }

    /// Whether the filter accepts `edge`.
    pub fn matches(&self, edge: &Edge) -> (r: bool)
        ensures
            r == self.accepts(edge),
    {
        let mut kind_ok = self.kinds.len() == 0;
        let mut i: usize = 0;
        while i < self.kinds.len()
            invariant
                i <= self.kinds@.len(),
                kind_ok <==> (self.kinds@.len() == 0 || exists|j: int| 0 <= j < i && (#[trigger] self.kinds@[j]).same(&edge.kind)),
            decreases self.kinds@.len() - i,
        {
            if self.kinds[i] == edge.kind {
                kind_ok = true;
            }
            i = i + 1;
        }
        let mut evidence_ok = self.evidence.len() == 0;
        let mut i: usize = 0;
        while i < self.evidence.len()
            invariant
                i <= self.evidence@.len(),
                evidence_ok <==> (self.evidence@.len() == 0 || exists|j: int| 0 <= j < i
                    && (#[trigger] self.evidence@[j]).same(&edge.provenance.evidence)),
            decreases self.evidence@.len() - i,
        {
            if self.evidence[i] == edge.provenance.evidence {
                evidence_ok = true;
            }
            i = i + 1;
        }
        let ghost texts = self.extractors@.map_values(|s: String| s@);
        let mut extractor_ok = self.extractors.len() == 0;
        let mut i: usize = 0;
        while i < self.extractors.len()
            invariant
                i <= self.extractors@.len(),
                texts == self.extractors@.map_values(|s: String| s@),
                extractor_ok <==> (self.extractors@.len() == 0 || exists|j: int| 0 <= j < i
                    && #[trigger] texts[j] == edge.provenance.extractor@),
            decreases self.extractors@.len() - i,
        {
            proof {
                assert(texts[i as int] == self.extractors@[i as int]@);
            }
            if text_is(self.extractors[i].as_str(), edge.provenance.extractor.as_str()) {
                extractor_ok = true;
            }
            i = i + 1;
        }
        let confidence_ok = match self.minimum_confidence {
            None => true,
            Some(minimum) => rank(edge.provenance.confidence) >= rank(minimum),
        };
        kind_ok && evidence_ok && extractor_ok && confidence_ok
    }
}

fn rank(confidence: Confidence) -> (r: u8)
    ensures
        r == confidence_rank(confidence),
{
    match confidence {
        Confidence::Exact => 4,
        Confidence::High => 3,
        Confidence::Medium => 2,
        Confidence::Low => 1,
    }
}

} // verus!

//! How two pieces of evidence relate.
use vstd::prelude::*;

verus! {

#[derive(Debug, Clone, Copy, PartialEq, Eq, Structural)]
pub enum RelationKind {
    Supports,
    Contradicts,
    DerivedFrom,
    ObservedIn,
    RelatedTo,
}

/// How evidence `from` relates to evidence `to`, how confidently (in
/// thousandths), observed when.
#[derive(Debug, Clone, PartialEq, Eq)]
pub struct EvidenceEdge {
    pub from: String,
    pub to: String,
    pub relation: RelationKind,
    pub confidence: u32,
    pub observed_at_unix: u64,
}

pub struct EdgeView {
    pub from: Seq<char>,
    pub to: Seq<char>,
    pub relation: RelationKind,
    pub confidence: u32,
    pub observed_at_unix: u64,
}

impl View for EvidenceEdge {
    type V = EdgeView;

    open spec fn view(&self) -> EdgeView {
        EdgeView {
            from: self.from@,
            to: self.to@,
            relation: self.relation,
            confidence: self.confidence,
            observed_at_unix: self.observed_at_unix,
        }
    }
}

/// A copy of an edge.
pub fn copy_edge(e: &EvidenceEdge) -> (r: EvidenceEdge)
    ensures
        r@ == e@,
{
    EvidenceEdge {
        from: e.from.clone(),
        to: e.to.clone(),
        relation: e.relation,
        confidence: e.confidence,
        observed_at_unix: e.observed_at_unix,
    }
}

} // verus!

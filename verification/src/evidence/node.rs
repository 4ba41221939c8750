//! What a piece of evidence observed.
use vstd::prelude::*;

use crate::evidence::provenance::Provenance;
use crate::json::JsonValue;

verus! {

#[derive(Debug, Clone, PartialEq, Eq, Hash)]
pub enum EvidenceKind {
    GitDelta { file: String, status: String },
    Symbol { language: String, kind: String, name: String },
    Migration { table: String, operation: String },
    ApiSurface { method: String, path: String },
    Workflow { name: String },
    Entity { name: String },
    TestResult { name: String, status: String },
    RuntimeEvent { event: String },
    DbSignal { signal: String },
    SystemDiffFinding { finding: String },
    ScanBaseline { summary: String },
    LlmInferredTarget { summary: String },
    GapRecommendation { recommendation: String },
}

impl EvidenceKind {
    /// The name of the kind: its variant name in lowercase.
    pub open spec fn name_of(self) -> Seq<char> {
        match self {
            EvidenceKind::GitDelta { .. } => "gitdelta"@,
            EvidenceKind::Symbol { .. } => "symbol"@,
            EvidenceKind::Migration { .. } => "migration"@,
            EvidenceKind::ApiSurface { .. } => "apisurface"@,
            EvidenceKind::Workflow { .. } => "workflow"@,
            EvidenceKind::Entity { .. } => "entity"@,
            EvidenceKind::TestResult { .. } => "testresult"@,
            EvidenceKind::RuntimeEvent { .. } => "runtimeevent"@,
            EvidenceKind::DbSignal { .. } => "dbsignal"@,
            EvidenceKind::SystemDiffFinding { .. } => "systemdifffinding"@,
            EvidenceKind::ScanBaseline { .. } => "scanbaseline"@,
            EvidenceKind::LlmInferredTarget { .. } => "llminferredtarget"@,
            EvidenceKind::GapRecommendation { .. } => "gaprecommendation"@,
        }
    }

    pub fn kind_name(&self) -> (r: &'static str)
        ensures
            r@ == self.name_of(),
    {
        match self {
            EvidenceKind::GitDelta { .. } => "gitdelta",
            EvidenceKind::Symbol { .. } => "symbol",
            EvidenceKind::Migration { .. } => "migration",
            EvidenceKind::ApiSurface { .. } => "apisurface",
            EvidenceKind::Workflow { .. } => "workflow",
            EvidenceKind::Entity { .. } => "entity",
            EvidenceKind::TestResult { .. } => "testresult",
            EvidenceKind::RuntimeEvent { .. } => "runtimeevent",
            EvidenceKind::DbSignal { .. } => "dbsignal",
            EvidenceKind::SystemDiffFinding { .. } => "systemdifffinding",
            EvidenceKind::ScanBaseline { .. } => "scanbaseline",
            EvidenceKind::LlmInferredTarget { .. } => "llminferredtarget",
            EvidenceKind::GapRecommendation { .. } => "gaprecommendation",
        }
    }
}

/// One piece of evidence: what was observed, when, how confidently (in
/// thousandths), by whom and where, for which subsystem, with its
/// attributes.
#[derive(Debug)]
pub struct EvidenceNode {
    pub id: String,
    pub kind: EvidenceKind,
    pub observed_at_unix: u64,
    pub confidence: u32,
    pub provenance: Provenance,
    pub subsystem: Option<String>,
    pub attributes: JsonValue,
}

} // verus!

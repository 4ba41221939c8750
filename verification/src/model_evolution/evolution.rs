//! The decisions of evolving a model from one version to the next: settling
//! the conflicts of a delta by the configured strategy, and making the next
//! version and recording it in the lineage. Loading and saving versions,
//! deltas and lineages is left to the caller.
use vstd::prelude::*;

use crate::evidence::provenance::{Provenance, SourceKind};
use crate::model_evolution::conflict::{confidence_choice, Conflict, Resolution, ResolutionStrategy};
use crate::model_evolution::delta::{has_unresolved, ModelDelta};
use crate::model_evolution::lineage::{appended_by, started_with, ModelLineage};
use crate::model_evolution::model::ModelShape;
use crate::model_evolution::version::{
    hex_digits, EvidenceSnapshotId, ModelId, ModelVersion, VersionId,
};
use crate::text::dec_seq;

verus! {

/// How a model evolves: the strategy for conflicts, whether a delta may
/// keep unresolved conflicts, and the least confidence (in thousandths)
/// accepted.
#[derive(Debug, Clone, PartialEq, Eq)]
pub struct EvolutionConfig {
    pub resolution_strategy: ResolutionStrategy,
    pub allow_unresolved_conflicts: bool,
    pub min_confidence_threshold: u32,
}

impl Default for EvolutionConfig {
    /// Resolution by confidence, no unresolved conflicts allowed, and a
    /// threshold of 500 thousandths.
    fn default() -> (r: Self)
        ensures
            r.resolution_strategy is ConfidenceWeighted,
            !r.allow_unresolved_conflicts,
            r.min_confidence_threshold == 500,
    {
        EvolutionConfig {
            resolution_strategy: ResolutionStrategy::ConfidenceWeighted,
            allow_unresolved_conflicts: false,
            min_confidence_threshold: 500,
        }
    }
}

/// Why a model could not evolve.
#[derive(Debug, Clone, PartialEq, Eq)]
pub enum EvolveError {
    /// Conflicts stayed unresolved; `count` is the number of conflicts of
    /// the delta.
    UnresolvedConflicts { count: usize },
}

impl EvolveError {
    /// The error's message.
    pub fn message(&self) -> (r: String)
        ensures
            r@ == match self {
                EvolveError::UnresolvedConflicts { count } => "Cannot evolve: "@ + dec_seq(
                    *count as nat,
                ) + " unresolved conflicts"@,
            },
    {
        match self {
            EvolveError::UnresolvedConflicts { count } => crate::text::cat3(
                "Cannot evolve: ",
                crate::text::dec_string(*count as u64).as_str(),
                " unresolved conflicts",
            ),
        }
    }
}

/// The resolution of `c` after the strategy tried it (see
/// `ResolutionStrategy::resolve`).
pub open spec fn resolution_after(s: ResolutionStrategy, c: Conflict) -> Option<Resolution> {
    match s {
        ResolutionStrategy::ConfidenceWeighted | ResolutionStrategy::HighestProvenance => {
            match confidence_choice(c.conflicting_changes@.len(), c.confidences@) {
                Some(k) => Some(Resolution::AutomaticConfidenceWeighted { chosen: k }),
                None => c.resolution,
            }
        },
        _ => Some(Resolution::Unresolved),
    }
}

/// The conflict after the strategy tried to resolve it.
pub open spec fn settled(s: ResolutionStrategy) -> spec_fn(Conflict) -> Conflict {
    |c: Conflict| Conflict { resolution: resolution_after(s, c), ..c }
}

/// Tries to resolve each conflict of the delta with the configured
/// strategy; fails, naming the number of conflicts, when some stay
/// unresolved and that is not allowed.
pub fn settle_conflicts(config: &EvolutionConfig, delta: &mut ModelDelta) -> (r: Result<(), EvolveError>)
    ensures
        final(delta).conflicts@ == old(delta).conflicts@.map_values(settled(config.resolution_strategy)),
        final(delta).id == old(delta).id,
        final(delta).from == old(delta).from,
        final(delta).changes == old(delta).changes,
        final(delta).evidence_refs == old(delta).evidence_refs,
        final(delta).confidence == old(delta).confidence,
        r == if has_unresolved(final(delta).conflicts@) && !config.allow_unresolved_conflicts {
            Err::<(), EvolveError>(EvolveError::UnresolvedConflicts { count: old(delta).conflicts@.len() as usize })
        } else {
            Ok(())
        },
{
    let ghost start = delta.conflicts@;
    let ghost f = settled(config.resolution_strategy);
    let n = delta.conflicts.len();
    let mut i: usize = 0;
    while i < n
        invariant
            i <= n,
            n == start.len(),
            delta.conflicts@.len() == n,
            f == settled(config.resolution_strategy),
            forall|j: int| 0 <= j < i ==> #[trigger] delta.conflicts@[j] == f(start[j]),
            forall|j: int| i <= j < n ==> #[trigger] delta.conflicts@[j] == start[j],
            delta.id == old(delta).id,
            delta.from == old(delta).from,
            delta.changes == old(delta).changes,
            delta.evidence_refs == old(delta).evidence_refs,
            delta.confidence == old(delta).confidence,
            start == old(delta).conflicts@,
        decreases n - i,
    {
        let ghost before = delta.conflicts@;
        let mut c = delta.conflicts.remove(i);
        config.resolution_strategy.resolve(&mut c);
        assert(c == f(start[i as int]));
        delta.conflicts.insert(i, c);
        assert forall|j: int| 0 <= j < n implies #[trigger] delta.conflicts@[j] == if j <= i {
            f(start[j])
        } else {
            start[j]
        } by {
            if j < i {
                assert(delta.conflicts@[j] == before[j]);
            } else if j > i {
                assert(delta.conflicts@[j] == before[j]);
            }
        }
        i += 1;
    }
    assert(delta.conflicts@ =~= start.map_values(f));
    if delta.has_conflicts() && !config.allow_unresolved_conflicts {
        return Err(EvolveError::UnresolvedConflicts { count: n });
    }
    Ok(())
}

/// Makes the version that follows `current` with `new_model`, produced by
/// `delta` from the evidence observed through `observed_through_unix`, and
/// appends it to the lineage; its id is drawn from `random`.
pub fn next_version(
    lineage: &mut ModelLineage,
    current: &ModelVersion,
    new_model: ModelShape,
    delta: &ModelDelta,
    observed_through_unix: u64,
    random: u64,
) -> (r: ModelVersion)
    ensures
        r.id.0@ == "ver-"@ + hex_digits(random as nat, 16),
        r.model_id == old(lineage).model_id,
        r.parent == Some(current.id),
        r.model == new_model,
        r.evidence_snapshot_id.0@ == "evidence-"@ + dec_seq(observed_through_unix as nat),
        r.confidence == delta.confidence,
        r.provenance.source == SourceKind::Entity,
        r.provenance.location@ == "model-evolution"@,
        r.provenance.observer@ == "EvolutionEngine"@,
        appended_by(*old(lineage), *final(lineage), r.id, delta.id),
{
    let version = ModelVersion::new(
        ModelId(lineage.model_id.0.clone()),
        Some(VersionId(current.id.0.clone())),
        new_model,
        EvidenceSnapshotId::from_unix_timestamp(observed_through_unix),
        delta.confidence,
        Provenance::new(SourceKind::Entity, "model-evolution", "EvolutionEngine"),
        random,
    );
    lineage.append(&version.id, &delta.id);
    version
}


/// A new lineage for `model`: its root version, made from the evidence
/// observed through `observed_through_unix`, with the default confidence
/// (800 thousandths), under a fresh model id drawn from `model_random` and
/// a fresh version id drawn from `version_random`.
pub fn initialize(model: ModelShape, observed_through_unix: u64, model_random: u64, version_random: u64) -> (r: (
    ModelLineage,
    ModelVersion,
))
    ensures
        r.1.model_id.0@ == "model-"@ + hex_digits(model_random as nat, 16),
        r.1.id.0@ == "ver-"@ + hex_digits(version_random as nat, 16),
        r.1.parent is None,
        r.1.model == model,
        r.1.evidence_snapshot_id.0@ == "evidence-"@ + dec_seq(observed_through_unix as nat),
        r.1.confidence == 800,
        r.1.provenance.source == SourceKind::Entity,
        r.1.provenance.location@ == "model-evolution"@,
        r.1.provenance.observer@ == "EvolutionEngine"@,
        started_with(r.0, r.1.model_id, r.1.id),
{
    let model_id = ModelId::generate(model_random);
    let root = ModelVersion::root(
        ModelId(model_id.0.clone()),
        model,
        EvidenceSnapshotId::from_unix_timestamp(observed_through_unix),
        800,
        Provenance::new(SourceKind::Entity, "model-evolution", "EvolutionEngine"),
        version_random,
    );
    let lineage = ModelLineage::new(model_id, &root.id);
    (lineage, root)
}

} // verus!

//! The kinds of conflict model evolution can meet, and the strategies for
//! resolving them.
use vstd::prelude::*;

use crate::model_evolution::delta::ChangeKind;
use crate::text::{cat, cat3, join, join_seq, strs};

verus! {

#[derive(Debug, Clone, PartialEq, Eq)]
pub enum ConflictKind {
    /// Two high-confidence evidences imply incompatible entity shapes.
    IncompatibleEntityShape { entity: String, description: String },
    /// Ambiguity between rename and delete+create.
    RenameAmbiguity { possible_rename_from: String, possible_rename_to: String },
    /// Entity ownership violation across subsystem boundaries.
    OwnershipViolation { entity: String, claimed_by: Vec<String> },
    /// Capability duplication across subsystem boundaries.
    CapabilityDuplication { capability: String, subsystems: Vec<String> },
    /// Contradicting evidence about an entity.
    ContradictingEvidence { entity: String, evidence_ids: Vec<String> },
    /// Field type mismatch between evidence sources.
    FieldTypeMismatch { entity: String, field: String, types: Vec<String> },
    /// Relationship direction mismatch.
    RelationshipMismatch { from_entity: String, to_entity: String, description: String },
}

pub open spec fn quoted(s: Seq<char>) -> Seq<char> {
    "'"@ + s + "'"@
}

pub open spec fn comma_list(v: Seq<String>) -> Seq<char> {
    join_seq(strs(v), ", "@)
}

impl ConflictKind {
    /// The sentence that describes a conflict.
    pub open spec fn describe(self) -> Seq<char> {
        match self {
            ConflictKind::IncompatibleEntityShape { entity, description } => "Incompatible shape for entity "@
                + quoted(entity@) + ": "@ + description@,
            ConflictKind::RenameAmbiguity { possible_rename_from, possible_rename_to } =>
                "Ambiguous: "@ + quoted(possible_rename_from@) + " might be renamed to "@ + quoted(
                possible_rename_to@,
            ) + " or deleted and recreated"@,
            ConflictKind::OwnershipViolation { entity, claimed_by } => "Entity "@ + quoted(entity@)
                + " is claimed by multiple subsystems: "@ + comma_list(claimed_by@),
            ConflictKind::CapabilityDuplication { capability, subsystems } => "Capability "@
                + quoted(capability@) + " is duplicated across subsystems: "@ + comma_list(
                subsystems@,
            ),
            ConflictKind::ContradictingEvidence { entity, evidence_ids } =>
                "Contradicting evidence for entity "@ + quoted(entity@) + " from: "@ + comma_list(
                evidence_ids@,
            ),
            ConflictKind::FieldTypeMismatch { entity, field, types } => "Field "@ + quoted(field@)
                + " in entity "@ + quoted(entity@) + " has conflicting types: "@ + comma_list(
                types@,
            ),
            ConflictKind::RelationshipMismatch { from_entity, to_entity, description } =>
                "Relationship between "@ + quoted(from_entity@) + " and "@ + quoted(to_entity@)
                + " has conflicts: "@ + description@,
        }
    }

    /// A human-readable description of the conflict (see `describe`).
    pub fn description(&self) -> (r: String)
        ensures
            r@ == self.describe(),
    {
        let r = match self {
            ConflictKind::IncompatibleEntityShape { entity, description } => {
                let q = cat3("'", entity.as_str(), "'");
                cat3("Incompatible shape for entity ", q.as_str(), cat(": ", description.as_str()).as_str())
            },
            ConflictKind::RenameAmbiguity { possible_rename_from, possible_rename_to } => {
                let a = cat3("'", possible_rename_from.as_str(), "'");
                let b = cat3("'", possible_rename_to.as_str(), "'");
                cat(
                    cat3("Ambiguous: ", a.as_str(), " might be renamed to ").as_str(),
                    cat(b.as_str(), " or deleted and recreated").as_str(),
                )
            },
            ConflictKind::OwnershipViolation { entity, claimed_by } => {
                let q = cat3("'", entity.as_str(), "'");
                cat3(
                    "Entity ",
                    q.as_str(),
                    cat(" is claimed by multiple subsystems: ", join(claimed_by, ", ").as_str()).as_str(),
                )
            },
            ConflictKind::CapabilityDuplication { capability, subsystems } => {
                let q = cat3("'", capability.as_str(), "'");
                cat3(
                    "Capability ",
                    q.as_str(),
                    cat(" is duplicated across subsystems: ", join(subsystems, ", ").as_str()).as_str(),
                )
            },
            ConflictKind::ContradictingEvidence { entity, evidence_ids } => {
                let q = cat3("'", entity.as_str(), "'");
                cat3(
                    "Contradicting evidence for entity ",
                    q.as_str(),
                    cat(" from: ", join(evidence_ids, ", ").as_str()).as_str(),
                )
            },
            ConflictKind::FieldTypeMismatch { entity, field, types } => {
                let f = cat3("'", field.as_str(), "'");
                let e = cat3("'", entity.as_str(), "'");
                cat(
                    cat3("Field ", f.as_str(), " in entity ").as_str(),
                    cat3(e.as_str(), " has conflicting types: ", join(types, ", ").as_str()).as_str(),
                )
            },
            ConflictKind::RelationshipMismatch { from_entity, to_entity, description } => {
                let a = cat3("'", from_entity.as_str(), "'");
                let b = cat3("'", to_entity.as_str(), "'");
                cat(
                    cat3("Relationship between ", a.as_str(), " and ").as_str(),
                    cat3(b.as_str(), " has conflicts: ", description.as_str()).as_str(),
                )
            },
        };
        assert(r@ =~= self.describe());
        r
    }
}

/// How conflicts are resolved.
#[derive(Debug, Clone, PartialEq, Eq)]
pub enum ResolutionStrategy {
    /// Automatically merge using confidence weighting.
    ConfidenceWeighted,
    /// Choose the change with the highest provenance.
    HighestProvenance,
    /// Mark conflicts as unresolved and require explicit resolution.
    RequireExplicit,
    /// Use a policy hook for resolution decisions.
    Policy { policy_name: String },
}

impl Default for ResolutionStrategy {
    fn default() -> (r: Self)
        ensures
            r is ConfidenceWeighted,
    {
        ResolutionStrategy::ConfidenceWeighted
    }
}

/// How a conflict was resolved.
#[derive(Debug, Clone, PartialEq, Eq)]
pub enum Resolution {
    /// Resolved by confidence: the position of the chosen change among the
    /// conflicting changes.
    AutomaticConfidenceWeighted { chosen: usize },
    /// Resolved by choosing the highest provenance.
    HighestProvenance { chosen_source: String },
    /// Marked as needing manual intervention.
    Unresolved,
    /// Resolved by a user.
    ManualResolution { chosen_change: ChangeKind, resolved_by: String },
    /// Resolved by a policy hook.
    PolicyResolution { policy_name: String, chosen_change: ChangeKind },
}

/// A conflict met during model evolution: the changes in conflict, the
/// evidence behind them, the confidence of each (in thousandths), and how
/// it was resolved, if it was.
#[derive(Debug, Clone, PartialEq, Eq)]
pub struct Conflict {
    pub kind: ConflictKind,
    pub conflicting_changes: Vec<ChangeKind>,
    pub evidence_ids: Vec<String>,
    pub confidences: Vec<u32>,
    pub resolution: Option<Resolution>,
}

/// Whether a resolution settles the conflict (every resolution but
/// `Unresolved`).
pub open spec fn is_resolved_spec(r: Option<Resolution>) -> bool {
    match r {
        Some(Resolution::Unresolved) => false,
        Some(_) => true,
        None => false,
    }
}

/// The position of the last greatest confidence (`Iterator::max_by`
/// returns the last of equal maxima).
pub open spec fn last_max(s: Seq<u32>) -> int
    decreases s.len(),
{
    if s.len() <= 1 {
        0
    } else {
        let k = last_max(s.drop_last());
        if s.last() >= s[k] {
            s.len() - 1
        } else {
            k
        }
    }
}

proof fn lemma_last_max_range(s: Seq<u32>)
    requires
        s.len() > 0,
    ensures
        0 <= last_max(s) < s.len(),
    decreases s.len(),
{
    if s.len() > 1 {
        lemma_last_max_range(s.drop_last());
    }
}

/// The change that resolution by confidence picks: the position of the last
/// greatest confidence, where there are changes and confidences and that
/// position holds a change.
pub open spec fn confidence_choice(changes: nat, confidences: Seq<u32>) -> Option<usize> {
    if changes == 0 || confidences.len() == 0 {
        None
    } else if last_max(confidences) < changes {
        Some(last_max(confidences) as usize)
    } else {
        None
    }
}

impl Conflict {
    /// A conflict not yet resolved.
    pub fn new(
        kind: ConflictKind,
        conflicting_changes: Vec<ChangeKind>,
        evidence_ids: Vec<String>,
        confidences: Vec<u32>,
    ) -> (r: Self)
        ensures
            r.kind == kind,
            r.conflicting_changes == conflicting_changes,
            r.evidence_ids == evidence_ids,
            r.confidences == confidences,
            r.resolution is None,
    {
        Conflict { kind, conflicting_changes, evidence_ids, confidences, resolution: None }
    }

    /// Whether the conflict has been resolved.
    pub fn is_resolved(&self) -> (r: bool)
        ensures
            r == is_resolved_spec(self.resolution),
    {
        match &self.resolution {
            Some(Resolution::Unresolved) => false,
            Some(_) => true,
            None => false,
        }
    }

    /// Resolves the conflict by confidence (see `confidence_choice`): the
    /// chosen position becomes the resolution and is returned; with no
    /// choice nothing changes.
    pub fn resolve_by_confidence(&mut self) -> (r: Option<usize>)
        ensures
            r == confidence_choice(old(self).conflicting_changes@.len(), old(self).confidences@),
            final(self).kind == old(self).kind,
            final(self).conflicting_changes == old(self).conflicting_changes,
            final(self).evidence_ids == old(self).evidence_ids,
            final(self).confidences == old(self).confidences,
            final(self).resolution == match r {
                Some(k) => Some(Resolution::AutomaticConfidenceWeighted { chosen: k }),
                None => old(self).resolution,
            },
    {
        if self.conflicting_changes.len() == 0 || self.confidences.len() == 0 {
            return None;
        }
        let n = self.confidences.len();
        let mut best: usize = 0;
        let mut i: usize = 1;
        while i < n
            invariant
                n == self.confidences@.len(),
                n > 0,
                1 <= i <= n,
                best == last_max(self.confidences@.subrange(0, i as int)),
            decreases n - i,
        {
            proof {
                let s = self.confidences@.subrange(0, i + 1);
                assert(s.drop_last() =~= self.confidences@.subrange(0, i as int));
                lemma_last_max_range(self.confidences@.subrange(0, i as int));
                assert(s[best as int] == self.confidences@[best as int]);
            }
            if self.confidences[i] >= self.confidences[best] {
                best = i;
            }
            i += 1;
        }
        assert(self.confidences@.subrange(0, n as int) =~= self.confidences@);
        if best < self.conflicting_changes.len() {
            self.resolution = Some(Resolution::AutomaticConfidenceWeighted { chosen: best });
            Some(best)
        } else {
            None
        }
    }

    /// Marks the conflict as needing manual resolution.
    pub fn mark_unresolved(&mut self)
        ensures
            final(self).kind == old(self).kind,
            final(self).conflicting_changes == old(self).conflicting_changes,
            final(self).evidence_ids == old(self).evidence_ids,
            final(self).confidences == old(self).confidences,
            final(self).resolution == Some(Resolution::Unresolved),
    {
        self.resolution = Some(Resolution::Unresolved);
    }
}

impl ResolutionStrategy {
    /// Tries to resolve a conflict: by confidence for the confidence and
    /// provenance strategies (true when a change was chosen); the other
    /// strategies mark it unresolved and answer false.
    pub fn resolve(&self, conflict: &mut Conflict) -> (r: bool)
        ensures
            final(conflict).kind == old(conflict).kind,
            final(conflict).conflicting_changes == old(conflict).conflicting_changes,
            final(conflict).evidence_ids == old(conflict).evidence_ids,
            final(conflict).confidences == old(conflict).confidences,
            ({
                let choice = confidence_choice(
                    old(conflict).conflicting_changes@.len(),
                    old(conflict).confidences@,
                );
                match self {
                    ResolutionStrategy::ConfidenceWeighted | ResolutionStrategy::HighestProvenance => {
                        &&& r == choice is Some
                        &&& final(conflict).resolution == match choice {
                            Some(k) => Some(Resolution::AutomaticConfidenceWeighted { chosen: k }),
                            None => old(conflict).resolution,
                        }
                    },
                    _ => !r && final(conflict).resolution == Some(Resolution::Unresolved),
                }
            }),
    {
        match self {
            ResolutionStrategy::ConfidenceWeighted => conflict.resolve_by_confidence().is_some(),
            ResolutionStrategy::HighestProvenance => conflict.resolve_by_confidence().is_some(),
            ResolutionStrategy::RequireExplicit => {
                conflict.mark_unresolved();
                false
            },
            ResolutionStrategy::Policy { .. } => {
                conflict.mark_unresolved();
                false
            },
        }
    }
}

} // verus!

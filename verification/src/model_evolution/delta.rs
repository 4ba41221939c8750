//! Model deltas: the semantic changes between two versions of a model,
//! how each is described, and the change sets that carry them.
use vstd::prelude::*;

use crate::application_model::{ApiEndpoint, FieldShape, PermissionPolicy, Workflow};
use crate::model_evolution::conflict::{is_resolved_spec, Conflict};
use crate::model_evolution::model::{EntityModel, RelationshipShape};
use crate::model_evolution::version::{hex16, hex_digits, VersionId};
use crate::text::{cat, cat3, dec_seq, dec_string, join, join_seq, owned, strs};

verus! {

/// The identifier of a delta.
#[derive(Debug, Clone, PartialEq, Eq, Hash)]
pub struct DeltaId(pub String);

impl DeltaId {
    pub fn new(id: &str) -> (r: Self)
        ensures
            r.0@ == id@,
    {
        DeltaId(owned(id))
    }

    /// A fresh identifier from a random number: `delta-` and its sixteen
    /// hexadecimal digits.
    pub fn generate(random: u64) -> (r: Self)
        ensures
            r.0@ == "delta-"@ + hex_digits(random as nat, 16),
    {
        DeltaId(cat("delta-", hex16(random).as_str()))
    }

    /// The identifier as text.
    pub fn to_string(&self) -> (r: String)
        ensures
            r@ == self.0@,
    {
        self.0.clone()
    }
}

/// A change of one field: its value before and after.
#[derive(Debug, Clone, PartialEq, Eq)]
pub struct FieldPatch {
    pub field_name: String,
    pub old_value: Option<FieldShape>,
    pub new_value: Option<FieldShape>,
}

/// The changes to one entity; a confidence change as (before, after), in
/// thousandths.
#[derive(Debug, Clone, PartialEq, Eq)]
pub struct EntityPatch {
    pub fields_added: Vec<FieldShape>,
    pub fields_removed: Vec<String>,
    pub fields_changed: Vec<FieldPatch>,
    pub relationships_added: Vec<RelationshipShape>,
    pub relationships_removed: Vec<String>,
    pub confidence_changed: Option<(u32, u32)>,
}

impl Default for EntityPatch {
    fn default() -> (r: Self)
        ensures
            r.fields_added@.len() == 0,
            r.fields_removed@.len() == 0,
            r.fields_changed@.len() == 0,
            r.relationships_added@.len() == 0,
            r.relationships_removed@.len() == 0,
            r.confidence_changed is None,
    {
        EntityPatch {
            fields_added: Vec::new(),
            fields_removed: Vec::new(),
            fields_changed: Vec::new(),
            relationships_added: Vec::new(),
            relationships_removed: Vec::new(),
            confidence_changed: None,
        }
    }
}

pub open spec fn patch_empty(p: EntityPatch) -> bool {
    &&& p.fields_added@.len() == 0
    &&& p.fields_removed@.len() == 0
    &&& p.fields_changed@.len() == 0
    &&& p.relationships_added@.len() == 0
    &&& p.relationships_removed@.len() == 0
    &&& p.confidence_changed is None
}

impl EntityPatch {
    /// Whether the patch changes nothing.
    pub fn is_empty(&self) -> (r: bool)
        ensures
            r == patch_empty(*self),
    {
        self.fields_added.len() == 0 && self.fields_removed.len() == 0 && self.fields_changed.len()
            == 0 && self.relationships_added.len() == 0 && self.relationships_removed.len() == 0
            && self.confidence_changed.is_none()
    }
}

/// One semantic change of a model.
#[derive(Debug, Clone, PartialEq, Eq)]
pub enum ChangeKind {
    EntityAdded { entity: EntityModel },
    EntityRemoved { name: String },
    EntityUpdated { name: String, changes: EntityPatch },
    EntityRenamed { from: String, to: String, reason: String },
    RelationshipAdded { entity: String, relationship: RelationshipShape },
    RelationshipRemoved { entity: String, relationship_name: String },
    WorkflowAdded { workflow: Workflow },
    WorkflowRemoved { entity: String },
    WorkflowChanged { entity: String, old_states: Vec<String>, new_states: Vec<String> },
    ApiSurfaceAdded { endpoint: ApiEndpoint },
    ApiSurfaceRemoved { method: String, path: String },
    ApiSurfaceChanged { method: String, path: String, old: ApiEndpoint, new: ApiEndpoint },
    PermissionAdded { permission: PermissionPolicy },
    PermissionRemoved { entity: String },
    PermissionChanged { entity: String, old: PermissionPolicy, new: PermissionPolicy },
    ApplicationInfoChanged { old_name: String, new_name: String },
}

pub open spec fn q(s: Seq<char>) -> Seq<char> {
    "'"@ + s + "'"@
}

/// The counts of an entity update, as phrases: fields added, removed,
/// changed, each where there are any.
pub open spec fn update_parts(p: EntityPatch) -> Seq<Seq<char>> {
    let a = if p.fields_added@.len() > 0 {
        seq![dec_seq(p.fields_added@.len()) + " fields added"@]
    } else {
        Seq::empty()
    };
    let r = if p.fields_removed@.len() > 0 {
        seq![dec_seq(p.fields_removed@.len()) + " fields removed"@]
    } else {
        Seq::empty()
    };
    let c = if p.fields_changed@.len() > 0 {
        seq![dec_seq(p.fields_changed@.len()) + " fields changed"@]
    } else {
        Seq::empty()
    };
    a + r + c
}

/// How an entity update is described: its name, and the counts of its
/// field changes where there are any.
pub open spec fn describe_update(name: Seq<char>, p: EntityPatch) -> Seq<char> {
    let parts = update_parts(p);
    if parts.len() == 0 {
        "Updated entity "@ + q(name)
    } else {
        "Updated entity "@ + q(name) + ": "@ + join_seq(parts, ", "@)
    }
}

/// The sentence that describes a change.
pub open spec fn describe_change(c: ChangeKind) -> Seq<char> {
    match c {
        ChangeKind::EntityAdded { entity } => "Added entity "@ + q(entity.name@),
        ChangeKind::EntityRemoved { name } => "Removed entity "@ + q(name@),
        ChangeKind::EntityUpdated { name, changes } => describe_update(name@, changes),
        ChangeKind::EntityRenamed { from, to, reason } => "Renamed entity "@ + q(from@) + " to "@
            + q(to@) + " ("@ + reason@ + ")"@,
        ChangeKind::RelationshipAdded { entity, relationship } => "Added relationship "@ + q(
            relationship.name@,
        ) + " to entity "@ + q(entity@),
        ChangeKind::RelationshipRemoved { entity, relationship_name } => "Removed relationship "@
            + q(relationship_name@) + " from entity "@ + q(entity@),
        ChangeKind::WorkflowAdded { workflow } => "Added workflow for entity "@ + q(
            workflow.entity@,
        ),
        ChangeKind::WorkflowRemoved { entity } => "Removed workflow for entity "@ + q(entity@),
        ChangeKind::WorkflowChanged { entity, .. } => "Changed workflow for entity "@ + q(entity@),
        ChangeKind::ApiSurfaceAdded { endpoint } => "Added API endpoint "@ + endpoint.method@
            + " "@ + endpoint.path@,
        ChangeKind::ApiSurfaceRemoved { method, path } => "Removed API endpoint "@ + method@ + " "@
            + path@,
        ChangeKind::ApiSurfaceChanged { method, path, .. } => "Changed API endpoint "@ + method@
            + " "@ + path@,
        ChangeKind::PermissionAdded { permission } => "Added permission policy for entity "@ + q(
            permission.entity@,
        ),
        ChangeKind::PermissionRemoved { entity } => "Removed permission policy for entity "@ + q(
            entity@,
        ),
        ChangeKind::PermissionChanged { entity, .. } => "Changed permission policy for entity "@
            + q(entity@),
        ChangeKind::ApplicationInfoChanged { old_name, new_name } =>
            "Changed application name from "@ + q(old_name@) + " to "@ + q(new_name@),
    }
}

fn quote(s: &str) -> (r: String)
    ensures
        r@ == q(s@),
{
    cat3("'", s, "'")
}

fn update_description(name: &str, p: &EntityPatch) -> (r: String)
    ensures
        r@ == describe_update(name@, *p),
{
    let mut parts: Vec<String> = Vec::new();
    if p.fields_added.len() > 0 {
        let n = dec_string(p.fields_added.len() as u64);
        parts.push(cat(n.as_str(), " fields added"));
    }
    if p.fields_removed.len() > 0 {
        let n = dec_string(p.fields_removed.len() as u64);
        parts.push(cat(n.as_str(), " fields removed"));
    }
    if p.fields_changed.len() > 0 {
        let n = dec_string(p.fields_changed.len() as u64);
        parts.push(cat(n.as_str(), " fields changed"));
    }
    assert(strs(parts@) =~= update_parts(*p));
    let head = cat("Updated entity ", quote(name).as_str());
    if parts.len() == 0 {
        head
    } else {
        let joined = join(&parts, ", ");
        cat3(head.as_str(), ": ", joined.as_str())
    }
}

impl ChangeKind {
    /// The sentence that describes the change (see `describe_change`).
    pub fn description(&self) -> (r: String)
        ensures
            r@ == describe_change(*self),
    {
        match self {
            ChangeKind::EntityAdded { entity } => cat("Added entity ", quote(entity.name.as_str()).as_str()),
            ChangeKind::EntityRemoved { name } => cat("Removed entity ", quote(name.as_str()).as_str()),
            ChangeKind::EntityUpdated { name, changes } => update_description(name.as_str(), changes),
            ChangeKind::EntityRenamed { from, to, reason } => {
                let a = cat3("Renamed entity ", quote(from.as_str()).as_str(), " to ");
                let b = cat3(quote(to.as_str()).as_str(), " (", reason.as_str());
                cat3(a.as_str(), b.as_str(), ")")
            },
            ChangeKind::RelationshipAdded { entity, relationship } => {
                let a = cat("Added relationship ", quote(relationship.name.as_str()).as_str());
                cat3(a.as_str(), " to entity ", quote(entity.as_str()).as_str())
            },
            ChangeKind::RelationshipRemoved { entity, relationship_name } => {
                let a = cat("Removed relationship ", quote(relationship_name.as_str()).as_str());
                cat3(a.as_str(), " from entity ", quote(entity.as_str()).as_str())
            },
            ChangeKind::WorkflowAdded { workflow } => cat(
                "Added workflow for entity ",
                quote(workflow.entity.as_str()).as_str(),
            ),
            ChangeKind::WorkflowRemoved { entity } => cat(
                "Removed workflow for entity ",
                quote(entity.as_str()).as_str(),
            ),
            ChangeKind::WorkflowChanged { entity, .. } => cat(
                "Changed workflow for entity ",
                quote(entity.as_str()).as_str(),
            ),
            ChangeKind::ApiSurfaceAdded { endpoint } => {
                let a = cat3("Added API endpoint ", endpoint.method.as_str(), " ");
                cat(a.as_str(), endpoint.path.as_str())
            },
            ChangeKind::ApiSurfaceRemoved { method, path } => {
                let a = cat3("Removed API endpoint ", method.as_str(), " ");
                cat(a.as_str(), path.as_str())
            },
            ChangeKind::ApiSurfaceChanged { method, path, .. } => {
                let a = cat3("Changed API endpoint ", method.as_str(), " ");
                cat(a.as_str(), path.as_str())
            },
            ChangeKind::PermissionAdded { permission } => cat(
                "Added permission policy for entity ",
                quote(permission.entity.as_str()).as_str(),
            ),
            ChangeKind::PermissionRemoved { entity } => cat(
                "Removed permission policy for entity ",
                quote(entity.as_str()).as_str(),
            ),
            ChangeKind::PermissionChanged { entity, .. } => cat(
                "Changed permission policy for entity ",
                quote(entity.as_str()).as_str(),
            ),
            ChangeKind::ApplicationInfoChanged { old_name, new_name } => {
                let a = cat("Changed application name from ", quote(old_name.as_str()).as_str());
                cat3(a.as_str(), " to ", quote(new_name.as_str()).as_str())
            },
        }
    }
}

/// A change set from one version: its changes, the evidence behind them,
/// its confidence (in thousandths), and the conflicts met while making it.
#[derive(Debug, Clone, PartialEq, Eq)]
pub struct ModelDelta {
    pub id: DeltaId,
    pub from: VersionId,
    pub changes: Vec<ChangeKind>,
    pub evidence_refs: Vec<String>,
    pub confidence: u32,
    pub conflicts: Vec<Conflict>,
}

/// Whether some conflict is still unresolved.
pub open spec fn has_unresolved(conflicts: Seq<Conflict>) -> bool {
    exists|i: int| 0 <= i < conflicts.len() && !is_resolved_spec(#[trigger] conflicts[i].resolution)
}

impl ModelDelta {
    /// A delta without conflicts, identified by a fresh id drawn from
    /// `random` (see `DeltaId::generate`).
    pub fn new(
        from: VersionId,
        changes: Vec<ChangeKind>,
        evidence_refs: Vec<String>,
        confidence: u32,
        random: u64,
    ) -> (r: Self)
        ensures
            r.id.0@ == "delta-"@ + hex_digits(random as nat, 16),
            r.from == from,
            r.changes == changes,
            r.evidence_refs == evidence_refs,
            r.confidence == confidence,
            r.conflicts@.len() == 0,
    {
        ModelDelta {
            id: DeltaId::generate(random),
            from,
            changes,
            evidence_refs,
            confidence,
            conflicts: Vec::new(),
        }
    }

    /// A delta with no changes and the default confidence (800 thousandths).
    pub fn empty(from: VersionId, random: u64) -> (r: Self)
        ensures
            r.id.0@ == "delta-"@ + hex_digits(random as nat, 16),
            r.from == from,
            r.changes@.len() == 0,
            r.evidence_refs@.len() == 0,
            r.confidence == 800,
            r.conflicts@.len() == 0,
    {
        ModelDelta::new(from, Vec::new(), Vec::new(), 800, random)
    }

    /// Whether the delta has no changes.
    pub fn is_empty(&self) -> (r: bool)
        ensures
            r == (self.changes@.len() == 0),
    {
        self.changes.len() == 0
    }

    /// The number of changes.
    pub fn len(&self) -> (r: usize)
        ensures
            r == self.changes@.len(),
    {
        self.changes.len()
    }

    /// Whether some conflict is unresolved.
    pub fn has_conflicts(&self) -> (r: bool)
        ensures
            r == has_unresolved(self.conflicts@),
    {
        let mut i: usize = 0;
        while i < self.conflicts.len()
            invariant
                i <= self.conflicts@.len(),
                forall|j: int| 0 <= j < i ==> is_resolved_spec(#[trigger] self.conflicts@[j].resolution),
            decreases self.conflicts@.len() - i,
        {
            if !self.conflicts[i].is_resolved() {
                assert(!is_resolved_spec(self.conflicts@[i as int].resolution));
                return true;
            }
            i += 1;
        }
        false
    }

    /// Records a conflict.
    pub fn add_conflict(&mut self, conflict: Conflict)
        ensures
            final(self).conflicts@ == old(self).conflicts@.push(conflict),
            final(self).id == old(self).id,
            final(self).from == old(self).from,
            final(self).changes == old(self).changes,
            final(self).evidence_refs == old(self).evidence_refs,
            final(self).confidence == old(self).confidence,
    {
        self.conflicts.push(conflict);
    }
}

} // verus!

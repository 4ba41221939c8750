//! The model that evolves from version to version: an application's entities
//! (with their fields, relationships and constraints), workflows, endpoints
//! and permissions. Confidence scores are kept in thousandths.
use vstd::prelude::*;

use crate::application_model::{
    ApiEndpoint, ApplicationInfo, Constraint, FieldShape, GenerationMetadata, PermissionPolicy,
    RelationshipType, Workflow, WorkflowTransition,
};

verus! {

/// A relationship of an entity to another; `confidence` in thousandths.
#[derive(Debug, Clone, PartialEq, Eq)]
pub struct RelationshipShape {
    pub name: String,
    pub target: String,
    pub relationship_type: RelationshipType,
    pub confidence: u32,
}

/// An entity of the model; `confidence` in thousandths.
#[derive(Debug, Clone, PartialEq, Eq)]
pub struct EntityModel {
    pub name: String,
    pub confidence: u32,
    pub fields: Vec<FieldShape>,
    pub relationships: Vec<RelationshipShape>,
    pub constraints: Vec<Constraint>,
}

/// An application model.
#[derive(Debug, Clone, PartialEq, Eq)]
pub struct ModelShape {
    pub application: ApplicationInfo,
    pub entities: Vec<EntityModel>,
    pub workflows: Vec<Workflow>,
    pub api: Vec<ApiEndpoint>,
    pub permissions: Vec<PermissionPolicy>,
    pub metadata: GenerationMetadata,
}

/// A constraint with its fields as a sequence.
pub struct ConstraintView {
    pub name: String,
    pub constraint_type: String,
    pub fields: Seq<String>,
    pub expression: Option<String>,
}

pub open spec fn constraint_view(c: Constraint) -> ConstraintView {
    ConstraintView {
        name: c.name,
        constraint_type: c.constraint_type,
        fields: c.fields@,
        expression: c.expression,
    }
}

pub open spec fn constraint_views(s: Seq<Constraint>) -> Seq<ConstraintView> {
    s.map_values(|c: Constraint| constraint_view(c))
}

/// An entity with its lists as sequences.
pub struct EntityView {
    pub name: String,
    pub confidence: u32,
    pub fields: Seq<FieldShape>,
    pub relationships: Seq<RelationshipShape>,
    pub constraints: Seq<ConstraintView>,
}

/// A workflow with its lists as sequences.
pub struct WorkflowView {
    pub entity: String,
    pub states: Seq<String>,
    pub transitions: Seq<WorkflowTransition>,
}

/// A model with its lists as sequences.
pub struct ModelView {
    pub application: ApplicationInfo,
    pub entities: Seq<EntityView>,
    pub workflows: Seq<WorkflowView>,
    pub api: Seq<ApiEndpoint>,
    pub permissions: Seq<PermissionPolicy>,
    pub metadata: GenerationMetadata,
}

pub open spec fn entity_view(e: EntityModel) -> EntityView {
    EntityView {
        name: e.name,
        confidence: e.confidence,
        fields: e.fields@,
        relationships: e.relationships@,
        constraints: constraint_views(e.constraints@),
    }
}

pub open spec fn entity_views(s: Seq<EntityModel>) -> Seq<EntityView> {
    s.map_values(|e: EntityModel| entity_view(e))
}

pub open spec fn workflow_view(w: Workflow) -> WorkflowView {
    WorkflowView { entity: w.entity, states: w.states@, transitions: w.transitions@ }
}

pub open spec fn workflow_views(s: Seq<Workflow>) -> Seq<WorkflowView> {
    s.map_values(|w: Workflow| workflow_view(w))
}

pub open spec fn model_view(m: ModelShape) -> ModelView {
    ModelView {
        application: m.application,
        entities: entity_views(m.entities@),
        workflows: workflow_views(m.workflows@),
        api: m.api@,
        permissions: m.permissions@,
        metadata: m.metadata,
    }
}

} // verus!

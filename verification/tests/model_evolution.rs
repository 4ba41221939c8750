use treehouse::application_model::{EntityShape, FieldShape};
use treehouse::application_model::{
    ApiEndpoint, ApplicationInfo, CrudOperation, GenerationMetadata, PermissionPolicy, Workflow,
};
use treehouse::model_evolution::surface_diff::{compute_delta, diff_models};
use treehouse::model_evolution::renames::{detect_renames, semantic_diff};
use treehouse::model_evolution::conflict::{Conflict, ConflictKind, Resolution, ResolutionStrategy};
use treehouse::model_evolution::delta::{ChangeKind, EntityPatch, ModelDelta};
use treehouse::model_evolution::engine::apply_changes;
use treehouse::model_evolution::evolution::{
    initialize, next_version, settle_conflicts, EvolutionConfig, EvolveError,
};
use treehouse::model_evolution::model::{EntityModel, ModelShape};
use treehouse::model_evolution::semantic_diff::{diff_entities, diff_entity};
use treehouse::model_evolution::delta::DeltaId;
use treehouse::model_evolution::identity::{
    signature_overlap, signatures_match, EntityIdentity, IdentityMatcher, MatchResult,
};
use treehouse::model_evolution::lineage::{LineageError, ModelLineage};
use treehouse::model_evolution::store::FileModelLineageStore;
use treehouse::evidence::provenance::{Provenance, SourceKind};
use treehouse::model_evolution::version::{EvidenceSnapshotId, ModelId, ModelVersion, VersionId};

fn make_entity(name: &str, fields: &[(&str, &str)]) -> EntityShape {
    EntityShape {
        name: name.to_string(),
        fields: fields
            .iter()
            .map(|(field, ty)| FieldShape {
                name: field.to_string(),
                field_type: ty.to_string(),
                required: true,
                primary: false,
                unique: false,
            })
            .collect(),
    }
}

#[test]
fn conflict_kind_descriptions() {
    let kind = ConflictKind::OwnershipViolation {
        entity: "Order".to_string(),
        claimed_by: vec!["Billing".to_string(), "Sales".to_string()],
    };
    assert!(kind.description().contains("Order"));
    assert!(kind.description().contains("Billing"));
}

#[test]
fn conflict_descriptions_are_exact() {
    let kind = ConflictKind::FieldTypeMismatch {
        entity: "User".to_string(),
        field: "age".to_string(),
        types: vec!["int".to_string(), "string".to_string()],
    };
    assert_eq!(kind.description(), "Field 'age' in entity 'User' has conflicting types: int, string");
    let kind = ConflictKind::RenameAmbiguity {
        possible_rename_from: "Customer".to_string(),
        possible_rename_to: "Client".to_string(),
    };
    assert_eq!(
        kind.description(),
        "Ambiguous: 'Customer' might be renamed to 'Client' or deleted and recreated"
    );
    assert_eq!(ResolutionStrategy::default(), ResolutionStrategy::ConfidenceWeighted);
}

#[test]
fn detects_empty_lineage() {
    let lineage = ModelLineage {
        model_id: ModelId::generate(7),
        head: VersionId::new("test"),
        entries: vec![],
        created_at: 0,
        updated_at: 0,
    };
    assert_eq!(lineage.validate(), Err(LineageError::EmptyLineage));
}

#[test]
fn model_id_display() {
    let id = ModelId::new("my-model");
    assert_eq!(id.to_string(), "my-model");
}

#[test]
fn version_id_display() {
    let id = VersionId::new("ver-123");
    assert_eq!(id.to_string(), "ver-123");
}

#[test]
fn generated_ids_are_sixteen_hex_digits() {
    assert_eq!(ModelId::generate(255).to_string(), "model-00000000000000ff");
    assert_eq!(VersionId::generate(u64::MAX).to_string(), "ver-ffffffffffffffff");
    assert_eq!(DeltaId::generate(0x1234).to_string(), "delta-0000000000001234");
    assert_eq!(EvidenceSnapshotId::from_unix_timestamp(100).to_string(), "evidence-100");
    assert_eq!(DeltaId::new("d-1").to_string(), "d-1");
}

#[test]
fn creates_lineage() {
    let model_id = ModelId::generate(1);
    let root = VersionId::generate(2);
    let lineage = ModelLineage::new(model_id.clone(), &root);

    assert_eq!(lineage.model_id, model_id);
    assert_eq!(lineage.head, root);
    assert_eq!(lineage.len(), 1);
    assert!(!lineage.is_empty());
    assert!(lineage.validate().is_ok());
}

#[test]
fn appends_version() {
    let root = VersionId::new("v1");
    let mut lineage = ModelLineage::new(ModelId::new("m"), &root);
    let v2 = VersionId::new("v2");
    lineage.append(&v2, &DeltaId::new("d1"));

    assert_eq!(lineage.len(), 2);
    assert_eq!(lineage.head, v2);
    assert!(lineage.validate().is_ok());
}

#[test]
fn finds_parent() {
    let root = VersionId::new("v1");
    let mut lineage = ModelLineage::new(ModelId::new("m"), &root);
    let v2 = VersionId::new("v2");
    lineage.append(&v2, &DeltaId::new("d1"));

    assert_eq!(lineage.parent_of(&root), None);
    assert_eq!(lineage.parent_of(&v2), Some(&root));
    assert_eq!(lineage.root(), Some(&root));
}

#[test]
fn versions_between() {
    let v1 = VersionId::new("v1");
    let mut lineage = ModelLineage::new(ModelId::new("m"), &v1);
    let v2 = VersionId::new("v2");
    let v3 = VersionId::new("v3");
    lineage.append(&v2, &DeltaId::new("d1"));
    lineage.append(&v3, &DeltaId::new("d2"));

    let between = lineage.versions_between(&v1, &v3);
    assert_eq!(between.len(), 2);
    assert_eq!(between[0], v2);
    assert_eq!(between[1], v3);
    assert!(lineage.versions_between(&v3, &v1).is_empty());
    assert_eq!(lineage.version_ids(), vec![v1, v2, v3]);
}

#[test]
fn validates_lineage() {
    let lineage = ModelLineage::new(ModelId::new("m"), &VersionId::new("v"));
    assert!(lineage.validate().is_ok());
}

#[test]
fn validation_reports_first_defect() {
    let mut lineage = ModelLineage::new(ModelId::new("m"), &VersionId::new("v1"));
    lineage.append(&VersionId::new("v2"), &DeltaId::new("d"));
    lineage.entries[1].delta_id = None;
    let err = lineage.validate().unwrap_err();
    assert_eq!(err, LineageError::MissingDelta { version_id: VersionId::new("v2") });
    assert_eq!(err.message(), "version v2 is missing a delta");

    let mut lineage = ModelLineage::new(ModelId::new("m"), &VersionId::new("v1"));
    lineage.head = VersionId::new("other");
    let err = lineage.validate().unwrap_err();
    assert_eq!(err.message(), "head mismatch: expected v1, got other");

    let mut lineage = ModelLineage::new(ModelId::new("m"), &VersionId::new("v1"));
    lineage.entries[0].delta_id = Some(DeltaId::new("d"));
    assert_eq!(lineage.validate(), Err(LineageError::InvalidRoot));
}

#[test]
fn entity_identity_from_entity() {
    let entity = make_entity("User", &[("id", "uuid"), ("email", "string")]);
    let identity = EntityIdentity::from_entity(&entity);

    assert_eq!(identity.canonical_name, "User");
    assert!(!identity.structural_signature.is_empty());
    assert_eq!(identity.structural_signature, "email:string|id:uuid");
}

#[test]
fn entity_identity_matches_name() {
    let mut identity = EntityIdentity::from_entity(&make_entity("User", &[]));
    identity.add_alias("Account");

    assert!(identity.matches_name("User"));
    assert!(identity.matches_name("user"));
    assert!(identity.matches_name("Account"));
    assert!(!identity.matches_name("Order"));
}

#[test]
fn aliases_are_added_once() {
    let mut identity = EntityIdentity::from_entity(&make_entity("User", &[]));
    identity.add_alias("Account");
    identity.add_alias("Account");
    identity.add_alias("User");
    assert_eq!(identity.aliases, vec!["Account".to_string()]);
}

#[test]
fn identity_matcher_records_rename() {
    let mut matcher = IdentityMatcher::new();
    matcher.register(EntityIdentity::from_entity(&make_entity("Customer", &[])));
    matcher.record_rename("Customer", "Client");

    assert_eq!(matcher.canonical_name("Customer"), "Client");
    assert_eq!(matcher.canonical_name("Client"), "Client");
}

#[test]
fn unknown_names_are_their_own_canonical_name() {
    let matcher = IdentityMatcher::default();
    assert_eq!(matcher.canonical_name("Invoice"), "Invoice");
}

#[test]
fn lineage_store_keeps_its_base_path() {
    let store = FileModelLineageStore::new(".treehouse/model");
    assert_eq!(store.base_path(), ".treehouse/model");
}

fn model_entity(name: &str, fields: &[(&str, &str)]) -> EntityModel {
    EntityModel {
        name: name.to_string(),
        confidence: 900,
        fields: make_entity(name, fields).fields,
        relationships: vec![],
        constraints: vec![],
    }
}

fn test_model() -> ModelShape {
    ModelShape {
        application: ApplicationInfo { name: "Test".to_string(), version: "1.0".to_string() },
        entities: vec![],
        workflows: vec![],
        api: vec![],
        permissions: vec![],
        metadata: GenerationMetadata {
            generated_by: "test".to_string(),
            generated_at_unix: 0,
            source_count: 0,
        },
    }
}

#[test]
fn creates_unresolved_conflict() {
    let conflict = Conflict::new(
        ConflictKind::IncompatibleEntityShape {
            entity: "User".to_string(),
            description: "Different field sets".to_string(),
        },
        vec![],
        vec!["ev-1".to_string(), "ev-2".to_string()],
        vec![],
    );
    assert!(!conflict.is_resolved());
}

#[test]
fn resolves_by_confidence() {
    let change1 = ChangeKind::EntityAdded { entity: model_entity("User", &[]) };
    let change2 = ChangeKind::EntityAdded { entity: model_entity("Account", &[]) };
    let mut conflict = Conflict::new(
        ConflictKind::RenameAmbiguity {
            possible_rename_from: "User".to_string(),
            possible_rename_to: "Account".to_string(),
        },
        vec![change1, change2],
        vec!["ev-1".to_string(), "ev-2".to_string()],
        vec![800, 950],
    );
    let result = conflict.resolve_by_confidence();
    assert!(result.is_some());
    assert!(conflict.is_resolved());
}

#[test]
fn confidence_resolution_picks_the_last_of_equal_maxima() {
    let changes = vec![
        ChangeKind::EntityRemoved { name: "A".to_string() },
        ChangeKind::EntityRemoved { name: "B".to_string() },
        ChangeKind::EntityRemoved { name: "C".to_string() },
    ];
    let mut conflict = Conflict::new(
        ConflictKind::ContradictingEvidence { entity: "A".to_string(), evidence_ids: vec![] },
        changes,
        vec![],
        vec![900, 400, 900],
    );
    assert_eq!(conflict.resolve_by_confidence(), Some(2));
    assert!(matches!(conflict.resolution, Some(Resolution::AutomaticConfidenceWeighted { chosen: 2 })));
}

#[test]
fn confidence_resolution_without_confidences_changes_nothing() {
    let mut conflict = Conflict::new(
        ConflictKind::ContradictingEvidence { entity: "A".to_string(), evidence_ids: vec![] },
        vec![ChangeKind::EntityRemoved { name: "A".to_string() }],
        vec![],
        vec![],
    );
    assert_eq!(conflict.resolve_by_confidence(), None);
    assert!(conflict.resolution.is_none());
    assert!(ResolutionStrategy::ConfidenceWeighted.resolve(&mut conflict) == false);
}

#[test]
fn resolution_strategy_require_explicit() {
    let mut conflict = Conflict::new(
        ConflictKind::CapabilityDuplication {
            capability: "payment".to_string(),
            subsystems: vec!["A".to_string(), "B".to_string()],
        },
        vec![],
        vec![],
        vec![],
    );
    let strategy = ResolutionStrategy::RequireExplicit;
    let resolved = strategy.resolve(&mut conflict);
    assert!(!resolved);
    assert!(matches!(conflict.resolution, Some(Resolution::Unresolved)));
}

#[test]
fn creates_delta() {
    let from = VersionId::new("ver-1");
    let delta = ModelDelta::new(
        from.clone(),
        vec![ChangeKind::EntityAdded { entity: model_entity("User", &[]) }],
        vec!["ev-123".to_string()],
        900,
        7,
    );
    assert_eq!(delta.from, from);
    assert_eq!(delta.len(), 1);
    assert!(!delta.is_empty());
    assert_eq!(delta.id.0, "delta-0000000000000007");
}

#[test]
fn empty_delta() {
    let delta = ModelDelta::empty(VersionId::new("ver-1"), 1);
    assert!(delta.is_empty());
    assert_eq!(delta.len(), 0);
    assert_eq!(delta.confidence, 800);
}

#[test]
fn delta_conflicts_are_reported_until_resolved() {
    let mut delta = ModelDelta::empty(VersionId::new("ver-1"), 1);
    assert!(!delta.has_conflicts());
    let mut conflict = Conflict::new(
        ConflictKind::RenameAmbiguity {
            possible_rename_from: "User".to_string(),
            possible_rename_to: "Account".to_string(),
        },
        vec![ChangeKind::EntityRemoved { name: "User".to_string() }],
        vec![],
        vec![500],
    );
    delta.add_conflict(conflict.clone());
    assert!(delta.has_conflicts());
    conflict.resolve_by_confidence();
    let mut resolved = ModelDelta::empty(VersionId::new("ver-1"), 1);
    resolved.add_conflict(conflict);
    assert!(!resolved.has_conflicts());
}

#[test]
fn change_descriptions() {
    let entity = model_entity("Order", &[]);
    assert!(ChangeKind::EntityAdded { entity: entity.clone() }
        .description()
        .contains("Added entity 'Order'"));
    assert!(ChangeKind::EntityRemoved { name: "Order".to_string() }
        .description()
        .contains("Removed entity 'Order'"));
    assert!(ChangeKind::EntityRenamed {
        from: "Customer".to_string(),
        to: "Client".to_string(),
        reason: "naming convention".to_string(),
    }
    .description()
    .contains("Renamed entity 'Customer' to 'Client'"));
}

#[test]
fn change_descriptions_are_exact() {
    assert_eq!(
        ChangeKind::EntityAdded { entity: model_entity("Order", &[]) }.description(),
        "Added entity 'Order'"
    );
    assert_eq!(
        ChangeKind::EntityRenamed {
            from: "Customer".to_string(),
            to: "Client".to_string(),
            reason: "naming convention".to_string(),
        }
        .description(),
        "Renamed entity 'Customer' to 'Client' (naming convention)"
    );
}

#[test]
fn entity_patch_empty() {
    let patch = EntityPatch::default();
    assert!(patch.is_empty());
}

#[test]
fn entity_patch_with_changes() {
    let mut patch = EntityPatch::default();
    patch.fields_added = make_entity("User", &[("email", "string")]).fields;
    assert!(!patch.is_empty());
}

#[test]
fn detects_entity_added() {
    let from = test_model();
    let mut to = test_model();
    to.entities.push(model_entity("User", &[("id", "uuid")]));
    let changes = semantic_diff(&from, &to, 800);
    assert_eq!(changes.len(), 1);
    assert!(matches!(&changes[0], ChangeKind::EntityAdded { entity } if entity.name == "User"));
}

#[test]
fn detects_entity_removed() {
    let mut from = test_model();
    from.entities.push(model_entity("User", &[("id", "uuid")]));
    let to = test_model();
    let changes = semantic_diff(&from, &to, 800);
    assert_eq!(changes.len(), 1);
    assert!(matches!(&changes[0], ChangeKind::EntityRemoved { name } if name == "User"));
}

#[test]
fn detects_entity_renamed() {
    let mut from = test_model();
    from.entities.push(model_entity("Customer", &[("id", "uuid"), ("email", "string"), ("name", "string")]));
    let mut to = test_model();
    to.entities.push(model_entity("Client", &[("id", "uuid"), ("email", "string"), ("name", "string")]));
    let changes = semantic_diff(&from, &to, 700);
    assert_eq!(changes.len(), 1);
    assert!(matches!(
        &changes[0],
        ChangeKind::EntityRenamed { from, to, .. } if from == "Customer" && to == "Client"
    ));
}

#[test]
fn detects_field_added() {
    let mut from = test_model();
    from.entities.push(model_entity("User", &[("id", "uuid")]));
    let mut to = test_model();
    to.entities.push(model_entity("User", &[("id", "uuid"), ("email", "string")]));
    let changes = semantic_diff(&from, &to, 800);
    assert_eq!(changes.len(), 1);
    match &changes[0] {
        ChangeKind::EntityUpdated { name, changes } => {
            assert_eq!(name, "User");
            assert_eq!(changes.fields_added.len(), 1);
            assert_eq!(changes.fields_added[0].name, "email");
        },
        _ => panic!("Expected EntityUpdated"),
    }
}

#[test]
fn unchanged_entity_has_no_patch() {
    let a = model_entity("User", &[("id", "uuid")]);
    let b = model_entity("user", &[("id", "uuid")]);
    assert!(diff_entity(&a, &b).is_none());
    let mut c = model_entity("User", &[("id", "uuid")]);
    c.confidence = 950;
    let patch = diff_entity(&a, &c).unwrap();
    assert_eq!(patch.confidence_changed, Some((900, 950)));
}

#[test]
fn applies_changes_by_entity_name() {
    let mut model = test_model();
    model.entities.push(model_entity("Order", &[]));
    let changes = vec![
        ChangeKind::EntityAdded { entity: model_entity("User", &[]) },
        ChangeKind::EntityRemoved { name: "Order".to_string() },
    ];
    let result = apply_changes(model, changes);
    assert!(result.entities.iter().any(|e| e.name == "User"));
    assert!(!result.entities.iter().any(|e| e.name == "Order"));
}

#[test]
fn applying_a_rename_keeps_the_entity_body() {
    let mut model = test_model();
    model.entities.push(model_entity("Customer", &[("id", "uuid")]));
    let changes = vec![ChangeKind::EntityRenamed {
        from: "Customer".to_string(),
        to: "Client".to_string(),
        reason: "naming convention".to_string(),
    }];
    let result = apply_changes(model, changes);
    assert_eq!(result.entities.len(), 1);
    assert_eq!(result.entities[0].name, "Client");
    assert_eq!(result.entities[0].fields[0].name, "id");
}

#[test]
fn signatures_alike_when_most_parts_are_shared() {
    assert!(signatures_match("email:string|id:uuid", "email:string|id:uuid"));
    assert!(signatures_match("", ""));
    assert!(!signatures_match("", "id:uuid"));
    // two of three parts shared is not more than four fifths
    assert!(!signatures_match("email:string|id:uuid|name:string", "email:string|id:uuid"));
    // five of six parts shared is
    assert!(signatures_match("a:x|b:x|c:x|d:x|e:x|f:x", "a:x|b:x|c:x|d:x|e:x"));
}

#[test]
fn finds_identity_by_name_alias_or_structure() {
    let mut matcher = IdentityMatcher::new();
    let user = make_entity("User", &[("id", "uuid"), ("email", "string")]);
    assert!(matcher.find_identity(&user).is_none());
    let mut identity = EntityIdentity::from_entity(&user);
    identity.add_alias("Account");
    matcher.register(identity);

    let by_name = make_entity("USER", &[]);
    assert_eq!(matcher.find_identity(&by_name).unwrap().canonical_name, "User");
    let by_alias = make_entity("account", &[]);
    assert_eq!(matcher.find_identity(&by_alias).unwrap().canonical_name, "User");
    let by_structure = make_entity("Member", &[("email", "string"), ("id", "uuid")]);
    assert_eq!(matcher.find_identity(&by_structure).unwrap().canonical_name, "User");
    let unrelated = make_entity("Invoice", &[("total", "money")]);
    assert!(matcher.find_identity(&unrelated).is_none());
}

#[test]
fn detects_workflow_changes() {
    let mut from = test_model();
    from.workflows.push(Workflow {
        entity: "Order".to_string(),
        states: vec!["pending".to_string(), "completed".to_string()],
        transitions: vec![],
    });
    let mut to = test_model();
    to.workflows.push(Workflow {
        entity: "Order".to_string(),
        states: vec!["pending".to_string(), "processing".to_string(), "completed".to_string()],
        transitions: vec![],
    });
    let changes = diff_models(&from, &to, &vec![]);
    assert_eq!(changes.len(), 1);
    assert!(matches!(
        &changes[0],
        ChangeKind::WorkflowChanged { entity, .. } if entity == "Order"
    ));
}

#[test]
fn detects_api_changes() {
    let mut from = test_model();
    from.api.push(ApiEndpoint {
        method: "GET".to_string(),
        path: "/users".to_string(),
        operation: CrudOperation::List,
        entity: "User".to_string(),
    });
    let mut to = test_model();
    to.api.push(ApiEndpoint {
        method: "GET".to_string(),
        path: "/customers".to_string(),
        operation: CrudOperation::List,
        entity: "Customer".to_string(),
    });
    let changes = diff_models(&from, &to, &vec![]);
    assert_eq!(changes.len(), 2);
    assert!(changes
        .iter()
        .any(|c| matches!(c, ChangeKind::ApiSurfaceRemoved { path, .. } if path == "/users")));
    assert!(changes
        .iter()
        .any(|c| matches!(c, ChangeKind::ApiSurfaceAdded { endpoint } if endpoint.path == "/customers")));
}

#[test]
fn detects_permission_changes() {
    let mut from = test_model();
    from.permissions.push(PermissionPolicy {
        entity: "User".to_string(),
        list: true,
        get: true,
        create: false,
        update: false,
    });
    let mut to = test_model();
    to.permissions.push(PermissionPolicy {
        entity: "User".to_string(),
        list: true,
        get: true,
        create: true,
        update: true,
    });
    let changes = diff_models(&from, &to, &vec![]);
    assert_eq!(changes.len(), 1);
    assert!(matches!(
        &changes[0],
        ChangeKind::PermissionChanged { entity, .. } if entity == "User"
    ));
}

#[test]
fn computes_delta() {
    let from_version = VersionId::new("ver-1");
    let from = test_model();
    let mut to = test_model();
    to.entities.push(model_entity("Order", &[("id", "uuid")]));
    let delta = compute_delta(from_version.clone(), &from, &to, 800, vec!["ev-1".to_string()], 3);
    assert_eq!(delta.from, from_version);
    assert_eq!(delta.len(), 1);
    assert_eq!(delta.evidence_refs, vec!["ev-1".to_string()]);
}

#[test]
fn model_diff_reports_the_application_name_first() {
    let from = test_model();
    let mut to = test_model();
    to.application.name = "Renamed".to_string();
    to.entities.push(model_entity("Order", &[]));
    let changes = diff_models(&from, &to, &vec![]);
    assert_eq!(changes.len(), 2);
    assert!(matches!(
        &changes[0],
        ChangeKind::ApplicationInfoChanged { old_name, new_name } if old_name == "Test" && new_name == "Renamed"
    ));
    assert!(matches!(&changes[1], ChangeKind::EntityAdded { entity } if entity.name == "Order"));
}

#[test]
fn creates_root_version() {
    let model_id = ModelId::generate(5);
    let version = ModelVersion::root(
        model_id.clone(),
        test_model(),
        EvidenceSnapshotId::from_unix_timestamp(123),
        800,
        Provenance::new(SourceKind::Entity, "test", "test"),
        9,
    );
    assert!(version.is_root());
    assert_eq!(version.model_id, model_id);
    assert!(version.parent.is_none());
    assert_eq!(version.id.0, "ver-0000000000000009");
}

#[test]
fn creates_child_version() {
    let model_id = ModelId::generate(5);
    let parent_id = VersionId::generate(6);
    let version = ModelVersion::new(
        model_id.clone(),
        Some(parent_id.clone()),
        test_model(),
        EvidenceSnapshotId::from_unix_timestamp(456),
        800,
        Provenance::new(SourceKind::Entity, "test", "test"),
        7,
    );
    assert!(!version.is_root());
    assert_eq!(version.parent, Some(parent_id));
}

fn conflicted_delta() -> ModelDelta {
    let mut delta = ModelDelta::empty(VersionId::new("ver-1"), 1);
    delta.add_conflict(Conflict::new(
        ConflictKind::RenameAmbiguity {
            possible_rename_from: "User".to_string(),
            possible_rename_to: "Account".to_string(),
        },
        vec![
            ChangeKind::EntityRemoved { name: "User".to_string() },
            ChangeKind::EntityRemoved { name: "Account".to_string() },
        ],
        vec![],
        vec![400, 700],
    ));
    delta
}

#[test]
fn settling_by_confidence_resolves_conflicts() {
    let mut delta = conflicted_delta();
    let config = EvolutionConfig::default();
    assert!(settle_conflicts(&config, &mut delta).is_ok());
    assert!(!delta.has_conflicts());
    assert!(matches!(
        delta.conflicts[0].resolution,
        Some(Resolution::AutomaticConfidenceWeighted { chosen: 1 })
    ));
}

#[test]
fn unresolved_conflicts_stop_evolution_unless_allowed() {
    let mut delta = conflicted_delta();
    let mut config = EvolutionConfig::default();
    config.resolution_strategy = ResolutionStrategy::RequireExplicit;
    let err = settle_conflicts(&config, &mut delta).unwrap_err();
    assert_eq!(err, EvolveError::UnresolvedConflicts { count: 1 });
    assert_eq!(err.message(), "Cannot evolve: 1 unresolved conflicts");
    config.allow_unresolved_conflicts = true;
    let mut again = conflicted_delta();
    assert!(settle_conflicts(&config, &mut again).is_ok());
    assert!(again.has_conflicts());
}

#[test]
fn evolves_model() {
    let model_id = ModelId::new("model-1");
    let root = ModelVersion::root(
        model_id.clone(),
        test_model(),
        EvidenceSnapshotId::from_unix_timestamp(100),
        800,
        Provenance::new(SourceKind::Entity, "model-evolution", "EvolutionEngine"),
        1,
    );
    let mut lineage = ModelLineage::new(model_id.clone(), &root.id);
    let mut new_model = test_model();
    new_model.entities.push(model_entity("User", &[("id", "uuid")]));
    let mut delta = compute_delta(root.id.clone(), &root.model, &new_model, 800, vec![], 2);
    assert_eq!(delta.len(), 1);
    assert!(settle_conflicts(&EvolutionConfig::default(), &mut delta).is_ok());
    let next = next_version(&mut lineage, &root, new_model, &delta, 200, 3);
    assert_eq!(next.parent, Some(root.id.clone()));
    assert_eq!(next.model_id, model_id);
    assert_eq!(next.evidence_snapshot_id.0, "evidence-200");
    assert_eq!(lineage.len(), 2);
    assert_eq!(lineage.head, next.id);
    assert_eq!(lineage.version_ids(), vec![root.id.clone(), next.id.clone()]);
    assert!(next.model.entities.iter().any(|e| e.name == "User"));
}

#[test]
fn initializes_new_model() {
    let (lineage, root) = initialize(test_model(), 100, 1, 2);
    assert_eq!(lineage.len(), 1);
    assert!(root.is_root());
    assert_eq!(lineage.head, root.id);
    assert_eq!(lineage.model_id, root.model_id);
    assert_eq!(root.model_id.0, "model-0000000000000001");
    assert_eq!(root.evidence_snapshot_id.0, "evidence-100");
}

#[test]
fn detected_rename_gives_the_similarity_in_percent() {
    let from = vec![model_entity("Customer", &[("id", "uuid"), ("email", "string"), ("name", "string")])];
    let to = vec![model_entity("Client", &[("id", "uuid"), ("email", "string"), ("name", "string")])];
    let renames = detect_renames(&from, &to, 800);
    assert_eq!(renames, vec![(0usize, 0usize, "structural similarity: 100%".to_string())]);
}

#[test]
fn rename_below_the_threshold_is_removal_and_addition() {
    // three of four field signatures shared: 75%
    let mut from = test_model();
    from.entities.push(model_entity("Customer", &[("id", "uuid"), ("email", "string"), ("name", "string")]));
    let mut to = test_model();
    to.entities.push(model_entity(
        "Client",
        &[("id", "uuid"), ("email", "string"), ("name", "string"), ("phone", "string")],
    ));
    assert!(detect_renames(&from.entities, &to.entities, 800).is_empty());
    let changes = semantic_diff(&from, &to, 800);
    assert_eq!(changes.len(), 2);
    assert!(matches!(&changes[0], ChangeKind::EntityRemoved { name } if name == "Customer"));
    assert!(matches!(&changes[1], ChangeKind::EntityAdded { entity } if entity.name == "Client"));
    let renames = detect_renames(&from.entities, &to.entities, 700);
    assert_eq!(renames, vec![(0usize, 0usize, "structural similarity: 75%".to_string())]);
}

#[test]
fn rename_similarity_must_exceed_seven_tenths() {
    // seven of ten shared: exactly 70%, not a rename even at a low threshold
    let shared: Vec<(String, String)> = (0..7).map(|i| (format!("f{}", i), "string".to_string())).collect();
    let mut a: Vec<(&str, &str)> = shared.iter().map(|(n, t)| (n.as_str(), t.as_str())).collect();
    let b = a.clone();
    a.extend([("a1", "string"), ("a2", "string"), ("a3", "string")]);
    let from = vec![model_entity("Old", &a)];
    let to = vec![model_entity("New", &b)];
    assert!(detect_renames(&from, &to, 0).is_empty());
}

#[test]
fn rename_percent_rounds_to_nearest() {
    // five of six shared: 83%
    let from = vec![model_entity("A", &[("a", "x"), ("b", "x"), ("c", "x"), ("d", "x"), ("e", "x"), ("f", "x")])];
    let to = vec![model_entity("B", &[("a", "x"), ("b", "x"), ("c", "x"), ("d", "x"), ("e", "x")])];
    let renames = detect_renames(&from, &to, 800);
    assert_eq!(renames, vec![(0usize, 0usize, "structural similarity: 83%".to_string())]);
    // seven of eight shared: 87.5% is shown as 88%
    let fields: Vec<(&str, &str)> =
        vec![("a", "x"), ("b", "x"), ("c", "x"), ("d", "x"), ("e", "x"), ("f", "x"), ("g", "x"), ("h", "x")];
    let from = vec![model_entity("A", &fields)];
    let to = vec![model_entity("B", &fields[..7])];
    let renames = detect_renames(&from, &to, 800);
    assert_eq!(renames, vec![(0usize, 0usize, "structural similarity: 88%".to_string())]);
}

#[test]
fn each_added_entity_is_taken_by_one_rename() {
    let fields = [("id", "uuid"), ("email", "string")];
    let from = vec![model_entity("Alpha", &fields), model_entity("Beta", &fields)];
    let to = vec![model_entity("Gamma", &fields)];
    let renames = detect_renames(&from, &to, 800);
    assert_eq!(renames, vec![(0usize, 0usize, "structural similarity: 100%".to_string())]);
    let changes = diff_entities(&from, &to, &renames);
    assert_eq!(changes.len(), 2);
    assert!(matches!(&changes[0], ChangeKind::EntityRenamed { from, to, .. } if from == "Alpha" && to == "Gamma"));
    assert!(matches!(&changes[1], ChangeKind::EntityRemoved { name } if name == "Beta"));
}

#[test]
fn identity_matcher_exact_match() {
    let matcher = IdentityMatcher::new();
    let e1 = make_entity("User", &[("id", "uuid"), ("email", "string")]);
    let e2 = make_entity("User", &[("id", "uuid"), ("email", "string")]);
    let result = matcher.might_be_same_entity(&e1, &e2);
    assert_eq!(result, MatchResult::ExactMatch);
}

#[test]
fn identity_matcher_high_structural_similarity() {
    let matcher = IdentityMatcher::new();
    let e1 = make_entity("Customer", &[("id", "uuid"), ("email", "string"), ("name", "string")]);
    let e2 = make_entity("Client", &[("id", "uuid"), ("email", "string"), ("name", "string")]);
    let result = matcher.might_be_same_entity(&e1, &e2);
    assert!(matches!(result, MatchResult::HighStructuralSimilarity { .. }));
    assert!(result.is_likely_match());
}

#[test]
fn identity_matcher_no_match() {
    let matcher = IdentityMatcher::new();
    let e1 = make_entity("User", &[("id", "uuid")]);
    let e2 = make_entity("Invoice", &[("total", "money"), ("date", "timestamp")]);
    let result = matcher.might_be_same_entity(&e1, &e2);
    assert_eq!(result, MatchResult::NoMatch);
    assert!(!result.is_possible_match());
}

#[test]
fn structural_similarity_identical() {
    let sig = "email:string|id:uuid";
    assert_eq!(signature_overlap(sig, sig), (2, 2));
}

#[test]
fn structural_similarity_partial() {
    let (shared, all) = signature_overlap("email:string|id:uuid|name:string", "email:string|id:uuid");
    // more than half, less than all
    assert!(2 * shared > all);
    assert!(shared < all);
}

#[test]
fn identity_matcher_known_rename() {
    let mut matcher = IdentityMatcher::new();
    matcher.record_rename("Customer", "Client");
    let e1 = make_entity("Customer", &[("id", "uuid")]);
    let e2 = make_entity("CLIENT", &[("total", "money")]);
    assert_eq!(matcher.might_be_same_entity(&e1, &e2), MatchResult::KnownRename);
}

#[test]
fn identity_matcher_moderate_and_name_similarity() {
    let matcher = IdentityMatcher::new();
    // four of five signatures shared: moderate
    let e1 = make_entity("Alpha", &[("a", "x"), ("b", "x"), ("c", "x"), ("d", "x"), ("e", "x")]);
    let e2 = make_entity("Omega", &[("a", "x"), ("b", "x"), ("c", "x"), ("d", "x")]);
    assert_eq!(matcher.might_be_same_entity(&e1, &e2), MatchResult::ModerateStructuralSimilarity { shared: 4, all: 5 });
    // names sharing nine of ten leading characters
    let e3 = make_entity("Subscriber", &[("a", "x")]);
    let e4 = make_entity("Subscribed", &[("b", "x")]);
    assert_eq!(matcher.might_be_same_entity(&e3, &e4), MatchResult::NameSimilarity { common: 9, longest: 10 });
    // one name inside the other is four fifths, not enough
    let e5 = make_entity("Order", &[("a", "x")]);
    let e6 = make_entity("OrderLine", &[("b", "x")]);
    assert_eq!(matcher.might_be_same_entity(&e5, &e6), MatchResult::NoMatch);
}

#[test]
fn semantic_diff_of_a_model_with_itself_is_empty() {
    let mut m = test_model();
    m.entities.push(model_entity("Customer", &[("id", "uuid"), ("email", "string")]));
    m.entities.push(model_entity("Order", &[("id", "uuid")]));
    assert!(semantic_diff(&m, &m, 0).is_empty());
    assert!(detect_renames(&m.entities, &m.entities, 0).is_empty());
}

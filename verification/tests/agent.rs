use treehouse::agent::change::{detect_architecture_change, detect_architecture_change_with_files};
use treehouse::agent::files::{classify_file_changes, FileChangeEvent, FileChangeEventKind};
use treehouse::agent::infer::{infer_subsystem_contracts, parse_api_signature};
use treehouse::agent::paths::{is_api_definition_path, is_migration_path, is_model_definition_path, path_parts};
use treehouse::agent::report::{AlertSeverity, RiskLevel};
use treehouse::system_graph::{Subsystem, SystemGraphVersion};

fn graph(version: u64, subsystems: Vec<Subsystem>, relationships: Vec<String>) -> SystemGraphVersion {
    SystemGraphVersion {
        version,
        subsystems,
        relationships,
    }
}

fn subsystem(id: &str, entities: &[&str], apis: &[&str]) -> Subsystem {
    Subsystem {
        id: id.to_string(),
        entities: entities.iter().map(|e| e.to_string()).collect(),
        apis: apis.iter().map(|a| a.to_string()).collect(),
        ..Subsystem::default()
    }
}

#[test]
fn emits_architecture_change_event() {
    let previous = graph(1, vec![subsystem("Identity", &["User"], &[])], vec![]);
    let current = graph(
        2,
        vec![
            subsystem("Identity", &["User"], &[]),
            subsystem("Billing", &["Subscription"], &[]),
        ],
        vec![],
    );

    let event = detect_architecture_change(Some(&previous), &current, &vec![]).unwrap();
    assert_eq!(event.event, "architecture_change");
    assert!(event
        .changes
        .iter()
        .any(|change| change.contains("new subsystem Billing")));
    assert!(event
        .changes
        .iter()
        .any(|change| change.contains("Billing new owned entity: Subscription")));
    assert!(!event.subsystem_contracts.is_empty());
    assert!(event
        .diagrams
        .data_ownership_map
        .iter()
        .any(|entry| entry.contains("Billing owns Subscription")));
    assert!(event
        .alerts
        .iter()
        .any(|alert| matches!(alert.severity, AlertSeverity::Info)));
}

#[test]
fn classifies_file_change_events() {
    let events = classify_file_changes(&vec![
        "?? migrations/001_create_invoices.sql".to_string(),
        " M api/openapi.yaml".to_string(),
        " D src/customer_model.rs".to_string(),
    ]);

    assert!(events.iter().any(|event| {
        event.kind == FileChangeEventKind::FileCreated
            && event.path == "migrations/001_create_invoices.sql"
    }));
    assert!(events.iter().any(|event| {
        event.kind == FileChangeEventKind::MigrationChanged
            && event.path == "migrations/001_create_invoices.sql"
    }));
    assert!(events.iter().any(|event| {
        event.kind == FileChangeEventKind::ApiChanged && event.path == "api/openapi.yaml"
    }));
    assert!(events.iter().any(|event| {
        event.kind == FileChangeEventKind::ModelChanged && event.path == "src/customer_model.rs"
    }));
}

#[test]
fn reports_contract_drift_as_high_risk_impact() {
    let previous = graph(1, vec![subsystem("Billing", &["Invoice"], &["GET /invoices"])], vec![]);
    let current = graph(2, vec![subsystem("Billing", &["Payment"], &["GET /payments"])], vec![]);

    let event = detect_architecture_change_with_files(
        Some(&previous),
        &current,
        &vec![],
        &vec![" M src/billing_contract.rs".to_string()],
    )
    .unwrap();

    assert!(event.impact.is_some());
    assert_eq!(event.impact.unwrap().risk_level, RiskLevel::High);
    assert!(!event.contract_drifts.is_empty());
}

#[test]
fn file_events_are_sorted_by_kind_then_path_and_distinct() {
    let events = classify_file_changes(&vec![
        " M b.txt".to_string(),
        "?? a.txt".to_string(),
        " M b.txt".to_string(),
        "A  migrations/002.sql".to_string(),
        "   ".to_string(),
        "D gone.rs".to_string(),
    ]);
    let expected = vec![
        FileChangeEvent { kind: FileChangeEventKind::FileCreated, path: "a.txt".to_string() },
        FileChangeEvent { kind: FileChangeEventKind::FileCreated, path: "migrations/002.sql".to_string() },
        FileChangeEvent { kind: FileChangeEventKind::FileModified, path: "b.txt".to_string() },
        FileChangeEvent { kind: FileChangeEventKind::FileDeleted, path: "gone.rs".to_string() },
        FileChangeEvent { kind: FileChangeEventKind::MigrationChanged, path: "migrations/002.sql".to_string() },
    ];
    assert_eq!(events, expected);
}

#[test]
fn classifies_paths() {
    assert!(is_migration_path("db/Migrations/001.SQL"));
    assert!(!is_migration_path("db/001.sql"));
    assert!(is_api_definition_path("docs/Swagger.JSON"));
    assert!(is_api_definition_path("api/v1/spec.yml"));
    assert!(!is_api_definition_path("src/spec.yml"));
    assert!(is_model_definition_path("src/models/user.ts"));
    assert!(!is_model_definition_path("migrations/models/001.sql"));
    assert!(!is_model_definition_path("src/user.txt"));
    let (name, ext, stem) = path_parts("dir/.hidden");
    assert_eq!((name.as_str(), ext.as_str(), stem.as_str()), (".hidden", "", ".hidden"));
    let (name, ext, stem) = path_parts("dir/archive.tar.gz/");
    assert_eq!((name.as_str(), ext.as_str(), stem.as_str()), ("archive.tar.gz", "gz", "archive.tar"));
}

#[test]
fn parses_api_signatures() {
    assert_eq!(
        parse_api_signature("  POST   /orders extra"),
        ("POST".to_string(), "/orders".to_string())
    );
    assert_eq!(
        parse_api_signature("HEALTH"),
        ("UNPARSEABLE".to_string(), "HEALTH".to_string())
    );
}

#[test]
fn infers_contracts_sorted_with_consumed_subsystems() {
    let g = graph(
        7,
        vec![
            Subsystem {
                workflows: vec!["checkout".to_string()],
                ..subsystem("Orders", &["Order"], &["POST /orders"])
            },
            subsystem("Billing", &["Invoice"], &[]),
        ],
        vec![
            "Orders -> Billing".to_string(),
            " Orders->Billing ".to_string(),
            "Orders -> Audit".to_string(),
            "not a relationship".to_string(),
        ],
    );
    let contracts = infer_subsystem_contracts(&g);
    assert_eq!(contracts.len(), 2);
    assert_eq!(contracts[0].subsystem, "Billing");
    assert_eq!(contracts[1].subsystem, "Orders");
    let orders = &contracts[1];
    assert_eq!(orders.version, "7");
    let consumed: Vec<&str> = orders.consumes.iter().map(|c| c.subsystem.as_str()).collect();
    assert_eq!(consumed, vec!["Audit", "Billing"]);
    assert_eq!(orders.consumes[0].relationship_types, vec!["relationship".to_string()]);
    assert_eq!(orders.provides.apis[0].method, "POST");
    assert_eq!(orders.process_contracts[0].trigger_event, "checkout:trigger");
    assert_eq!(orders.process_contracts[0].must_eventually_emit, "checkout:complete");
    assert_eq!(orders.ownership_contracts[0].entity_field, "Order.*");
    assert_eq!(orders.guarantees, vec!["checkout must complete".to_string()]);
    assert!(contracts[0].consumes.is_empty());
}

#[test]
fn reports_nothing_without_changes() {
    let g = graph(1, vec![subsystem("Identity", &["User"], &[])], vec![]);
    assert!(detect_architecture_change(Some(&g), &g, &vec![]).is_none());
}

#[test]
fn model_definition_path_examples() {
    assert!(is_model_definition_path("src/customer_model.rs"));
    assert!(is_model_definition_path("app/Models/user.py"));
    assert!(!is_model_definition_path("migrations/001.sql"));
    assert!(!is_model_definition_path("src/models/readme.md"));
    assert!(is_migration_path("migrations/001.sql"));
}

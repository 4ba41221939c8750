use treehouse::contracts::compatibility::compare_schema;
use treehouse::contracts::definition::{ApiContract, FieldContract, SchemaContract};
use treehouse::contracts::schema_drift::detect_contract_drift;
use treehouse::contracts::validation::validate_required_fields;
use treehouse::contracts::validator::{
    validate_api_contract, validate_schema_payload, ContractValidationIssue, ContractValidationKind,
};
use treehouse::json::JsonValue;

fn s(v: &str) -> JsonValue {
    JsonValue::Str(v.to_string())
}

fn obj(entries: Vec<(&str, JsonValue)>) -> JsonValue {
    let mut entries: Vec<(String, JsonValue)> =
        entries.into_iter().map(|(k, v)| (k.to_string(), v)).collect();
    entries.sort_by(|a, b| a.0.cmp(&b.0));
    JsonValue::Object(entries)
}

fn typed(t: &str) -> JsonValue {
    obj(vec![("type", s(t))])
}

fn field(name: &str, field_type: &str, required: bool) -> FieldContract {
    FieldContract { name: name.to_string(), field_type: field_type.to_string(), required }
}

#[test]
fn validates_required_fields_and_detects_drift() {
    let previous = obj(vec![
        ("required", JsonValue::Array(vec![s("email")])),
        ("properties", obj(vec![("email", typed("string"))])),
    ]);
    let current = obj(vec![
        ("required", JsonValue::Array(vec![s("email")])),
        ("properties", obj(vec![("email", typed("null"))])),
    ]);

    let errors = validate_required_fields(&previous, &obj(vec![("email", JsonValue::Null)]));
    assert_eq!(errors, vec!["email is required"]);

    let drift = detect_contract_drift(&previous, &current);
    assert_eq!(drift, vec!["email changed from string to null"]);
}

#[test]
fn validates_request_response_authorization_and_lifecycle() {
    let api = ApiContract {
        method: "POST".to_string(),
        path: "/invoice".to_string(),
        request: SchemaContract { fields: vec![field("amount", "number", true)] },
        response: SchemaContract { fields: vec![field("status", "string", true)] },
        authorization: Some("tenant-context".to_string()),
        lifecycle: vec!["PaymentRequested".to_string()],
    };

    let issues = validate_api_contract(
        &api,
        &obj(vec![("amount", s("12"))]),
        &obj(vec![("status", obj(vec![("code", s("paid"))]))]),
        Some("organization-context"),
        &vec![],
    );

    assert!(issues.iter().any(|issue| {
        issue.kind == ContractValidationKind::RequestSchema
            && issue.message.contains("amount expected number")
    }));
    assert!(issues.iter().any(|issue| {
        issue.kind == ContractValidationKind::ResponseSchema
            && issue.message.contains("status expected string")
    }));
    assert!(issues.iter().any(|issue| issue.kind == ContractValidationKind::Authorization));
    assert!(issues.iter().any(|issue| issue.kind == ContractValidationKind::Lifecycle));
}

#[test]
fn payload_messages_are_exact() {
    let schema = SchemaContract {
        fields: vec![
            field("count", "integer", true),
            field("ratio", "number", false),
            field("note", "string", false),
            field("id", "string", true),
        ],
    };
    let payload = obj(vec![
        ("count", JsonValue::Number { text: "2.5".to_string(), float: true }),
        ("ratio", JsonValue::Number { text: "3".to_string(), float: false }),
        ("note", JsonValue::Null),
    ]);
    assert_eq!(
        validate_schema_payload(&schema, &payload),
        vec!["count expected integer, got number", "ratio expected number, got integer", "id is required"]
    );
    assert_eq!(
        validate_schema_payload(&schema, &JsonValue::Array(vec![])),
        vec!["payload is not an object"]
    );
}

#[test]
fn matching_exchange_has_no_issues() {
    let api = ApiContract {
        method: "GET".to_string(),
        path: "/x".to_string(),
        request: SchemaContract { fields: vec![] },
        response: SchemaContract { fields: vec![field("ok", "boolean", true)] },
        authorization: None,
        lifecycle: vec!["Seen".to_string()],
    };
    let issues = validate_api_contract(
        &api,
        &obj(vec![]),
        &obj(vec![("ok", JsonValue::Bool(true))]),
        None,
        &vec!["Other".to_string(), "Seen".to_string()],
    );
    assert!(issues.is_empty());

    let issues = validate_api_contract(
        &api,
        &obj(vec![]),
        &obj(vec![("ok", JsonValue::Bool(true))]),
        Some("admin"),
        &vec![],
    );
    assert_eq!(
        issues,
        vec![
            ContractValidationIssue {
                kind: ContractValidationKind::Authorization,
                target: "GET /x".to_string(),
                message: "authorization expected None, got Some(\"admin\")".to_string(),
            },
            ContractValidationIssue {
                kind: ContractValidationKind::Lifecycle,
                target: "GET /x".to_string(),
                message: "missing lifecycle event Seen".to_string(),
            },
        ]
    );
}

#[test]
fn compare_schema_reports_changed_shared_properties() {
    let previous = obj(vec![(
        "properties",
        obj(vec![("a", typed("string")), ("b", typed("integer")), ("gone", typed("string"))]),
    )]);
    let current = obj(vec![("properties", obj(vec![("a", typed("string")), ("b", obj(vec![]))]))]);
    let changes = compare_schema(&previous, &current);
    assert_eq!(changes.len(), 1);
    assert_eq!(changes[0].field, "b");
    assert_eq!(changes[0].previous_type, "integer");
    assert_eq!(changes[0].current_type, "unknown");
    assert!(changes[0].breaking);
    assert!(compare_schema(&JsonValue::Null, &current).is_empty());
}

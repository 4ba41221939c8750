use treehouse::api_engine::openapi::{import_openapi, schema_name_from_ref_or_inline, ApiGraph, ApiOperation};
use treehouse::api_engine::requests::build_happy_path_body;
use treehouse::api_engine::scenarios::{generate_test_scenarios, ScenarioKind};
use treehouse::api_engine::schemas::{extract_schema_catalog, first_string_field, required_fields, sample_value};
use treehouse::json::JsonValue;
use treehouse::api_engine::responses::ExpectedResponse;
use treehouse::api_engine::state_machine::{discover_state_machine, StateTracker};
use treehouse::api_engine::transactions::discover_transaction_flows;

fn post(path: &str) -> ApiOperation {
    ApiOperation {
        method: "POST".to_string(),
        path: path.to_string(),
        request_schema: None,
        response_schema: None,
    }
}

#[test]
fn discovers_order_state_machine_and_tracks_state() {
    let events = vec![
        "ORDER_CREATED".to_string(),
        "PAYMENT_RECEIVED".to_string(),
        "ORDER_FULFILLED".to_string(),
    ];

    let machine = discover_state_machine("Order", &events);
    assert!(machine.can_transition("created", "received"));
    assert!(machine.can_transition("received", "fulfilled"));

    let mut tracker = StateTracker::default();
    tracker.remember("Order", "123", "pending");
    assert_eq!(tracker.current_state("Order", "123"), Some("pending"));
}

#[test]
fn discovers_purchase_flow_from_create_operations() {
    let graph = ApiGraph {
        operations: vec![post("/customers"), post("/orders"), post("/payments")],
    };
    let flows = discover_transaction_flows(&graph);
    assert_eq!(flows.len(), 1);
    assert_eq!(flows[0].name, "Purchase Flow");
    assert_eq!(flows[0].steps[0].path, "/customers");
    assert_eq!(flows[0].steps[1].path, "/orders");
    assert_eq!(flows[0].steps[2].path, "/payments");
}

#[test]
fn purchase_flow_orders_by_rank_then_path() {
    let mut get = post("/customers");
    get.method = "GET".to_string();
    let graph = ApiGraph {
        operations: vec![
            post("/refunds"),
            post("/payments"),
            get,
            post("/orders/b"),
            post("/orders/a"),
            post("/customers"),
        ],
    };
    let flows = discover_transaction_flows(&graph);
    let paths: Vec<&str> = flows[0].steps.iter().map(|s| s.path.as_str()).collect();
    assert_eq!(paths, vec!["/customers", "/orders/a", "/orders/b", "/payments", "/refunds"]);
}

#[test]
fn no_flow_with_fewer_than_two_creates() {
    let graph = ApiGraph { operations: vec![post("/customers")] };
    assert!(discover_transaction_flows(&graph).is_empty());
    assert!(discover_transaction_flows(&ApiGraph::default()).is_empty());
}

#[test]
fn state_machine_drops_repeated_states_and_lowercases() {
    let events = vec![
        "Order_Created".to_string(),
        "ITEM_CREATED".to_string(),
        "SHIPPED".to_string(),
        "ORDER_CREATED".to_string(),
    ];
    let machine = discover_state_machine("Order", &events);
    assert_eq!(machine.resource, "Order");
    assert!(machine.can_transition("created", "shipped"));
    assert!(machine.can_transition("shipped", "created"));
    assert!(!machine.can_transition("created", "created"));
    assert_eq!(machine.transitions.len(), 2);
    assert_eq!(machine.transitions[0].from, "created");
    assert_eq!(machine.transitions[1].from, "shipped");
}

#[test]
fn tracker_overwrites_and_keeps_other_instances() {
    let mut tracker = StateTracker::default();
    assert_eq!(tracker.current_state("Order", "1"), None);
    tracker.remember("Order", "1", "pending");
    tracker.remember("Order", "2", "paid");
    tracker.remember("Order", "1", "shipped");
    assert_eq!(tracker.current_state("Order", "1"), Some("shipped"));
    assert_eq!(tracker.current_state("Order", "2"), Some("paid"));
    assert_eq!(tracker.current_state("Invoice", "1"), None);
}

#[test]
fn expected_response_codes() {
    assert_eq!(ExpectedResponse::Success.status_code(), 200);
    assert_eq!(ExpectedResponse::ValidationError.status_code(), 400);
}

fn s(v: &str) -> JsonValue {
    JsonValue::Str(v.to_string())
}

fn obj(entries: Vec<(&str, JsonValue)>) -> JsonValue {
    let mut entries: Vec<(String, JsonValue)> =
        entries.into_iter().map(|(k, v)| (k.to_string(), v)).collect();
    entries.sort_by(|a, b| a.0.cmp(&b.0));
    JsonValue::Object(entries)
}

fn json_body(schema_ref: &str) -> JsonValue {
    obj(vec![(
        "content",
        obj(vec![("application/json", obj(vec![("schema", obj(vec![("$ref", s(schema_ref))]))]))]),
    )])
}

fn customer_schema() -> JsonValue {
    obj(vec![
        ("type", s("object")),
        ("required", JsonValue::Array(vec![s("name"), s("email")])),
        (
            "properties",
            obj(vec![
                ("name", obj(vec![("type", s("string"))])),
                ("email", obj(vec![("type", s("string"))])),
                (
                    "status",
                    obj(vec![
                        ("type", s("string")),
                        ("enum", JsonValue::Array(vec![s("active"), s("inactive")])),
                    ]),
                ),
            ]),
        ),
    ])
}

#[test]
fn imports_openapi_operations() {
    let spec = obj(vec![
        ("openapi", s("3.0.0")),
        (
            "paths",
            obj(vec![(
                "/customers",
                obj(vec![(
                    "post",
                    obj(vec![
                        ("requestBody", json_body("#/components/schemas/Customer")),
                        (
                            "responses",
                            obj(vec![("200", json_body("#/components/schemas/Customer"))]),
                        ),
                    ]),
                )]),
            )]),
        ),
    ]);

    let graph = import_openapi(&spec);
    assert_eq!(graph.operations.len(), 1);
    assert_eq!(graph.operations[0].method, "POST");
    assert_eq!(graph.operations[0].path, "/customers");
    assert_eq!(graph.operations[0].request_schema.as_deref(), Some("Customer"));
    assert_eq!(graph.operations[0].response_schema.as_deref(), Some("Customer"));
}

#[test]
fn generates_happy_validation_and_boundary_scenarios() {
    let spec = obj(vec![
        ("openapi", s("3.0.0")),
        (
            "paths",
            obj(vec![(
                "/customers",
                obj(vec![(
                    "post",
                    obj(vec![("requestBody", json_body("#/components/schemas/Customer"))]),
                )]),
            )]),
        ),
        ("components", obj(vec![("schemas", obj(vec![("Customer", customer_schema())]))])),
    ]);

    let scenarios = generate_test_scenarios(&spec);
    assert_eq!(scenarios.len(), 4);
    assert!(scenarios.iter().any(|scenario| scenario.kind == ScenarioKind::HappyPath));
    assert!(scenarios.iter().any(|scenario| scenario.kind == ScenarioKind::Validation));
    assert!(scenarios.iter().any(|scenario| scenario.kind == ScenarioKind::Boundary));

    let happy = obj(vec![("email", s("example")), ("name", s("example"))]);
    assert_eq!(scenarios[0].name, "POST /customers happy path");
    assert_eq!(scenarios[0].body, happy);
    assert_eq!(scenarios[0].expected_status, 200);
    assert_eq!(scenarios[1].name, "POST /customers validation error (name)");
    assert_eq!(scenarios[1].body, obj(vec![("email", s("example")), ("name", JsonValue::Null)]));
    assert_eq!(scenarios[1].expected_status, 400);
    assert_eq!(scenarios[2].name, "POST /customers validation error (email)");
    assert_eq!(scenarios[3].name, "POST /customers boundary");
    assert_eq!(
        scenarios[3].body,
        obj(vec![("email", s(&"x".repeat(257))), ("name", s("example"))])
    );
}

#[test]
fn samples_follow_enum_then_type() {
    assert_eq!(sample_value(&obj(vec![("enum", JsonValue::Array(vec![s("a")]))])), s("a"));
    assert_eq!(
        sample_value(&obj(vec![("type", s("number"))])),
        JsonValue::Number { text: "1.0".to_string(), float: true }
    );
    assert_eq!(
        sample_value(&obj(vec![("type", s("integer"))])),
        JsonValue::Number { text: "1".to_string(), float: false }
    );
    assert_eq!(sample_value(&obj(vec![("type", s("date"))])), JsonValue::Null);
    assert_eq!(required_fields(&customer_schema()), vec!["name", "email"]);
    assert_eq!(first_string_field(&customer_schema()), Some("email".to_string()));
    assert_eq!(
        build_happy_path_body(&customer_schema()),
        obj(vec![("email", s("example")), ("name", s("example"))])
    );
    let catalog = extract_schema_catalog(&obj(vec![(
        "components",
        obj(vec![("schemas", obj(vec![("B", JsonValue::Null), ("A", JsonValue::Bool(true))]))]),
    )]));
    assert_eq!(catalog.len(), 2);
    assert_eq!(catalog[0].0, "A");
    assert_eq!(schema_name_from_ref_or_inline(&obj(vec![("$ref", s("#/x/Order"))])), Some("Order".to_string()));
}

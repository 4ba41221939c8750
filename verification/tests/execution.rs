use treehouse::api_engine::transactions::{TransactionFlow, TransactionStep};
use treehouse::execution::assertions::{assert_status, StatusExpectation};
use treehouse::execution::environment::ExecutionEnvironment;
use treehouse::execution::fixtures::FixtureStore;
use treehouse::execution::runner::execute_flow;

#[test]
fn executes_flow_with_fixture_statuses() {
    let env = ExecutionEnvironment::default();
    let flow = TransactionFlow {
        name: "Purchase Flow".to_string(),
        steps: vec![
            TransactionStep {
                method: "POST".to_string(),
                path: "/customers".to_string(),
            },
            TransactionStep {
                method: "POST".to_string(),
                path: "/orders".to_string(),
            },
        ],
    };

    let mut fixtures = FixtureStore::default();
    fixtures.set_status("POST", "/customers", 201);
    fixtures.set_status("POST", "/orders", 500);

    let report = execute_flow(&env, &flow, &fixtures);
    assert_eq!(report.steps.len(), 2);
    assert!(report.steps[0].success);
    assert!(!report.steps[1].success);
}

#[test]
fn unfixed_steps_get_their_expected_status() {
    let flow = TransactionFlow {
        name: "Browse".to_string(),
        steps: vec![
            TransactionStep { method: "GET".to_string(), path: "/orders".to_string() },
            TransactionStep { method: "POST".to_string(), path: "/orders".to_string() },
        ],
    };
    let report = execute_flow(&ExecutionEnvironment::default(), &flow, &FixtureStore::default());
    assert_eq!(report.environment, "http://localhost:4000");
    assert_eq!(report.flow_name, "Browse");
    assert_eq!(report.steps[0].status, 200);
    assert_eq!(report.steps[1].status, 201);
    assert!(report.steps.iter().all(|s| s.success));
}

#[test]
fn fixtures_key_by_uppercase_method() {
    let mut fixtures = FixtureStore::default();
    fixtures.set_status("post", "/orders", 409);
    assert_eq!(fixtures.status_for("POST", "/orders"), Some(409));
    fixtures.set_status("Post", "/orders", 422);
    assert_eq!(fixtures.status_for("post", "/orders"), Some(422));
    assert_eq!(fixtures.status_for("GET", "/orders"), None);
}

#[test]
fn exact_status_expectation() {
    assert!(assert_status(StatusExpectation::Exact(201), 201));
    assert!(!assert_status(StatusExpectation::Exact(201), 200));
}

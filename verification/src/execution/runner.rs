//! Executing a transaction flow against fixed statuses.
use vstd::prelude::*;

use crate::api_engine::transactions::TransactionFlow;
use crate::execution::assertions::{assert_status, StatusExpectation};
use crate::execution::environment::ExecutionEnvironment;
use crate::execution::fixtures::{fixture_key, FixtureStore};
use crate::text::str_eq;

verus! {

#[derive(Debug, Clone, PartialEq, Eq)]
pub struct StepExecution {
    pub method: String,
    pub path: String,
    pub status: u16,
    pub success: bool,
}

#[derive(Debug, Clone, PartialEq, Eq)]
pub struct ExecutionReport {
    pub environment: String,
    pub flow_name: String,
    pub steps: Vec<StepExecution>,
}

/// The status a step expects: 201 for a create (`POST`), else 200.
pub open spec fn expected_status(method: Seq<char>) -> u16 {
    if method == "POST"@ {
        201
    } else {
        200
    }
}

/// Executes each step of a flow in order: its status is the one fixed for
/// it, else the status it expects, and it succeeds when the two agree.
pub fn execute_flow(
    environment: &ExecutionEnvironment,
    flow: &TransactionFlow,
    fixtures: &FixtureStore,
) -> (r: ExecutionReport)
    ensures
        r.environment@ == environment.base_url@,
        r.flow_name@ == flow.name@,
        r.steps@.len() == flow.steps@.len(),
        forall|i: int|
            0 <= i < flow.steps@.len() ==> {
                let step = flow.steps@[i];
                let key = fixture_key(step.method@, step.path@);
                let expected = expected_status(step.method@);
                let status = if fixtures.statuses().dom().contains(key) {
                    fixtures.statuses()[key]
                } else {
                    expected
                };
                &&& (#[trigger] r.steps@[i]).method@ == step.method@
                &&& r.steps@[i].path@ == step.path@
                &&& r.steps@[i].status == status
                &&& r.steps@[i].success == (status == expected)
            },
{
    let mut steps: Vec<StepExecution> = Vec::new();
    let mut i: usize = 0;
    while i < flow.steps.len()
        invariant
            i <= flow.steps.len(),
            steps@.len() == i,
            forall|k: int|
                0 <= k < i ==> {
                    let step = flow.steps@[k];
                    let key = fixture_key(step.method@, step.path@);
                    let expected = expected_status(step.method@);
                    let status = if fixtures.statuses().dom().contains(key) {
                        fixtures.statuses()[key]
                    } else {
                        expected
                    };
                    &&& (#[trigger] steps@[k]).method@ == step.method@
                    &&& steps@[k].path@ == step.path@
                    &&& steps@[k].status == status
                    &&& steps@[k].success == (status == expected)
                },
        decreases flow.steps.len() - i,
    {
        let step = &flow.steps[i];
        proof {
            reveal_strlit("POST");
        }
        let expected: u16 = if str_eq(step.method.as_str(), "POST") {
            201
        } else {
            200
        };
        let status = match fixtures.status_for(step.method.as_str(), step.path.as_str()) {
            Some(s) => s,
            None => expected,
        };
        let success = assert_status(StatusExpectation::Exact(expected), status);
        steps.push(
            StepExecution {
                method: step.method.clone(),
                path: step.path.clone(),
                status,
                success,
            },
        );
        i += 1;
    }
    ExecutionReport {
        environment: environment.base_url.clone(),
        flow_name: flow.name.clone(),
        steps,
    }
}

} // verus!

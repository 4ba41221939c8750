//! Subsystem contracts: what a subsystem owns, provides, consumes and
//! guarantees, and the contract tests derived from them.
use vstd::prelude::*;

use crate::text::{cat, cat3, owned};

verus! {

#[derive(Debug, Clone, PartialEq, Eq)]
pub struct OwnershipDeclaration {
    pub entities: Vec<String>,
    pub workflows: Vec<String>,
}

#[derive(Debug, Clone, PartialEq, Eq)]
pub struct ProvidedInterfaces {
    pub apis: Vec<ApiContract>,
    pub events: Vec<EventContract>,
}

#[derive(Debug, Clone, PartialEq, Eq)]
pub struct FieldContract {
    pub name: String,
    pub field_type: String,
    pub required: bool,
}

#[derive(Debug, Clone, PartialEq, Eq)]
pub struct DataContract {
    pub entity: String,
    pub fields: Vec<FieldContract>,
}

#[derive(Debug, Clone, PartialEq, Eq)]
pub struct SchemaContract {
    pub fields: Vec<FieldContract>,
}

#[derive(Debug, Clone, PartialEq, Eq)]
pub struct ApiContract {
    pub method: String,
    pub path: String,
    pub request: SchemaContract,
    pub response: SchemaContract,
    pub authorization: Option<String>,
    pub lifecycle: Vec<String>,
}

#[derive(Debug, Clone, PartialEq, Eq)]
pub struct EventContract {
    pub name: String,
    pub payload: SchemaContract,
    pub ordering_key: Option<String>,
}

#[derive(Debug, Clone, PartialEq, Eq)]
pub struct ProcessContract {
    pub trigger_event: String,
    pub must_eventually_emit: String,
}

#[derive(Debug, Clone, PartialEq, Eq)]
pub struct OwnershipContract {
    pub entity_field: String,
    pub owner_subsystem: String,
}

#[derive(Debug, Clone, PartialEq, Eq)]
pub struct ConsumerDependency {
    pub consumer: String,
    pub dependency: String,
    pub expected_type: Option<String>,
}

/// One consumed subsystem and the relationship types through which it is
/// consumed (an entry of the `consumes` map, kept sorted by subsystem name).
#[derive(Debug, Clone, PartialEq, Eq)]
pub struct ConsumedSubsystem {
    pub subsystem: String,
    pub relationship_types: Vec<String>,
}

#[derive(Debug, Clone, PartialEq, Eq)]
pub struct SubsystemContract {
    pub subsystem: String,
    pub version: String,
    pub owns: OwnershipDeclaration,
    pub provides: ProvidedInterfaces,
    pub consumes: Vec<ConsumedSubsystem>,
    pub guarantees: Vec<String>,
    pub data_contracts: Vec<DataContract>,
    pub process_contracts: Vec<ProcessContract>,
    pub ownership_contracts: Vec<OwnershipContract>,
    pub consumer_dependencies: Vec<ConsumerDependency>,
}

#[derive(Debug, Clone, Copy, PartialEq, Eq, Structural)]
pub enum ContractTestKind {
    RequestSchema,
    ResponseSchema,
    AuthorizationBehavior,
    LifecycleBehavior,
}

#[derive(Debug, Clone, PartialEq, Eq)]
pub struct ContractTest {
    pub name: String,
    pub subsystem: String,
    pub kind: ContractTestKind,
    pub target: String,
}

/// The view of a contract test: its strings as character sequences.
pub struct ContractTestView {
    pub name: Seq<char>,
    pub subsystem: Seq<char>,
    pub kind: ContractTestKind,
    pub target: Seq<char>,
}

impl View for ContractTest {
    type V = ContractTestView;

    open spec fn view(&self) -> ContractTestView {
        ContractTestView {
            name: self.name@,
            subsystem: self.subsystem@,
            kind: self.kind,
            target: self.target@,
        }
    }
}

impl Default for SchemaContract {
    fn default() -> (r: Self)
        ensures
            r.fields@.len() == 0,
    {
        SchemaContract { fields: Vec::new() }
    }
}

impl Default for OwnershipDeclaration {
    fn default() -> (r: Self)
        ensures
            r.entities@.len() == 0,
            r.workflows@.len() == 0,
    {
        OwnershipDeclaration { entities: Vec::new(), workflows: Vec::new() }
    }
}

impl Default for ProvidedInterfaces {
    fn default() -> (r: Self)
        ensures
            r.apis@.len() == 0,
            r.events@.len() == 0,
    {
        ProvidedInterfaces { apis: Vec::new(), events: Vec::new() }
    }
}

impl Default for SubsystemContract {
    fn default() -> (r: Self)
        ensures
            r.subsystem@.len() == 0,
            r.version@.len() == 0,
            r.owns.entities@.len() == 0,
            r.owns.workflows@.len() == 0,
            r.provides.apis@.len() == 0,
            r.provides.events@.len() == 0,
            r.consumes@.len() == 0,
            r.guarantees@.len() == 0,
            r.data_contracts@.len() == 0,
            r.process_contracts@.len() == 0,
            r.ownership_contracts@.len() == 0,
            r.consumer_dependencies@.len() == 0,
    {
        SubsystemContract {
            subsystem: String::new(),
            version: String::new(),
            owns: OwnershipDeclaration { entities: Vec::new(), workflows: Vec::new() },
            provides: ProvidedInterfaces { apis: Vec::new(), events: Vec::new() },
            consumes: Vec::new(),
            guarantees: Vec::new(),
            data_contracts: Vec::new(),
            process_contracts: Vec::new(),
            ownership_contracts: Vec::new(),
            consumer_dependencies: Vec::new(),
        }
    }
}

/// `"{method} {path}"`: how an endpoint is named in messages.
pub open spec fn endpoint_seq(api: ApiContract) -> Seq<char> {
    api.method@ + " "@ + api.path@
}

/// The four contract tests of one endpoint.
pub open spec fn endpoint_tests(subsystem: Seq<char>, api: ApiContract) -> Seq<ContractTestView> {
    let target = endpoint_seq(api);
    seq![
        ContractTestView {
            name: target + " request schema"@,
            subsystem,
            kind: ContractTestKind::RequestSchema,
            target,
        },
        ContractTestView {
            name: target + " response schema"@,
            subsystem,
            kind: ContractTestKind::ResponseSchema,
            target,
        },
        ContractTestView {
            name: target + " authorization behavior"@,
            subsystem,
            kind: ContractTestKind::AuthorizationBehavior,
            target,
        },
        ContractTestView {
            name: target + " lifecycle behavior"@,
            subsystem,
            kind: ContractTestKind::LifecycleBehavior,
            target,
        },
    ]
}

/// The contract tests of a list of endpoints, endpoint by endpoint.
pub open spec fn contract_tests_spec(subsystem: Seq<char>, apis: Seq<ApiContract>) -> Seq<
    ContractTestView,
>
    decreases apis.len(),
{
    if apis.len() == 0 {
        Seq::<ContractTestView>::empty()
    } else {
        contract_tests_spec(subsystem, apis.drop_last()) + endpoint_tests(subsystem, apis.last())
    }
}

/// Request-schema, response-schema, authorization and lifecycle tests for
/// every endpoint the contract provides, in endpoint order.
pub fn generate_contract_tests(contract: &SubsystemContract) -> (tests: Vec<ContractTest>)
    ensures
        tests@.map_values(|t: ContractTest| t@) == contract_tests_spec(
            contract.subsystem@,
            contract.provides.apis@,
        ),
{
    let mut tests: Vec<ContractTest> = Vec::new();
    let apis = &contract.provides.apis;
    let mut i: usize = 0;
    while i < apis.len()
        invariant
            i <= apis.len(),
            apis == &contract.provides.apis,
            tests@.map_values(|t: ContractTest| t@) == contract_tests_spec(
                contract.subsystem@,
                apis@.subrange(0, i as int),
            ),
        decreases apis.len() - i,
    {
        let api = &apis[i];
        let target = cat3(api.method.as_str(), " ", api.path.as_str());
        let ghost before = tests@.map_values(|t: ContractTest| t@);
        tests.push(
            ContractTest {
                name: cat(target.as_str(), " request schema"),
                subsystem: contract.subsystem.clone(),
                kind: ContractTestKind::RequestSchema,
                target: owned(target.as_str()),
            },
        );
        tests.push(
            ContractTest {
                name: cat(target.as_str(), " response schema"),
                subsystem: contract.subsystem.clone(),
                kind: ContractTestKind::ResponseSchema,
                target: owned(target.as_str()),
            },
        );
        tests.push(
            ContractTest {
                name: cat(target.as_str(), " authorization behavior"),
                subsystem: contract.subsystem.clone(),
                kind: ContractTestKind::AuthorizationBehavior,
                target: owned(target.as_str()),
            },
        );
        tests.push(
            ContractTest {
                name: cat(target.as_str(), " lifecycle behavior"),
                subsystem: contract.subsystem.clone(),
                kind: ContractTestKind::LifecycleBehavior,
                target,
            },
        );
        proof {
            let sub = apis@.subrange(0, i + 1);
            assert(sub.drop_last() =~= apis@.subrange(0, i as int));
            assert(sub.last() == apis@[i as int]);
            assert(tests@.map_values(|t: ContractTest| t@) =~= before + endpoint_tests(
                contract.subsystem@,
                apis@[i as int],
            ));
        }
        i += 1;
    }
    assert(apis@.subrange(0, apis@.len() as int) =~= apis@);
    tests
}

} // verus!

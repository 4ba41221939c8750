//! Contract drift: the differences between what a subsystem contract declares
//! and what was observed, each with the consumers it affects.
use vstd::prelude::*;

use crate::contracts::definition::{
    ApiContract, ConsumerDependency, DataContract, EventContract, FieldContract,
    OwnershipContract, ProcessContract, SchemaContract, SubsystemContract,
};
use crate::contracts::keys::{impacted_consumers, impacted_spec};
use crate::strset::contains_string;
use crate::text::{
    cat, cat3, lower, lower_seq, opt_eq, opt_or_empty, opt_string_or_empty, opt_view, owned,
    str_eq, strs,
};

verus! {

#[derive(Debug, Clone, Copy, PartialEq, Eq, Structural)]
pub enum ContractDriftKind {
    Data,
    Api,
    Event,
    Process,
    Ownership,
    Guarantee,
}

#[derive(Debug, Clone, PartialEq, Eq)]
pub struct ContractDrift {
    pub kind: ContractDriftKind,
    pub message: String,
    pub expected: String,
    pub actual: String,
    pub affected_consumers: Vec<String>,
    pub impacted_areas: Vec<String>,
}

#[derive(Debug, Clone, PartialEq, Eq)]
pub struct ContractDriftReport {
    pub subsystem: String,
    pub drifts: Vec<ContractDrift>,
}

#[derive(Debug, Clone, PartialEq, Eq)]
pub struct OwnershipWriteObservation {
    pub actor_subsystem: String,
    pub entity_field: String,
}

#[derive(Debug, Clone, PartialEq, Eq)]
pub struct ObservedContractReality {
    pub data_contracts: Vec<DataContract>,
    pub apis: Vec<ApiContract>,
    pub events: Vec<EventContract>,
    pub process_emissions: Vec<ProcessContract>,
    pub ownership_writes: Vec<OwnershipWriteObservation>,
    pub violated_guarantees: Vec<String>,
}

impl Default for ObservedContractReality {
    fn default() -> (r: Self)
        ensures
            r.data_contracts@.len() == 0,
            r.apis@.len() == 0,
            r.events@.len() == 0,
            r.process_emissions@.len() == 0,
            r.ownership_writes@.len() == 0,
            r.violated_guarantees@.len() == 0,
    {
        ObservedContractReality {
            data_contracts: Vec::new(),
            apis: Vec::new(),
            events: Vec::new(),
            process_emissions: Vec::new(),
            ownership_writes: Vec::new(),
            violated_guarantees: Vec::new(),
        }
    }
}

impl Default for ContractDriftReport {
    fn default() -> (r: Self)
        ensures
            r.subsystem@.len() == 0,
            r.drifts@.len() == 0,
    {
        ContractDriftReport { subsystem: String::new(), drifts: Vec::new() }
    }
}

/// The view of a drift: its strings as character sequences.
pub struct ContractDriftView {
    pub kind: ContractDriftKind,
    pub message: Seq<char>,
    pub expected: Seq<char>,
    pub actual: Seq<char>,
    pub consumers: Seq<Seq<char>>,
    pub areas: Seq<Seq<char>>,
}

impl View for ContractDrift {
    type V = ContractDriftView;

    open spec fn view(&self) -> ContractDriftView {
        ContractDriftView {
            kind: self.kind,
            message: self.message@,
            expected: self.expected@,
            actual: self.actual@,
            consumers: strs(self.affected_consumers@),
            areas: strs(self.impacted_areas@),
        }
    }
}

pub open spec fn drifts_view(v: Seq<ContractDrift>) -> Seq<ContractDriftView> {
    v.map_values(|d: ContractDrift| d@)
}

pub open spec fn drift_v(
    kind: ContractDriftKind,
    message: Seq<char>,
    expected: Seq<char>,
    actual: Seq<char>,
    consumers: Seq<Seq<char>>,
    area: Seq<char>,
) -> ContractDriftView {
    ContractDriftView { kind, message, expected, actual, consumers, areas: seq![area] }
}

// ---------------------------------------------------------------------------
// Lookups: a map collected from a list keeps the last entry of each key.
// ---------------------------------------------------------------------------

/// Index of the last data contract for `entity`, or -1.
pub open spec fn last_entity_ix(s: Seq<DataContract>, entity: Seq<char>) -> int
    decreases s.len(),
{
    if s.len() == 0 {
        -1
    } else if s.last().entity@ == entity {
        s.len() - 1
    } else {
        last_entity_ix(s.drop_last(), entity)
    }
}

/// Index of the last field named `name`, or -1.
pub open spec fn last_field_ix(s: Seq<FieldContract>, name: Seq<char>) -> int
    decreases s.len(),
{
    if s.len() == 0 {
        -1
    } else if s.last().name@ == name {
        s.len() - 1
    } else {
        last_field_ix(s.drop_last(), name)
    }
}

/// Index of the last endpoint with this method and path, or -1.
pub open spec fn last_api_ix(s: Seq<ApiContract>, method: Seq<char>, path: Seq<char>) -> int
    decreases s.len(),
{
    if s.len() == 0 {
        -1
    } else if s.last().method@ == method && s.last().path@ == path {
        s.len() - 1
    } else {
        last_api_ix(s.drop_last(), method, path)
    }
}

/// Index of the last event named `name`, or -1.
pub open spec fn last_event_ix(s: Seq<EventContract>, name: Seq<char>) -> int
    decreases s.len(),
{
    if s.len() == 0 {
        -1
    } else if s.last().name@ == name {
        s.len() - 1
    } else {
        last_event_ix(s.drop_last(), name)
    }
}

/// Index of the last ownership contract for `field`, or -1.
pub open spec fn last_owner_ix(s: Seq<OwnershipContract>, field: Seq<char>) -> int
    decreases s.len(),
{
    if s.len() == 0 {
        -1
    } else if s.last().entity_field@ == field {
        s.len() - 1
    } else {
        last_owner_ix(s.drop_last(), field)
    }
}

fn find_entity(s: &Vec<DataContract>, entity: &str) -> (r: Option<usize>)
    ensures
        match r {
            Some(k) => k < s@.len() && last_entity_ix(s@, entity@) == k,
            None => last_entity_ix(s@, entity@) == -1,
        },
{
    let mut i = s.len();
    assert(s@.subrange(0, s@.len() as int) =~= s@);
    while i > 0
        invariant
            i <= s.len(),
            last_entity_ix(s@, entity@) == last_entity_ix(s@.subrange(0, i as int), entity@),
        decreases i,
    {
        let ghost t = s@.subrange(0, i as int);
        assert(t.drop_last() =~= s@.subrange(0, i - 1));
        if str_eq(s[i - 1].entity.as_str(), entity) {
            return Some(i - 1);
        }
        i -= 1;
    }
    None
}

fn find_field(s: &Vec<FieldContract>, name: &str) -> (r: Option<usize>)
    ensures
        match r {
            Some(k) => k < s@.len() && last_field_ix(s@, name@) == k,
            None => last_field_ix(s@, name@) == -1,
        },
{
    let mut i = s.len();
    assert(s@.subrange(0, s@.len() as int) =~= s@);
    while i > 0
        invariant
            i <= s.len(),
            last_field_ix(s@, name@) == last_field_ix(s@.subrange(0, i as int), name@),
        decreases i,
    {
        let ghost t = s@.subrange(0, i as int);
        assert(t.drop_last() =~= s@.subrange(0, i - 1));
        if str_eq(s[i - 1].name.as_str(), name) {
            return Some(i - 1);
        }
        i -= 1;
    }
    None
}

fn find_api(s: &Vec<ApiContract>, method: &str, path: &str) -> (r: Option<usize>)
    ensures
        match r {
            Some(k) => k < s@.len() && last_api_ix(s@, method@, path@) == k,
            None => last_api_ix(s@, method@, path@) == -1,
        },
{
    let mut i = s.len();
    assert(s@.subrange(0, s@.len() as int) =~= s@);
    while i > 0
        invariant
            i <= s.len(),
            last_api_ix(s@, method@, path@) == last_api_ix(s@.subrange(0, i as int), method@, path@),
        decreases i,
    {
        let ghost t = s@.subrange(0, i as int);
        assert(t.drop_last() =~= s@.subrange(0, i - 1));
        if str_eq(s[i - 1].method.as_str(), method) && str_eq(s[i - 1].path.as_str(), path) {
            return Some(i - 1);
        }
        i -= 1;
    }
    None
}

fn find_event(s: &Vec<EventContract>, name: &str) -> (r: Option<usize>)
    ensures
        match r {
            Some(k) => k < s@.len() && last_event_ix(s@, name@) == k,
            None => last_event_ix(s@, name@) == -1,
        },
{
    let mut i = s.len();
    assert(s@.subrange(0, s@.len() as int) =~= s@);
    while i > 0
        invariant
            i <= s.len(),
            last_event_ix(s@, name@) == last_event_ix(s@.subrange(0, i as int), name@),
        decreases i,
    {
        let ghost t = s@.subrange(0, i as int);
        assert(t.drop_last() =~= s@.subrange(0, i - 1));
        if str_eq(s[i - 1].name.as_str(), name) {
            return Some(i - 1);
        }
        i -= 1;
    }
    None
}

fn find_owner(s: &Vec<OwnershipContract>, field: &str) -> (r: Option<usize>)
    ensures
        match r {
            Some(k) => k < s@.len() && last_owner_ix(s@, field@) == k,
            None => last_owner_ix(s@, field@) == -1,
        },
{
    let mut i = s.len();
    assert(s@.subrange(0, s@.len() as int) =~= s@);
    while i > 0
        invariant
            i <= s.len(),
            last_owner_ix(s@, field@) == last_owner_ix(s@.subrange(0, i as int), field@),
        decreases i,
    {
        let ghost t = s@.subrange(0, i as int);
        assert(t.drop_last() =~= s@.subrange(0, i - 1));
        if str_eq(s[i - 1].entity_field.as_str(), field) {
            return Some(i - 1);
        }
        i -= 1;
    }
    None
}

// ---------------------------------------------------------------------------
// Specifications of the detectors
// ---------------------------------------------------------------------------

/// Schema drift of one expected field within `scope`.
pub open spec fn schema_field_drift(
    kind: ContractDriftKind,
    scope: Seq<char>,
    field: FieldContract,
    actual: Seq<FieldContract>,
    deps: Seq<ConsumerDependency>,
) -> Seq<ContractDriftView> {
    let k = last_field_ix(actual, field.name@);
    let key = lower_seq(scope) + "."@ + lower_seq(field.name@);
    let consumers = impacted_spec(deps, key, Some(field.field_type@));
    if k < 0 {
        seq![
            drift_v(
                kind,
                "removed field "@ + scope + "."@ + field.name@,
                field.field_type@,
                "<missing>"@,
                consumers,
                "schema compatibility"@,
            ),
        ]
    } else if actual[k].field_type@ == field.field_type@ {
        Seq::<ContractDriftView>::empty()
    } else {
        seq![
            drift_v(
                kind,
                "field type changed "@ + scope + "."@ + field.name@,
                field.field_type@,
                actual[k].field_type@,
                consumers,
                "schema compatibility"@,
            ),
        ]
    }
}

/// Schema drift of the expected fields, field by field.
pub open spec fn schema_drift_spec(
    kind: ContractDriftKind,
    scope: Seq<char>,
    expected: Seq<FieldContract>,
    actual: Seq<FieldContract>,
    deps: Seq<ConsumerDependency>,
) -> Seq<ContractDriftView>
    decreases expected.len(),
{
    if expected.len() == 0 {
        Seq::<ContractDriftView>::empty()
    } else {
        schema_drift_spec(kind, scope, expected.drop_last(), actual, deps) + schema_field_drift(
            kind,
            scope,
            expected.last(),
            actual,
            deps,
        )
    }
}

/// Data drift of one expected field of `entity`.
pub open spec fn data_field_drift(
    entity: Seq<char>,
    field: FieldContract,
    actual: Seq<FieldContract>,
    deps: Seq<ConsumerDependency>,
) -> Seq<ContractDriftView> {
    let k = last_field_ix(actual, field.name@);
    let key = lower_seq(entity) + "."@ + lower_seq(field.name@);
    let consumers = impacted_spec(deps, key, Some(field.field_type@));
    if k < 0 {
        seq![
            ContractDriftView {
                kind: ContractDriftKind::Data,
                message: "removed field "@ + entity + "."@ + field.name@,
                expected: field.field_type@,
                actual: "<missing>"@,
                consumers,
                areas: seq!["authorization"@, "reporting"@],
            },
        ]
    } else if actual[k].field_type@ != field.field_type@ {
        seq![
            drift_v(
                ContractDriftKind::Data,
                "field type mismatch "@ + entity + "."@ + field.name@,
                field.field_type@,
                actual[k].field_type@,
                consumers,
                "data compatibility"@,
            ),
        ]
    } else {
        Seq::<ContractDriftView>::empty()
    }
}

pub open spec fn data_fields_drift(
    entity: Seq<char>,
    fields: Seq<FieldContract>,
    actual: Seq<FieldContract>,
    deps: Seq<ConsumerDependency>,
) -> Seq<ContractDriftView>
    decreases fields.len(),
{
    if fields.len() == 0 {
        Seq::<ContractDriftView>::empty()
    } else {
        data_fields_drift(entity, fields.drop_last(), actual, deps) + data_field_drift(
            entity,
            fields.last(),
            actual,
            deps,
        )
    }
}

/// Data drift of one declared data contract.
pub open spec fn data_drift_one(
    expected: DataContract,
    observed: Seq<DataContract>,
    deps: Seq<ConsumerDependency>,
) -> Seq<ContractDriftView> {
    let k = last_entity_ix(observed, expected.entity@);
    if k < 0 {
        seq![
            drift_v(
                ContractDriftKind::Data,
                "missing observed entity "@ + expected.entity@,
                expected.entity@,
                "<missing>"@,
                impacted_spec(deps, lower_seq(expected.entity@), None),
                "entity availability"@,
            ),
        ]
    } else {
        data_fields_drift(expected.entity@, expected.fields@, observed[k].fields@, deps)
    }
}

pub open spec fn data_drift_spec(
    declared: Seq<DataContract>,
    observed: Seq<DataContract>,
    deps: Seq<ConsumerDependency>,
) -> Seq<ContractDriftView>
    decreases declared.len(),
{
    if declared.len() == 0 {
        Seq::<ContractDriftView>::empty()
    } else {
        data_drift_spec(declared.drop_last(), observed, deps) + data_drift_one(
            declared.last(),
            observed,
            deps,
        )
    }
}

/// API drift of one declared endpoint.
pub open spec fn api_drift_one(
    expected: ApiContract,
    observed: Seq<ApiContract>,
    deps: Seq<ConsumerDependency>,
) -> Seq<ContractDriftView> {
    let endpoint = expected.method@ + " "@ + expected.path@;
    let endpoint_lower = lower_seq(endpoint);
    let k = last_api_ix(observed, expected.method@, expected.path@);
    if k < 0 {
        seq![
            drift_v(
                ContractDriftKind::Api,
                "missing endpoint "@ + endpoint,
                endpoint,
                "<missing>"@,
                impacted_spec(deps, endpoint_lower, None),
                "integration"@,
            ),
        ]
    } else {
        let actual = observed[k];
        schema_drift_spec(
            ContractDriftKind::Api,
            endpoint + " request"@,
            expected.request.fields@,
            actual.request.fields@,
            deps,
        ) + schema_drift_spec(
            ContractDriftKind::Api,
            endpoint + " response"@,
            expected.response.fields@,
            actual.response.fields@,
            deps,
        ) + if opt_view(expected.authorization) != opt_view(actual.authorization) {
            seq![
                drift_v(
                    ContractDriftKind::Api,
                    "authorization drift for "@ + endpoint,
                    opt_or_empty(expected.authorization),
                    opt_or_empty(actual.authorization),
                    impacted_spec(deps, endpoint_lower, None),
                    "authorization"@,
                ),
            ]
        } else {
            Seq::<ContractDriftView>::empty()
        }
    }
}

pub open spec fn api_drift_spec(
    declared: Seq<ApiContract>,
    observed: Seq<ApiContract>,
    deps: Seq<ConsumerDependency>,
) -> Seq<ContractDriftView>
    decreases declared.len(),
{
    if declared.len() == 0 {
        Seq::<ContractDriftView>::empty()
    } else {
        api_drift_spec(declared.drop_last(), observed, deps) + api_drift_one(
            declared.last(),
            observed,
            deps,
        )
    }
}

/// Event drift of one declared event.
pub open spec fn event_drift_one(
    expected: EventContract,
    observed: Seq<EventContract>,
    deps: Seq<ConsumerDependency>,
) -> Seq<ContractDriftView> {
    let event_name = lower_seq(expected.name@);
    let k = last_event_ix(observed, expected.name@);
    if k < 0 {
        seq![
            drift_v(
                ContractDriftKind::Event,
                "missing event "@ + expected.name@,
                expected.name@,
                "<missing>"@,
                impacted_spec(deps, event_name, None),
                "async processing"@,
            ),
        ]
    } else {
        let actual = observed[k];
        schema_drift_spec(
            ContractDriftKind::Event,
            "event "@ + expected.name@ + " payload"@,
            expected.payload.fields@,
            actual.payload.fields@,
            deps,
        ) + if opt_view(expected.ordering_key) != opt_view(actual.ordering_key) {
            seq![
                drift_v(
                    ContractDriftKind::Event,
                    "event ordering changed "@ + expected.name@,
                    opt_or_empty(expected.ordering_key),
                    opt_or_empty(actual.ordering_key),
                    impacted_spec(deps, event_name, None),
                    "event ordering"@,
                ),
            ]
        } else {
            Seq::<ContractDriftView>::empty()
        }
    }
}

pub open spec fn event_drift_spec(
    declared: Seq<EventContract>,
    observed: Seq<EventContract>,
    deps: Seq<ConsumerDependency>,
) -> Seq<ContractDriftView>
    decreases declared.len(),
{
    if declared.len() == 0 {
        Seq::<ContractDriftView>::empty()
    } else {
        event_drift_spec(declared.drop_last(), observed, deps) + event_drift_one(
            declared.last(),
            observed,
            deps,
        )
    }
}

/// Some observed emission has this trigger and completion event.
pub open spec fn process_observed(observed: Seq<ProcessContract>, p: ProcessContract) -> bool {
    exists|i: int|
        0 <= i < observed.len() && #[trigger] observed[i].trigger_event@ == p.trigger_event@
            && observed[i].must_eventually_emit@ == p.must_eventually_emit@
}

pub open spec fn process_drift_spec(
    declared: Seq<ProcessContract>,
    observed: Seq<ProcessContract>,
) -> Seq<ContractDriftView>
    decreases declared.len(),
{
    if declared.len() == 0 {
        Seq::<ContractDriftView>::empty()
    } else {
        let p = declared.last();
        let pair = p.trigger_event@ + " -> "@ + p.must_eventually_emit@;
        process_drift_spec(declared.drop_last(), observed) + if process_observed(observed, p) {
            Seq::<ContractDriftView>::empty()
        } else {
            seq![
                drift_v(
                    ContractDriftKind::Process,
                    "process guarantee missing "@ + pair,
                    pair,
                    "not observed"@,
                    Seq::<Seq<char>>::empty(),
                    "workflow consistency"@,
                ),
            ]
        }
    }
}

/// The observed writes as (actor subsystem, entity field) pairs.
pub open spec fn writes_view(w: Seq<OwnershipWriteObservation>) -> Seq<(Seq<char>, Seq<char>)> {
    w.map_values(|o: OwnershipWriteObservation| (o.actor_subsystem@, o.entity_field@))
}

pub open spec fn ownership_drift_spec(
    owner: Seq<char>,
    declared: Seq<OwnershipContract>,
    writes: Seq<(Seq<char>, Seq<char>)>,
) -> Seq<ContractDriftView>
    decreases writes.len(),
{
    if writes.len() == 0 {
        Seq::<ContractDriftView>::empty()
    } else {
        let actor = writes.last().0;
        let field = writes.last().1;
        let k = last_owner_ix(declared, field);
        ownership_drift_spec(owner, declared, writes.drop_last()) + if k < 0
            || declared[k].owner_subsystem@ == actor || actor == owner {
            Seq::<ContractDriftView>::empty()
        } else {
            seq![
                drift_v(
                    ContractDriftKind::Ownership,
                    "ownership violation on "@ + field + " by "@ + actor,
                    declared[k].owner_subsystem@,
                    actor,
                    Seq::<Seq<char>>::empty(),
                    "boundary integrity"@,
                ),
            ]
        }
    }
}

pub open spec fn guarantee_drift_spec(declared: Seq<Seq<char>>, violated: Seq<Seq<char>>) -> Seq<
    ContractDriftView,
>
    decreases violated.len(),
{
    if violated.len() == 0 {
        Seq::<ContractDriftView>::empty()
    } else {
        let g = violated.last();
        guarantee_drift_spec(declared, violated.drop_last()) + if declared.contains(g) {
            seq![
                drift_v(
                    ContractDriftKind::Guarantee,
                    "guarantee violated: "@ + g,
                    g,
                    "violation observed"@,
                    Seq::<Seq<char>>::empty(),
                    "system guarantees"@,
                ),
            ]
        } else {
            Seq::<ContractDriftView>::empty()
        }
    }
}

/// Every drift of `declared` against observed data contracts, endpoints,
/// events, process emissions, ownership writes and violated guarantees, in
/// detector order.
pub open spec fn drift_parts(
    declared: SubsystemContract,
    data: Seq<DataContract>,
    apis: Seq<ApiContract>,
    events: Seq<EventContract>,
    process: Seq<ProcessContract>,
    writes: Seq<(Seq<char>, Seq<char>)>,
    violated: Seq<Seq<char>>,
) -> Seq<ContractDriftView> {
    let deps = declared.consumer_dependencies@;
    data_drift_spec(declared.data_contracts@, data, deps) + api_drift_spec(
        declared.provides.apis@,
        apis,
        deps,
    ) + event_drift_spec(declared.provides.events@, events, deps) + process_drift_spec(
        declared.process_contracts@,
        process,
    ) + ownership_drift_spec(declared.subsystem@, declared.ownership_contracts@, writes)
        + guarantee_drift_spec(strs(declared.guarantees@), violated)
}

/// Every drift of `declared` against `observed`, in detector order.
pub open spec fn subsystem_drift_spec(
    declared: SubsystemContract,
    observed: ObservedContractReality,
) -> Seq<ContractDriftView> {
    drift_parts(
        declared,
        observed.data_contracts@,
        observed.apis@,
        observed.events@,
        observed.process_emissions@,
        writes_view(observed.ownership_writes@),
        strs(observed.violated_guarantees@),
    )
}

// ---------------------------------------------------------------------------
// Detectors
// ---------------------------------------------------------------------------

fn one_area(a: &str) -> (r: Vec<String>)
    ensures
        strs(r@) == seq![a@],
{
    let mut r: Vec<String> = Vec::new();
    r.push(owned(a));
    assert(strs(r@) =~= seq![a@]);
    r
}

fn make_drift(
    kind: ContractDriftKind,
    message: String,
    expected: String,
    actual: String,
    consumers: Vec<String>,
    area: &str,
) -> (d: ContractDrift)
    ensures
        d@ == drift_v(kind, message@, expected@, actual@, strs(consumers@), area@),
{
    ContractDrift {
        kind,
        message,
        expected,
        actual,
        affected_consumers: consumers,
        impacted_areas: one_area(area),
    }
}

proof fn lemma_drifts_push(v: Seq<ContractDrift>, d: ContractDrift)
    ensures
        drifts_view(v.push(d)) == drifts_view(v).push(d@),
{
    assert(drifts_view(v.push(d)) =~= drifts_view(v).push(d@));
}

proof fn lemma_drifts_add(a: Seq<ContractDrift>, b: Seq<ContractDrift>)
    ensures
        drifts_view(a + b) == drifts_view(a) + drifts_view(b),
{
    assert(drifts_view(a + b) =~= drifts_view(a) + drifts_view(b));
}

fn compare_schema_contract(
    kind: ContractDriftKind,
    scope: &str,
    expected: &SchemaContract,
    actual: &SchemaContract,
    dependencies: &Vec<ConsumerDependency>,
) -> (r: Vec<ContractDrift>)
    ensures
        drifts_view(r@) == schema_drift_spec(
            kind,
            scope@,
            expected.fields@,
            actual.fields@,
            dependencies@,
        ),
{
    let scope_lower = lower(scope);
    let mut out: Vec<ContractDrift> = Vec::new();
    let fields = &expected.fields;
    let mut i: usize = 0;
    while i < fields.len()
        invariant
            i <= fields.len(),
            fields == &expected.fields,
            scope_lower@ == lower_seq(scope@),
            drifts_view(out@) == schema_drift_spec(
                kind,
                scope@,
                fields@.subrange(0, i as int),
                actual.fields@,
                dependencies@,
            ),
        decreases fields.len() - i,
    {
        let field = &fields[i];
        proof {
            let t = fields@.subrange(0, i + 1);
            assert(t.drop_last() =~= fields@.subrange(0, i as int));
            assert(t.last() == fields@[i as int]);
        }
        let ghost before = out@;
        let lname = lower(field.name.as_str());
        let key = cat3(scope_lower.as_str(), ".", lname.as_str());
        match find_field(&actual.fields, field.name.as_str()) {
            None => {
                let consumers = impacted_consumers(
                    dependencies,
                    key.as_str(),
                    Some(field.field_type.as_str()),
                );
                let d = make_drift(
                    kind,
                    cat3(cat("removed field ", scope).as_str(), ".", field.name.as_str()),
                    field.field_type.clone(),
                    owned("<missing>"),
                    consumers,
                    "schema compatibility",
                );
                out.push(d);
                proof {
                    lemma_drifts_push(before, d);
                }
            },
            Some(k) => {
                let actual_type = &actual.fields[k].field_type;
                if *actual_type == field.field_type {
                } else {
                    let consumers = impacted_consumers(
                        dependencies,
                        key.as_str(),
                        Some(field.field_type.as_str()),
                    );
                    let d = make_drift(
                        kind,
                        cat3(cat("field type changed ", scope).as_str(), ".", field.name.as_str()),
                        field.field_type.clone(),
                        actual_type.clone(),
                        consumers,
                        "schema compatibility",
                    );
                    out.push(d);
                    proof {
                        lemma_drifts_push(before, d);
                    }
                }
            },
        }
        i += 1;
    }
    assert(fields@.subrange(0, fields@.len() as int) =~= fields@);
    out
}

fn detect_data_drift(
    declared: &Vec<DataContract>,
    observed: &Vec<DataContract>,
    dependencies: &Vec<ConsumerDependency>,
) -> (r: Vec<ContractDrift>)
    ensures
        drifts_view(r@) == data_drift_spec(declared@, observed@, dependencies@),
{
    let mut drifts: Vec<ContractDrift> = Vec::new();
    let mut i: usize = 0;
    while i < declared.len()
        invariant
            i <= declared.len(),
            drifts_view(drifts@) == data_drift_spec(
                declared@.subrange(0, i as int),
                observed@,
                dependencies@,
            ),
        decreases declared.len() - i,
    {
        let expected = &declared[i];
        proof {
            let t = declared@.subrange(0, i + 1);
            assert(t.drop_last() =~= declared@.subrange(0, i as int));
            assert(t.last() == declared@[i as int]);
        }
        let ghost before = drifts@;
        match find_entity(observed, expected.entity.as_str()) {
            None => {
                let expected_entity = lower(expected.entity.as_str());
                let consumers = impacted_consumers(dependencies, expected_entity.as_str(), None);
                let d = make_drift(
                    ContractDriftKind::Data,
                    cat("missing observed entity ", expected.entity.as_str()),
                    expected.entity.clone(),
                    owned("<missing>"),
                    consumers,
                    "entity availability",
                );
                drifts.push(d);
                proof {
                    lemma_drifts_push(before, d);
                }
            },
            Some(k) => {
                let actual = &observed[k];
                let fields = &expected.fields;
                let entity_lower = lower(expected.entity.as_str());
                let mut j: usize = 0;
                while j < fields.len()
                    invariant
                        j <= fields.len(),
                        fields == &expected.fields,
                        entity_lower@ == lower_seq(expected.entity@),
                        drifts_view(drifts@) == drifts_view(before) + data_fields_drift(
                            expected.entity@,
                            fields@.subrange(0, j as int),
                            actual.fields@,
                            dependencies@,
                        ),
                    decreases fields.len() - j,
                {
                    let field = &fields[j];
                    proof {
                        let t = fields@.subrange(0, j + 1);
                        assert(t.drop_last() =~= fields@.subrange(0, j as int));
                        assert(t.last() == fields@[j as int]);
                    }
                    let ghost mid = drifts@;
                    let lname = lower(field.name.as_str());
                    let key = cat3(entity_lower.as_str(), ".", lname.as_str());
                    match find_field(&actual.fields, field.name.as_str()) {
                        None => {
                            let consumers = impacted_consumers(
                                dependencies,
                                key.as_str(),
                                Some(field.field_type.as_str()),
                            );
                            let mut areas: Vec<String> = Vec::new();
                            areas.push(owned("authorization"));
                            areas.push(owned("reporting"));
                            let d = ContractDrift {
                                kind: ContractDriftKind::Data,
                                message: cat3(
                                    cat("removed field ", expected.entity.as_str()).as_str(),
                                    ".",
                                    field.name.as_str(),
                                ),
                                expected: field.field_type.clone(),
                                actual: owned("<missing>"),
                                affected_consumers: consumers,
                                impacted_areas: areas,
                            };
                            assert(strs(d.impacted_areas@) =~= seq![
                                "authorization"@,
                                "reporting"@,
                            ]);
                            drifts.push(d);
                            proof {
                                lemma_drifts_push(mid, d);
                            }
                        },
                        Some(m) => {
                            let actual_type = &actual.fields[m].field_type;
                            if *actual_type != field.field_type {
                                let consumers = impacted_consumers(
                                    dependencies,
                                    key.as_str(),
                                    Some(field.field_type.as_str()),
                                );
                                let d = make_drift(
                                    ContractDriftKind::Data,
                                    cat3(
                                        cat("field type mismatch ", expected.entity.as_str()).as_str(),
                                        ".",
                                        field.name.as_str(),
                                    ),
                                    field.field_type.clone(),
                                    actual_type.clone(),
                                    consumers,
                                    "data compatibility",
                                );
                                drifts.push(d);
                                proof {
                                    lemma_drifts_push(mid, d);
                                }
                            }
                        },
                    }
                    j += 1;
                }
                assert(fields@.subrange(0, fields@.len() as int) =~= fields@);
            },
        }
        i += 1;
    }
    assert(declared@.subrange(0, declared@.len() as int) =~= declared@);
    drifts
}

fn detect_api_drift(
    declared: &Vec<ApiContract>,
    observed: &Vec<ApiContract>,
    dependencies: &Vec<ConsumerDependency>,
) -> (r: Vec<ContractDrift>)
    ensures
        drifts_view(r@) == api_drift_spec(declared@, observed@, dependencies@),
{
    let mut drifts: Vec<ContractDrift> = Vec::new();
    let mut i: usize = 0;
    while i < declared.len()
        invariant
            i <= declared.len(),
            drifts_view(drifts@) == api_drift_spec(
                declared@.subrange(0, i as int),
                observed@,
                dependencies@,
            ),
        decreases declared.len() - i,
    {
        let expected = &declared[i];
        proof {
            let t = declared@.subrange(0, i + 1);
            assert(t.drop_last() =~= declared@.subrange(0, i as int));
            assert(t.last() == declared@[i as int]);
        }
        let ghost before = drifts@;
        let endpoint = cat3(expected.method.as_str(), " ", expected.path.as_str());
        let endpoint_lower = lower(endpoint.as_str());
        match find_api(observed, expected.method.as_str(), expected.path.as_str()) {
            None => {
                let consumers = impacted_consumers(dependencies, endpoint_lower.as_str(), None);
                let d = make_drift(
                    ContractDriftKind::Api,
                    cat("missing endpoint ", endpoint.as_str()),
                    owned(endpoint.as_str()),
                    owned("<missing>"),
                    consumers,
                    "integration",
                );
                drifts.push(d);
                proof {
                    lemma_drifts_push(before, d);
                }
            },
            Some(k) => {
                let actual = &observed[k];
                let mut req = compare_schema_contract(
                    ContractDriftKind::Api,
                    cat(endpoint.as_str(), " request").as_str(),
                    &expected.request,
                    &actual.request,
                    dependencies,
                );
                let ghost req_v = req@;
                drifts.append(&mut req);
                let ghost mid = drifts@;
                let mut resp = compare_schema_contract(
                    ContractDriftKind::Api,
                    cat(endpoint.as_str(), " response").as_str(),
                    &expected.response,
                    &actual.response,
                    dependencies,
                );
                let ghost resp_v = resp@;
                drifts.append(&mut resp);
                proof {
                    lemma_drifts_add(before, req_v);
                    lemma_drifts_add(mid, resp_v);
                }
                if !opt_eq(&expected.authorization, &actual.authorization) {
                    let ghost mid2 = drifts@;
                    let consumers = impacted_consumers(dependencies, endpoint_lower.as_str(), None);
                    let d = make_drift(
                        ContractDriftKind::Api,
                        cat("authorization drift for ", endpoint.as_str()),
                        opt_string_or_empty(&expected.authorization),
                        opt_string_or_empty(&actual.authorization),
                        consumers,
                        "authorization",
                    );
                    drifts.push(d);
                    proof {
                        lemma_drifts_push(mid2, d);
                    }
                }
                proof {
                    let e = declared@[i as int];
                    let ep = e.method@ + " "@ + e.path@;
                    assert(endpoint@ == ep);
                    let s1 = schema_drift_spec(
                        ContractDriftKind::Api,
                        ep + " request"@,
                        e.request.fields@,
                        observed@[k as int].request.fields@,
                        dependencies@,
                    );
                    let s2 = schema_drift_spec(
                        ContractDriftKind::Api,
                        ep + " response"@,
                        e.response.fields@,
                        observed@[k as int].response.fields@,
                        dependencies@,
                    );
                    assert(drifts_view(req_v) == s1);
                    assert(drifts_view(resp_v) == s2);
                }
            },
        }
        proof {
            let e = declared@[i as int];
            assert(api_drift_spec(declared@.subrange(0, i + 1), observed@, dependencies@)
                == api_drift_spec(declared@.subrange(0, i as int), observed@, dependencies@)
                + api_drift_one(e, observed@, dependencies@));
            assert(drifts_view(drifts@) =~= drifts_view(before) + api_drift_one(
                e,
                observed@,
                dependencies@,
            ));
        }
        i += 1;
    }
    assert(declared@.subrange(0, declared@.len() as int) =~= declared@);
    drifts
}

fn detect_event_drift(
    declared: &Vec<EventContract>,
    observed: &Vec<EventContract>,
    dependencies: &Vec<ConsumerDependency>,
) -> (r: Vec<ContractDrift>)
    ensures
        drifts_view(r@) == event_drift_spec(declared@, observed@, dependencies@),
{
    let mut drifts: Vec<ContractDrift> = Vec::new();
    let mut i: usize = 0;
    while i < declared.len()
        invariant
            i <= declared.len(),
            drifts_view(drifts@) == event_drift_spec(
                declared@.subrange(0, i as int),
                observed@,
                dependencies@,
            ),
        decreases declared.len() - i,
    {
        let expected = &declared[i];
        proof {
            let t = declared@.subrange(0, i + 1);
            assert(t.drop_last() =~= declared@.subrange(0, i as int));
            assert(t.last() == declared@[i as int]);
        }
        let ghost before = drifts@;
        let event_name = lower(expected.name.as_str());
        match find_event(observed, expected.name.as_str()) {
            None => {
                let consumers = impacted_consumers(dependencies, event_name.as_str(), None);
                let d = make_drift(
                    ContractDriftKind::Event,
                    cat("missing event ", expected.name.as_str()),
                    expected.name.clone(),
                    owned("<missing>"),
                    consumers,
                    "async processing",
                );
                drifts.push(d);
                proof {
                    lemma_drifts_push(before, d);
                }
            },
            Some(k) => {
                let actual = &observed[k];
                let mut payload = compare_schema_contract(
                    ContractDriftKind::Event,
                    cat3("event ", expected.name.as_str(), " payload").as_str(),
                    &expected.payload,
                    &actual.payload,
                    dependencies,
                );
                let ghost pv = payload@;
                drifts.append(&mut payload);
                proof {
                    lemma_drifts_add(before, pv);
                }
                if !opt_eq(&expected.ordering_key, &actual.ordering_key) {
                    let ghost mid = drifts@;
                    let consumers = impacted_consumers(dependencies, event_name.as_str(), None);
                    let d = make_drift(
                        ContractDriftKind::Event,
                        cat("event ordering changed ", expected.name.as_str()),
                        opt_string_or_empty(&expected.ordering_key),
                        opt_string_or_empty(&actual.ordering_key),
                        consumers,
                        "event ordering",
                    );
                    drifts.push(d);
                    proof {
                        lemma_drifts_push(mid, d);
                    }
                }
            },
        }
        proof {
            let e = declared@[i as int];
            assert(drifts_view(drifts@) =~= drifts_view(before) + event_drift_one(
                e,
                observed@,
                dependencies@,
            ));
        }
        i += 1;
    }
    assert(declared@.subrange(0, declared@.len() as int) =~= declared@);
    drifts
}

fn process_is_observed(observed: &Vec<ProcessContract>, p: &ProcessContract) -> (r: bool)
    ensures
        r == process_observed(observed@, *p),
{
    let mut i: usize = 0;
    while i < observed.len()
        invariant
            i <= observed.len(),
            forall|j: int|
                0 <= j < i ==> !(#[trigger] observed@[j].trigger_event@ == p.trigger_event@
                    && observed@[j].must_eventually_emit@ == p.must_eventually_emit@),
        decreases observed.len() - i,
    {
        if observed[i].trigger_event == p.trigger_event && observed[i].must_eventually_emit
            == p.must_eventually_emit {
            return true;
        }
        i += 1;
    }
    false
}

fn detect_process_drift(declared: &Vec<ProcessContract>, observed: &Vec<ProcessContract>) -> (r:
    Vec<ContractDrift>)
    ensures
        drifts_view(r@) == process_drift_spec(declared@, observed@),
{
    let mut drifts: Vec<ContractDrift> = Vec::new();
    let mut i: usize = 0;
    while i < declared.len()
        invariant
            i <= declared.len(),
            drifts_view(drifts@) == process_drift_spec(declared@.subrange(0, i as int), observed@),
        decreases declared.len() - i,
    {
        let process = &declared[i];
        proof {
            let t = declared@.subrange(0, i + 1);
            assert(t.drop_last() =~= declared@.subrange(0, i as int));
            assert(t.last() == declared@[i as int]);
        }
        let ghost before = drifts@;
        if !process_is_observed(observed, process) {
            let pair = cat3(
                process.trigger_event.as_str(),
                " -> ",
                process.must_eventually_emit.as_str(),
            );
            let d = make_drift(
                ContractDriftKind::Process,
                cat("process guarantee missing ", pair.as_str()),
                owned(pair.as_str()),
                owned("not observed"),
                Vec::new(),
                "workflow consistency",
            );
            assert(strs(Seq::<String>::empty()) =~= Seq::<Seq<char>>::empty());
            drifts.push(d);
            proof {
                lemma_drifts_push(before, d);
            }
        }
        i += 1;
    }
    assert(declared@.subrange(0, declared@.len() as int) =~= declared@);
    drifts
}

fn detect_ownership_drift(
    owner_subsystem: &str,
    declared: &Vec<OwnershipContract>,
    observed: &Vec<OwnershipWriteObservation>,
) -> (r: Vec<ContractDrift>)
    ensures
        drifts_view(r@) == ownership_drift_spec(owner_subsystem@, declared@, writes_view(observed@)),
{
    let mut drifts: Vec<ContractDrift> = Vec::new();
    let mut i: usize = 0;
    while i < observed.len()
        invariant
            i <= observed.len(),
            drifts_view(drifts@) == ownership_drift_spec(
                owner_subsystem@,
                declared@,
                writes_view(observed@.subrange(0, i as int)),
            ),
        decreases observed.len() - i,
    {
        let write = &observed[i];
        proof {
            let t = writes_view(observed@.subrange(0, i + 1));
            assert(t.drop_last() =~= writes_view(observed@.subrange(0, i as int)));
            assert(t.last() == (observed@[i as int].actor_subsystem@, observed@[i as int].entity_field@));
        }
        let ghost before = drifts@;
        match find_owner(declared, write.entity_field.as_str()) {
            None => {},
            Some(k) => {
                let expected_owner = &declared[k].owner_subsystem;
                if !(*expected_owner == write.actor_subsystem || str_eq(
                    write.actor_subsystem.as_str(),
                    owner_subsystem,
                )) {
                    let d = make_drift(
                        ContractDriftKind::Ownership,
                        cat3(
                            cat("ownership violation on ", write.entity_field.as_str()).as_str(),
                            " by ",
                            write.actor_subsystem.as_str(),
                        ),
                        expected_owner.clone(),
                        write.actor_subsystem.clone(),
                        Vec::new(),
                        "boundary integrity",
                    );
                    assert(strs(Seq::<String>::empty()) =~= Seq::<Seq<char>>::empty());
                    drifts.push(d);
                    proof {
                        lemma_drifts_push(before, d);
                    }
                }
            },
        }
        i += 1;
    }
    assert(observed@.subrange(0, observed@.len() as int) =~= observed@);
    drifts
}

fn detect_guarantee_drift(declared: &Vec<String>, violated: &Vec<String>) -> (r: Vec<
    ContractDrift,
>)
    ensures
        drifts_view(r@) == guarantee_drift_spec(strs(declared@), strs(violated@)),
{
    let mut drifts: Vec<ContractDrift> = Vec::new();
    let mut i: usize = 0;
    while i < violated.len()
        invariant
            i <= violated.len(),
            drifts_view(drifts@) == guarantee_drift_spec(
                strs(declared@),
                strs(violated@.subrange(0, i as int)),
            ),
        decreases violated.len() - i,
    {
        let guarantee = &violated[i];
        proof {
            let t = strs(violated@.subrange(0, i + 1));
            assert(t.drop_last() =~= strs(violated@.subrange(0, i as int)));
            assert(t.last() == violated@[i as int]@);
        }
        let ghost before = drifts@;
        if contains_string(declared, guarantee.as_str()) {
            let d = make_drift(
                ContractDriftKind::Guarantee,
                cat("guarantee violated: ", guarantee.as_str()),
                guarantee.clone(),
                owned("violation observed"),
                Vec::new(),
                "system guarantees",
            );
            assert(strs(Seq::<String>::empty()) =~= Seq::<Seq<char>>::empty());
            drifts.push(d);
            proof {
                lemma_drifts_push(before, d);
            }
        }
        i += 1;
    }
    assert(violated@.subrange(0, violated@.len() as int) =~= violated@);
    drifts
}

/// Drift of a declared contract against observed parts, in detector order.
pub(crate) fn detect_drift_parts(
    declared: &SubsystemContract,
    data: &Vec<DataContract>,
    apis: &Vec<ApiContract>,
    events: &Vec<EventContract>,
    process: &Vec<ProcessContract>,
    writes: &Vec<OwnershipWriteObservation>,
    violated: &Vec<String>,
) -> (report: ContractDriftReport)
    ensures
        report.subsystem@ == declared.subsystem@,
        drifts_view(report.drifts@) == drift_parts(
            *declared,
            data@,
            apis@,
            events@,
            process@,
            writes_view(writes@),
            strs(violated@),
        ),
{
    let deps = &declared.consumer_dependencies;
    let mut drifts = detect_data_drift(&declared.data_contracts, data, deps);
    let ghost v1 = drifts@;
    let mut a = detect_api_drift(&declared.provides.apis, apis, deps);
    let ghost v2 = a@;
    drifts.append(&mut a);
    let ghost w2 = drifts@;
    let mut e = detect_event_drift(&declared.provides.events, events, deps);
    let ghost v3 = e@;
    drifts.append(&mut e);
    let ghost w3 = drifts@;
    let mut p = detect_process_drift(&declared.process_contracts, process);
    let ghost v4 = p@;
    drifts.append(&mut p);
    let ghost w4 = drifts@;
    let mut o = detect_ownership_drift(
        declared.subsystem.as_str(),
        &declared.ownership_contracts,
        writes,
    );
    let ghost v5 = o@;
    drifts.append(&mut o);
    let ghost w5 = drifts@;
    let mut g = detect_guarantee_drift(&declared.guarantees, violated);
    let ghost v6 = g@;
    drifts.append(&mut g);
    proof {
        lemma_drifts_add(v1, v2);
        lemma_drifts_add(w2, v3);
        lemma_drifts_add(w3, v4);
        lemma_drifts_add(w4, v5);
        lemma_drifts_add(w5, v6);
    }
    ContractDriftReport { subsystem: declared.subsystem.clone(), drifts }
}

/// `report` is the drift report of `declared` against `observed`: named
/// after the declared subsystem, with the drifts of `subsystem_drift_spec`.
pub open spec fn drift_report_of(
    declared: SubsystemContract,
    observed: ObservedContractReality,
    report: ContractDriftReport,
) -> bool {
    &&& report.subsystem@ == declared.subsystem@
    &&& drifts_view(report.drifts@) == subsystem_drift_spec(declared, observed)
}

/// Compares a declared contract with observed reality: data, API, event,
/// process, ownership and guarantee drift, in that order.
pub fn detect_subsystem_contract_drift(
    declared: &SubsystemContract,
    observed: &ObservedContractReality,
) -> (report: ContractDriftReport)
    ensures
        drift_report_of(*declared, *observed, report),
{
    detect_drift_parts(
        declared,
        &observed.data_contracts,
        &observed.apis,
        &observed.events,
        &observed.process_emissions,
        &observed.ownership_writes,
        &observed.violated_guarantees,
    )
}


// ---------------------------------------------------------------------------
// An observation that matches the declaration
// ---------------------------------------------------------------------------

/// No two fields share a name.
pub open spec fn distinct_fields(fs: Seq<FieldContract>) -> bool {
    forall|i: int, j: int| 0 <= i < j < fs.len() ==> (#[trigger] fs[i]).name@ != (#[trigger] fs[j]).name@
}

/// No two data contracts share an entity, and each names its fields once.
pub open spec fn distinct_data(ds: Seq<DataContract>) -> bool {
    &&& forall|i: int, j: int| 0 <= i < j < ds.len() ==> (#[trigger] ds[i]).entity@ != (#[trigger] ds[j]).entity@
    &&& forall|i: int| 0 <= i < ds.len() ==> distinct_fields((#[trigger] ds[i]).fields@)
}

/// No two endpoints share a method and path, and each names the fields of
/// its request and of its response once.
pub open spec fn distinct_apis(a: Seq<ApiContract>) -> bool {
    &&& forall|i: int, j: int|
        0 <= i < j < a.len() ==> !((#[trigger] a[i]).method@ == (#[trigger] a[j]).method@ && a[i].path@
            == a[j].path@)
    &&& forall|i: int|
        0 <= i < a.len() ==> distinct_fields((#[trigger] a[i]).request.fields@) && distinct_fields(
            a[i].response.fields@,
        )
}

/// No two events share a name, and each names its payload fields once.
pub open spec fn distinct_events(e: Seq<EventContract>) -> bool {
    &&& forall|i: int, j: int| 0 <= i < j < e.len() ==> (#[trigger] e[i]).name@ != (#[trigger] e[j]).name@
    &&& forall|i: int| 0 <= i < e.len() ==> distinct_fields((#[trigger] e[i]).payload.fields@)
}

proof fn lemma_last_field(s: Seq<FieldContract>, i: int)
    requires
        distinct_fields(s),
        0 <= i < s.len(),
    ensures
        last_field_ix(s, s[i].name@) == i,
    decreases s.len(),
{
    if i < s.len() - 1 {
        assert(s.last() == s[s.len() - 1]);
        assert(s.drop_last()[i] == s[i]);
        lemma_last_field(s.drop_last(), i);
    }
}

proof fn lemma_last_entity(s: Seq<DataContract>, i: int)
    requires
        distinct_data(s),
        0 <= i < s.len(),
    ensures
        last_entity_ix(s, s[i].entity@) == i,
    decreases s.len(),
{
    if i < s.len() - 1 {
        assert(s.last() == s[s.len() - 1]);
        assert(s.drop_last()[i] == s[i]);
        assert forall|k: int| 0 <= k < s.drop_last().len() implies distinct_fields(
            (#[trigger] s.drop_last()[k]).fields@,
        ) by {
            assert(s.drop_last()[k] == s[k]);
        }
        lemma_last_entity(s.drop_last(), i);
    }
}

proof fn lemma_last_api(s: Seq<ApiContract>, i: int)
    requires
        distinct_apis(s),
        0 <= i < s.len(),
    ensures
        last_api_ix(s, s[i].method@, s[i].path@) == i,
    decreases s.len(),
{
    if i < s.len() - 1 {
        assert(s.last() == s[s.len() - 1]);
        assert(s.drop_last()[i] == s[i]);
        assert forall|k: int| 0 <= k < s.drop_last().len() implies distinct_fields(
            (#[trigger] s.drop_last()[k]).request.fields@,
        ) && distinct_fields(s.drop_last()[k].response.fields@) by {
            assert(s.drop_last()[k] == s[k]);
        }
        lemma_last_api(s.drop_last(), i);
    }
}

proof fn lemma_last_event(s: Seq<EventContract>, i: int)
    requires
        distinct_events(s),
        0 <= i < s.len(),
    ensures
        last_event_ix(s, s[i].name@) == i,
    decreases s.len(),
{
    if i < s.len() - 1 {
        assert(s.last() == s[s.len() - 1]);
        assert(s.drop_last()[i] == s[i]);
        assert forall|k: int| 0 <= k < s.drop_last().len() implies distinct_fields(
            (#[trigger] s.drop_last()[k]).payload.fields@,
        ) by {
            assert(s.drop_last()[k] == s[k]);
        }
        lemma_last_event(s.drop_last(), i);
    }
}

proof fn lemma_fields_match_themselves(
    kind: ContractDriftKind,
    scope: Seq<char>,
    entity: Seq<char>,
    all: Seq<FieldContract>,
    n: int,
    deps: Seq<ConsumerDependency>,
)
    requires
        distinct_fields(all),
        0 <= n <= all.len(),
    ensures
        schema_drift_spec(kind, scope, all.subrange(0, n), all, deps) == Seq::<ContractDriftView>::empty(),
        data_fields_drift(entity, all.subrange(0, n), all, deps) == Seq::<ContractDriftView>::empty(),
    decreases n,
{
    if n > 0 {
        lemma_fields_match_themselves(kind, scope, entity, all, n - 1, deps);
        let p = all.subrange(0, n);
        assert(p.drop_last() =~= all.subrange(0, n - 1));
        assert(p.last() == all[n - 1]);
        lemma_last_field(all, n - 1);
        assert(schema_field_drift(kind, scope, p.last(), all, deps) =~= Seq::<ContractDriftView>::empty());
        assert(data_field_drift(entity, p.last(), all, deps) =~= Seq::<ContractDriftView>::empty());
        assert(schema_drift_spec(kind, scope, p, all, deps) =~= Seq::<ContractDriftView>::empty());
        assert(data_fields_drift(entity, p, all, deps) =~= Seq::<ContractDriftView>::empty());
    }
}

proof fn lemma_whole_fields_match(kind: ContractDriftKind, scope: Seq<char>, entity: Seq<char>, all: Seq<FieldContract>, deps: Seq<ConsumerDependency>)
    requires
        distinct_fields(all),
    ensures
        schema_drift_spec(kind, scope, all, all, deps) == Seq::<ContractDriftView>::empty(),
        data_fields_drift(entity, all, all, deps) == Seq::<ContractDriftView>::empty(),
{
    lemma_fields_match_themselves(kind, scope, entity, all, all.len() as int, deps);
    assert(all.subrange(0, all.len() as int) =~= all);
}

proof fn lemma_data_match_themselves(all: Seq<DataContract>, n: int, deps: Seq<ConsumerDependency>)
    requires
        distinct_data(all),
        0 <= n <= all.len(),
    ensures
        data_drift_spec(all.subrange(0, n), all, deps) == Seq::<ContractDriftView>::empty(),
    decreases n,
{
    if n > 0 {
        lemma_data_match_themselves(all, n - 1, deps);
        let p = all.subrange(0, n);
        assert(p.drop_last() =~= all.subrange(0, n - 1));
        let d = all[n - 1];
        assert(p.last() == d);
        lemma_last_entity(all, n - 1);
        assert(distinct_fields(all[n - 1].fields@));
        lemma_whole_fields_match(ContractDriftKind::Data, d.entity@, d.entity@, d.fields@, deps);
        assert(data_drift_spec(p, all, deps) =~= Seq::<ContractDriftView>::empty());
    }
}

proof fn lemma_apis_match_themselves(all: Seq<ApiContract>, n: int, deps: Seq<ConsumerDependency>)
    requires
        distinct_apis(all),
        0 <= n <= all.len(),
    ensures
        api_drift_spec(all.subrange(0, n), all, deps) == Seq::<ContractDriftView>::empty(),
    decreases n,
{
    if n > 0 {
        lemma_apis_match_themselves(all, n - 1, deps);
        let p = all.subrange(0, n);
        assert(p.drop_last() =~= all.subrange(0, n - 1));
        let a = all[n - 1];
        assert(p.last() == a);
        lemma_last_api(all, n - 1);
        assert(distinct_fields(all[n - 1].request.fields@));
        let endpoint = a.method@ + " "@ + a.path@;
        lemma_whole_fields_match(ContractDriftKind::Api, endpoint + " request"@, endpoint, a.request.fields@, deps);
        lemma_whole_fields_match(ContractDriftKind::Api, endpoint + " response"@, endpoint, a.response.fields@, deps);
        assert(api_drift_one(a, all, deps) =~= Seq::<ContractDriftView>::empty());
        assert(api_drift_spec(p, all, deps) =~= Seq::<ContractDriftView>::empty());
    }
}

proof fn lemma_events_match_themselves(all: Seq<EventContract>, n: int, deps: Seq<ConsumerDependency>)
    requires
        distinct_events(all),
        0 <= n <= all.len(),
    ensures
        event_drift_spec(all.subrange(0, n), all, deps) == Seq::<ContractDriftView>::empty(),
    decreases n,
{
    if n > 0 {
        lemma_events_match_themselves(all, n - 1, deps);
        let p = all.subrange(0, n);
        assert(p.drop_last() =~= all.subrange(0, n - 1));
        let e = all[n - 1];
        assert(p.last() == e);
        lemma_last_event(all, n - 1);
        assert(distinct_fields(all[n - 1].payload.fields@));
        lemma_whole_fields_match(
            ContractDriftKind::Event,
            "event "@ + e.name@ + " payload"@,
            e.name@,
            e.payload.fields@,
            deps,
        );
        assert(event_drift_one(e, all, deps) =~= Seq::<ContractDriftView>::empty());
        assert(event_drift_spec(p, all, deps) =~= Seq::<ContractDriftView>::empty());
    }
}

proof fn lemma_processes_match_themselves(all: Seq<ProcessContract>, n: int)
    requires
        0 <= n <= all.len(),
    ensures
        process_drift_spec(all.subrange(0, n), all) == Seq::<ContractDriftView>::empty(),
    decreases n,
{
    if n > 0 {
        lemma_processes_match_themselves(all, n - 1);
        let p = all.subrange(0, n);
        assert(p.drop_last() =~= all.subrange(0, n - 1));
        assert(p.last() == all[n - 1]);
        assert(process_observed(all, all[n - 1]));
        assert(process_drift_spec(p, all) =~= Seq::<ContractDriftView>::empty());
    }
}

/// An observation that shows exactly what a contract declares (its data
/// contracts, endpoints, events and process emissions, with no ownership
/// writes and no violated guarantees) yields no drift, when the contract
/// names each entity, endpoint, event and field once.
pub proof fn law_matching_observation_has_no_drift(
    declared: SubsystemContract,
    observed: ObservedContractReality,
)
    requires
        observed.data_contracts@ == declared.data_contracts@,
        observed.apis@ == declared.provides.apis@,
        observed.events@ == declared.provides.events@,
        observed.process_emissions@ == declared.process_contracts@,
        observed.ownership_writes@.len() == 0,
        observed.violated_guarantees@.len() == 0,
        distinct_data(declared.data_contracts@),
        distinct_apis(declared.provides.apis@),
        distinct_events(declared.provides.events@),
    ensures
        subsystem_drift_spec(declared, observed) == Seq::<ContractDriftView>::empty(),
{
    let deps = declared.consumer_dependencies@;
    let d = declared.data_contracts@;
    let a = declared.provides.apis@;
    let e = declared.provides.events@;
    let p = declared.process_contracts@;
    lemma_data_match_themselves(d, d.len() as int, deps);
    assert(d.subrange(0, d.len() as int) =~= d);
    lemma_apis_match_themselves(a, a.len() as int, deps);
    assert(a.subrange(0, a.len() as int) =~= a);
    lemma_events_match_themselves(e, e.len() as int, deps);
    assert(e.subrange(0, e.len() as int) =~= e);
    lemma_processes_match_themselves(p, p.len() as int);
    assert(p.subrange(0, p.len() as int) =~= p);
    assert(writes_view(observed.ownership_writes@).len() == 0);
    assert(strs(observed.violated_guarantees@).len() == 0);
    assert(subsystem_drift_spec(declared, observed) =~= Seq::<ContractDriftView>::empty());
}

} // verus!

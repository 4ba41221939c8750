//! Test scenarios generated from an OpenAPI document: a happy path, one
//! validation error per required field, and a boundary case per operation.
use vstd::prelude::*;

use crate::api_engine::openapi::{import_openapi, op_lt, op_view, openapi_ops, OpView};
use crate::api_engine::requests::{build_happy_path_body, happy_body};
use crate::api_engine::responses::ExpectedResponse;
use crate::api_engine::schemas::{catalog_of, extract_schema_catalog, first_string, first_string_field, props, required_fields, required_of};
use crate::json::{entries_of, find_key, insert_entry, jv, lemma_entries_view, lemma_key_pos, obj_get, obj_insert, JsonValue, JsonView};
use crate::sorting::stable_order_by;
use crate::text::{cat, cat3, push_char, strs};

verus! {

#[derive(Debug, Clone, Copy, PartialEq, Eq, Structural)]
pub enum ScenarioKind {
    HappyPath,
    Validation,
    Boundary,
}

#[derive(Debug)]
pub struct Scenario {
    pub name: String,
    pub method: String,
    pub path: String,
    pub kind: ScenarioKind,
    pub body: JsonValue,
    pub expected_status: u16,
}

pub struct ScenarioView {
    pub name: Seq<char>,
    pub method: Seq<char>,
    pub path: Seq<char>,
    pub kind: ScenarioKind,
    pub body: JsonView,
    pub status: u16,
}

pub open spec fn scenario_view(s: Scenario) -> ScenarioView {
    ScenarioView {
        name: s.name@,
        method: s.method@,
        path: s.path@,
        kind: s.kind,
        body: jv(s.body),
        status: s.expected_status,
    }
}

pub open spec fn scenarios_view(v: Seq<Scenario>) -> Seq<ScenarioView> {
    v.map_values(|s: Scenario| scenario_view(s))
}

/// One more than the longest string a common API accepts.
pub open spec fn boundary_string() -> Seq<char> {
    Seq::new(257, |i: int| 'x')
}

/// The body with `field` set to `value` (a body that is not an object stays
/// as it is).
pub open spec fn with_field(body: JsonView, field: Seq<char>, value: JsonView) -> JsonView {
    match body {
        JsonView::Object(es) => JsonView::Object(obj_insert(es, field, value)),
        _ => body,
    }
}

/// The scenarios of one operation whose request schema is in the catalog.
pub open spec fn op_scenarios(op: OpView, catalog: Seq<(Seq<char>, JsonView)>) -> Seq<ScenarioView> {
    match op.request {
        None => Seq::empty(),
        Some(name) => match obj_get(catalog, name) {
            None => Seq::empty(),
            Some(schema) => {
                let happy = happy_body(schema);
                let prefix = op.method + " "@ + op.path;
                seq![
                    ScenarioView {
                        name: prefix + " happy path"@,
                        method: op.method,
                        path: op.path,
                        kind: ScenarioKind::HappyPath,
                        body: happy,
                        status: 200,
                    },
                ] + required_of(schema).map_values(
                    |f: Seq<char>|
                        ScenarioView {
                            name: prefix + " validation error ("@ + f + ")"@,
                            method: op.method,
                            path: op.path,
                            kind: ScenarioKind::Validation,
                            body: with_field(happy, f, JsonView::Null),
                            status: 400,
                        },
                ) + seq![
                    ScenarioView {
                        name: prefix + " boundary"@,
                        method: op.method,
                        path: op.path,
                        kind: ScenarioKind::Boundary,
                        body: match first_string(props(schema)) {
                            Some(f) => with_field(happy, f, JsonView::Str(boundary_string())),
                            None => happy,
                        },
                        status: 400,
                    },
                ]
            },
        },
    }
}

pub open spec fn ops_scenarios(ops: Seq<OpView>, catalog: Seq<(Seq<char>, JsonView)>) -> Seq<ScenarioView>
    decreases ops.len(),
{
    if ops.len() == 0 {
        Seq::empty()
    } else {
        ops_scenarios(ops.drop_last(), catalog) + op_scenarios(ops.last(), catalog)
    }
}

/// The operations of a document in the order `import_openapi` gives them.
pub open spec fn sorted_ops(spec: JsonView) -> Seq<OpView> {
    let u = openapi_ops(spec);
    Seq::new(u.len(), |k: int| u[stable_order_by(u, u.len(), op_lt())[k]])
}

fn boundary_value() -> (r: JsonValue)
    ensures
        jv(r) == JsonView::Str(boundary_string()),
{
    let mut s = String::new();
    let mut i: usize = 0;
    while i < 257
        invariant
            i <= 257,
            s@ == Seq::new(i as nat, |j: int| 'x'),
        decreases 257 - i,
    {
        push_char(&mut s, 'x');
        assert(s@ =~= Seq::new((i + 1) as nat, |j: int| 'x'));
        i += 1;
    }
    JsonValue::Str(s)
}

/// The body with `field` set to `value`.
fn set_field(body: JsonValue, field: &String, value: JsonValue) -> (r: JsonValue)
    ensures
        jv(r) == with_field(jv(body), field@, jv(value)),
{
    match body {
        JsonValue::Object(es) => {
            let mut es = es;
            insert_entry(&mut es, field.clone(), value);
            JsonValue::Object(es)
        },
        other => other,
    }
}

fn push_scenario(out: &mut Vec<Scenario>, s: Scenario)
    ensures
        scenarios_view(final(out)@) == scenarios_view(old(out)@).push(scenario_view(s)),
{
    out.push(s);
    assert(scenarios_view(out@) =~= scenarios_view(old(out)@).push(scenario_view(s)));
}

/// Happy-path, validation and boundary scenarios for every operation of the
/// document that names a request schema found in its catalog.
pub fn generate_test_scenarios(spec: &JsonValue) -> (r: Vec<Scenario>)
    ensures
        scenarios_view(r@) == ops_scenarios(sorted_ops(jv(*spec)), catalog_of(jv(*spec))),
{
    let graph = import_openapi(spec);
    let schemas = extract_schema_catalog(spec);
    let ghost so = sorted_ops(jv(*spec));
    let ghost cat_v = catalog_of(jv(*spec));
    proof {
        lemma_entries_view(schemas@, schemas@.len() as int);
    }
    assert(graph.operations@.map_values(|o: crate::api_engine::openapi::ApiOperation| op_view(o)) =~= so);
    let ops = &graph.operations;
    let mut out: Vec<Scenario> = Vec::new();
    let mut i: usize = 0;
    while i < ops.len()
        invariant
            i <= ops.len(),
            ops@.map_values(|o: crate::api_engine::openapi::ApiOperation| op_view(o)) == so,
            cat_v == entries_of(schemas@),
            cat_v.len() == schemas@.len(),
            forall|j: int| 0 <= j < cat_v.len() ==> #[trigger] cat_v[j] == (schemas@[j].0@, jv(schemas@[j].1)),
            scenarios_view(out@) == ops_scenarios(so.subrange(0, i as int), cat_v),
        decreases ops.len() - i,
    {
        let op = &ops[i];
        let ghost t = so.subrange(0, i + 1);
        assert(t.drop_last() =~= so.subrange(0, i as int));
        assert(t.last() == op_view(*op));
        let ghost start = scenarios_view(out@);
        match &op.request_schema {
            None => {
                assert(scenarios_view(out@) =~= start + Seq::<ScenarioView>::empty());
            },
            Some(name) => {
                proof {
                    lemma_key_pos(cat_v, name@);
                }
                match find_key(&schemas, name.as_str()) {
                    None => {
                        assert(scenarios_view(out@) =~= start + Seq::<ScenarioView>::empty());
                    },
                    Some(k) => {
                        let schema = &schemas[k].1;
                        let ghost sv = jv(*schema);
                        let prefix = cat3(op.method.as_str(), " ", op.path.as_str());
                        let happy = build_happy_path_body(schema);
                        let ghost hv = jv(happy);
                        push_scenario(
                            &mut out,
                            Scenario {
                                name: cat(prefix.as_str(), " happy path"),
                                method: op.method.clone(),
                                path: op.path.clone(),
                                kind: ScenarioKind::HappyPath,
                                body: crate::json::copy_json(&happy),
                                expected_status: ExpectedResponse::Success.status_code(),
                            },
                        );
                        let ghost after_happy = scenarios_view(out@);
                        let required = required_fields(schema);
                        let ghost rq = strs(required@);
                        let mut j: usize = 0;
                        while j < required.len()
                            invariant
                                j <= required.len(),
                                rq == strs(required@),
                                hv == jv(happy),
                                prefix@ == op.method@ + " "@ + op.path@,
                                scenarios_view(out@) == after_happy + rq.subrange(0, j as int).map_values(
                                    |f: Seq<char>|
                                        ScenarioView {
                                            name: prefix@ + " validation error ("@ + f + ")"@,
                                            method: op.method@,
                                            path: op.path@,
                                            kind: ScenarioKind::Validation,
                                            body: with_field(hv, f, JsonView::Null),
                                            status: 400,
                                        },
                                ),
                            decreases required.len() - j,
                        {
                            let field = &required[j];
                            let body = set_field(crate::json::copy_json(&happy), field, JsonValue::Null);
                            let name_j = cat(
                                cat(prefix.as_str(), " validation error (").as_str(),
                                cat(field.as_str(), ")").as_str(),
                            );
                            assert(name_j@ =~= prefix@ + " validation error ("@ + field@ + ")"@);
                            let ghost before = scenarios_view(out@);
                            push_scenario(
                                &mut out,
                                Scenario {
                                    name: name_j,
                                    method: op.method.clone(),
                                    path: op.path.clone(),
                                    kind: ScenarioKind::Validation,
                                    body,
                                    expected_status: ExpectedResponse::ValidationError.status_code(),
                                },
                            );
                            assert(rq.subrange(0, j + 1) =~= rq.subrange(0, j as int).push(field@));
                            j += 1;
                        }
                        assert(rq.subrange(0, rq.len() as int) =~= rq);
                        let ghost after_validation = scenarios_view(out@);
                        let boundary_body = match first_string_field(schema) {
                            Some(f) => set_field(crate::json::copy_json(&happy), &f, boundary_value()),
                            None => crate::json::copy_json(&happy),
                        };
                        push_scenario(
                            &mut out,
                            Scenario {
                                name: cat(prefix.as_str(), " boundary"),
                                method: op.method.clone(),
                                path: op.path.clone(),
                                kind: ScenarioKind::Boundary,
                                body: boundary_body,
                                expected_status: ExpectedResponse::ValidationError.status_code(),
                            },
                        );
                        assert(scenarios_view(out@) =~= start + op_scenarios(op_view(*op), cat_v));
                    },
                }
            },
        }
        i += 1;
    }
    assert(so.subrange(0, so.len() as int) =~= so);
    out
}

} // verus!

//! Validation of observed requests, responses, authorization and lifecycle
//! events against an endpoint contract.
use vstd::prelude::*;

use crate::contracts::definition::{ApiContract, FieldContract, SchemaContract};
use crate::json::{
    entries_of, find_key, jv, lemma_entries_view, lemma_key_pos, obj_get, JsonValue, JsonView,
};
use crate::text::{cat, cat3, opt_view, owned, str_eq, strs};

verus! {

#[derive(Debug, Clone, Copy, PartialEq, Eq, Structural)]
pub enum ContractValidationKind {
    RequestSchema,
    ResponseSchema,
    Authorization,
    Lifecycle,
}

#[derive(Debug, Clone, PartialEq, Eq)]
pub struct ContractValidationIssue {
    pub kind: ContractValidationKind,
    pub target: String,
    pub message: String,
}

pub struct IssueView {
    pub kind: ContractValidationKind,
    pub target: Seq<char>,
    pub message: Seq<char>,
}

pub open spec fn issues_view(v: Seq<ContractValidationIssue>) -> Seq<IssueView> {
    v.map_values(|i: ContractValidationIssue| IssueView { kind: i.kind, target: i.target@, message: i.message@ })
}

/// The JSON type of a value; numbers are `number` when floating-point, else
/// `integer`.
pub open spec fn json_type(v: JsonView) -> Seq<char> {
    match v {
        JsonView::Null => "null"@,
        JsonView::Bool(_) => "boolean"@,
        JsonView::Number(_, float) => if float {
            "number"@
        } else {
            "integer"@
        },
        JsonView::Str(_) => "string"@,
        JsonView::Array(_) => "array"@,
        JsonView::Object(_) => "object"@,
    }
}

fn value_type(v: &JsonValue) -> (r: String)
    ensures
        r@ == json_type(jv(*v)),
{
    match v {
        JsonValue::Null => owned("null"),
        JsonValue::Bool(_) => owned("boolean"),
        JsonValue::Number { float, .. } => if *float {
            owned("number")
        } else {
            owned("integer")
        },
        JsonValue::Str(_) => owned("string"),
        JsonValue::Array(_) => owned("array"),
        JsonValue::Object(_) => owned("object"),
    }
}

/// The message for one field of a schema, if the payload breaks it: a
/// required field that is missing or `null`, or a present, non-null value of
/// another type.
pub open spec fn field_error(f: FieldContract, obj: Seq<(Seq<char>, JsonView)>) -> Option<Seq<char>> {
    let value = obj_get(obj, f.name@);
    if f.required && (value is None || value == Some(JsonView::Null)) {
        Some(f.name@ + " is required"@)
    } else {
        match value {
            None => None,
            Some(JsonView::Null) => None,
            Some(v) => if json_type(v) == f.field_type@ {
                None
            } else {
                Some(f.name@ + " expected "@ + f.field_type@ + ", got "@ + json_type(v))
            },
        }
    }
}

pub open spec fn field_errors(fields: Seq<FieldContract>, obj: Seq<(Seq<char>, JsonView)>) -> Seq<Seq<char>>
    decreases fields.len(),
{
    if fields.len() == 0 {
        Seq::empty()
    } else {
        field_errors(fields.drop_last(), obj) + match field_error(fields.last(), obj) {
            Some(m) => seq![m],
            None => Seq::empty(),
        }
    }
}

/// A payload that is not an object fails as a whole; else one message per
/// field it breaks, in field order.
pub open spec fn payload_errors(schema: SchemaContract, payload: JsonView) -> Seq<Seq<char>> {
    match payload {
        JsonView::Object(obj) => field_errors(schema.fields@, obj),
        _ => seq!["payload is not an object"@],
    }
}

pub fn validate_schema_payload(schema: &SchemaContract, payload: &JsonValue) -> (r: Vec<String>)
    ensures
        strs(r@) == payload_errors(*schema, jv(*payload)),
{
    let obj = match payload {
        JsonValue::Object(es) => es,
        _ => {
            let mut r: Vec<String> = Vec::new();
            r.push(owned("payload is not an object"));
            assert(strs(r@) =~= seq!["payload is not an object"@]);
            return r;
        },
    };
    proof {
        lemma_entries_view(obj@, obj@.len() as int);
    }
    let ghost o = entries_of(obj@);
    let fields = &schema.fields;
    let mut out: Vec<String> = Vec::new();
    let mut i: usize = 0;
    while i < fields.len()
        invariant
            i <= fields.len(),
            fields == &schema.fields,
            o == entries_of(obj@),
            o.len() == obj@.len(),
            forall|j: int| 0 <= j < o.len() ==> #[trigger] o[j] == (obj@[j].0@, jv(obj@[j].1)),
            strs(out@) == field_errors(fields@.subrange(0, i as int), o),
        decreases fields.len() - i,
    {
        let f = &fields[i];
        let ghost t = fields@.subrange(0, i + 1);
        assert(t.drop_last() =~= fields@.subrange(0, i as int));
        assert(t.last() == *f);
        proof {
            lemma_key_pos(o, f.name@);
        }
        let value = match find_key(obj, f.name.as_str()) {
            Some(k) => Some(&obj[k].1),
            None => None,
        };
        let is_null = match value {
            Some(JsonValue::Null) => true,
            _ => false,
        };
        let ghost before = out@;
        if f.required && (value.is_none() || is_null) {
            let m = cat(f.name.as_str(), " is required");
            out.push(m);
            assert(strs(out@) =~= strs(before).push(m@));
        } else {
            match value {
                None => {},
                Some(v) => {
                    if !is_null {
                        let actual = value_type(v);
                        if !str_eq(actual.as_str(), f.field_type.as_str()) {
                            let m = cat(
                                cat3(f.name.as_str(), " expected ", f.field_type.as_str()).as_str(),
                                cat(", got ", actual.as_str()).as_str(),
                            );
                            assert(m@ =~= f.name@ + " expected "@ + f.field_type@ + ", got "@ + json_type(jv(*v)));
                            out.push(m);
                            assert(strs(out@) =~= strs(before).push(m@));
                        }
                    }
                },
            }
        }
        i += 1;
    }
    assert(fields@.subrange(0, fields@.len() as int) =~= fields@);
    out
}

/// How `{:?}` prints an optional string: `None`, or `Some("…")` with the
/// string escaped as Rust's debug form escapes it.
pub uninterp spec fn debug_opt(o: Option<Seq<char>>) -> Seq<char>;

/// Wraps `format!("{:?}", o)` for an optional string slice; its result is
/// named, as the debug escaping of strings takes pages to state.
#[verifier::external_body]
fn debug_opt_str(o: Option<&str>) -> (r: String)
    ensures
        r@ == debug_opt(match o {
            Some(s) => Some(s@),
            None => None,
        }),
{
    format!("{:?}", o)
}

pub open spec fn tagged(kind: ContractValidationKind, target: Seq<char>, messages: Seq<Seq<char>>) -> Seq<IssueView> {
    messages.map_values(|m: Seq<char>| IssueView { kind, target, message: m })
}

pub open spec fn missing_events(expected: Seq<Seq<char>>, observed: Seq<Seq<char>>) -> Seq<Seq<char>>
    decreases expected.len(),
{
    if expected.len() == 0 {
        Seq::empty()
    } else {
        missing_events(expected.drop_last(), observed) + if observed.contains(expected.last()) {
            Seq::empty()
        } else {
            seq![expected.last()]
        }
    }
}

/// The issues of one observed exchange with an endpoint: request and
/// response payload errors, an authorization context other than the
/// contract's, and each declared lifecycle event that was not observed.
pub open spec fn api_issues(
    api: ApiContract,
    request: JsonView,
    response: JsonView,
    authorization: Option<Seq<char>>,
    events: Seq<Seq<char>>,
) -> Seq<IssueView> {
    let target = api.method@ + " "@ + api.path@;
    tagged(ContractValidationKind::RequestSchema, target, payload_errors(api.request, request))
        + tagged(ContractValidationKind::ResponseSchema, target, payload_errors(api.response, response))
        + if opt_view(api.authorization) != authorization {
        seq![
            IssueView {
                kind: ContractValidationKind::Authorization,
                target,
                message: "authorization expected "@ + debug_opt(opt_view(api.authorization)) + ", got "@
                    + debug_opt(authorization),
            },
        ]
    } else {
        Seq::empty()
    } + tagged(
        ContractValidationKind::Lifecycle,
        target,
        missing_events(strs(api.lifecycle@), events).map_values(
            |e: Seq<char>| "missing lifecycle event "@ + e,
        ),
    )
}

fn push_tagged(
    out: &mut Vec<ContractValidationIssue>,
    kind: ContractValidationKind,
    target: &String,
    messages: Vec<String>,
)
    ensures
        issues_view(final(out)@) == issues_view(old(out)@) + tagged(kind, target@, strs(messages@)),
{
    let ghost start = issues_view(out@);
    let mut i: usize = 0;
    while i < messages.len()
        invariant
            i <= messages.len(),
            issues_view(out@) == start + tagged(kind, target@, strs(messages@).subrange(0, i as int)),
        decreases messages.len() - i,
    {
        let issue = ContractValidationIssue { kind, target: target.clone(), message: messages[i].clone() };
        let ghost before = out@;
        out.push(issue);
        assert(issues_view(out@) =~= issues_view(before).push(
            IssueView { kind, target: target@, message: messages@[i as int]@ },
        ));
        assert(strs(messages@).subrange(0, i + 1) =~= strs(messages@).subrange(0, i as int).push(messages@[i as int]@));
        assert(issues_view(out@) =~= start + tagged(kind, target@, strs(messages@).subrange(0, i + 1)));
        i += 1;
    }
    assert(strs(messages@).subrange(0, messages@.len() as int) =~= strs(messages@));
}

/// Validates one exchange with an endpoint (see `api_issues`).
pub fn validate_api_contract(
    api: &ApiContract,
    request: &JsonValue,
    response: &JsonValue,
    authorization_context: Option<&str>,
    lifecycle_events: &Vec<String>,
) -> (r: Vec<ContractValidationIssue>)
    ensures
        issues_view(r@) == api_issues(
            *api,
            jv(*request),
            jv(*response),
            match authorization_context {
                Some(s) => Some(s@),
                None => None,
            },
            strs(lifecycle_events@),
        ),
{
    let target = cat3(api.method.as_str(), " ", api.path.as_str());
    let mut issues: Vec<ContractValidationIssue> = Vec::new();
    assert(issues_view(issues@) =~= Seq::<IssueView>::empty());
    push_tagged(&mut issues, ContractValidationKind::RequestSchema, &target, validate_schema_payload(&api.request, request));
    push_tagged(&mut issues, ContractValidationKind::ResponseSchema, &target, validate_schema_payload(&api.response, response));
    let ghost after_schemas = issues_view(issues@);
    let expected_auth: Option<&str> = match &api.authorization {
        Some(a) => Some(a.as_str()),
        None => None,
    };
    let same = match (expected_auth, authorization_context) {
        (Some(a), Some(b)) => str_eq(a, b),
        (None, None) => true,
        _ => false,
    };
    let ghost auth_view = match authorization_context {
        Some(s) => Some(s@),
        None => None,
    };
    assert(same == (opt_view(api.authorization) == auth_view));
    let ghost exp_view = match expected_auth {
        Some(s) => Some(s@),
        None => None,
    };
    assert(exp_view == opt_view(api.authorization));
    if !same {
        let d1 = debug_opt_str(expected_auth);
        let d2 = debug_opt_str(authorization_context);
        let message = cat(
            cat("authorization expected ", d1.as_str()).as_str(),
            cat(", got ", d2.as_str()).as_str(),
        );
        assert(message@ =~= "authorization expected "@ + debug_opt(opt_view(api.authorization)) + ", got "@ + debug_opt(auth_view));
        let issue = ContractValidationIssue {
            kind: ContractValidationKind::Authorization,
            target: target.clone(),
            message,
        };
        let ghost before = issues@;
        issues.push(issue);
        assert(issues_view(issues@) =~= issues_view(before).push(
            IssueView { kind: ContractValidationKind::Authorization, target: target@, message: issue.message@ },
        ));
    }
    let ghost after_auth = issues_view(issues@);
    let mut missing: Vec<String> = Vec::new();
    let mut i: usize = 0;
    while i < api.lifecycle.len()
        invariant
            i <= api.lifecycle.len(),
            strs(missing@) == missing_events(strs(api.lifecycle@).subrange(0, i as int), strs(lifecycle_events@)).map_values(
                |e: Seq<char>| "missing lifecycle event "@ + e,
            ),
        decreases api.lifecycle.len() - i,
    {
        let expected = &api.lifecycle[i];
        let ghost t = strs(api.lifecycle@).subrange(0, i + 1);
        assert(t.drop_last() =~= strs(api.lifecycle@).subrange(0, i as int));
        assert(t.last() == expected@);
        if !crate::strset::contains_string(lifecycle_events, expected.as_str()) {
            let m = cat("missing lifecycle event ", expected.as_str());
            let ghost before = strs(missing@);
            missing.push(m);
            assert(strs(missing@) =~= before.push(m@));
        }
        i += 1;
    }
    assert(strs(api.lifecycle@).subrange(0, api.lifecycle@.len() as int) =~= strs(api.lifecycle@));
    let ghost lifecycle_part = strs(missing@);
    push_tagged(&mut issues, ContractValidationKind::Lifecycle, &target, missing);
    let ghost tv = api.method@ + " "@ + api.path@;
    assert(target@ == tv);
    let ghost req_part = tagged(ContractValidationKind::RequestSchema, tv, payload_errors(api.request, jv(*request)));
    let ghost resp_part = tagged(ContractValidationKind::ResponseSchema, tv, payload_errors(api.response, jv(*response)));
    assert(after_schemas =~= req_part + resp_part);
    assert(issues_view(issues@) =~= api_issues(*api, jv(*request), jv(*response), auth_view, strs(lifecycle_events@)));
    issues
}

} // verus!

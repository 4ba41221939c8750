//! The operations of an OpenAPI description.
use vstd::prelude::*;

use crate::json::{
    as_str, entries_of, get, jv, lemma_entries_view, member, obj_get, opt_jv, str_of, JsonValue,
    JsonView,
};
use crate::sorting::{insert_pos_by, lemma_stable_order_by_range, stable_order_by};
use crate::text::{clone_opt, opt_view, owned, seq_lt, split, split_seq, str_eq, str_lt, strs, upper, upper_seq};

verus! {

/// One operation: an upper-case HTTP method, a path, and the names of its
/// JSON request and response schemas where it has them.
#[derive(Debug, Clone, PartialEq, Eq)]
pub struct ApiOperation {
    pub method: String,
    pub path: String,
    pub request_schema: Option<String>,
    pub response_schema: Option<String>,
}

#[derive(Debug, Clone, PartialEq, Eq)]
pub struct ApiGraph {
    pub operations: Vec<ApiOperation>,
}

impl Default for ApiGraph {
    fn default() -> (r: Self)
        ensures
            r.operations@.len() == 0,
    {
        ApiGraph { operations: Vec::new() }
    }
}

pub struct OpView {
    pub method: Seq<char>,
    pub path: Seq<char>,
    pub request: Option<Seq<char>>,
    pub response: Option<Seq<char>>,
}

pub open spec fn op_view(o: ApiOperation) -> OpView {
    OpView {
        method: o.method@,
        path: o.path@,
        request: opt_view(o.request_schema),
        response: opt_view(o.response_schema),
    }
}

/// Operations ordered by path, then method.
pub open spec fn op_lt() -> spec_fn(OpView, OpView) -> bool {
    |a: OpView, b: OpView| seq_lt(a.path, b.path) || (a.path == b.path && seq_lt(a.method, b.method))
}

/// The name of a schema: the last `/`-separated part of its `$ref`, else
/// its `title`.
pub open spec fn schema_name(s: JsonView) -> Option<Seq<char>> {
    match str_of(member(s, "$ref"@)) {
        Some(r) => Some(split_seq(r, '/').last()),
        None => str_of(member(s, "title"@)),
    }
}

/// The member `key` of an optional value.
pub open spec fn at(v: Option<JsonView>, key: Seq<char>) -> Option<JsonView> {
    match v {
        Some(x) => member(x, key),
        None => None,
    }
}

pub open spec fn named_schema(s: Option<JsonView>) -> Option<Seq<char>> {
    match s {
        Some(x) => schema_name(x),
        None => None,
    }
}

/// The schema of an operation's JSON request body.
pub open spec fn request_schema_of(op: JsonView) -> Option<Seq<char>> {
    named_schema(at(at(at(member(op, "requestBody"@), "content"@), "application/json"@), "schema"@))
}

/// The `200` response, else the first response.
pub open spec fn chosen_response(rs: Seq<(Seq<char>, JsonView)>) -> Option<JsonView> {
    match obj_get(rs, "200"@) {
        Some(x) => Some(x),
        None => if rs.len() > 0 {
            Some(rs[0].1)
        } else {
            None
        },
    }
}

/// The schema of an operation's JSON response body.
pub open spec fn response_schema_of(op: JsonView) -> Option<Seq<char>> {
    match member(op, "responses"@) {
        Some(JsonView::Object(rs)) => named_schema(at(at(at(chosen_response(rs), "content"@), "application/json"@), "schema"@)),
        _ => None,
    }
}

/// The methods an operation may be listed under, in the order they are read.
pub open spec fn method_names() -> Seq<Seq<char>> {
    seq!["get"@, "post"@, "put"@, "patch"@, "delete"@, "options"@, "head"@]
}

pub open spec fn path_ops(path: Seq<char>, item: JsonView, ms: Seq<Seq<char>>) -> Seq<OpView>
    decreases ms.len(),
{
    if ms.len() == 0 {
        Seq::empty()
    } else {
        path_ops(path, item, ms.drop_last()) + match member(item, ms.last()) {
            Some(JsonView::Object(o)) => seq![
                OpView {
                    method: upper_seq(ms.last()),
                    path,
                    request: request_schema_of(JsonView::Object(o)),
                    response: response_schema_of(JsonView::Object(o)),
                },
            ],
            _ => Seq::empty(),
        }
    }
}

pub open spec fn all_ops(paths: Seq<(Seq<char>, JsonView)>) -> Seq<OpView>
    decreases paths.len(),
{
    if paths.len() == 0 {
        Seq::empty()
    } else {
        all_ops(paths.drop_last()) + match paths.last().1 {
            JsonView::Object(_) => path_ops(paths.last().0, paths.last().1, method_names()),
            _ => Seq::empty(),
        }
    }
}

/// The operations of every path item's object-valued methods, before
/// sorting.
pub open spec fn openapi_ops(spec: JsonView) -> Seq<OpView> {
    match member(spec, "paths"@) {
        Some(JsonView::Object(ps)) => all_ops(ps),
        _ => Seq::empty(),
    }
}

fn follow<'a>(v: Option<&'a JsonValue>, key: &str) -> (r: Option<&'a JsonValue>)
    ensures
        opt_jv(r) == at(opt_jv(v), key@),
{
    match v {
        Some(x) => get(x, key),
        None => None,
    }
}

/// The name of a schema: the last part of its `$ref`, else its `title`.
pub fn schema_name_from_ref_or_inline(schema: &JsonValue) -> (r: Option<String>)
    ensures
        opt_view(r) == schema_name(jv(*schema)),
{
    proof {
        reveal_strlit("$ref");
        reveal_strlit("title");
    }
    match as_str(get(schema, "$ref")) {
        Some(reference) => {
            let parts = split(reference, '/');
            proof {
                crate::text::lemma_split_nonempty(reference@, crate::text::sep_fn(false, '/'));
            }
            let last = parts.len() - 1;
            assert(strs(parts@)[last as int] == parts@[last as int]@);
            Some(parts[last].clone())
        },
        None => match as_str(get(schema, "title")) {
            Some(t) => Some(owned(t)),
            None => None,
        },
    }
}

fn named_schema_of(s: Option<&JsonValue>) -> (r: Option<String>)
    ensures
        opt_view(r) == named_schema(opt_jv(s)),
{
    match s {
        Some(x) => schema_name_from_ref_or_inline(x),
        None => None,
    }
}

fn request_schema(op: &JsonValue) -> (r: Option<String>)
    ensures
        opt_view(r) == request_schema_of(jv(*op)),
{
    let body = get(op, "requestBody");
    named_schema_of(follow(follow(follow(body, "content"), "application/json"), "schema"))
}

fn response_schema(op: &JsonValue) -> (r: Option<String>)
    ensures
        opt_view(r) == response_schema_of(jv(*op)),
{
    match get(op, "responses") {
        Some(JsonValue::Object(rs)) => {
            proof {
                lemma_entries_view(rs@, rs@.len() as int);
            }
            let chosen = match crate::json::find_key(rs, "200") {
                Some(k) => Some(&rs[k].1),
                None => if rs.len() > 0 {
                    Some(&rs[0].1)
                } else {
                    None
                },
            };
            assert(opt_jv(chosen) == chosen_response(entries_of(rs@)));
            named_schema_of(follow(follow(follow(chosen, "content"), "application/json"), "schema"))
        },
        _ => None,
    }
}

fn copy_op(o: &ApiOperation) -> (r: ApiOperation)
    ensures
        op_view(r) == op_view(*o),
{
    ApiOperation {
        method: o.method.clone(),
        path: o.path.clone(),
        request_schema: clone_opt(&o.request_schema),
        response_schema: clone_opt(&o.response_schema),
    }
}

fn op_less(a: &ApiOperation, b: &ApiOperation) -> (r: bool)
    ensures
        r == (op_lt())(op_view(*a), op_view(*b)),
{
    str_lt(a.path.as_str(), b.path.as_str()) || (str_eq(a.path.as_str(), b.path.as_str()) && str_lt(
        a.method.as_str(),
        b.method.as_str(),
    ))
}

/// The operations of one path item, in the order of `method_names`.
fn item_ops(path: &String, item: &JsonValue, out: &mut Vec<ApiOperation>)
    ensures
        final(out)@.map_values(|o: ApiOperation| op_view(o)) == old(out)@.map_values(
            |o: ApiOperation| op_view(o),
        ) + path_ops(path@, jv(*item), method_names()),
{
    let ghost start = out@.map_values(|o: ApiOperation| op_view(o));
    let mut methods: Vec<&str> = Vec::new();
    methods.push("get");
    methods.push("post");
    methods.push("put");
    methods.push("patch");
    methods.push("delete");
    methods.push("options");
    methods.push("head");
    let ghost names = methods@.map_values(|m: &str| m@);
    assert(names =~= method_names());
    let mut i: usize = 0;
    while i < methods.len()
        invariant
            i <= methods.len(),
            names == methods@.map_values(|m: &str| m@),
            names == method_names(),
            out@.map_values(|o: ApiOperation| op_view(o)) == start + path_ops(
                path@,
                jv(*item),
                names.subrange(0, i as int),
            ),
        decreases methods.len() - i,
    {
        let ghost t = names.subrange(0, i + 1);
        assert(t.drop_last() =~= names.subrange(0, i as int));
        assert(t.last() == methods@[i as int]@);
        let m = methods[i];
        match get(item, m) {
            Some(JsonValue::Object(_)) => {
                let op = get(item, m).unwrap();
                let o = ApiOperation {
                    method: upper(m),
                    path: path.clone(),
                    request_schema: request_schema(op),
                    response_schema: response_schema(op),
                };
                let ghost before = out@;
                out.push(o);
                assert(out@.map_values(|o: ApiOperation| op_view(o)) =~= before.map_values(
                    |o: ApiOperation| op_view(o),
                ).push(op_view(o)));
            },
            _ => {},
        }
        i += 1;
    }
    assert(names.subrange(0, names.len() as int) =~= names);
}

/// The operations of an OpenAPI document (see `openapi_ops`), stably sorted
/// by path and then method.
pub fn import_openapi(spec: &JsonValue) -> (r: ApiGraph)
    ensures
        ({
            let u = openapi_ops(jv(*spec));
            &&& r.operations@.len() == u.len()
            &&& forall|k: int|
                0 <= k < u.len() ==> op_view(#[trigger] r.operations@[k]) == u[stable_order_by(
                    u,
                    u.len(),
                    op_lt(),
                )[k]]
        }),
{
    proof {
        reveal_strlit("paths");
    }
    let paths = match get(spec, "paths") {
        Some(JsonValue::Object(ps)) => ps,
        _ => {
            return ApiGraph::default();
        },
    };
    proof {
        lemma_entries_view(paths@, paths@.len() as int);
    }
    let ghost ps = entries_of(paths@);
    let mut ops: Vec<ApiOperation> = Vec::new();
    let mut i: usize = 0;
    while i < paths.len()
        invariant
            i <= paths.len(),
            ps == entries_of(paths@),
            ps.len() == paths@.len(),
            forall|j: int| 0 <= j < ps.len() ==> #[trigger] ps[j] == (paths@[j].0@, jv(paths@[j].1)),
            ops@.map_values(|o: ApiOperation| op_view(o)) == all_ops(ps.subrange(0, i as int)),
        decreases paths.len() - i,
    {
        let ghost t = ps.subrange(0, i + 1);
        assert(t.drop_last() =~= ps.subrange(0, i as int));
        assert(t.last() == ps[i as int]);
        match &paths[i].1 {
            JsonValue::Object(_) => {
                item_ops(&paths[i].0, &paths[i].1, &mut ops);
            },
            _ => {
                assert(all_ops(t) =~= all_ops(ps.subrange(0, i as int)));
            },
        }
        i += 1;
    }
    assert(ps.subrange(0, ps.len() as int) =~= ps);
    let ghost u = ops@.map_values(|o: ApiOperation| op_view(o));
    // stable insertion sort by (path, method)
    let mut sorted: Vec<ApiOperation> = Vec::new();
    let mut j: usize = 0;
    while j < ops.len()
        invariant
            j <= ops.len(),
            u == ops@.map_values(|o: ApiOperation| op_view(o)),
            sorted@.len() == j,
            forall|k: int|
                0 <= k < j ==> op_view(#[trigger] sorted@[k]) == u[stable_order_by(u, j as nat, op_lt())[k]],
        decreases ops.len() - j,
    {
        proof {
            lemma_stable_order_by_range(u, j as nat, op_lt());
        }
        let ghost o = stable_order_by(u, j as nat, op_lt());
        let ghost key = u[j as int];
        let item = &ops[j];
        assert(op_view(*item) == key);
        let mut q: usize = 0;
        assert(o.skip(0) =~= o);
        while q < sorted.len() && !op_less(item, &sorted[q])
            invariant
                q <= sorted.len(),
                sorted@.len() == o.len(),
                op_view(*item) == key,
                forall|k: int| 0 <= k < sorted@.len() ==> op_view(#[trigger] sorted@[k]) == u[o[k]],
                insert_pos_by(o, u, key, op_lt()) == q + insert_pos_by(o.skip(q as int), u, key, op_lt()),
            decreases sorted.len() - q,
        {
            let ghost rest = o.skip(q as int);
            assert(rest[0] == o[q as int]);
            assert(rest.drop_first() =~= o.skip(q + 1));
            q += 1;
        }
        proof {
            if q < sorted.len() {
                assert(o.skip(q as int)[0] == o[q as int]);
            } else {
                assert(o.skip(q as int) =~= Seq::<int>::empty());
            }
        }
        let ghost old_sorted = sorted@;
        let c = copy_op(item);
        sorted.insert(q, c);
        proof {
            let o2 = stable_order_by(u, (j + 1) as nat, op_lt());
            assert(o2 == o.insert(q as int, j as int));
            assert forall|k: int| 0 <= k < j + 1 implies op_view(#[trigger] sorted@[k]) == u[o2[k]] by {
                if k < q {
                    assert(sorted@[k] == old_sorted[k] && o2[k] == o[k]);
                } else if k == q {
                    assert(sorted@[k] == c && o2[k] == j);
                } else {
                    assert(sorted@[k] == old_sorted[k - 1] && o2[k] == o[k - 1]);
                }
            }
        }
        j += 1;
    }
    ApiGraph { operations: sorted }
}

} // verus!

//! Reading the schemas of an OpenAPI document: the catalog, required and
//! string fields, and sample values.
use vstd::prelude::*;

use crate::json::{
    copy_json, entries_of, get, items_of, jv, lemma_entries_view, lemma_items_view, member, str_of,
    JsonValue, JsonView,
};
use crate::text::{owned, str_eq, strs};

verus! {

/// `components.schemas` of a document, as (name, schema) entries.
pub open spec fn catalog_of(spec: JsonView) -> Seq<(Seq<char>, JsonView)> {
    match spec {
        JsonView::Object(_) => match member(spec, "components"@) {
            Some(c) => match member(c, "schemas"@) {
                Some(JsonView::Object(es)) => es,
                _ => Seq::empty(),
            },
            None => Seq::empty(),
        },
        _ => Seq::empty(),
    }
}

/// The schema catalog of a document (see `catalog_of`).
pub fn extract_schema_catalog(spec: &JsonValue) -> (r: Vec<(String, JsonValue)>)
    ensures
        entries_of(r@) == catalog_of(jv(*spec)),
{
    proof {
        reveal_strlit("components");
        reveal_strlit("schemas");
    }
    let schemas = match get(spec, "components") {
        Some(c) => match get(c, "schemas") {
            Some(JsonValue::Object(es)) => es,
            _ => {
                let r: Vec<(String, JsonValue)> = Vec::new();
                assert(entries_of(r@) =~= Seq::<(Seq<char>, JsonView)>::empty());
                return r;
            },
        },
        None => {
            let r: Vec<(String, JsonValue)> = Vec::new();
            assert(entries_of(r@) =~= Seq::<(Seq<char>, JsonView)>::empty());
            return r;
        },
    };
    proof {
        lemma_entries_view(schemas@, schemas@.len() as int);
    }
    let mut r: Vec<(String, JsonValue)> = Vec::new();
    let mut i: usize = 0;
    while i < schemas.len()
        invariant
            i <= schemas.len(),
            r@.len() == i,
            forall|j: int| 0 <= j < i ==> (#[trigger] r@[j]).0@ == schemas@[j].0@ && jv(r@[j].1) == jv(schemas@[j].1),
        decreases schemas.len() - i,
    {
        r.push((schemas[i].0.clone(), copy_json(&schemas[i].1)));
        i += 1;
    }
    proof {
        lemma_entries_view(r@, r@.len() as int);
        assert(entries_of(r@) =~= entries_of(schemas@));
    }
    r
}

/// The strings of a schema's `required` array, in order.
pub open spec fn required_of(schema: JsonView) -> Seq<Seq<char>> {
    match member(schema, "required"@) {
        Some(JsonView::Array(items)) => strings_in(items),
        _ => Seq::empty(),
    }
}

pub open spec fn strings_in(items: Seq<JsonView>) -> Seq<Seq<char>>
    decreases items.len(),
{
    if items.len() == 0 {
        Seq::empty()
    } else {
        strings_in(items.drop_last()) + match items.last() {
            JsonView::Str(s) => seq![s],
            _ => Seq::empty(),
        }
    }
}

pub fn required_fields(schema: &JsonValue) -> (r: Vec<String>)
    ensures
        strs(r@) == required_of(jv(*schema)),
{
    proof {
        reveal_strlit("required");
    }
    let mut r: Vec<String> = Vec::new();
    match get(schema, "required") {
        Some(JsonValue::Array(items)) => {
            proof {
                lemma_items_view(items@, items@.len() as int);
            }
            let ghost iv = items_of(items@);
            let mut i: usize = 0;
            while i < items.len()
                invariant
                    i <= items.len(),
                    iv == items_of(items@),
                    iv.len() == items@.len(),
                    forall|j: int| 0 <= j < iv.len() ==> #[trigger] iv[j] == jv(items@[j]),
                    strs(r@) == strings_in(iv.subrange(0, i as int)),
                decreases items.len() - i,
            {
                let ghost t = iv.subrange(0, i + 1);
                assert(t.drop_last() =~= iv.subrange(0, i as int));
                assert(t.last() == jv(items@[i as int]));
                match &items[i] {
                    JsonValue::Str(s) => {
                        let ghost before = strs(r@);
                        r.push(s.clone());
                        assert(strs(r@) =~= before.push(s@));
                    },
                    _ => {},
                }
                i += 1;
            }
            assert(iv.subrange(0, iv.len() as int) =~= iv);
        },
        _ => {
            assert(strs(r@) =~= Seq::<Seq<char>>::empty());
        },
    }
    r
}

/// The property entries of a schema.
pub open spec fn props(schema: JsonView) -> Seq<(Seq<char>, JsonView)> {
    match member(schema, "properties"@) {
        Some(JsonView::Object(es)) => es,
        _ => Seq::empty(),
    }
}

pub open spec fn is_string_property(p: JsonView) -> bool {
    str_of(member(p, "type"@)) == Some("string"@)
}

/// The first property, in order, whose `type` is `string`.
pub open spec fn first_string(es: Seq<(Seq<char>, JsonView)>) -> Option<Seq<char>>
    decreases es.len(),
{
    if es.len() == 0 {
        None
    } else if is_string_property(es[0].1) {
        Some(es[0].0)
    } else {
        first_string(es.drop_first())
    }
}

pub fn first_string_field(schema: &JsonValue) -> (r: Option<String>)
    ensures
        crate::text::opt_view(r) == first_string(props(jv(*schema))),
{
    proof {
        reveal_strlit("properties");
        reveal_strlit("type");
        reveal_strlit("string");
    }
    match get(schema, "properties") {
        Some(JsonValue::Object(es)) => {
            proof {
                lemma_entries_view(es@, es@.len() as int);
            }
            let ghost ev = entries_of(es@);
            assert(props(jv(*schema)) == ev);
            let mut i: usize = 0;
            assert(ev.skip(0) =~= ev);
            while i < es.len()
                invariant
                    i <= es.len(),
                    ev == entries_of(es@),
                    ev.len() == es@.len(),
                    forall|j: int| 0 <= j < ev.len() ==> #[trigger] ev[j] == (es@[j].0@, jv(es@[j].1)),
                    first_string(ev) == first_string(ev.skip(i as int)),
                    props(jv(*schema)) == ev,
                decreases es.len() - i,
            {
                let ghost rest = ev.skip(i as int);
                assert(rest[0] == ev[i as int]);
                let is_string = match crate::json::as_str(get(&es[i].1, "type")) {
                    Some(t) => str_eq(t, "string"),
                    None => false,
                };
                if is_string {
                    return Some(es[i].0.clone());
                }
                assert(rest.drop_first() =~= ev.skip(i + 1));
                i += 1;
            }
            assert(ev.skip(i as int) =~= Seq::<(Seq<char>, JsonView)>::empty());
            None
        },
        _ => None,
    }
}

/// A sample value for a property: the first of its `enum` values, else an
/// example of its `type` (`"example"`, `1`, `1.0`, `true`, `[]`, `{}`),
/// else `null`.
pub open spec fn sample_of(p: JsonView) -> JsonView {
    match member(p, "enum"@) {
        Some(JsonView::Array(vs)) if vs.len() > 0 => vs[0],
        _ => {
            let t = str_of(member(p, "type"@));
            if t == Some("string"@) {
                JsonView::Str("example"@)
            } else if t == Some("integer"@) {
                JsonView::Number("1"@, false)
            } else if t == Some("number"@) {
                JsonView::Number("1.0"@, true)
            } else if t == Some("boolean"@) {
                JsonView::Bool(true)
            } else if t == Some("array"@) {
                JsonView::Array(Seq::empty())
            } else if t == Some("object"@) {
                JsonView::Object(Seq::empty())
            } else {
                JsonView::Null
            }
        },
    }
}

pub fn sample_value(property: &JsonValue) -> (r: JsonValue)
    ensures
        jv(r) == sample_of(jv(*property)),
{
    proof {
        reveal_strlit("enum");
    }
    match get(property, "enum") {
        Some(JsonValue::Array(vs)) => {
            if vs.len() > 0 {
                proof {
                    lemma_items_view(vs@, vs@.len() as int);
                }
                return copy_json(&vs[0]);
            }
        },
        _ => {},
    }
    let t = crate::json::as_str(get(property, "type"));
    let is = |name: &str| -> (b: bool)
        ensures
            b == (match t {
                Some(s) => s@ == name@,
                None => false,
            }),
        {
            match t {
                Some(s) => str_eq(s, name),
                None => false,
            }
        };
    let r = if is("string") {
        JsonValue::Str(owned("example"))
    } else if is("integer") {
        JsonValue::Number { text: owned("1"), float: false }
    } else if is("number") {
        JsonValue::Number { text: owned("1.0"), float: true }
    } else if is("boolean") {
        JsonValue::Bool(true)
    } else if is("array") {
        JsonValue::Array(Vec::new())
    } else if is("object") {
        JsonValue::Object(Vec::new())
    } else {
        JsonValue::Null
    };
    proof {
        lemma_items_view(Seq::<JsonValue>::empty(), 0);
        lemma_entries_view(Seq::<(String, JsonValue)>::empty(), 0);
    }
    assert(jv(r) == sample_of(jv(*property)));
    r
}

} // verus!

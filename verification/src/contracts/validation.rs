//! Checks that a payload carries the fields a JSON schema requires.
use vstd::prelude::*;

use crate::json::{
    entries_of, find_key, get, items_of, jv, lemma_entries_view, lemma_items_view, lemma_key_pos,
    member, obj_get, JsonValue, JsonView,
};
use crate::text::{cat, owned};

verus! {

/// The message for a missing required field.
pub open spec fn required_message(field: Seq<char>) -> Seq<char> {
    field + " is required"@
}

/// A required field is missing when the object lacks it or holds `null`.
pub open spec fn missing(obj: Seq<(Seq<char>, JsonView)>, field: Seq<char>) -> bool {
    match obj_get(obj, field) {
        None => true,
        Some(JsonView::Null) => true,
        _ => false,
    }
}

/// For each string of `required`, in order, that the object misses: its
/// message.
pub open spec fn missing_messages(required: Seq<JsonView>, obj: Seq<(Seq<char>, JsonView)>) -> Seq<Seq<char>>
    decreases required.len(),
{
    if required.len() == 0 {
        Seq::empty()
    } else {
        missing_messages(required.drop_last(), obj) + match required.last() {
            JsonView::Str(f) => if missing(obj, f) {
                seq![required_message(f)]
            } else {
                Seq::empty()
            },
            _ => Seq::empty(),
        }
    }
}

/// Nothing to check without a `required` array; a payload that is not an
/// object fails as a whole; else one message per missing required field.
pub open spec fn required_errors(schema: JsonView, payload: JsonView) -> Seq<Seq<char>> {
    match member(schema, "required"@) {
        Some(JsonView::Array(required)) => match payload {
            JsonView::Object(obj) => missing_messages(required, obj),
            _ => seq!["payload is not an object"@],
        },
        _ => Seq::empty(),
    }
}

proof fn lemma_missing_reported(required: Seq<JsonView>, obj: Seq<(Seq<char>, JsonView)>, i: int, field: Seq<char>)
    requires
        0 <= i < required.len(),
        required[i] == JsonView::Str(field),
        obj_get(obj, field) is None || obj_get(obj, field) == Some(JsonView::Null),
    ensures
        missing_messages(required, obj).contains(field + " is required"@),
    decreases required.len(),
{
    let prior = missing_messages(required.drop_last(), obj);
    if i == required.len() - 1 {
        let all = missing_messages(required, obj);
        assert(all[prior.len() as int] == field + " is required"@);
    } else {
        assert(required.drop_last()[i] == required[i]);
        lemma_missing_reported(required.drop_last(), obj, i, field);
        let k = choose|k: int| 0 <= k < prior.len() && prior[k] == field + " is required"@;
        assert(missing_messages(required, obj)[k] == prior[k]);
    }
}

/// For an object payload lacking a key that the schema's `required` array
/// names, or holding `null` under it, the errors include "<key> is
/// required".
pub proof fn law_absent_required_field_is_reported(
    schema: JsonView,
    required: Seq<JsonView>,
    obj: Seq<(Seq<char>, JsonView)>,
    i: int,
    field: Seq<char>,
)
    requires
        member(schema, "required"@) == Some(JsonView::Array(required)),
        0 <= i < required.len(),
        required[i] == JsonView::Str(field),
        (forall|j: int| 0 <= j < obj.len() ==> (#[trigger] obj[j]).0 != field) || obj_get(obj, field) == Some(
            JsonView::Null,
        ),
    ensures
        required_errors(schema, JsonView::Object(obj)).contains(field + " is required"@),
{
    lemma_key_pos(obj, field);
    lemma_missing_reported(required, obj, i, field);
}

proof fn lemma_reported_are_missing(required: Seq<JsonView>, obj: Seq<(Seq<char>, JsonView)>)
    ensures
        forall|k: int|
            #![trigger missing_messages(required, obj)[k]]
            0 <= k < missing_messages(required, obj).len() ==> exists|i: int|
                0 <= i < required.len() && #[trigger] required[i] is Str && missing_messages(required, obj)[k]
                    == required[i]->Str_0 + " is required"@ && (obj_get(obj, required[i]->Str_0) is None
                    || obj_get(obj, required[i]->Str_0) == Some(JsonView::Null)),
    decreases required.len(),
{
    if required.len() > 0 {
        let rd = required.drop_last();
        lemma_reported_are_missing(rd, obj);
        let prior = missing_messages(rd, obj);
        let all = missing_messages(required, obj);
        assert forall|k: int| #![trigger all[k]] 0 <= k < all.len() implies exists|i: int|
            0 <= i < required.len() && #[trigger] required[i] is Str && all[k] == required[i]->Str_0
                + " is required"@ && (obj_get(obj, required[i]->Str_0) is None || obj_get(
                obj,
                required[i]->Str_0,
            ) == Some(JsonView::Null)) by {
            if k < prior.len() {
                assert(all[k] == prior[k]);
                let i = choose|i: int|
                    0 <= i < rd.len() && #[trigger] rd[i] is Str && prior[k] == rd[i]->Str_0 + " is required"@
                        && (obj_get(obj, rd[i]->Str_0) is None || obj_get(obj, rd[i]->Str_0) == Some(
                        JsonView::Null,
                    ));
                assert(required[i] == rd[i]);
            } else {
                let n = required.len() - 1;
                assert(required[n] == required.last());
            }
        }
    }
}

/// Every error for an object payload is "<key> is required" for a key that
/// the schema's `required` array names and that the payload lacks or holds
/// `null` under.
pub proof fn law_reported_fields_are_required_and_missing(
    schema: JsonView,
    required: Seq<JsonView>,
    obj: Seq<(Seq<char>, JsonView)>,
)
    requires
        member(schema, "required"@) == Some(JsonView::Array(required)),
    ensures
        forall|k: int|
            #![trigger required_errors(schema, JsonView::Object(obj))[k]]
            0 <= k < required_errors(schema, JsonView::Object(obj)).len() ==> exists|i: int|
                0 <= i < required.len() && #[trigger] required[i] is Str && required_errors(
                    schema,
                    JsonView::Object(obj),
                )[k] == required[i]->Str_0 + " is required"@ && (obj_get(obj, required[i]->Str_0) is None
                    || obj_get(obj, required[i]->Str_0) == Some(JsonView::Null)),
{
    lemma_reported_are_missing(required, obj);
}

pub fn validate_required_fields(schema: &JsonValue, payload: &JsonValue) -> (r: Vec<String>)
    ensures
        crate::text::strs(r@) == required_errors(jv(*schema), jv(*payload)),
{
    proof {
        reveal_strlit("required");
    }
    let required = match get(schema, "required") {
        Some(JsonValue::Array(items)) => items,
        _ => {
            return Vec::new();
        },
    };
    let obj = match payload {
        JsonValue::Object(es) => es,
        _ => {
            let mut r: Vec<String> = Vec::new();
            r.push(owned("payload is not an object"));
            assert(crate::text::strs(r@) =~= seq!["payload is not an object"@]);
            return r;
        },
    };
    proof {
        lemma_items_view(required@, required@.len() as int);
        lemma_entries_view(obj@, obj@.len() as int);
    }
    let ghost req = items_of(required@);
    let ghost o = entries_of(obj@);
    let mut out: Vec<String> = Vec::new();
    let mut i: usize = 0;
    while i < required.len()
        invariant
            i <= required.len(),
            req == items_of(required@),
            o == entries_of(obj@),
            req.len() == required@.len(),
            o.len() == obj@.len(),
            forall|j: int| 0 <= j < req.len() ==> #[trigger] req[j] == jv(required@[j]),
            forall|j: int| 0 <= j < o.len() ==> #[trigger] o[j] == (obj@[j].0@, jv(obj@[j].1)),
            crate::text::strs(out@) == missing_messages(req.subrange(0, i as int), o),
        decreases required.len() - i,
    {
        let ghost t = req.subrange(0, i + 1);
        assert(t.drop_last() =~= req.subrange(0, i as int));
        assert(t.last() == jv(required@[i as int]));
        match &required[i] {
            JsonValue::Str(field) => {
                proof {
                    lemma_key_pos(o, field@);
                }
                let is_missing = match find_key(obj, field.as_str()) {
                    None => true,
                    Some(k) => match &obj[k].1 {
                        JsonValue::Null => true,
                        _ => false,
                    },
                };
                if is_missing {
                    let m = cat(field.as_str(), " is required");
                    let ghost before = out@;
                    out.push(m);
                    assert(crate::text::strs(out@) =~= crate::text::strs(before).push(m@));
                }
            },
            _ => {},
        }
        i += 1;
    }
    assert(req.subrange(0, req.len() as int) =~= req);
    out
}

} // verus!

//! Request bodies that satisfy a schema.
use vstd::prelude::*;

use crate::api_engine::schemas::{props, required_fields, required_of, sample_of, sample_value};
use crate::json::{
    entries_of, find_key, get, jv, lemma_entries_view, lemma_key_pos, obj_get, obj_insert,
    insert_entry, JsonValue, JsonView,
};
use crate::text::strs;

verus! {

/// The entries of a body that holds, for each required field with a
/// property, a sample value (fields inserted in order, as into a map).
pub open spec fn happy_entries(fields: Seq<Seq<char>>, properties: Seq<(Seq<char>, JsonView)>) -> Seq<(Seq<char>, JsonView)>
    decreases fields.len(),
{
    if fields.len() == 0 {
        Seq::empty()
    } else {
        let prev = happy_entries(fields.drop_last(), properties);
        match obj_get(properties, fields.last()) {
            Some(p) => obj_insert(prev, fields.last(), sample_of(p)),
            None => prev,
        }
    }
}

/// The happy-path body of a schema: an object of sample values for its
/// required fields.
pub open spec fn happy_body(schema: JsonView) -> JsonView {
    JsonView::Object(happy_entries(required_of(schema), props(schema)))
}

pub fn build_happy_path_body(schema: &JsonValue) -> (r: JsonValue)
    ensures
        jv(r) == happy_body(jv(*schema)),
{
    let required = required_fields(schema);
    let empty: Vec<(String, JsonValue)> = Vec::new();
    proof {
        reveal_strlit("properties");
    }
    let properties = match get(schema, "properties") {
        Some(JsonValue::Object(es)) => es,
        _ => &empty,
    };
    proof {
        lemma_entries_view(properties@, properties@.len() as int);
        assert(entries_of(empty@) =~= Seq::<(Seq<char>, JsonView)>::empty());
    }
    let ghost pv = entries_of(properties@);
    assert(pv == props(jv(*schema)));
    let mut body: Vec<(String, JsonValue)> = Vec::new();
    proof {
        lemma_entries_view(body@, 0);
    }
    let ghost rq = strs(required@);
    let mut i: usize = 0;
    while i < required.len()
        invariant
            i <= required.len(),
            rq == strs(required@),
            pv == entries_of(properties@),
            pv.len() == properties@.len(),
            forall|j: int| 0 <= j < pv.len() ==> #[trigger] pv[j] == (properties@[j].0@, jv(properties@[j].1)),
            entries_of(body@) == happy_entries(rq.subrange(0, i as int), pv),
        decreases required.len() - i,
    {
        let ghost t = rq.subrange(0, i + 1);
        assert(t.drop_last() =~= rq.subrange(0, i as int));
        assert(t.last() == required@[i as int]@);
        let field = &required[i];
        proof {
            lemma_key_pos(pv, field@);
        }
        match find_key(properties, field.as_str()) {
            Some(k) => {
                let v = sample_value(&properties[k].1);
                insert_entry(&mut body, field.clone(), v);
            },
            None => {},
        }
        i += 1;
    }
    assert(rq.subrange(0, rq.len() as int) =~= rq);
    JsonValue::Object(body)
}

} // verus!

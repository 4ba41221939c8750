//! Type changes of the properties two JSON schemas share.
use vstd::prelude::*;

use crate::json::{entries_of, find_key, get, jv, lemma_entries_view, lemma_key_pos, member, obj_get, str_of, JsonValue, JsonView};
use crate::text::{owned, str_eq};

verus! {

#[derive(Debug, Clone, PartialEq, Eq)]
pub struct FieldChange {
    pub field: String,
    pub previous_type: String,
    pub current_type: String,
    pub breaking: bool,
}

pub struct FieldChangeView {
    pub field: Seq<char>,
    pub previous_type: Seq<char>,
    pub current_type: Seq<char>,
    pub breaking: bool,
}

pub open spec fn change_view(c: FieldChange) -> FieldChangeView {
    FieldChangeView {
        field: c.field@,
        previous_type: c.previous_type@,
        current_type: c.current_type@,
        breaking: c.breaking,
    }
}

pub open spec fn changes_view(v: Seq<FieldChange>) -> Seq<FieldChangeView> {
    v.map_values(|c: FieldChange| change_view(c))
}

/// The `properties` of a schema (none when it has no such object).
pub open spec fn properties_of(schema: JsonView) -> Seq<(Seq<char>, JsonView)> {
    match member(schema, "properties"@) {
        Some(JsonView::Object(es)) => es,
        _ => Seq::empty(),
    }
}

/// The `type` a property schema names, or `unknown`.
pub open spec fn property_type_of(property: JsonView) -> Seq<char> {
    match str_of(member(property, "type"@)) {
        Some(t) => t,
        None => "unknown"@,
    }
}

/// For each previous property, in order, that the current schema also has
/// and whose type name changed: a breaking change.
pub open spec fn schema_changes(
    previous: Seq<(Seq<char>, JsonView)>,
    current: Seq<(Seq<char>, JsonView)>,
) -> Seq<FieldChangeView>
    decreases previous.len(),
{
    if previous.len() == 0 {
        Seq::empty()
    } else {
        let (field, old) = previous.last();
        schema_changes(previous.drop_last(), current) + match obj_get(current, field) {
            Some(new) => if property_type_of(old) == property_type_of(new) {
                Seq::empty()
            } else {
                seq![
                    FieldChangeView {
                        field,
                        previous_type: property_type_of(old),
                        current_type: property_type_of(new),
                        breaking: true,
                    },
                ]
            },
            None => Seq::empty(),
        }
    }
}

/// A property of `previous` that `current` also has (by key) under a
/// different type name.
pub open spec fn retyped(
    previous: Seq<(Seq<char>, JsonView)>,
    current: Seq<(Seq<char>, JsonView)>,
    i: int,
) -> bool {
    &&& 0 <= i < previous.len()
    &&& obj_get(current, previous[i].0) is Some
    &&& property_type_of(previous[i].1) != property_type_of(obj_get(current, previous[i].0)->0)
}

/// The breaking change of the `i`th property of `previous` to its type in
/// `current`.
pub open spec fn retyping(
    previous: Seq<(Seq<char>, JsonView)>,
    current: Seq<(Seq<char>, JsonView)>,
    i: int,
) -> FieldChangeView {
    FieldChangeView {
        field: previous[i].0,
        previous_type: property_type_of(previous[i].1),
        current_type: property_type_of(obj_get(current, previous[i].0)->0),
        breaking: true,
    }
}

/// The schema comparison reports every shared property whose type name
/// changed, as a breaking change from the old type to the new, and nothing
/// else: its changes are exactly the retypings of the previous properties,
/// one for each, in the previous schema's order.
pub proof fn law_schema_changes_are_the_retyped_properties(
    previous: Seq<(Seq<char>, JsonView)>,
    current: Seq<(Seq<char>, JsonView)>,
)
    ensures
        forall|i: int|
            #[trigger] retyped(previous, current, i) ==> schema_changes(previous, current).contains(
                retyping(previous, current, i),
            ),
        forall|k: int|
            #![trigger schema_changes(previous, current)[k]]
            0 <= k < schema_changes(previous, current).len() ==> exists|i: int|
                #[trigger] retyped(previous, current, i) && schema_changes(previous, current)[k] == retyping(
                    previous,
                    current,
                    i,
                ),
        schema_changes(previous, current).len() == Set::new(|i: int| retyped(previous, current, i)).len(),
    decreases previous.len(),
{
    let c = schema_changes(previous, current);
    let rset = Set::new(|i: int| retyped(previous, current, i));
    if previous.len() == 0 {
        assert(rset =~= Set::<int>::empty());
    } else {
        let pd = previous.drop_last();
        let n = previous.len() - 1;
        law_schema_changes_are_the_retyped_properties(pd, current);
        let prior = schema_changes(pd, current);
        let pset = Set::new(|i: int| retyped(pd, current, i));
        assert forall|i: int| 0 <= i < n implies previous[i] == pd[i] by {}
        assert forall|i: int| 0 <= i < n implies (retyped(previous, current, i) == retyped(pd, current, i)
            && retyping(previous, current, i) == retyping(pd, current, i)) by {
            assert(previous[i] == pd[i]);
        }
        let (field, old) = previous.last();
        assert(previous[n] == (field, old));
        if retyped(previous, current, n) {
            assert(c == prior.push(retyping(previous, current, n)));
            assert(rset =~= pset.insert(n));
            assert(!pset.contains(n));
        } else {
            assert(c == prior);
            assert(rset =~= pset);
        }
        vstd::set_lib::lemma_int_range(0, n);
        assert(pset.subset_of(vstd::set_lib::set_int_range(0, n)));
        vstd::set_lib::lemma_set_subset_finite(vstd::set_lib::set_int_range(0, n), pset);
        assert forall|i: int| #[trigger] retyped(previous, current, i) implies c.contains(retyping(previous, current, i)) by {
            if i < n {
                assert(retyped(pd, current, i));
                let k = choose|k: int| 0 <= k < prior.len() && prior[k] == retyping(pd, current, i);
                assert(c[k] == prior[k]);
            } else {
                assert(c[c.len() - 1] == retyping(previous, current, n));
            }
        }
        assert forall|k: int| #![trigger c[k]] 0 <= k < c.len() implies exists|i: int|
            #[trigger] retyped(previous, current, i) && c[k] == retyping(previous, current, i) by {
            if k < prior.len() {
                assert(c[k] == prior[k]);
                let i = choose|i: int| #[trigger] retyped(pd, current, i) && prior[k] == retyping(pd, current, i);
                assert(0 <= i < n);
                assert(retyped(previous, current, i));
            } else {
                assert(retyped(previous, current, n));
            }
        }
    }
}

/// The property entries of a schema.
pub(crate) fn properties(schema: &JsonValue) -> (r: Option<&Vec<(String, JsonValue)>>)
    ensures
        match r {
            Some(es) => properties_of(jv(*schema)) == entries_of(es@),
            None => properties_of(jv(*schema)) == Seq::<(Seq<char>, JsonView)>::empty(),
        },
{
    proof {
        reveal_strlit("properties");
    }
    match get(schema, "properties") {
        Some(JsonValue::Object(es)) => Some(es),
        _ => None,
    }
}

/// The type name of a property schema.
pub(crate) fn property_type(property: &JsonValue) -> (r: String)
    ensures
        r@ == property_type_of(jv(*property)),
{
    match crate::json::as_str(get(property, "type")) {
        Some(t) => owned(t),
        None => owned("unknown"),
    }
}

/// The breaking type changes from `previous` to `current` (see
/// `schema_changes`).
pub fn compare_schema(previous: &JsonValue, current: &JsonValue) -> (r: Vec<FieldChange>)
    ensures
        changes_view(r@) == schema_changes(properties_of(jv(*previous)), properties_of(jv(*current))),
{
    let empty: Vec<(String, JsonValue)> = Vec::new();
    let pp = match properties(previous) {
        Some(es) => es,
        None => &empty,
    };
    let cp = match properties(current) {
        Some(es) => es,
        None => &empty,
    };
    proof {
        lemma_entries_view(pp@, pp@.len() as int);
        lemma_entries_view(cp@, cp@.len() as int);
        assert(entries_of(empty@) =~= Seq::<(Seq<char>, JsonView)>::empty());
    }
    let ghost prev = entries_of(pp@);
    let ghost cur = entries_of(cp@);
    let mut out: Vec<FieldChange> = Vec::new();
    let mut i: usize = 0;
    while i < pp.len()
        invariant
            i <= pp.len(),
            prev == entries_of(pp@),
            cur == entries_of(cp@),
            prev.len() == pp@.len(),
            cur.len() == cp@.len(),
            forall|j: int| 0 <= j < prev.len() ==> #[trigger] prev[j] == (pp@[j].0@, jv(pp@[j].1)),
            forall|j: int| 0 <= j < cur.len() ==> #[trigger] cur[j] == (cp@[j].0@, jv(cp@[j].1)),
            changes_view(out@) == schema_changes(prev.subrange(0, i as int), cur),
        decreases pp.len() - i,
    {
        let ghost t = prev.subrange(0, i + 1);
        assert(t.drop_last() =~= prev.subrange(0, i as int));
        assert(t.last() == prev[i as int]);
        let field = &pp[i].0;
        proof {
            lemma_key_pos(cur, field@);
        }
        match find_key(cp, field.as_str()) {
            Some(k) => {
                let old_type = property_type(&pp[i].1);
                let new_type = property_type(&cp[k].1);
                if !str_eq(old_type.as_str(), new_type.as_str()) {
                    let c = FieldChange {
                        field: field.clone(),
                        previous_type: old_type,
                        current_type: new_type,
                        breaking: true,
                    };
                    let ghost before = out@;
                    out.push(c);
                    assert(changes_view(out@) =~= changes_view(before).push(change_view(c)));
                }
            },
            None => {},
        }
        i += 1;
    }
    assert(prev.subrange(0, prev.len() as int) =~= prev);
    out
}

} // verus!

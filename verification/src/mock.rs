//! The mock runtime: in-memory collections of JSON resources served over
//! REST routes (`/collection` and `/collection/id`).
use vstd::prelude::*;

use crate::api::{endpoint_view, generate_api_surface, surface_endpoints, ApiEndpoint, ApiSurface, HttpMethod};
use crate::graph::{entity_names, source_entity_names};
use crate::strset::{lemma_sorted_strs, sorted_strs};
use crate::application_model::{plural_of, pluralize};
use crate::json::{
    copy_json, entries_of, get, insert_entry, items_of, jv, key_pos, law_get_after_insert, lemma_entries_view,
    lemma_items_view, lemma_key_pos, lemma_key_pos_is, member, obj_get, obj_insert, JsonValue, JsonView,
};
use crate::table::StrTable;
use crate::text::{chars_of, dec_seq, ends_with, has_suffix, owned, split, split_seq, str_eq, string_of_range, strs, to_lowercase, unicode_lower};

verus! {

// ---------------------------------------------------------------------------
// Routes and names
// ---------------------------------------------------------------------------

/// The path without its leading `/`s.
pub open spec fn strip_slashes(p: Seq<char>) -> Seq<char>
    decreases p.len(),
{
    if p.len() > 0 && p[0] == '/' {
        strip_slashes(p.drop_first())
    } else {
        p
    }
}

/// The route of a request path: the part before any `?`, without leading
/// `/`s, as a collection and an optional id; none for an empty route or one
/// with more than two segments.
pub open spec fn route_of(path: Seq<char>) -> Option<(Seq<char>, Option<Seq<char>>)> {
    let t = split_seq(strip_slashes(path), '?')[0];
    let segs = split_seq(t, '/');
    if t.len() == 0 || segs.len() > 2 {
        None
    } else {
        Some((segs[0], if segs.len() > 1 { Some(segs[1]) } else { None }))
    }
}

pub fn parse_route(path: &str) -> (r: Option<(String, Option<String>)>)
    ensures
        match r {
            Some((c, id)) => route_of(path@) == Some((c@, crate::text::opt_view(id))),
            None => route_of(path@) is None,
        },
{
    let cs = chars_of(path);
    let mut start: usize = 0;
    assert(cs@.skip(0) =~= cs@);
    while start < cs.len() && cs[start] == '/'
        invariant
            start <= cs.len(),
            strip_slashes(path@) == strip_slashes(cs@.skip(start as int)),
            cs@ == path@,
        decreases cs.len() - start,
    {
        assert(cs@.skip(start as int).drop_first() =~= cs@.skip(start + 1));
        start += 1;
    }
    assert(strip_slashes(cs@.skip(start as int)) == cs@.skip(start as int));
    let rest = string_of_range(cs.as_slice(), start, cs.len());
    assert(rest@ =~= cs@.skip(start as int));
    let before_query = split(rest.as_str(), '?');
    proof {
        crate::text::lemma_split_nonempty(rest@, crate::text::sep_fn(false, '?'));
    }
    let t = &before_query[0];
    assert(strs(before_query@)[0] == t@);
    if t.unicode_len() == 0 {
        return None;
    }
    let segs = split(t.as_str(), '/');
    proof {
        crate::text::lemma_split_nonempty(t@, crate::text::sep_fn(false, '/'));
    }
    if segs.len() > 2 {
        return None;
    }
    assert(strs(segs@)[0] == segs@[0]@);
    let id = if segs.len() > 1 {
        assert(strs(segs@)[1] == segs@[1]@);
        Some(segs[1].clone())
    } else {
        None
    };
    Some((segs[0].clone(), id))
}

/// The route of an entity's collection (see `pluralize`).
pub fn plural_route(entity: &str) -> (r: String)
    ensures
        r@ == plural_of(unicode_lower(entity@)),
{
    pluralize(entity)
}

pub open spec fn method_text(m: HttpMethod) -> Seq<char> {
    match m {
        HttpMethod::Get => "GET"@,
        HttpMethod::Post => "POST"@,
        HttpMethod::Patch => "PATCH"@,
    }
}

pub fn method_name(method: HttpMethod) -> (r: &'static str)
    ensures
        r@ == method_text(method),
{
    match method {
        HttpMethod::Get => "GET",
        HttpMethod::Post => "POST",
        HttpMethod::Patch => "PATCH",
    }
}

// ---------------------------------------------------------------------------
// Resource identifiers
// ---------------------------------------------------------------------------

/// A string, or a number as written, can be an id.
pub open spec fn id_string(v: JsonView) -> Option<Seq<char>> {
    match v {
        JsonView::Str(s) => Some(s),
        JsonView::Number(t, _) => Some(t),
        _ => None,
    }
}

/// Keys that name an id: ending in `Id`, `_id` or `id`.
pub open spec fn id_key(k: Seq<char>) -> bool {
    has_suffix(k, "Id"@) || has_suffix(k, "_id"@) || has_suffix(k, "id"@)
}

/// The first entry, in order, under an id key that holds an id.
pub open spec fn first_id(es: Seq<(Seq<char>, JsonView)>) -> Option<Seq<char>>
    decreases es.len(),
{
    if es.len() == 0 {
        None
    } else if id_key(es[0].0) && id_string(es[0].1) is Some {
        id_string(es[0].1)
    } else {
        first_id(es.drop_first())
    }
}

/// The id of a resource: its `id` member, else its first id-like member;
/// none for a value that is not an object.
pub open spec fn id_of(v: JsonView) -> Option<Seq<char>> {
    match v {
        JsonView::Object(es) => match obj_get(es, "id"@) {
            Some(x) if id_string(x) is Some => id_string(x),
            _ => first_id(es),
        },
        _ => None,
    }
}

/// When a resource has an `id` member (its first entry under that key)
/// holding a string or a number, its id is that member's text.
pub proof fn law_id_member_is_the_id(v: JsonView, text: Seq<char>, float: bool)
    requires
        member(v, "id"@) == Some(JsonView::Str(text)) || member(v, "id"@) == Some(JsonView::Number(text, float)),
    ensures
        id_of(v) == Some(text),
{
}

proof fn lemma_first_id_at(es: Seq<(Seq<char>, JsonView)>, j: int, text: Seq<char>)
    requires
        0 <= j < es.len(),
        id_key(es[j].0),
        id_string(es[j].1) == Some(text),
        forall|m: int| 0 <= m < j ==> !(id_key(#[trigger] es[m].0) && id_string(es[m].1) is Some),
    ensures
        first_id(es) == Some(text),
    decreases es.len(),
{
    if j > 0 {
        assert(!(id_key(es[0].0) && id_string(es[0].1) is Some));
        assert forall|m: int| 0 <= m < j - 1 implies !(id_key(#[trigger] es.drop_first()[m].0) && id_string(
            es.drop_first()[m].1,
        ) is Some) by {
            assert(es.drop_first()[m] == es[m + 1]);
        }
        lemma_first_id_at(es.drop_first(), j - 1, text);
    }
}

/// When a resource has no `id` member holding a string or a number, its id
/// is the text of its first member, in order, whose key ends in `Id`, `_id`
/// or `id` and that holds a string or a number.
pub proof fn law_first_id_like_member_is_the_id(
    es: Seq<(Seq<char>, JsonView)>,
    j: int,
    text: Seq<char>,
    float: bool,
)
    requires
        !(obj_get(es, "id"@) matches Some(JsonView::Str(_))),
        !(obj_get(es, "id"@) matches Some(JsonView::Number(_, _))),
        0 <= j < es.len(),
        has_suffix(es[j].0, "Id"@) || has_suffix(es[j].0, "_id"@) || has_suffix(es[j].0, "id"@),
        es[j].1 == JsonView::Str(text) || es[j].1 == JsonView::Number(text, float),
        forall|m: int|
            0 <= m < j ==> !((has_suffix((#[trigger] es[m]).0, "Id"@) || has_suffix(es[m].0, "_id"@) || has_suffix(
                es[m].0,
                "id"@,
            )) && (es[m].1 is Str || es[m].1 is Number)),
    ensures
        id_of(JsonView::Object(es)) == Some(text),
{
    assert forall|m: int| 0 <= m < j implies !(id_key(#[trigger] es[m].0) && id_string(es[m].1) is Some) by {}
    lemma_first_id_at(es, j, text);
}

pub fn as_id_string(value: &JsonValue) -> (r: Option<String>)
    ensures
        crate::text::opt_view(r) == id_string(jv(*value)),
{
    match value {
        JsonValue::Str(s) => Some(s.clone()),
        JsonValue::Number { text, .. } => Some(text.clone()),
        _ => None,
    }
}

pub fn infer_id(value: &JsonValue) -> (r: Option<String>)
    ensures
        crate::text::opt_view(r) == id_of(jv(*value)),
{
    let es = match value {
        JsonValue::Object(es) => es,
        _ => {
            return None;
        },
    };
    proof {
        lemma_entries_view(es@, es@.len() as int);
        reveal_strlit("id");
    }
    let ghost ev = entries_of(es@);
    let ghost vv = jv(*value);
    match get(value, "id") {
        Some(x) => match as_id_string(x) {
            Some(id) => {
                return Some(id);
            },
            None => {},
        },
        None => {},
    }
    assert(id_of(vv) == first_id(ev));
    let mut i: usize = 0;
    assert(ev.skip(0) =~= ev);
    while i < es.len()
        invariant
            i <= es.len(),
            vv == jv(*value),
            id_of(vv) == first_id(ev),
            ev == entries_of(es@),
            ev.len() == es@.len(),
            forall|j: int| 0 <= j < ev.len() ==> #[trigger] ev[j] == (es@[j].0@, jv(es@[j].1)),
            first_id(ev) == first_id(ev.skip(i as int)),
        decreases es.len() - i,
    {
        let ghost rest = ev.skip(i as int);
        assert(rest[0] == ev[i as int]);
        let key = es[i].0.as_str();
        if ends_with(key, "Id") || ends_with(key, "_id") || ends_with(key, "id") {
            match as_id_string(&es[i].1) {
                Some(id) => {
                    return Some(id);
                },
                None => {},
            }
        }
        assert(rest.drop_first() =~= ev.skip(i + 1));
        i += 1;
    }
    assert(ev.skip(i as int) =~= Seq::<(Seq<char>, JsonView)>::empty());
    None
}

/// A patch merged into an object: each member of the patch, in order,
/// inserted into the target (other values stay as they are).
pub open spec fn merged(target: JsonView, patch: JsonView) -> JsonView {
    match (target, patch) {
        (JsonView::Object(t), JsonView::Object(p)) => JsonView::Object(merge_entries(t, p)),
        _ => target,
    }
}

pub open spec fn merge_entries(t: Seq<(Seq<char>, JsonView)>, p: Seq<(Seq<char>, JsonView)>) -> Seq<(Seq<char>, JsonView)>
    decreases p.len(),
{
    if p.len() == 0 {
        t
    } else {
        obj_insert(merge_entries(t, p.drop_last()), p.last().0, p.last().1)
    }
}

/// Each key of the entries occurs once.
pub open spec fn keys_once(es: Seq<(Seq<char>, JsonView)>) -> bool {
    forall|i: int, j: int| 0 <= i < j < es.len() ==> es[i].0 != es[j].0
}

/// After a merge, each key of the patch reads as in the patch, and every
/// other key as in the target (each key of the patch occurring once).
pub proof fn law_merge_reads(
    target: Seq<(Seq<char>, JsonView)>,
    patch: Seq<(Seq<char>, JsonView)>,
    key: Seq<char>,
)
    requires
        keys_once(patch),
    ensures
        obj_get(merge_entries(target, patch), key) == if key_pos(patch, key) >= 0 {
            obj_get(patch, key)
        } else {
            obj_get(target, key)
        },
    decreases patch.len(),
{
    if patch.len() > 0 {
        let pd = patch.drop_last();
        let last = patch.last();
        law_merge_reads(target, pd, key);
        lemma_key_pos(pd, key);
        if key == last.0 {
            law_get_after_insert(merge_entries(target, pd), key, last.1, key.push('_'));
            assert forall|j: int| 0 <= j < patch.len() && (patch.len() - 1 < 0 || j < patch.len() - 1) implies patch[j].0 != key by {
                assert(patch[j].0 != patch[patch.len() - 1].0);
            }
            lemma_key_pos_is(patch, key, patch.len() - 1);
        } else {
            law_get_after_insert(merge_entries(target, pd), last.0, last.1, key);
            let q = key_pos(pd, key);
            if q >= 0 {
                assert(patch[q] == pd[q]);
            }
            assert forall|j: int| 0 <= j < patch.len() && (q < 0 || j < q) implies patch[j].0 != key by {
                if j < pd.len() {
                    assert(patch[j] == pd[j]);
                }
            }
            lemma_key_pos_is(patch, key, q);
        }
    }
}

pub fn merge_object(target: &mut JsonValue, patch: &JsonValue)
    ensures
        jv(*final(target)) == merged(jv(*old(target)), jv(*patch)),
{
    match (target, patch) {
        (JsonValue::Object(t), JsonValue::Object(p)) => {
            proof {
                lemma_entries_view(p@, p@.len() as int);
            }
            let ghost pv = entries_of(p@);
            let ghost t0 = entries_of(t@);
            let mut i: usize = 0;
            while i < p.len()
                invariant
                    i <= p.len(),
                    pv == entries_of(p@),
                    pv.len() == p@.len(),
                    forall|j: int| 0 <= j < pv.len() ==> #[trigger] pv[j] == (p@[j].0@, jv(p@[j].1)),
                    entries_of(t@) == merge_entries(t0, pv.subrange(0, i as int)),
                decreases p.len() - i,
            {
                let ghost s = pv.subrange(0, i + 1);
                assert(s.drop_last() =~= pv.subrange(0, i as int));
                assert(s.last() == pv[i as int]);
                insert_entry(t, p[i].0.clone(), copy_json(&p[i].1));
                i += 1;
            }
            assert(pv.subrange(0, pv.len() as int) =~= pv);
        },
        _ => {},
    }
}

// ---------------------------------------------------------------------------
// The runtime's collections and requests
// ---------------------------------------------------------------------------

/// The resources of one collection, in order.
pub struct Collection {
    pub items: Vec<JsonValue>,
}

impl View for Collection {
    type V = Seq<JsonView>;

    open spec fn view(&self) -> Seq<JsonView> {
        items_of(self.items@)
    }
}

/// The methods the runtime distinguishes.
#[derive(Debug, Clone, Copy, PartialEq, Eq, Structural)]
pub enum MockMethod {
    Get,
    Post,
    Patch,
    Other,
}

pub open spec fn error_body(message: Seq<char>) -> JsonView {
    JsonView::Object(seq![("error"@, JsonView::Str(message))])
}

/// Position of the first resource with this id, or -1.
pub open spec fn find_by_id(items: Seq<JsonView>, id: Seq<char>) -> int
    decreases items.len(),
{
    if items.len() == 0 {
        -1
    } else if id_of(items[0]) == Some(id) {
        0
    } else if find_by_id(items.drop_first(), id) < 0 {
        -1
    } else {
        1 + find_by_id(items.drop_first(), id)
    }
}

/// A new resource without an id gets `"id"`: its position, counting from
/// one (an object only).
pub open spec fn with_generated_id(body: JsonView, count: nat) -> JsonView {
    if id_of(body) is None {
        match body {
            JsonView::Object(es) => JsonView::Object(obj_insert(es, "id"@, JsonView::Str(dec_seq(count + 1)))),
            _ => body,
        }
    } else {
        body
    }
}

/// What the runtime does with a request, given its collections: the
/// collections after it, the status and the response body. An unknown route
/// is 404; any routed request first makes sure its collection exists.
/// Listing answers the collection; fetching, the first resource with the
/// id, else 404; creating appends the body (with a generated id where it
/// has none) and answers it with 201; patching merges the body into the
/// first resource with the id and answers it, else 404; a body that could
/// not be read is 400 with its error; any other method or route shape is
/// 405.
pub open spec fn handle_spec(
    cols: Map<Seq<char>, Seq<JsonView>>,
    method: MockMethod,
    path: Seq<char>,
    body: Result<JsonView, Seq<char>>,
) -> (Map<Seq<char>, Seq<JsonView>>, u16, JsonView) {
    match route_of(path) {
        None => (cols, 404, error_body("route not found"@)),
        Some((c, id)) => {
            let items = if cols.dom().contains(c) {
                cols[c]
            } else {
                Seq::empty()
            };
            let cols1 = cols.insert(c, items);
            match (method, id) {
                (MockMethod::Get, None) => (cols1, 200, JsonView::Array(items)),
                (MockMethod::Get, Some(id)) => {
                    let k = find_by_id(items, id);
                    if k >= 0 {
                        (cols1, 200, items[k])
                    } else {
                        (cols1, 404, error_body("resource not found"@))
                    }
                },
                (MockMethod::Post, None) => match body {
                    Ok(b) => {
                        let created = with_generated_id(b, items.len());
                        (cols.insert(c, items.push(created)), 201, created)
                    },
                    Err(e) => (cols1, 400, error_body(e)),
                },
                (MockMethod::Patch, Some(id)) => match body {
                    Ok(b) => {
                        let k = find_by_id(items, id);
                        if k >= 0 {
                            let updated = merged(items[k], b);
                            (cols.insert(c, items.update(k, updated)), 200, updated)
                        } else {
                            (cols1, 404, error_body("resource not found"@))
                        }
                    },
                    Err(e) => (cols1, 400, error_body(e)),
                },
                _ => (cols1, 405, error_body("method not allowed"@)),
            }
        },
    }
}

fn error_value(message: &str) -> (r: JsonValue)
    ensures
        jv(r) == error_body(message@),
{
    let mut es: Vec<(String, JsonValue)> = Vec::new();
    es.push((owned("error"), JsonValue::Str(owned(message))));
    proof {
        lemma_entries_view(es@, es@.len() as int);
    }
    assert(entries_of(es@) =~= seq![("error"@, JsonView::Str(message@))]);
    JsonValue::Object(es)
}

fn find_resource(items: &Vec<JsonValue>, id: &String) -> (r: Option<usize>)
    ensures
        match r {
            Some(k) => k as int == find_by_id(items_of(items@), id@) && k < items@.len(),
            None => find_by_id(items_of(items@), id@) == -1,
        },
{
    proof {
        lemma_items_view(items@, items@.len() as int);
    }
    let ghost iv = items_of(items@);
    let mut i: usize = 0;
    assert(iv.skip(0) =~= iv);
    while i < items.len()
        invariant
            i <= items.len(),
            iv == items_of(items@),
            iv.len() == items@.len(),
            forall|j: int| 0 <= j < iv.len() ==> #[trigger] iv[j] == jv(items@[j]),
            find_by_id(iv, id@) == if find_by_id(iv.skip(i as int), id@) < 0 {
                -1
            } else {
                i + find_by_id(iv.skip(i as int), id@)
            },
        decreases items.len() - i,
    {
        let ghost rest = iv.skip(i as int);
        assert(rest[0] == iv[i as int]);
        let found = match infer_id(&items[i]) {
            Some(x) => str_eq(x.as_str(), id.as_str()),
            None => false,
        };
        if found {
            return Some(i);
        }
        assert(rest.drop_first() =~= iv.skip(i + 1));
        i += 1;
    }
    assert(iv.skip(i as int) =~= Seq::<JsonView>::empty());
    None
}

fn copy_items(items: &Vec<JsonValue>) -> (r: Vec<JsonValue>)
    ensures
        items_of(r@) == items_of(items@),
{
    let mut r: Vec<JsonValue> = Vec::new();
    let mut i: usize = 0;
    while i < items.len()
        invariant
            i <= items.len(),
            r@.len() == i,
            forall|j: int| 0 <= j < i ==> jv(#[trigger] r@[j]) == jv(items@[j]),
        decreases items.len() - i,
    {
        r.push(copy_json(&items[i]));
        i += 1;
    }
    proof {
        lemma_items_view(r@, r@.len() as int);
        lemma_items_view(items@, items@.len() as int);
    }
    assert(items_of(r@) =~= items_of(items@));
    r
}

/// The runtime's state: its collections by name.
pub struct MockState {
    collections: StrTable<Collection>,
}

impl MockState {
    pub closed spec fn collections(self) -> Map<Seq<char>, Seq<JsonView>> {
        self.collections.map()
    }

    pub fn new() -> (r: Self)
        ensures
            r.collections() == Map::<Seq<char>, Seq<JsonView>>::empty(),
    {
        MockState { collections: StrTable::new() }
    }

    /// Replaces the resources of a collection.
    pub fn set_collection(&mut self, name: String, items: Vec<JsonValue>)
        ensures
            final(self).collections() == old(self).collections().insert(name@, items_of(items@)),
    {
        self.collections.insert(name, Collection { items });
    }

    /// Makes sure a collection exists (an empty one where there is none).
    pub fn ensure_collection(&mut self, name: &str)
        ensures
            final(self).collections() == if old(self).collections().dom().contains(name@) {
                old(self).collections()
            } else {
                old(self).collections().insert(name@, Seq::empty())
            },
    {
        match self.collections.get(name) {
            Some(_) => {},
            None => {
                let items: Vec<JsonValue> = Vec::new();
                proof {
                    lemma_items_view(items@, 0);
                }
                self.collections.insert(owned(name), Collection { items });
                assert(items_of(items@) =~= Seq::<JsonView>::empty());
            },
        }
    }

    /// Answers one request (see `handle_spec`): the status and the body.
    pub fn handle(&mut self, method: MockMethod, path: &str, body: Result<JsonValue, String>) -> (r: (
        u16,
        JsonValue,
    ))
        ensures
            ({
                let expected = handle_spec(
                    old(self).collections(),
                    method,
                    path@,
                    match body {
                        Ok(b) => Ok(jv(b)),
                        Err(e) => Err(e@),
                    },
                );
                &&& final(self).collections() == expected.0
                &&& r.0 == expected.1
                &&& jv(r.1) == expected.2
            }),
    {
        let ghost cols = self.collections();
        let (collection, id) = match parse_route(path) {
            None => {
                return (404, error_value("route not found"));
            },
            Some(route) => route,
        };
        let ghost c = collection@;
        let mut entries: Vec<JsonValue> = match self.collections.remove(collection.as_str()) {
            Some(col) => col.items,
            None => {
                let v: Vec<JsonValue> = Vec::new();
                proof {
                    lemma_items_view(v@, 0);
                }
                assert(items_of(v@) =~= Seq::<JsonView>::empty());
                v
            },
        };
        let ghost items = items_of(entries@);
        assert(items == if cols.dom().contains(c) {
            cols[c]
        } else {
            Seq::<JsonView>::empty()
        });
        proof {
            lemma_items_view(entries@, entries@.len() as int);
        }
        let result: (u16, JsonValue) = match (method, id) {
            (MockMethod::Get, None) => (200, JsonValue::Array(copy_items(&entries))),
            (MockMethod::Get, Some(rid)) => match find_resource(&entries, &rid) {
                Some(k) => (200, copy_json(&entries[k])),
                None => (404, error_value("resource not found")),
            },
            (MockMethod::Post, None) => match body {
                Ok(b) => {
                    let mut b = b;
                    let count = entries.len();
                    let ghost before_entries = entries@;
                    if infer_id(&b).is_none() {
                        match &mut b {
                            JsonValue::Object(es) => {
                                proof {
                                    reveal_strlit("id");
                                }
                                let generated = crate::text::dec_string_wide((count as u128) + 1);
                                assert(generated@ == dec_seq((count + 1) as nat));
                                insert_entry(es, owned("id"), JsonValue::Str(generated));
                            },
                            _ => {},
                        }
                    }
                    let answer = copy_json(&b);
                    entries.push(b);
                    proof {
                        lemma_items_view(entries@, entries@.len() as int);
                        assert(items_of(entries@) =~= items_of(before_entries).push(jv(answer)));
                    }
                    (201, answer)
                },
                Err(e) => (400, error_value(e.as_str())),
            },
            (MockMethod::Patch, Some(rid)) => match body {
                Ok(b) => match find_resource(&entries, &rid) {
                    Some(k) => {
                        let ghost before_entries = entries@;
                        let mut target = JsonValue::Null;
                        std::mem::swap(&mut target, &mut entries[k]);
                        assert(jv(target) == jv(before_entries[k as int]));
                        merge_object(&mut target, &b);
                        let answer = copy_json(&target);
                        entries.set(k, target);
                        proof {
                            lemma_items_view(entries@, entries@.len() as int);
                            assert(items_of(entries@) =~= items_of(before_entries).update(k as int, jv(answer))) by {
                                assert forall|j: int| 0 <= j < entries@.len() implies #[trigger] items_of(entries@)[j] == items_of(before_entries).update(k as int, jv(answer))[j] by {
                                    if j != k {
                                        assert(entries@[j] == before_entries[j]);
                                    }
                                }
                            }
                        }
                        (200, answer)
                    },
                    None => (404, error_value("resource not found")),
                },
                Err(e) => (400, error_value(e.as_str())),
            },
            _ => (405, error_value("method not allowed")),
        };
        self.collections.insert(collection, Collection { items: entries });
        proof {
            assert(cols.remove(c).insert(c, items_of(entries@)) =~= cols.insert(c, items_of(entries@)));
        }
        result
    }
}

/// Seeds collections from a document: each array member of an object root,
/// under its lowercased key; the items of an array root under `items`.
pub open spec fn seeded(
    cols: Map<Seq<char>, Seq<JsonView>>,
    root: JsonView,
) -> Map<Seq<char>, Seq<JsonView>> {
    match root {
        JsonView::Object(es) => seed_entries(cols, es),
        JsonView::Array(items) => cols.insert("items"@, items),
        _ => cols,
    }
}

pub open spec fn seed_entries(
    cols: Map<Seq<char>, Seq<JsonView>>,
    es: Seq<(Seq<char>, JsonView)>,
) -> Map<Seq<char>, Seq<JsonView>>
    decreases es.len(),
{
    if es.len() == 0 {
        cols
    } else {
        let prev = seed_entries(cols, es.drop_last());
        match es.last().1 {
            JsonView::Array(items) => prev.insert(unicode_lower(es.last().0), items),
            _ => prev,
        }
    }
}

pub fn seed_collections(root: &JsonValue, state: &mut MockState)
    ensures
        final(state).collections() == seeded(old(state).collections(), jv(*root)),
{
    match root {
        JsonValue::Object(es) => {
            proof {
                lemma_entries_view(es@, es@.len() as int);
            }
            let ghost ev = entries_of(es@);
            let ghost c0 = state.collections();
            let mut i: usize = 0;
            while i < es.len()
                invariant
                    i <= es.len(),
                    ev == entries_of(es@),
                    ev.len() == es@.len(),
                    forall|j: int| 0 <= j < ev.len() ==> #[trigger] ev[j] == (es@[j].0@, jv(es@[j].1)),
                    state.collections() == seed_entries(c0, ev.subrange(0, i as int)),
                decreases es.len() - i,
            {
                let ghost t = ev.subrange(0, i + 1);
                assert(t.drop_last() =~= ev.subrange(0, i as int));
                assert(t.last() == ev[i as int]);
                match &es[i].1 {
                    JsonValue::Array(items) => {
                        state.set_collection(to_lowercase(es[i].0.as_str()), copy_items(items));
                    },
                    _ => {},
                }
                i += 1;
            }
            assert(ev.subrange(0, ev.len() as int) =~= ev);
        },
        JsonValue::Array(items) => {
            state.set_collection(owned("items"), copy_items(items));
        },
        _ => {},
    }
}

// ---------------------------------------------------------------------------
// Starting the runtime
// ---------------------------------------------------------------------------

/// An empty collection for each of these routes that has none yet.
pub open spec fn ensure_all(
    cols: Map<Seq<char>, Seq<JsonView>>,
    routes: Seq<Seq<char>>,
) -> Map<Seq<char>, Seq<JsonView>>
    decreases routes.len(),
{
    if routes.len() == 0 {
        cols
    } else {
        let prev = ensure_all(cols, routes.drop_last());
        if prev.dom().contains(routes.last()) {
            prev
        } else {
            prev.insert(routes.last(), Seq::empty())
        }
    }
}

/// The collection routes of entities: each name lowercased, in the plural.
pub open spec fn entity_routes(entities: Seq<Seq<char>>) -> Seq<Seq<char>> {
    entities.map_values(|e: Seq<char>| plural_of(unicode_lower(e)))
}

proof fn lemma_surface_len(entities: Seq<Seq<char>>)
    ensures
        surface_endpoints(entities).len() == 4 * entities.len(),
    decreases entities.len(),
{
    if entities.len() > 0 {
        lemma_surface_len(entities.drop_last());
    }
}

/// What the mock runtime starts with for a model document read from
/// `source`: the API surface of the entities that the document names, and
/// its collections (the seeded ones, and an empty one for each entity route
/// that has none). A document that names no entity gives no endpoint, and
/// the runtime does not start.
pub fn prepare_mock_runtime(source: &str, root: &JsonValue) -> (r: Result<(ApiSurface, MockState), String>)
    ensures
        ({
            let entities = sorted_strs(source_entity_names(source@, jv(*root)).to_set());
            match r {
                Ok((surface, state)) => {
                    &&& entities.len() > 0
                    &&& strs(surface.entities@) == entities
                    &&& surface.endpoints@.map_values(|e: ApiEndpoint| endpoint_view(e))
                        == surface_endpoints(entities)
                    &&& state.collections() == ensure_all(
                        seeded(Map::empty(), jv(*root)),
                        entity_routes(entities),
                    )
                },
                Err(e) => entities.len() == 0
                    && e@ == "no entities discovered in model; could not generate API surface"@,
            }
        }),
{
    let names = entity_names(source, root);
    let ghost s = source_entity_names(source@, jv(*root)).to_set();
    let surface = generate_api_surface(&names);
    proof {
        lemma_sorted_strs(strs(names@), s);
        lemma_surface_len(strs(surface.entities@));
        assert(surface.endpoints@.map_values(|e: ApiEndpoint| endpoint_view(e)).len() == surface.endpoints@.len());
    }
    if surface.endpoints.len() == 0 {
        return Err(owned("no entities discovered in model; could not generate API surface"));
    }
    let mut state = MockState::new();
    seed_collections(root, &mut state);
    let ghost start = state.collections();
    let ghost routes = entity_routes(strs(surface.entities@));
    let mut i: usize = 0;
    while i < surface.entities.len()
        invariant
            i <= surface.entities.len(),
            routes == entity_routes(strs(surface.entities@)),
            routes.len() == surface.entities@.len(),
            state.collections() == ensure_all(start, routes.subrange(0, i as int)),
        decreases surface.entities.len() - i,
    {
        let route = plural_route(surface.entities[i].as_str());
        assert(routes.subrange(0, i + 1).drop_last() =~= routes.subrange(0, i as int));
        assert(routes[i as int] == route@);
        state.ensure_collection(route.as_str());
        i += 1;
    }
    assert(routes.subrange(0, routes.len() as int) =~= routes);
    Ok((surface, state))
}

// ---------------------------------------------------------------------------
// Reading back what was written
// ---------------------------------------------------------------------------

/// The resources of a collection (none where it does not exist yet).
pub open spec fn collection_items(cols: Map<Seq<char>, Seq<JsonView>>, c: Seq<char>) -> Seq<JsonView> {
    if cols.dom().contains(c) {
        cols[c]
    } else {
        Seq::empty()
    }
}

proof fn lemma_find_range(items: Seq<JsonView>, id: Seq<char>)
    ensures
        -1 <= find_by_id(items, id) < items.len(),
    decreases items.len(),
{
    if items.len() > 0 {
        lemma_find_range(items.drop_first(), id);
    }
}

proof fn lemma_find_after_push(items: Seq<JsonView>, x: JsonView, id: Seq<char>)
    requires
        find_by_id(items, id) == -1,
        id_of(x) == Some(id),
    ensures
        find_by_id(items.push(x), id) == items.len(),
    decreases items.len(),
{
    if items.len() > 0 {
        lemma_find_range(items.drop_first(), id);
        assert(items.push(x).drop_first() =~= items.drop_first().push(x));
        lemma_find_after_push(items.drop_first(), x, id);
    }
}

proof fn lemma_find_after_update(items: Seq<JsonView>, k: int, x: JsonView, id: Seq<char>)
    requires
        0 <= k,
        find_by_id(items, id) == k,
        id_of(x) == Some(id),
    ensures
        find_by_id(items.update(k, x), id) == k,
    decreases items.len(),
{
    lemma_find_range(items, id);
    if k > 0 {
        lemma_find_range(items.drop_first(), id);
        assert(items.update(k, x).drop_first() =~= items.drop_first().update(k - 1, x));
        lemma_find_after_update(items.drop_first(), k - 1, x, id);
    }
}

/// A resource created in a collection is what fetching its id answers
/// next, provided no earlier resource of the collection has that id.
pub proof fn law_fetch_after_create(
    cols: Map<Seq<char>, Seq<JsonView>>,
    post_path: Seq<char>,
    get_path: Seq<char>,
    c: Seq<char>,
    id: Seq<char>,
    body: JsonView,
    fetch_body: Result<JsonView, Seq<char>>,
)
    requires
        route_of(post_path) == Some((c, None::<Seq<char>>)),
        route_of(get_path) == Some((c, Some(id))),
        id_of(with_generated_id(body, collection_items(cols, c).len())) == Some(id),
        find_by_id(collection_items(cols, c), id) == -1,
    ensures
        ({
            let (after, status, created) = handle_spec(cols, MockMethod::Post, post_path, Ok(body));
            &&& status == 201
            &&& handle_spec(after, MockMethod::Get, get_path, fetch_body) == (after, 200u16, created)
        }),
{
    let items = collection_items(cols, c);
    let created = with_generated_id(body, items.len());
    let after = cols.insert(c, items.push(created));
    lemma_find_after_push(items, created, id);
    assert(after.insert(c, after[c]) =~= after);
}

/// What patching a resource answers is what fetching it answers next,
/// provided the patch leaves its id as it was.
pub proof fn law_fetch_after_patch(
    cols: Map<Seq<char>, Seq<JsonView>>,
    path: Seq<char>,
    c: Seq<char>,
    id: Seq<char>,
    patch: JsonView,
    fetch_body: Result<JsonView, Seq<char>>,
)
    requires
        route_of(path) == Some((c, Some(id))),
        find_by_id(collection_items(cols, c), id) >= 0,
        id_of(
            merged(
                collection_items(cols, c)[find_by_id(collection_items(cols, c), id)],
                patch,
            ),
        ) == Some(id),
    ensures
        ({
            let (after, status, updated) = handle_spec(cols, MockMethod::Patch, path, Ok(patch));
            &&& status == 200
            &&& handle_spec(after, MockMethod::Get, path, fetch_body) == (after, 200u16, updated)
        }),
{
    let items = collection_items(cols, c);
    let k = find_by_id(items, id);
    lemma_find_range(items, id);
    let updated = merged(items[k], patch);
    let after = cols.insert(c, items.update(k, updated));
    lemma_find_after_update(items, k, updated, id);
    assert(after.insert(c, after[c]) =~= after);
}

} // verus!

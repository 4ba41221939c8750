//! JSON values, as the library reads and builds them. A number keeps the
//! text JSON writes for it; an object is a sequence of entries. A value is
//! `canonical` when the keys of each of its objects strictly increase (each
//! key once, in order), as in the maps a JSON parser builds; documents hold
//! only canonical values, and inserting an entry keeps an object canonical.
//! Two values are the same JSON value (`json_same`) when they are equal but
//! for numbers, which are compared by value.
use vstd::prelude::*;


use crate::text::{chars_of, lemma_lt_total, lemma_lt_trans, seq_lt, str_eq, str_lt, strictly_sorted};

verus! {

#[derive(Debug, PartialEq, Eq)]
pub enum JsonValue {
    Null,
    Bool(bool),
    /// A number as JSON writes it, and whether it is a floating-point number.
    Number { text: String, float: bool },
    Str(String),
    Array(Vec<JsonValue>),
    Object(Vec<(String, JsonValue)>),
}

/// A JSON value with its strings as character sequences.
pub enum JsonView {
    Null,
    Bool(bool),
    Number(Seq<char>, bool),
    Str(Seq<char>),
    Array(Seq<JsonView>),
    Object(Seq<(Seq<char>, JsonView)>),
}

pub open spec fn jv(v: JsonValue) -> JsonView
    decreases v,
{
    match v {
        JsonValue::Null => JsonView::Null,
        JsonValue::Bool(b) => JsonView::Bool(b),
        JsonValue::Number { text, float } => JsonView::Number(text@, float),
        JsonValue::Str(s) => JsonView::Str(s@),
        JsonValue::Array(items) => JsonView::Array(items_view(items@, items@.len() as int)),
        JsonValue::Object(entries) => JsonView::Object(entries_view(entries@, entries@.len() as int)),
    }
}

/// The views of the first `n` items.
pub open spec fn items_view(items: Seq<JsonValue>, n: int) -> Seq<JsonView>
    decreases items, n,
{
    if n <= 0 || n > items.len() {
        Seq::empty()
    } else {
        items_view(items, n - 1).push(jv(items[n - 1]))
    }
}

/// The views of the first `n` entries.
pub open spec fn entries_view(entries: Seq<(String, JsonValue)>, n: int) -> Seq<(Seq<char>, JsonView)>
    decreases entries, n,
{
    if n <= 0 || n > entries.len() {
        Seq::empty()
    } else {
        entries_view(entries, n - 1).push((entries[n - 1].0@, jv(entries[n - 1].1)))
    }
}

pub proof fn lemma_items_view(items: Seq<JsonValue>, n: int)
    requires
        0 <= n <= items.len(),
    ensures
        items_view(items, n).len() == n,
        forall|i: int| 0 <= i < n ==> #[trigger] items_view(items, n)[i] == jv(items[i]),
    decreases n,
{
    if n > 0 {
        lemma_items_view(items, n - 1);
    }
}

pub proof fn lemma_entries_view(entries: Seq<(String, JsonValue)>, n: int)
    requires
        0 <= n <= entries.len(),
    ensures
        entries_view(entries, n).len() == n,
        forall|i: int|
            0 <= i < n ==> #[trigger] entries_view(entries, n)[i] == (entries[i].0@, jv(entries[i].1)),
    decreases n,
{
    if n > 0 {
        lemma_entries_view(entries, n - 1);
    }
}

/// The item views of an array value.
pub open spec fn items_of(items: Seq<JsonValue>) -> Seq<JsonView> {
    items_view(items, items.len() as int)
}

/// The entry views of an object value.
pub open spec fn entries_of(entries: Seq<(String, JsonValue)>) -> Seq<(Seq<char>, JsonView)> {
    entries_view(entries, entries.len() as int)
}

/// Position of the first entry with `key`, or -1.
pub open spec fn key_pos<T>(entries: Seq<(Seq<char>, T)>, key: Seq<char>) -> int
    decreases entries.len(),
{
    if entries.len() == 0 {
        -1
    } else if entries[0].0 == key {
        0
    } else if key_pos(entries.drop_first(), key) < 0 {
        -1
    } else {
        1 + key_pos(entries.drop_first(), key)
    }
}

pub proof fn lemma_key_pos<T>(entries: Seq<(Seq<char>, T)>, key: Seq<char>)
    ensures
        -1 <= key_pos(entries, key) < entries.len(),
        key_pos(entries, key) >= 0 ==> entries[key_pos(entries, key)].0 == key,
        key_pos(entries, key) >= 0 ==> forall|j: int| 0 <= j < key_pos(entries, key) ==> entries[j].0 != key,
        key_pos(entries, key) < 0 ==> forall|j: int| 0 <= j < entries.len() ==> entries[j].0 != key,
    decreases entries.len(),
{
    if entries.len() > 0 {
        lemma_key_pos(entries.drop_first(), key);
        if key_pos(entries, key) < 0 {
            assert forall|j: int| 0 <= j < entries.len() implies entries[j].0 != key by {
                if j > 0 {
                    assert(entries[j] == entries.drop_first()[j - 1]);
                }
            }
        }
        if key_pos(entries, key) > 0 {
            assert forall|j: int| 0 <= j < key_pos(entries, key) implies entries[j].0 != key by {
                if j > 0 {
                    assert(entries[j] == entries.drop_first()[j - 1]);
                }
            }
        }
    }
}

/// The value of the first entry with `key` (what a JSON object map holds
/// under it).
pub open spec fn obj_get<T>(entries: Seq<(Seq<char>, T)>, key: Seq<char>) -> Option<T> {
    let p = key_pos(entries, key);
    if p >= 0 {
        Some(entries[p].1)
    } else {
        None
    }
}

/// `value.get(key)`: the member of an object, nothing for other values.
pub open spec fn member(v: JsonView, key: Seq<char>) -> Option<JsonView> {
    match v {
        JsonView::Object(entries) => obj_get(entries, key),
        _ => None,
    }
}

/// `value.as_str()`.
pub open spec fn str_of(v: Option<JsonView>) -> Option<Seq<char>> {
    match v {
        Some(JsonView::Str(s)) => Some(s),
        _ => None,
    }
}

pub open spec fn opt_jv(v: Option<&JsonValue>) -> Option<JsonView> {
    match v {
        Some(x) => Some(jv(*x)),
        None => None,
    }
}

/// The index of the first entry with `key`.
pub fn find_key(entries: &Vec<(String, JsonValue)>, key: &str) -> (r: Option<usize>)
    ensures
        match r {
            Some(i) => i as int == key_pos(entries_of(entries@), key@) && i < entries@.len(),
            None => key_pos(entries_of(entries@), key@) == -1,
        },
{
    proof {
        lemma_entries_view(entries@, entries@.len() as int);
        lemma_key_pos(entries_of(entries@), key@);
    }
    let ghost es = entries_of(entries@);
    let mut i: usize = 0;
    while i < entries.len()
        invariant
            i <= entries.len(),
            es == entries_of(entries@),
            es.len() == entries@.len(),
            forall|j: int| 0 <= j < es.len() ==> #[trigger] es[j] == (entries@[j].0@, jv(entries@[j].1)),
            forall|j: int| 0 <= j < i ==> es[j].0 != key@,
        decreases entries.len() - i,
    {
        if str_eq(entries[i].0.as_str(), key) {
            proof {
                lemma_first_match(es, key@, i as int);
            }
            return Some(i);
        }
        i += 1;
    }
    proof {
        lemma_no_match(es, key@);
    }
    None
}

proof fn lemma_first_match<T>(es: Seq<(Seq<char>, T)>, key: Seq<char>, i: int)
    requires
        0 <= i < es.len(),
        es[i].0 == key,
        forall|j: int| 0 <= j < i ==> es[j].0 != key,
    ensures
        key_pos(es, key) == i,
    decreases i,
{
    if i > 0 {
        assert forall|j: int| 0 <= j < i - 1 implies es.drop_first()[j].0 != key by {
            assert(es.drop_first()[j] == es[j + 1]);
        }
        lemma_first_match(es.drop_first(), key, i - 1);
    }
}

proof fn lemma_no_match<T>(es: Seq<(Seq<char>, T)>, key: Seq<char>)
    requires
        forall|j: int| 0 <= j < es.len() ==> es[j].0 != key,
    ensures
        key_pos(es, key) == -1,
    decreases es.len(),
{
    if es.len() > 0 {
        assert forall|j: int| 0 <= j < es.len() - 1 implies es.drop_first()[j].0 != key by {
            assert(es.drop_first()[j] == es[j + 1]);
        }
        lemma_no_match(es.drop_first(), key);
    }
}

/// `value.get(key)`.
pub fn get<'a>(v: &'a JsonValue, key: &str) -> (r: Option<&'a JsonValue>)
    ensures
        opt_jv(r) == member(jv(*v), key@),
{
    match v {
        JsonValue::Object(entries) => {
            proof {
                lemma_entries_view(entries@, entries@.len() as int);
            }
            match find_key(entries, key) {
                Some(i) => Some(&entries[i].1),
                None => None,
            }
        },
        _ => None,
    }
}

/// `value.as_str()`.
pub fn as_str(v: Option<&JsonValue>) -> (r: Option<&str>)
    ensures
        match r {
            Some(s) => str_of(opt_jv(v)) == Some(s@),
            None => str_of(opt_jv(v)) is None,
        },
{
    match v {
        Some(JsonValue::Str(s)) => Some(s.as_str()),
        _ => None,
    }
}

/// A copy of a value.
pub fn copy_json(v: &JsonValue) -> (r: JsonValue)
    ensures
        jv(r) == jv(*v),
    decreases v,
{
    match v {
        JsonValue::Null => JsonValue::Null,
        JsonValue::Bool(b) => JsonValue::Bool(*b),
        JsonValue::Number { text, float } => JsonValue::Number { text: text.clone(), float: *float },
        JsonValue::Str(s) => JsonValue::Str(s.clone()),
        JsonValue::Array(items) => {
            let mut out: Vec<JsonValue> = Vec::new();
            let mut i: usize = 0;
            proof {
                lemma_items_view(items@, items@.len() as int);
                assert forall|j: int| 0 <= j < items@.len() implies decreases_to!(*v => #[trigger] items@[j]) by {
                    vstd::std_specs::vec::axiom_vec_index_decreases(*items, j);
                }
            }
            while i < items.len()
                invariant
                    i <= items.len(),
                    forall|j: int| 0 <= j < items@.len() ==> decreases_to!(*v => #[trigger] items@[j]),
                    out@.len() == i,
                    forall|j: int| 0 <= j < i ==> jv(#[trigger] out@[j]) == jv(items@[j]),
                decreases items.len() - i,
            {
                out.push(copy_json(&items[i]));
                i += 1;
            }
            proof {
                lemma_items_view(out@, out@.len() as int);
                assert(items_of(out@) =~= items_of(items@));
            }
            JsonValue::Array(out)
        },
        JsonValue::Object(entries) => {
            let mut out: Vec<(String, JsonValue)> = Vec::new();
            let mut i: usize = 0;
            proof {
                lemma_entries_view(entries@, entries@.len() as int);
                assert forall|j: int| 0 <= j < entries@.len() implies decreases_to!(*v => #[trigger] entries@[j].1) by {
                    vstd::std_specs::vec::axiom_vec_index_decreases(*entries, j);
                    assert(decreases_to!(entries@[j] => entries@[j].1));
                }
            }
            while i < entries.len()
                invariant
                    i <= entries.len(),
                    forall|j: int| 0 <= j < entries@.len() ==> decreases_to!(*v => #[trigger] entries@[j].1),
                    out@.len() == i,
                    forall|j: int|
                        0 <= j < i ==> (#[trigger] out@[j]).0@ == entries@[j].0@ && jv(out@[j].1) == jv(
                            entries@[j].1,
                        ),
                decreases entries.len() - i,
            {
                let e = (entries[i].0.clone(), copy_json(&entries[i].1));
                out.push(e);
                i += 1;
            }
            proof {
                lemma_entries_view(out@, out@.len() as int);
                assert(entries_of(out@) =~= entries_of(entries@));
            }
            JsonValue::Object(out)
        },
    }
}

/// How many leading entries have a key before `key`: where a new key goes
/// in an object kept in key order.
pub open spec fn ins_pos(es: Seq<(Seq<char>, JsonView)>, key: Seq<char>) -> int
    decreases es.len(),
{
    if es.len() == 0 {
        0
    } else if seq_lt(es[0].0, key) {
        1 + ins_pos(es.drop_first(), key)
    } else {
        0
    }
}

/// `map.insert(key, value)` on an object's entries: the value replaces the
/// entry of `key`, or a new entry goes in key order.
pub open spec fn obj_insert(es: Seq<(Seq<char>, JsonView)>, key: Seq<char>, value: JsonView) -> Seq<(Seq<char>, JsonView)> {
    let p = key_pos(es, key);
    if p >= 0 {
        es.update(p, (key, value))
    } else {
        es.insert(ins_pos(es, key), (key, value))
    }
}

proof fn lemma_ins_pos(es: Seq<(Seq<char>, JsonView)>, key: Seq<char>)
    ensures
        0 <= ins_pos(es, key) <= es.len(),
    decreases es.len(),
{
    if es.len() > 0 {
        lemma_ins_pos(es.drop_first(), key);
    }
}

/// `p` is where `key` first occurs in `entries` (-1: nowhere), so it is
/// `key_pos(entries, key)`.
pub(crate) proof fn lemma_key_pos_is<T>(entries: Seq<(Seq<char>, T)>, key: Seq<char>, p: int)
    requires
        -1 <= p < entries.len(),
        p >= 0 ==> entries[p].0 == key,
        forall|j: int| 0 <= j < entries.len() && (p < 0 || j < p) ==> entries[j].0 != key,
    ensures
        key_pos(entries, key) == p,
{
    lemma_key_pos(entries, key);
    let k = key_pos(entries, key);
    if k >= 0 && p >= 0 && k < p {
        assert(entries[k].0 == key);
    }
    if k >= 0 && p < 0 {
        assert(entries[k].0 == key);
    }
}

/// Reading the key of an object just written gives the value written, and
/// every other key reads as before.
pub proof fn law_get_after_insert(
    es: Seq<(Seq<char>, JsonView)>,
    key: Seq<char>,
    value: JsonView,
    other: Seq<char>,
)
    requires
        other != key,
    ensures
        obj_get(obj_insert(es, key, value), key) == Some(value),
        obj_get(obj_insert(es, key, value), other) == obj_get(es, other),
{
    let p = key_pos(es, key);
    let q = key_pos(es, other);
    lemma_key_pos(es, key);
    lemma_key_pos(es, other);
    let n = obj_insert(es, key, value);
    if p >= 0 {
        assert forall|j: int| 0 <= j < n.len() && (p < 0 || j < p) implies n[j].0 != key by {
            assert(n[j] == es[j]);
        }
        lemma_key_pos_is(n, key, p);
        if q >= 0 {
            assert(q != p);
            assert forall|j: int| 0 <= j < n.len() && (q < 0 || j < q) implies n[j].0 != other by {
                if j != p {
                    assert(n[j] == es[j]);
                }
            }
            lemma_key_pos_is(n, other, q);
        } else {
            assert forall|j: int| 0 <= j < n.len() && (-1 < 0 || j < -1) implies n[j].0 != other by {
                if j != p {
                    assert(n[j] == es[j]);
                }
            }
            lemma_key_pos_is(n, other, -1);
        }
    } else {
        let ip = ins_pos(es, key);
        lemma_ins_pos(es, key);
        assert(n[ip] == (key, value));
        assert forall|j: int| 0 <= j < n.len() && (ip < 0 || j < ip) implies n[j].0 != key by {
            assert(n[j] == es[j]);
        }
        lemma_key_pos_is(n, key, ip);
        if q >= 0 {
            let q2 = if q < ip {
                q
            } else {
                q + 1
            };
            assert(n[q2] == es[q]);
            assert forall|j: int| 0 <= j < n.len() && (q2 < 0 || j < q2) implies n[j].0 != other by {
                if j < ip {
                    assert(n[j] == es[j]);
                } else if j > ip {
                    assert(n[j] == es[j - 1]);
                }
            }
            lemma_key_pos_is(n, other, q2);
        } else {
            assert forall|j: int| 0 <= j < n.len() && (-1 < 0 || j < -1) implies n[j].0 != other by {
                if j < ip {
                    assert(n[j] == es[j]);
                } else if j > ip {
                    assert(n[j] == es[j - 1]);
                }
            }
            lemma_key_pos_is(n, other, -1);
        }
    }
}

proof fn lemma_ins_pos_bounds(es: Seq<(Seq<char>, JsonView)>, key: Seq<char>)
    ensures
        0 <= ins_pos(es, key) <= es.len(),
        forall|j: int| 0 <= j < ins_pos(es, key) ==> seq_lt(#[trigger] es[j].0, key),
        ins_pos(es, key) < es.len() ==> !seq_lt(es[ins_pos(es, key)].0, key),
    decreases es.len(),
{
    if es.len() > 0 {
        lemma_ins_pos_bounds(es.drop_first(), key);
        if seq_lt(es[0].0, key) {
            assert forall|j: int| 0 <= j < ins_pos(es, key) implies seq_lt(#[trigger] es[j].0, key) by {
                if j > 0 {
                    assert(es[j] == es.drop_first()[j - 1]);
                }
            }
            if ins_pos(es, key) < es.len() {
                assert(es[ins_pos(es, key)] == es.drop_first()[ins_pos(es, key) - 1]);
            }
        }
    }
}

/// Inserting a canonical value into a canonical object (see `obj_insert`)
/// gives a canonical object: its keys still strictly increase.
pub proof fn law_insert_keeps_canonical(es: Seq<(Seq<char>, JsonView)>, key: Seq<char>, value: JsonView)
    requires
        canonical(JsonView::Object(es)),
        canonical(value),
    ensures
        canonical(JsonView::Object(obj_insert(es, key, value))),
{
    let ks = es.map_values(|e: (Seq<char>, JsonView)| e.0);
    assert(strictly_sorted(ks));
    let r = obj_insert(es, key, value);
    let rk = r.map_values(|e: (Seq<char>, JsonView)| e.0);
    lemma_key_pos(es, key);
    let p = key_pos(es, key);
    if p >= 0 {
        assert(rk =~= ks);
        assert forall|i: int| 0 <= i < r.len() implies canonical(#[trigger] r[i].1) by {
            if i != p {
                assert(r[i] == es[i]);
            }
        }
    } else {
        lemma_ins_pos_bounds(es, key);
        let ip = ins_pos(es, key);
        assert(r == es.insert(ip, (key, value)));
        assert forall|j: int| ip <= j < es.len() implies seq_lt(key, #[trigger] es[j].0) by {
            assert(es[ip].0 != key);
            lemma_lt_total(es[ip].0, key);
            if j > ip {
                assert(seq_lt(ks[ip], ks[j]));
                lemma_lt_trans(key, es[ip].0, es[j].0);
            }
        }
        assert forall|i: int, j: int| 0 <= i < j < rk.len() implies seq_lt(#[trigger] rk[i], #[trigger] rk[j]) by {
            if j < ip {
                assert(rk[i] == ks[i] && rk[j] == ks[j]);
            } else if j == ip {
                assert(rk[i] == es[i].0 && rk[j] == key);
            } else if i < ip {
                assert(rk[i] == es[i].0 && rk[j] == es[j - 1].0);
                assert(seq_lt(key, es[j - 1].0));
                lemma_lt_trans(es[i].0, key, es[j - 1].0);
            } else if i == ip {
                assert(rk[i] == key && rk[j] == es[j - 1].0);
            } else {
                assert(rk[i] == ks[i - 1] && rk[j] == ks[j - 1]);
            }
        }
        assert forall|i: int| 0 <= i < r.len() implies canonical(#[trigger] r[i].1) by {
            if i < ip {
                assert(r[i] == es[i]);
            } else if i > ip {
                assert(r[i] == es[i - 1]);
            }
        }
    }
}

/// Inserts `value` under `key` in an object's entries (see `obj_insert`).
pub fn insert_entry(es: &mut Vec<(String, JsonValue)>, key: String, value: JsonValue)
    ensures
        entries_of(final(es)@) == obj_insert(entries_of(old(es)@), key@, jv(value)),
{
    proof {
        lemma_entries_view(es@, es@.len() as int);
        lemma_key_pos(entries_of(es@), key@);
        lemma_ins_pos(entries_of(es@), key@);
    }
    let ghost before = es@;
    let ghost bv = entries_of(es@);
    let ghost kv = key@;
    let ghost vv = jv(value);
    match find_key(es, key.as_str()) {
        Some(p) => {
            es.set(p, (key, value));
            proof {
                lemma_entries_view(es@, es@.len() as int);
                assert(entries_of(es@) =~= bv.update(p as int, (kv, vv))) by {
                    assert forall|j: int| 0 <= j < es@.len() implies #[trigger] entries_of(es@)[j] == bv.update(p as int, (kv, vv))[j] by {
                        if j != p {
                            assert(es@[j] == before[j]);
                        }
                    }
                }
            }
        },
        None => {
            let mut q: usize = 0;
            assert(bv.skip(0) =~= bv);
            while q < es.len() && str_lt(es[q].0.as_str(), key.as_str())
                invariant
                    q <= es.len(),
                    es@ == before,
                    bv == entries_of(before),
                    bv.len() == before.len(),
                    forall|j: int| 0 <= j < bv.len() ==> #[trigger] bv[j] == (before[j].0@, jv(before[j].1)),
                    key@ == kv,
                    ins_pos(bv, kv) == q + ins_pos(bv.skip(q as int), kv),
                decreases es.len() - q,
            {
                let ghost rest = bv.skip(q as int);
                assert(rest[0] == bv[q as int]);
                assert(rest.drop_first() =~= bv.skip(q + 1));
                q += 1;
            }
            proof {
                if q < es.len() {
                    assert(bv.skip(q as int)[0] == bv[q as int]);
                } else {
                    assert(bv.skip(q as int) =~= Seq::<(Seq<char>, JsonView)>::empty());
                }
            }
            es.insert(q, (key, value));
            proof {
                lemma_entries_view(es@, es@.len() as int);
                assert(entries_of(es@) =~= bv.insert(q as int, (kv, vv))) by {
                    assert forall|j: int| 0 <= j < es@.len() implies #[trigger] entries_of(es@)[j] == bv.insert(q as int, (kv, vv))[j] by {
                        if j < q {
                            assert(es@[j] == before[j]);
                        } else if j > q {
                            assert(es@[j] == before[j - 1]);
                        }
                    }
                }
            }
        },
    }
}


// ---------------------------------------------------------------------------
// Canonical values, and values equal as JSON
// ---------------------------------------------------------------------------

/// A value as a parser makes it: the keys of every object strictly
/// increasing (each key once, in order), and every nested value so too.
pub open spec fn canonical(v: JsonView) -> bool
    decreases v,
{
    match v {
        JsonView::Object(es) => {
            &&& strictly_sorted(es.map_values(|e: (Seq<char>, JsonView)| e.0))
            &&& forall|i: int| 0 <= i < es.len() ==> canonical(#[trigger] es[i].1)
        },
        JsonView::Array(items) => forall|i: int| 0 <= i < items.len() ==> canonical(#[trigger] items[i]),
        _ => true,
    }
}

/// Whether the digits of a number's text, up to its exponent, are all
/// zeros (at least one), with points between them (`seen`: a zero came
/// before).
pub open spec fn zeros_until_exp(t: Seq<char>, seen: bool) -> bool
    decreases t.len(),
{
    if t.len() == 0 {
        seen
    } else if t[0] == 'e' || t[0] == 'E' {
        seen
    } else if t[0] == '0' {
        zeros_until_exp(t.drop_first(), true)
    } else if t[0] == '.' {
        zeros_until_exp(t.drop_first(), seen)
    } else {
        false
    }
}

/// Whether a number's text writes zero, with or without a minus sign.
pub open spec fn zero_text(t: Seq<char>) -> bool {
    if t.len() > 0 && t[0] == '-' {
        zeros_until_exp(t.drop_first(), false)
    } else {
        zeros_until_exp(t, false)
    }
}

/// Whether two numbers, as JSON writes them, are the same number: both
/// integers or both floating-point, with the same text, or both zero (the
/// floating-point zero and minus zero are one number).
pub open spec fn num_same(t1: Seq<char>, f1: bool, t2: Seq<char>, f2: bool) -> bool {
    f1 == f2 && (t1 == t2 || (f1 && zero_text(t1) && zero_text(t2)))
}

/// Whether two values that are not both arrays or both objects are the
/// same JSON value (numbers compared by value, see `num_same`).
pub open spec fn scalar_same(l: JsonView, r: JsonView) -> bool {
    match (l, r) {
        (JsonView::Number(t1, f1), JsonView::Number(t2, f2)) => num_same(t1, f1, t2, f2),
        _ => l == r,
    }
}

/// Whether two values are the same JSON value: objects with the same keys
/// in the same order and the same values under them, arrays with the same
/// items, numbers of the same value, other values equal.
pub open spec fn json_same(l: JsonView, r: JsonView) -> bool
    decreases l,
{
    match (l, r) {
        (JsonView::Object(a), JsonView::Object(b)) => {
            &&& a.len() == b.len()
            &&& forall|i: int| #![trigger a[i]] 0 <= i < a.len() ==> a[i].0 == b[i].0 && json_same(a[i].1, b[i].1)
        },
        (JsonView::Array(a), JsonView::Array(b)) => {
            &&& a.len() == b.len()
            &&& forall|i: int| #![trigger a[i]] 0 <= i < a.len() ==> json_same(a[i], b[i])
        },
        _ => scalar_same(l, r),
    }
}

/// Whether a number's text writes zero (see `zero_text`).
pub fn zero_number_text(t: &str) -> (r: bool)
    ensures
        r == zero_text(t@),
{
    let cs = chars_of(t);
    let ghost goal = zero_text(t@);
    let mut i: usize = 0;
    if cs.len() > 0 && cs[0] == '-' {
        i = 1;
        assert(cs@.subrange(1, cs@.len() as int) =~= t@.drop_first());
    } else {
        assert(cs@.subrange(0, cs@.len() as int) =~= t@);
    }
    let mut seen = false;
    while i < cs.len()
        invariant
            i <= cs@.len(),
            cs@ == t@,
            goal == zero_text(t@),
            zeros_until_exp(cs@.subrange(i as int, cs@.len() as int), seen) == goal,
        decreases cs@.len() - i,
    {
        let ghost sub = cs@.subrange(i as int, cs@.len() as int);
        assert(sub[0] == cs@[i as int]);
        assert(sub.drop_first() =~= cs@.subrange(i + 1, cs@.len() as int));
        let c = cs[i];
        if c == 'e' || c == 'E' {
            return seen;
        }
        if c == '0' {
            seen = true;
        } else if c != '.' {
            return false;
        }
        i += 1;
    }
    seen
}

} // verus!

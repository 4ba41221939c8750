//! What the data graph observes of entities and their values, and the
//! entities that a source's samples name.
use vstd::prelude::*;

use crate::json::{entries_of, items_of, jv, lemma_entries_view, lemma_items_view, JsonValue, JsonView};
use crate::strset::{insert_all, lemma_sorted_strs, sorted_strs};
use crate::text::{
    cat, chars_of, contains, ends_with, has_sub, has_suffix, is_alnum_char, is_ascii_alnum, occurs_at, owned,
    str_eq, string_of_range, strictly_sorted, strs, to_lowercase, unicode_lower, utf8_len, utf8_width,
};

verus! {

#[derive(Debug, Clone, Copy, PartialEq, Eq, Structural)]
pub enum IdentityKind {
    Primary,
    Foreign,
    Synthetic,
}

/// The kinds of value a field holds, in their order.
#[derive(Debug, Clone, Copy, PartialEq, Eq, Structural, PartialOrd, Ord, Hash)]
pub enum ValueKind {
    String,
    Number,
    Boolean,
    Timestamp,
    Object,
    Array,
    Null,
    Mixed,
}

/// How often an entity was seen, and where. The sources form a sorted set.
#[derive(Debug, Clone, PartialEq, Eq)]
pub struct EntityObservation {
    pub entity: String,
    pub instances: usize,
    pub sources: Vec<String>,
    pub sample_paths: Vec<String>,
}

// ---------------------------------------------------------------------------
// Source stems
// ---------------------------------------------------------------------------

/// The part of `s` after its last `c`, if `c` occurs in it.
pub open spec fn after_last(s: Seq<char>, c: char) -> Option<Seq<char>>
    decreases s.len(),
{
    if s.len() == 0 {
        None
    } else if s.last() == c {
        Some(Seq::empty())
    } else {
        match after_last(s.drop_last(), c) {
            Some(t) => Some(t.push(s.last())),
            None => None,
        }
    }
}

/// The part of `s` before its first `c`, if `c` occurs in it.
pub open spec fn before_first(s: Seq<char>, c: char) -> Option<Seq<char>>
    decreases s.len(),
{
    if s.len() == 0 {
        None
    } else if s[0] == c {
        Some(Seq::empty())
    } else {
        match before_first(s.drop_first(), c) {
            Some(t) => Some(seq![s[0]] + t),
            None => None,
        }
    }
}

/// The stem of a source name: its file name (what follows the last `/`) up
/// to the first `.`. A source whose file name has no `.` is its own stem,
/// directories included.
pub open spec fn stem_of(source: Seq<char>) -> Seq<char> {
    let tail = match after_last(source, '/') {
        Some(t) => t,
        None => source,
    };
    match before_first(tail, '.') {
        Some(p) => p,
        None => source,
    }
}

proof fn lemma_after_last(s: Seq<char>, c: char, a: int)
    requires
        0 <= a <= s.len(),
        forall|j: int| a <= j < s.len() ==> s[j] != c,
        a == 0 || s[a - 1] == c,
    ensures
        after_last(s, c) == (if a == 0 {
            None
        } else {
            Some(s.subrange(a, s.len() as int))
        }),
    decreases s.len(),
{
    if s.len() == 0 {
    } else if s.last() == c {
        assert(s.subrange(a, s.len() as int) =~= Seq::<char>::empty());
    } else {
        lemma_after_last(s.drop_last(), c, a);
        if a > 0 {
            assert(s.drop_last().subrange(a, s.len() - 1).push(s.last()) =~= s.subrange(a, s.len() as int));
        }
    }
}

proof fn lemma_before_first(s: Seq<char>, c: char, b: int)
    requires
        0 <= b <= s.len(),
        forall|j: int| 0 <= j < b ==> s[j] != c,
        b == s.len() || s[b] == c,
    ensures
        before_first(s, c) == (if b == s.len() {
            None
        } else {
            Some(s.subrange(0, b))
        }),
    decreases s.len(),
{
    if s.len() == 0 {
    } else if s[0] == c {
        assert(s.subrange(0, b) =~= Seq::<char>::empty());
    } else {
        lemma_before_first(s.drop_first(), c, b - 1);
        if b < s.len() {
            assert(seq![s[0]] + s.drop_first().subrange(0, b - 1) =~= s.subrange(0, b));
        }
    }
}

/// The stem of a source name (see `stem_of`).
pub fn source_stem(source: &str) -> (r: String)
    ensures
        r@ == stem_of(source@),
{
    let v = chars_of(source);
    let n = v.len();
    let mut a: usize = n;
    while a > 0 && v[a - 1] != '/'
        invariant
            a <= n,
            n == v@.len(),
            forall|j: int| a <= j < n ==> v@[j] != '/',
        decreases a,
    {
        a -= 1;
    }
    let mut b: usize = a;
    while b < n && v[b] != '.'
        invariant
            a <= b <= n,
            n == v@.len(),
            forall|j: int| a <= j < b ==> v@[j] != '.',
        decreases n - b,
    {
        b += 1;
    }
    proof {
        lemma_after_last(v@, '/', a as int);
        let tail = v@.subrange(a as int, n as int);
        if a == 0 {
            assert(tail =~= v@);
        }
        lemma_before_first(tail, '.', b - a);
        if b < n {
            assert(tail.subrange(0, b - a) =~= v@.subrange(a as int, b as int));
        }
        assert(v@.subrange(0, n as int) =~= v@);
    }
    if b < n {
        string_of_range(&v, a, b)
    } else {
        string_of_range(&v, 0, n)
    }
}

// ---------------------------------------------------------------------------
// Entity names
// ---------------------------------------------------------------------------

/// The characters that a name keeps at its ends: ASCII letters and digits,
/// and `_`.
pub open spec fn name_c(c: char) -> bool {
    is_ascii_alnum(c) || c == '_'
}

pub open spec fn trim_name_start(s: Seq<char>) -> Seq<char>
    decreases s.len(),
{
    if s.len() > 0 && !name_c(s[0]) {
        trim_name_start(s.drop_first())
    } else {
        s
    }
}

pub open spec fn trim_name_end(s: Seq<char>) -> Seq<char>
    decreases s.len(),
{
    if s.len() > 0 && !name_c(s.last()) {
        trim_name_end(s.drop_last())
    } else {
        s
    }
}

pub open spec fn is_name_sep(c: char) -> bool {
    c == '_' || c == '-' || c == ' '
}

/// What `char::to_uppercase` yields for a character.
pub uninterp spec fn char_upper(c: char) -> Seq<char>;

/// What `char::to_lowercase` yields for a character.
pub uninterp spec fn char_lower(c: char) -> Seq<char>;

/// The uppercase mapping of a character (`char::to_uppercase`), collected
/// into a string. Which characters it yields is Unicode's case mapping, not
/// stated here beyond the name `char_upper`.
#[verifier::external_body]
fn upper_of(c: char) -> (r: String)
    ensures
        r@ == char_upper(c),
{
    c.to_uppercase().collect()
}

/// The lowercase mapping of a character (`char::to_lowercase`), collected
/// into a string; named `char_lower`, as `upper_of` names its mapping.
#[verifier::external_body]
fn lower_of(c: char) -> (r: String)
    ensures
        r@ == char_lower(c),
{
    c.to_lowercase().collect()
}

/// PascalCase of `s`, with whether the next character is capitalized:
/// `_`, `-` and spaces are dropped and capitalize what follows; the first
/// character is capitalized; the others are lowercased.
pub open spec fn pascal_state(s: Seq<char>) -> (Seq<char>, bool)
    decreases s.len(),
{
    if s.len() == 0 {
        (Seq::empty(), true)
    } else {
        let (out, cap) = pascal_state(s.drop_last());
        let c = s.last();
        if is_name_sep(c) {
            (out, true)
        } else if cap {
            (out + char_upper(c), false)
        } else {
            (out + char_lower(c), false)
        }
    }
}

/// An entity name from a raw key: trimmed of other characters than
/// `name_c` at both ends, then in PascalCase; `Entity` when nothing is left.
pub open spec fn normalized_name(raw: Seq<char>) -> Seq<char> {
    let out = pascal_state(trim_name_end(trim_name_start(raw))).0;
    if out.len() == 0 {
        "Entity"@
    } else {
        out
    }
}

/// The singular of a name: `ies` becomes `y` after at least one other
/// character, a final `s` after at least one other character is dropped.
pub open spec fn singular_of(name: Seq<char>) -> Seq<char> {
    if has_suffix(name, "ies"@) && name.len() > 3 {
        name.subrange(0, name.len() - 3) + "y"@
    } else if name.len() > 1 && name.last() == 's' {
        name.drop_last()
    } else {
        name
    }
}

/// The entity that a key names: its normalized name, in the singular.
pub open spec fn entity_name_of(raw: Seq<char>) -> Seq<char> {
    singular_of(normalized_name(raw))
}

proof fn lemma_trim_name_start(s: Seq<char>, a: int)
    requires
        0 <= a <= s.len(),
        forall|j: int| 0 <= j < a ==> !name_c(s[j]),
        a == s.len() || name_c(s[a]),
    ensures
        trim_name_start(s) == s.subrange(a, s.len() as int),
    decreases a,
{
    if a > 0 {
        lemma_trim_name_start(s.drop_first(), a - 1);
        assert(s.drop_first().subrange(a - 1, s.len() - 1) =~= s.subrange(a, s.len() as int));
    } else {
        assert(s.subrange(0, s.len() as int) =~= s);
    }
}

proof fn lemma_trim_name_end(s: Seq<char>, b: int)
    requires
        0 <= b <= s.len(),
        forall|j: int| b <= j < s.len() ==> !name_c(s[j]),
        b == 0 || name_c(s[b - 1]),
    ensures
        trim_name_end(s) == s.subrange(0, b),
    decreases s.len() - b,
{
    if b < s.len() {
        lemma_trim_name_end(s.drop_last(), b);
        assert(s.drop_last().subrange(0, b) =~= s.subrange(0, b));
    } else {
        assert(s.subrange(0, b) =~= s);
    }
}

/// An entity name from a raw key (see `normalized_name`).
pub fn normalize_name(raw: &str) -> (r: String)
    ensures
        r@ == normalized_name(raw@),
{
    let v = chars_of(raw);
    let n = v.len();
    let mut a: usize = 0;
    while a < n && !(is_alnum_char(v[a]) || v[a] == '_')
        invariant
            a <= n,
            n == v@.len(),
            forall|j: int| 0 <= j < a ==> !name_c(v@[j]),
        decreases n - a,
    {
        a += 1;
    }
    let mut b: usize = n;
    while b > a && !(is_alnum_char(v[b - 1]) || v[b - 1] == '_')
        invariant
            a <= b <= n,
            n == v@.len(),
            forall|j: int| b <= j < n ==> !name_c(v@[j]),
        decreases b,
    {
        b -= 1;
    }
    proof {
        lemma_trim_name_start(v@, a as int);
        let rest = v@.subrange(a as int, n as int);
        lemma_trim_name_end(rest, b - a);
        assert(rest.subrange(0, b - a) =~= v@.subrange(a as int, b as int));
    }
    let mut out = String::new();
    let mut cap = true;
    let mut i: usize = a;
    while i < b
        invariant
            a <= i <= b <= n,
            n == v@.len(),
            (out@, cap) == pascal_state(v@.subrange(a as int, i as int)),
        decreases b - i,
    {
        let c = v[i];
        proof {
            assert(v@.subrange(a as int, i + 1).drop_last() =~= v@.subrange(a as int, i as int));
        }
        if c == '_' || c == '-' || c == ' ' {
            cap = true;
        } else if cap {
            let u = upper_of(c);
            out.append(u.as_str());
            cap = false;
        } else {
            let l = lower_of(c);
            out.append(l.as_str());
        }
        i += 1;
    }
    if out.as_str().unicode_len() == 0 {
        owned("Entity")
    } else {
        out
    }
}

/// The singular of a name (see `singular_of`).
pub fn singularize(name: &str) -> (r: String)
    ensures
        r@ == singular_of(name@),
{
    let v = chars_of(name);
    let n = v.len();
    if ends_with(name, "ies") && n > 3 {
        let stem = string_of_range(&v, 0, n - 3);
        cat(stem.as_str(), "y")
    } else if n > 1 && v[n - 1] == 's' {
        string_of_range(&v, 0, n - 1)
    } else {
        proof {
            assert(v@.subrange(0, n as int) =~= v@);
        }
        owned(name)
    }
}

/// Whether some item is an object (a sample).
pub open spec fn has_object(items: Seq<JsonView>) -> bool {
    exists|i: int| 0 <= i < items.len() && items[i] is Object
}

/// Whether a field's value holds samples of an entity of its own: an
/// object, or an array with at least one object.
pub open spec fn nests(v: JsonView) -> bool {
    match v {
        JsonView::Object(_) => true,
        JsonView::Array(items) => has_object(items),
        _ => false,
    }
}

/// The entities named by the first `n` fields of a sample that nest one.
pub open spec fn nested_names(es: Seq<(Seq<char>, JsonView)>, n: int) -> Seq<Seq<char>>
    decreases n,
{
    if n <= 0 || n > es.len() {
        Seq::empty()
    } else if nests(es[n - 1].1) {
        nested_names(es, n - 1).push(entity_name_of(es[n - 1].0))
    } else {
        nested_names(es, n - 1)
    }
}

/// The entities nested in the samples among the first `n` items.
pub open spec fn item_nested_names(items: Seq<JsonView>, n: int) -> Seq<Seq<char>>
    decreases n,
{
    if n <= 0 || n > items.len() {
        Seq::empty()
    } else {
        match items[n - 1] {
            JsonView::Object(es) => item_nested_names(items, n - 1) + nested_names(es, es.len() as int),
            _ => item_nested_names(items, n - 1),
        }
    }
}

/// The entities of the first `n` members of a root object: a member whose
/// value nests samples names an entity, and so do the fields of its samples.
pub open spec fn member_names(es: Seq<(Seq<char>, JsonView)>, n: int) -> Seq<Seq<char>>
    decreases n,
{
    if n <= 0 || n > es.len() {
        Seq::empty()
    } else {
        let rest = member_names(es, n - 1);
        match es[n - 1].1 {
            JsonView::Array(items) => if has_object(items) {
                rest.push(entity_name_of(es[n - 1].0)) + item_nested_names(items, items.len() as int)
            } else {
                rest
            },
            JsonView::Object(inner) => rest.push(entity_name_of(es[n - 1].0)) + nested_names(
                inner,
                inner.len() as int,
            ),
            _ => rest,
        }
    }
}

/// The entities that one source's document names. An array of samples is
/// an entity named after the source's stem. An object names an entity for
/// each member that nests samples; one with no such member is itself a
/// sample of an entity named after the stem. The fields of every sample
/// that nest samples name entities too (one level deep).
pub open spec fn source_entity_names(source: Seq<char>, root: JsonView) -> Seq<Seq<char>> {
    match root {
        JsonView::Array(items) => if has_object(items) {
            seq![entity_name_of(stem_of(source))] + item_nested_names(items, items.len() as int)
        } else {
            Seq::empty()
        },
        JsonView::Object(es) => if exists|i: int| 0 <= i < es.len() && nests(#[trigger] es[i].1) {
            member_names(es, es.len() as int)
        } else {
            seq![entity_name_of(stem_of(source))] + nested_names(es, es.len() as int)
        },
        _ => Seq::empty(),
    }
}

/// The entity name of a raw key (see `entity_name_of`).
fn entity_name(raw: &str) -> (r: String)
    ensures
        r@ == entity_name_of(raw@),
{
    let n = normalize_name(raw);
    singularize(n.as_str())
}

fn has_object_items(items: &Vec<JsonValue>) -> (r: bool)
    ensures
        r == has_object(items_of(items@)),
{
    proof {
        lemma_items_view(items@, items@.len() as int);
    }
    let mut i: usize = 0;
    while i < items.len()
        invariant
            i <= items.len(),
            items_of(items@).len() == items.len(),
            forall|k: int| 0 <= k < items.len() ==> #[trigger] items_of(items@)[k] == jv(items@[k]),
            forall|k: int| 0 <= k < i ==> !(items_of(items@)[k] is Object),
        decreases items.len() - i,
    {
        match &items[i] {
            JsonValue::Object(_) => {
                assert(items_of(items@)[i as int] is Object);
                return true;
            },
            _ => {},
        }
        i += 1;
    }
    false
}

fn nests_value(v: &JsonValue) -> (r: bool)
    ensures
        r == nests(jv(*v)),
{
    match v {
        JsonValue::Object(_) => true,
        JsonValue::Array(items) => has_object_items(items),
        _ => false,
    }
}

proof fn lemma_strs_push(v: Seq<String>, x: String)
    ensures
        strs(v.push(x)) == strs(v).push(x@),
{
    assert(strs(v.push(x)) =~= strs(v).push(x@));
}

/// Appends the entities that the fields of a sample nest.
fn push_nested(out: &mut Vec<String>, es: &Vec<(String, JsonValue)>)
    ensures
        strs(final(out)@) == strs(old(out)@) + nested_names(entries_of(es@), es@.len() as int),
{
    proof {
        lemma_entries_view(es@, es@.len() as int);
    }
    let ghost start = strs(out@);
    let ghost ev = entries_of(es@);
    let mut i: usize = 0;
    while i < es.len()
        invariant
            i <= es.len(),
            ev == entries_of(es@),
            ev.len() == es.len(),
            forall|k: int| 0 <= k < es.len() ==> #[trigger] ev[k] == (es@[k].0@, jv(es@[k].1)),
            strs(out@) == start + nested_names(ev, i as int),
        decreases es.len() - i,
    {
        if nests_value(&es[i].1) {
            let name = entity_name(es[i].0.as_str());
            proof {
                lemma_strs_push(out@, name);
            }
            out.push(name);
        }
        assert(strs(out@) =~= start + nested_names(ev, i + 1));
        i += 1;
    }
}

/// Appends the entities nested in the samples among `items`.
fn push_item_nested(out: &mut Vec<String>, items: &Vec<JsonValue>)
    ensures
        strs(final(out)@) == strs(old(out)@) + item_nested_names(items_of(items@), items@.len() as int),
{
    proof {
        lemma_items_view(items@, items@.len() as int);
    }
    let ghost start = strs(out@);
    let ghost iv = items_of(items@);
    let mut i: usize = 0;
    while i < items.len()
        invariant
            i <= items.len(),
            iv == items_of(items@),
            iv.len() == items.len(),
            forall|k: int| 0 <= k < items.len() ==> #[trigger] iv[k] == jv(items@[k]),
            strs(out@) == start + item_nested_names(iv, i as int),
        decreases items.len() - i,
    {
        let ghost before = strs(out@);
        match &items[i] {
            JsonValue::Object(es) => {
                proof {
                    lemma_entries_view(es@, es@.len() as int);
                    assert(iv[i as int] == JsonView::Object(entries_of(es@)));
                }
                push_nested(out, es);
                assert(item_nested_names(iv, i + 1) == item_nested_names(iv, i as int) + nested_names(
                    entries_of(es@),
                    es@.len() as int,
                ));
            },
            _ => {
                assert(!(iv[i as int] is Object));
            },
        }
        assert(strs(out@) =~= start + item_nested_names(iv, i + 1));
        i += 1;
    }
}

/// The entities of the members of a root object (see `member_names`).
fn push_members(out: &mut Vec<String>, es: &Vec<(String, JsonValue)>)
    ensures
        strs(final(out)@) == strs(old(out)@) + member_names(entries_of(es@), es@.len() as int),
{
    proof {
        lemma_entries_view(es@, es@.len() as int);
    }
    let ghost start = strs(out@);
    let ghost ev = entries_of(es@);
    let mut i: usize = 0;
    while i < es.len()
        invariant
            i <= es.len(),
            ev == entries_of(es@),
            ev.len() == es.len(),
            forall|k: int| 0 <= k < es.len() ==> #[trigger] ev[k] == (es@[k].0@, jv(es@[k].1)),
            strs(out@) == start + member_names(ev, i as int),
        decreases es.len() - i,
    {
        let ghost before = strs(out@);
        match &es[i].1 {
            JsonValue::Array(items) => {
                proof {
                    lemma_items_view(items@, items@.len() as int);
                    assert(ev[i as int].1 == JsonView::Array(items_of(items@)));
                }
                if has_object_items(items) {
                    let name = entity_name(es[i].0.as_str());
                    proof {
                        lemma_strs_push(out@, name);
                    }
                    out.push(name);
                    push_item_nested(out, items);
                    assert(member_names(ev, i + 1) == member_names(ev, i as int).push(name@) + item_nested_names(
                        items_of(items@),
                        items@.len() as int,
                    ));
                } else {
                    assert(member_names(ev, i + 1) == member_names(ev, i as int));
                }
            },
            JsonValue::Object(inner) => {
                proof {
                    lemma_entries_view(inner@, inner@.len() as int);
                    assert(ev[i as int].1 == JsonView::Object(entries_of(inner@)));
                }
                let name = entity_name(es[i].0.as_str());
                proof {
                    lemma_strs_push(out@, name);
                }
                out.push(name);
                push_nested(out, inner);
                assert(member_names(ev, i + 1) == member_names(ev, i as int).push(name@) + nested_names(
                    entries_of(inner@),
                    inner@.len() as int,
                ));
            },
            _ => {
                assert(member_names(ev, i + 1) == member_names(ev, i as int));
            },
        }
        assert(strs(out@) =~= start + member_names(ev, i + 1));
        i += 1;
    }
}

/// The entities that one source's document names, sorted and each once
/// (see `source_entity_names`).
pub fn entity_names(source: &str, root: &JsonValue) -> (r: Vec<String>)
    ensures
        strs(r@) == sorted_strs(source_entity_names(source@, jv(*root)).to_set()),
        strictly_sorted(strs(r@)),
        strs(r@).to_set() == source_entity_names(source@, jv(*root)).to_set(),
{
    let mut found: Vec<String> = Vec::new();
    assert(strs(found@) =~= Seq::<Seq<char>>::empty());
    match root {
        JsonValue::Array(items) => {
            proof {
                lemma_items_view(items@, items@.len() as int);
                assert(jv(*root) == JsonView::Array(items_of(items@)));
            }
            if has_object_items(items) {
                let stem = source_stem(source);
                let name = entity_name(stem.as_str());
                proof {
                    lemma_strs_push(found@, name);
                }
                found.push(name);
                push_item_nested(&mut found, items);
                assert(strs(found@) =~= seq![name@] + item_nested_names(items_of(items@), items@.len() as int));
            }
        },
        JsonValue::Object(es) => {
            let mut any = false;
            let mut i: usize = 0;
            proof {
                lemma_entries_view(es@, es@.len() as int);
            }
            while i < es.len()
                invariant
                    i <= es.len(),
                    entries_of(es@).len() == es.len(),
                    forall|k: int| 0 <= k < es.len() ==> #[trigger] entries_of(es@)[k] == (es@[k].0@, jv(es@[k].1)),
                    any == exists|k: int| 0 <= k < i && nests(#[trigger] entries_of(es@)[k].1),
                decreases es.len() - i,
            {
                if nests_value(&es[i].1) {
                    assert(nests(entries_of(es@)[i as int].1));
                    any = true;
                }
                i += 1;
            }
            assert(jv(*root) == JsonView::Object(entries_of(es@)));
            if any {
                push_members(&mut found, es);
                assert(strs(found@) =~= member_names(entries_of(es@), es@.len() as int));
            } else {
                let stem = source_stem(source);
                let name = entity_name(stem.as_str());
                proof {
                    lemma_strs_push(found@, name);
                }
                found.push(name);
                push_nested(&mut found, es);
                assert(strs(found@) =~= seq![name@] + nested_names(entries_of(es@), es@.len() as int));
            }
        },
        _ => {},
    }
    let ghost names = source_entity_names(source@, jv(*root));
    assert(strs(found@) =~= names);
    let mut r: Vec<String> = Vec::new();
    assert(strs(r@) =~= Seq::<Seq<char>>::empty());
    insert_all(&mut r, &found);
    proof {
        assert(strs(r@).to_set() =~= names.to_set());
        lemma_sorted_strs(strs(r@), names.to_set());
    }
    r
}

// ---------------------------------------------------------------------------
// What the values of a field say
// ---------------------------------------------------------------------------

/// The kind of a JSON value.
pub open spec fn kind_of(v: JsonView) -> ValueKind {
    match v {
        JsonView::Str(_) => ValueKind::String,
        JsonView::Number(..) => ValueKind::Number,
        JsonView::Bool(_) => ValueKind::Boolean,
        JsonView::Object(_) => ValueKind::Object,
        JsonView::Array(_) => ValueKind::Array,
        JsonView::Null => ValueKind::Null,
    }
}

pub fn classify_kind(value: &JsonValue) -> (r: ValueKind)
    ensures
        r == kind_of(jv(*value)),
{
    match value {
        JsonValue::Str(_) => ValueKind::String,
        JsonValue::Number { .. } => ValueKind::Number,
        JsonValue::Bool(_) => ValueKind::Boolean,
        JsonValue::Object(_) => ValueKind::Object,
        JsonValue::Array(_) => ValueKind::Array,
        JsonValue::Null => ValueKind::Null,
    }
}

/// The kind of a field from how often each kind was seen (each kind once in
/// `type_counts`): a timestamp where a value looked like one; else the one
/// kind seen, if exactly one was; else mixed.
pub open spec fn inferred_kind(type_counts: Seq<(ValueKind, usize)>, temporal_hint: bool) -> ValueKind {
    if temporal_hint {
        ValueKind::Timestamp
    } else if type_counts.len() == 1 {
        type_counts[0].0
    } else {
        ValueKind::Mixed
    }
}

pub fn infer_kind(type_counts: &Vec<(ValueKind, usize)>, temporal_hint: bool) -> (r: ValueKind)
    requires
        forall|i: int, j: int|
            0 <= i < j < type_counts@.len() ==> type_counts@[i].0 != type_counts@[j].0,
    ensures
        r == inferred_kind(type_counts@, temporal_hint),
{
    if temporal_hint {
        return ValueKind::Timestamp;
    }
    if type_counts.len() > 1 {
        return ValueKind::Mixed;
    }
    if type_counts.len() == 1 {
        type_counts[0].0
    } else {
        ValueKind::Mixed
    }
}

/// Whether a lowercased name mentions personal data: `email`, `phone`,
/// `address`, `ssn` or `dob`.
pub open spec fn pii_tokens(lower: Seq<char>) -> bool {
    has_sub(lower, "email"@) || has_sub(lower, "phone"@) || has_sub(lower, "address"@) || has_sub(
        lower,
        "ssn"@,
    ) || has_sub(lower, "dob"@)
}

/// Whether a field's name, lowercased, mentions personal data.
pub open spec fn pii_name(field: Seq<char>) -> bool {
    pii_tokens(unicode_lower(field))
}

/// Whether an already lowercased name mentions personal data.
pub fn mentions_pii(lower: &str) -> (r: bool)
    ensures
        r == pii_tokens(lower@),
{
    contains(lower, "email") || contains(lower, "phone") || contains(lower, "address") || contains(
        lower,
        "ssn",
    ) || contains(lower, "dob")
}

pub fn looks_like_pii(field: &str) -> (r: bool)
    ensures
        r == pii_name(field@),
{
    let lower = to_lowercase(field);
    mentions_pii(lower.as_str())
}

/// The length of a text in UTF-8.
pub open spec fn utf8_size(s: Seq<char>) -> nat
    decreases s.len(),
{
    if s.len() == 0 {
        0
    } else {
        utf8_size(s.drop_last()) + utf8_len(s.last())
    }
}

/// Whether byte `k` of the UTF-8 text of `s` is the ASCII character `b`.
pub open spec fn byte_at_is(s: Seq<char>, k: nat, b: char) -> bool {
    exists|i: int| 0 <= i < s.len() && utf8_size(s.subrange(0, i)) == k && s[i] == b
}

/// Text that reads like a date and time: at least ten bytes, `-` at bytes
/// 4 and 7, and a `T` or a `:` somewhere.
pub open spec fn timestamp_text(s: Seq<char>) -> bool {
    &&& utf8_size(s) >= 10
    &&& byte_at_is(s, 4, '-')
    &&& byte_at_is(s, 7, '-')
    &&& (s.contains('T') || s.contains(':'))
}

/// Whether a field with this lowercased name holds times: the name
/// mentions `created`, `updated`, `deleted` or `timestamp`, or ends in
/// `_at`; or the value is text that reads like a date and time.
pub open spec fn temporal_lower(lower: Seq<char>, value: JsonView) -> bool {
    if has_sub(lower, "created"@) || has_sub(lower, "updated"@) || has_sub(lower, "deleted"@)
        || has_sub(lower, "timestamp"@) || has_suffix(lower, "_at"@) {
        true
    } else {
        match value {
            JsonView::Str(s) => timestamp_text(s),
            _ => false,
        }
    }
}

/// Whether a field holds times, judged by its lowercased name and its value.
pub open spec fn temporal_field(field: Seq<char>, value: JsonView) -> bool {
    temporal_lower(unicode_lower(field), value)
}

proof fn lemma_utf8_step(s: Seq<char>, i: int)
    requires
        0 <= i < s.len(),
    ensures
        utf8_size(s.subrange(0, i + 1)) == utf8_size(s.subrange(0, i)) + utf8_len(s[i]),
{
    assert(s.subrange(0, i + 1).drop_last() =~= s.subrange(0, i));
}

proof fn lemma_utf8_mono(s: Seq<char>, j: int, i: int)
    requires
        0 <= j <= i <= s.len(),
    ensures
        utf8_size(s.subrange(0, j)) + (i - j) <= utf8_size(s.subrange(0, i)),
    decreases i - j,
{
    if j < i {
        lemma_utf8_mono(s, j, i - 1);
        lemma_utf8_step(s, i - 1);
    }
}

/// Whether byte `k` (at most 7) of the text of `v` is the ASCII character `b`.
fn byte_is(v: &Vec<char>, k: usize, b: char) -> (r: bool)
    requires
        k <= 7,
    ensures
        r == byte_at_is(v@, k as nat, b),
{
    let n = v.len();
    let mut i: usize = 0;
    let mut off: usize = 0;
    while i < n && off < k
        invariant
            n == v@.len(),
            i <= n,
            k <= 7,
            off <= k + 3,
            off == utf8_size(v@.subrange(0, i as int)),
            forall|j: int| 0 <= j < i ==> utf8_size(#[trigger] v@.subrange(0, j)) < k,
        decreases n - i,
    {
        proof {
            lemma_utf8_step(v@, i as int);
        }
        off = off + utf8_width(v[i]);
        i += 1;
    }
    let r = i < n && off == k && v[i] == b;
    proof {
        if r {
            assert(utf8_size(v@.subrange(0, i as int)) == k && v@[i as int] == b);
        } else if byte_at_is(v@, k as nat, b) {
            let j = choose|j: int| 0 <= j < v@.len() && utf8_size(v@.subrange(0, j)) == k && v@[j] == b;
            if j < i {
            } else if j == i {
            } else {
                lemma_utf8_mono(v@, i as int, j);
            }
            if i == n {
                lemma_utf8_mono(v@, j, n as int);
            }
        }
    }
    r
}

/// Whether a text reads like a date and time (see `timestamp_text`).
fn is_timestamp_text(s: &str) -> (r: bool)
    ensures
        r == timestamp_text(s@),
{
    let v = chars_of(s);
    let n = v.len();
    let long_enough = if n >= 10 {
        proof {
            lemma_utf8_mono(v@, 0, n as int);
            assert(v@.subrange(0, 0) =~= Seq::<char>::empty());
            assert(v@.subrange(0, n as int) =~= v@);
        }
        true
    } else {
        let mut i: usize = 0;
        let mut size: usize = 0;
        while i < n
            invariant
                n == v@.len(),
                n < 10,
                i <= n,
                size <= 4 * i,
                size == utf8_size(v@.subrange(0, i as int)),
            decreases n - i,
        {
            proof {
                lemma_utf8_step(v@, i as int);
            }
            size = size + utf8_width(v[i]);
            i += 1;
        }
        proof {
            assert(v@.subrange(0, n as int) =~= v@);
        }
        size >= 10
    };
    let has_t = contains(s, "T");
    let has_colon = contains(s, ":");
    proof {
        reveal_strlit("T");
        reveal_strlit(":");
        if has_t {
            let i = choose|i: int| occurs_at(s@, "T"@, i);
            assert(s@.subrange(i, i + 1)[0] == 'T');
            assert(s@[i] == 'T');
        }
        if s@.contains('T') {
            let i = choose|i: int| 0 <= i < s@.len() && s@[i] == 'T';
            assert(s@.subrange(i, i + 1) =~= "T"@);
            assert(occurs_at(s@, "T"@, i));
        }
        if has_colon {
            let i = choose|i: int| occurs_at(s@, ":"@, i);
            assert(s@.subrange(i, i + 1)[0] == ':');
            assert(s@[i] == ':');
        }
        if s@.contains(':') {
            let i = choose|i: int| 0 <= i < s@.len() && s@[i] == ':';
            assert(s@.subrange(i, i + 1) =~= ":"@);
            assert(occurs_at(s@, ":"@, i));
        }
    }
    long_enough && byte_is(&v, 4, '-') && byte_is(&v, 7, '-') && (has_t || has_colon)
}

/// Whether a field holds times (see `temporal_field`).
pub fn is_temporal_field(field: &str, value: &JsonValue) -> (r: bool)
    ensures
        r == temporal_field(field@, jv(*value)),
{
    let lower = to_lowercase(field);
    holds_times(lower.as_str(), value)
}

/// Whether a field with this lowercased name and this value holds times
/// (see `temporal_lower`).
pub fn holds_times(l: &str, value: &JsonValue) -> (r: bool)
    ensures
        r == temporal_lower(l@, jv(*value)),
{
    if contains(l, "created") || contains(l, "updated") || contains(l, "deleted") || contains(
        l,
        "timestamp",
    ) || ends_with(l, "_at") {
        return true;
    }
    match value {
        JsonValue::Str(v) => is_timestamp_text(v.as_str()),
        _ => false,
    }
}

/// `s` with every trailing repetition of `t` removed
/// (`str::trim_end_matches` with a string pattern).
pub open spec fn trim_suffix_all(s: Seq<char>, t: Seq<char>) -> Seq<char>
    decreases s.len(),
{
    if t.len() > 0 && has_suffix(s, t) {
        trim_suffix_all(s.subrange(0, s.len() - t.len()), t)
    } else {
        s
    }
}

/// The entity a field refers to: its name without trailing `Id`s, then
/// `id`s, then `_id`s, lowercased; the first other entity whose lowercased
/// name is that, if what is left is not empty.
pub open spec fn relationship_target(
    field: Seq<char>,
    entity_names: Seq<Seq<char>>,
    current: Seq<char>,
) -> Option<Seq<char>> {
    let normalized = unicode_lower(
        trim_suffix_all(trim_suffix_all(trim_suffix_all(field, "Id"@), "id"@), "_id"@),
    );
    if normalized.len() == 0 {
        None
    } else {
        first_named(entity_names, normalized, current)
    }
}

/// The first name whose lowercase is `lower` and that is not `current`.
pub open spec fn first_named(names: Seq<Seq<char>>, lower: Seq<char>, current: Seq<char>) -> Option<
    Seq<char>,
>
    decreases names.len(),
{
    if names.len() == 0 {
        None
    } else if unicode_lower(names[0]) == lower && names[0] != current {
        Some(names[0])
    } else {
        first_named(names.drop_first(), lower, current)
    }
}

fn trim_suffix_repeated(s: &str, t: &str) -> (r: String)
    requires
        t@.len() > 0,
    ensures
        r@ == trim_suffix_all(s@, t@),
{
    let v = chars_of(s);
    let m = t.unicode_len();
    let mut cur = owned(s);
    let mut end: usize = v.len();
    while ends_with(cur.as_str(), t)
        invariant
            m == t@.len(),
            m > 0,
            end <= v@.len(),
            cur@ == v@.subrange(0, end as int),
            trim_suffix_all(cur@, t@) == trim_suffix_all(s@, t@),
        decreases end,
    {
        end = end - m;
        cur = string_of_range(&v, 0, end);
        assert(cur@ =~= v@.subrange(0, (end + m) as int).subrange(0, end as int));
    }
    proof {
        assert(v@.subrange(0, v@.len() as int) =~= v@);
    }
    cur
}

pub fn infer_relationship_target(field: &str, entity_names: &Vec<String>, current: &str) -> (r: Option<
    String,
>)
    ensures
        match r {
            Some(name) => relationship_target(field@, strs(entity_names@), current@) == Some(name@),
            None => relationship_target(field@, strs(entity_names@), current@) is None,
        },
{
    proof {
        reveal_strlit("Id");
        reveal_strlit("id");
        reveal_strlit("_id");
    }
    let a = trim_suffix_repeated(field, "Id");
    let b = trim_suffix_repeated(a.as_str(), "id");
    let c = trim_suffix_repeated(b.as_str(), "_id");
    let normalized = to_lowercase(c.as_str());
    if normalized.as_str().unicode_len() == 0 {
        return None;
    }
    let ghost names = strs(entity_names@);
    assert(names.subrange(0, names.len() as int) =~= names);
    let mut i: usize = 0;
    while i < entity_names.len()
        invariant
            i <= entity_names.len(),
            names == strs(entity_names@),
            normalized@.len() > 0,
            normalized@ == unicode_lower(
                trim_suffix_all(trim_suffix_all(trim_suffix_all(field@, "Id"@), "id"@), "_id"@),
            ),
            first_named(names.subrange(i as int, names.len() as int), normalized@, current@)
                == first_named(names, normalized@, current@),
        decreases entity_names.len() - i,
    {
        let name = &entity_names[i];
        let ghost rest = names.subrange(i as int, names.len() as int);
        assert(rest[0] == name@);
        assert(rest.drop_first() =~= names.subrange(i + 1, names.len() as int));
        let lower = to_lowercase(name.as_str());
        if str_eq(lower.as_str(), normalized.as_str()) && !str_eq(name.as_str(), current) {
            proof {
                assert(rest.len() > 0);
                assert(unicode_lower(rest[0]) == normalized@ && rest[0] != current@);
                assert(first_named(rest, normalized@, current@) == Some(name@));
            }
            return Some(owned(name.as_str()));
        }
        i += 1;
    }
    proof {
        assert(names.subrange(i as int, names.len() as int) =~= Seq::<Seq<char>>::empty());
        assert(names.subrange(0, names.len() as int) =~= names);
    }
    None
}

} // verus!

//! Structural differences between two JSON documents, path by path.
use vstd::prelude::*;

use crate::document::Document;
use crate::json::{
    canonical, copy_json, entries_of, items_of, json_same, jv, key_pos, lemma_entries_view, lemma_items_view,
    lemma_key_pos, obj_get, scalar_same, zero_number_text, JsonValue, JsonView,
};
use crate::strset::{insert_sorted, lemma_sorted_strs, lemma_sorted_strs_of, lemma_sorted_unique, sorted_strs};
use vstd::seq_lib::seq_to_set_is_finite;
use crate::text::{cat, cat3, dec_seq, dec_string, lemma_lt_irreflexive, seq_lt, str_eq, strictly_sorted, strs};

verus! {

#[derive(Debug, Clone, Copy, PartialEq, Eq, Structural)]
pub enum DiffKind {
    Added,
    Removed,
    Changed,
    TypeChanged,
}

#[derive(Debug)]
pub struct DiffEntry {
    pub path: String,
    pub kind: DiffKind,
    pub left: Option<JsonValue>,
    pub right: Option<JsonValue>,
}

pub struct DiffView {
    pub path: Seq<char>,
    pub kind: DiffKind,
    pub left: Option<JsonView>,
    pub right: Option<JsonView>,
}

pub open spec fn opt_view(v: Option<JsonValue>) -> Option<JsonView> {
    match v {
        Some(x) => Some(jv(x)),
        None => None,
    }
}

pub open spec fn entry_view(e: DiffEntry) -> DiffView {
    DiffView { path: e.path@, kind: e.kind, left: opt_view(e.left), right: opt_view(e.right) }
}

pub open spec fn diffs_view(v: Seq<DiffEntry>) -> Seq<DiffView> {
    v.map_values(|e: DiffEntry| entry_view(e))
}

/// The kind of a value, as a number.
pub open spec fn tag(v: JsonView) -> int {
    match v {
        JsonView::Null => 0,
        JsonView::Bool(_) => 1,
        JsonView::Number(..) => 2,
        JsonView::Str(_) => 3,
        JsonView::Array(_) => 4,
        JsonView::Object(_) => 5,
    }
}

pub open spec fn keys_of(es: Seq<(Seq<char>, JsonView)>) -> Set<Seq<char>> {
    es.map_values(|e: (Seq<char>, JsonView)| e.0).to_set()
}

/// The keys of two objects, sorted, each once.
pub open spec fn key_union(l: JsonView, r: JsonView) -> Seq<Seq<char>> {
    match (l, r) {
        (JsonView::Object(a), JsonView::Object(b)) => sorted_strs(keys_of(a).union(keys_of(b))),
        _ => Seq::empty(),
    }
}

pub open spec fn longest(l: JsonView, r: JsonView) -> nat {
    match (l, r) {
        (JsonView::Array(a), JsonView::Array(b)) => if a.len() >= b.len() {
            a.len()
        } else {
            b.len()
        },
        _ => 0,
    }
}

pub open spec fn removed(path: Seq<char>, v: JsonView) -> DiffView {
    DiffView { path, kind: DiffKind::Removed, left: Some(v), right: None }
}

pub open spec fn added(path: Seq<char>, v: JsonView) -> DiffView {
    DiffView { path, kind: DiffKind::Added, left: None, right: Some(v) }
}

/// The differences of `r` from `l` at `path`: a type change when their
/// kinds differ; for two objects, the differences under each key of either,
/// in key order; for two arrays, under each index of either, in order; for
/// other values, a change when they are not the same value (numbers are
/// compared by value, see `scalar_same`).
pub open spec fn diff_spec(l: JsonView, r: JsonView, path: Seq<char>) -> Seq<DiffView>
    decreases l, key_union(l, r).len() + longest(l, r) + 1,
{
    if tag(l) != tag(r) {
        seq![DiffView { path, kind: DiffKind::TypeChanged, left: Some(l), right: Some(r) }]
    } else {
        match (l, r) {
            (JsonView::Object(_), JsonView::Object(_)) => diff_keys(l, r, key_union(l, r), path),
            (JsonView::Array(a), JsonView::Array(b)) => diff_items(l, r, longest(l, r) as int, path),
            _ => if !scalar_same(l, r) {
                seq![DiffView { path, kind: DiffKind::Changed, left: Some(l), right: Some(r) }]
            } else {
                Seq::empty()
            },
        }
    }
}

/// The differences under each of `keys`, in order.
pub open spec fn diff_keys(l: JsonView, r: JsonView, keys: Seq<Seq<char>>, path: Seq<char>) -> Seq<DiffView>
    decreases l, keys.len(),
{
    if keys.len() == 0 || !(l is Object) || !(r is Object) {
        Seq::empty()
    } else {
        let k = keys.last();
        let a = l->Object_0;
        let b = r->Object_0;
        let child = path + "."@ + k;
        let pa = key_pos(a, k);
        let pb = key_pos(b, k);
        diff_keys(l, r, keys.drop_last(), path) + if pa >= 0 && pa < a.len() && pb >= 0 {
            proof {
                assert(decreases_to!(a => a[pa]));
                assert(decreases_to!(a[pa] => a[pa].1));
            }
            diff_spec(a[pa].1, obj_get(b, k)->0, child)
        } else if pa >= 0 {
            seq![removed(child, obj_get(a, k)->0)]
        } else if pb >= 0 {
            seq![added(child, obj_get(b, k)->0)]
        } else {
            Seq::empty()
        }
    }
}

/// The differences under the first `n` indices.
pub open spec fn diff_items(l: JsonView, r: JsonView, n: int, path: Seq<char>) -> Seq<DiffView>
    decreases l, n,
{
    if n <= 0 || !(l is Array) || !(r is Array) {
        Seq::empty()
    } else {
        let i = n - 1;
        let a = l->Array_0;
        let b = r->Array_0;
        let child = path + "["@ + dec_seq(i as nat) + "]"@;
        diff_items(l, r, n - 1, path) + if i < a.len() && i < b.len() {
            proof {
                assert(decreases_to!(a => a[i]));
            }
            diff_spec(a[i], b[i], child)
        } else if i < a.len() {
            seq![removed(child, a[i])]
        } else if i < b.len() {
            seq![added(child, b[i])]
        } else {
            Seq::empty()
        }
    }
}

fn value_tag(v: &JsonValue) -> (r: u8)
    ensures
        r as int == tag(jv(*v)),
{
    match v {
        JsonValue::Null => 0,
        JsonValue::Bool(_) => 1,
        JsonValue::Number { .. } => 2,
        JsonValue::Str(_) => 3,
        JsonValue::Array(_) => 4,
        JsonValue::Object(_) => 5,
    }
}

/// Whether two values, neither an array nor an object, are the same value
/// (see `scalar_same`).
fn scalar_eq(a: &JsonValue, b: &JsonValue) -> (r: bool)
    requires
        !(jv(*a) is Array) && !(jv(*a) is Object),
    ensures
        r == scalar_same(jv(*a), jv(*b)),
{
    match (a, b) {
        (JsonValue::Null, JsonValue::Null) => true,
        (JsonValue::Bool(x), JsonValue::Bool(y)) => *x == *y,
        (JsonValue::Number { text: t1, float: f1 }, JsonValue::Number { text: t2, float: f2 }) => {
            *f1 == *f2 && (str_eq(t1.as_str(), t2.as_str()) || (*f1 && zero_number_text(t1.as_str())
                && zero_number_text(t2.as_str())))
        },
        (JsonValue::Str(x), JsonValue::Str(y)) => str_eq(x.as_str(), y.as_str()),
        _ => false,
    }
}

fn push_entry(out: &mut Vec<DiffEntry>, e: DiffEntry)
    ensures
        diffs_view(final(out)@) == diffs_view(old(out)@).push(entry_view(e)),
{
    out.push(e);
    assert(diffs_view(out@) =~= diffs_view(old(out)@).push(entry_view(e)));
}

/// Appends the differences of `right` from `left` at `path` (see
/// `diff_spec`).
fn diff_values(left: &JsonValue, right: &JsonValue, path: &str, out: &mut Vec<DiffEntry>)
    ensures
        diffs_view(final(out)@) == diffs_view(old(out)@) + diff_spec(jv(*left), jv(*right), path@),
    decreases left,
{
    let ghost lv = jv(*left);
    let ghost rv = jv(*right);
    let ghost start = diffs_view(out@);
    if value_tag(left) != value_tag(right) {
        push_entry(
            out,
            DiffEntry {
                path: crate::text::owned(path),
                kind: DiffKind::TypeChanged,
                left: Some(copy_json(left)),
                right: Some(copy_json(right)),
            },
        );
        return;
    }
    match (left, right) {
        (JsonValue::Object(la), JsonValue::Object(ra)) => {
            proof {
                lemma_entries_view(la@, la@.len() as int);
                lemma_entries_view(ra@, ra@.len() as int);
            }
            let ghost a = entries_of(la@);
            let ghost b = entries_of(ra@);
            // the keys of both objects, sorted
            let mut keys: Vec<String> = Vec::new();
            let mut i: usize = 0;
            while i < la.len()
                invariant
                    i <= la.len(),
                    a == entries_of(la@),
                    a.len() == la@.len(),
                    forall|j: int| 0 <= j < a.len() ==> #[trigger] a[j] == (la@[j].0@, jv(la@[j].1)),
                    strictly_sorted(strs(keys@)),
                    strs(keys@).to_set() == a.subrange(0, i as int).map_values(|e: (Seq<char>, JsonView)| e.0).to_set(),
                decreases la.len() - i,
            {
                let ghost pre = a.subrange(0, i as int).map_values(|e: (Seq<char>, JsonView)| e.0);
                assert(a.subrange(0, i + 1).map_values(|e: (Seq<char>, JsonView)| e.0) =~= pre.push(la@[i as int].0@));
                proof {
                    pre.lemma_push_to_set_commute(la@[i as int].0@);
                }
                insert_sorted(&mut keys, la[i].0.clone());
                i += 1;
            }
            assert(a.subrange(0, a.len() as int) =~= a);
            let ghost ka = strs(keys@).to_set();
            let mut j: usize = 0;
            while j < ra.len()
                invariant
                    j <= ra.len(),
                    b == entries_of(ra@),
                    b.len() == ra@.len(),
                    forall|q: int| 0 <= q < b.len() ==> #[trigger] b[q] == (ra@[q].0@, jv(ra@[q].1)),
                    strictly_sorted(strs(keys@)),
                    strs(keys@).to_set() == ka.union(b.subrange(0, j as int).map_values(|e: (Seq<char>, JsonView)| e.0).to_set()),
                decreases ra.len() - j,
            {
                let ghost pre = b.subrange(0, j as int).map_values(|e: (Seq<char>, JsonView)| e.0);
                assert(b.subrange(0, j + 1).map_values(|e: (Seq<char>, JsonView)| e.0) =~= pre.push(ra@[j as int].0@));
                proof {
                    pre.lemma_push_to_set_commute(ra@[j as int].0@);
                }
                insert_sorted(&mut keys, ra[j].0.clone());
                assert(strs(keys@).to_set() =~= ka.union(b.subrange(0, j + 1).map_values(|e: (Seq<char>, JsonView)| e.0).to_set()));
                j += 1;
            }
            assert(b.subrange(0, b.len() as int) =~= b);
            proof {
                vstd::seq_lib::seq_to_set_is_finite(a.map_values(|e: (Seq<char>, JsonView)| e.0));
                vstd::seq_lib::seq_to_set_is_finite(b.map_values(|e: (Seq<char>, JsonView)| e.0));
                lemma_sorted_strs(strs(keys@), keys_of(a).union(keys_of(b)));
                assert forall|q: int| 0 <= q < la@.len() implies decreases_to!(*left => #[trigger] la@[q].1) by {
                    vstd::std_specs::vec::axiom_vec_index_decreases(*la, q);
                    assert(decreases_to!(la@[q] => la@[q].1));
                }
            }
            assert(strs(keys@) == key_union(lv, rv));
            let mut k: usize = 0;
            while k < keys.len()
                invariant
                    k <= keys.len(),
                    lv == jv(*left),
                    rv == jv(*right),
                    lv == JsonView::Object(a),
                    rv == JsonView::Object(b),
                    a == entries_of(la@),
                    b == entries_of(ra@),
                    a.len() == la@.len(),
                    b.len() == ra@.len(),
                    forall|q: int| 0 <= q < a.len() ==> #[trigger] a[q] == (la@[q].0@, jv(la@[q].1)),
                    forall|q: int| 0 <= q < b.len() ==> #[trigger] b[q] == (ra@[q].0@, jv(ra@[q].1)),
                    forall|q: int| 0 <= q < la@.len() ==> decreases_to!(*left => #[trigger] la@[q].1),
                    diffs_view(out@) == start + diff_keys(lv, rv, strs(keys@).subrange(0, k as int), path@),
                decreases keys.len() - k,
            {
                let key = &keys[k];
                let ghost t = strs(keys@).subrange(0, k + 1);
                assert(t.drop_last() =~= strs(keys@).subrange(0, k as int));
                assert(t.last() == key@);
                let child = cat3(path, ".", key.as_str());
                let ghost before = diffs_view(out@);
                proof {
                    lemma_key_pos(a, key@);
                    lemma_key_pos(b, key@);
                }
                match (crate::json::find_key(la, key.as_str()), crate::json::find_key(ra, key.as_str())) {
                    (Some(p), Some(q)) => {
                        diff_values(&la[p].1, &ra[q].1, child.as_str(), out);
                    },
                    (Some(p), None) => {
                        push_entry(
                            out,
                            DiffEntry { path: child, kind: DiffKind::Removed, left: Some(copy_json(&la[p].1)), right: None },
                        );
                        assert(diffs_view(out@) =~= before + seq![removed(path@ + "."@ + key@, jv(la@[p as int].1))]);
                    },
                    (None, Some(q)) => {
                        push_entry(
                            out,
                            DiffEntry { path: child, kind: DiffKind::Added, left: None, right: Some(copy_json(&ra[q].1)) },
                        );
                        assert(diffs_view(out@) =~= before + seq![added(path@ + "."@ + key@, jv(ra@[q as int].1))]);
                    },
                    (None, None) => {
                        assert(diffs_view(out@) =~= before + Seq::<DiffView>::empty());
                    },
                }
                k += 1;
            }
            assert(strs(keys@).subrange(0, keys@.len() as int) =~= strs(keys@));
        },
        (JsonValue::Array(la), JsonValue::Array(ra)) => {
            proof {
                lemma_items_view(la@, la@.len() as int);
                lemma_items_view(ra@, ra@.len() as int);
                assert forall|q: int| 0 <= q < la@.len() implies decreases_to!(*left => #[trigger] la@[q]) by {
                    vstd::std_specs::vec::axiom_vec_index_decreases(*la, q);
                }
            }
            let ghost a = items_of(la@);
            let ghost b = items_of(ra@);
            let n = if la.len() >= ra.len() {
                la.len()
            } else {
                ra.len()
            };
            let mut i: usize = 0;
            while i < n
                invariant
                    i <= n,
                    n == longest(lv, rv),
                    lv == jv(*left),
                    rv == jv(*right),
                    lv == JsonView::Array(a),
                    rv == JsonView::Array(b),
                    a.len() == la@.len(),
                    b.len() == ra@.len(),
                    forall|q: int| 0 <= q < a.len() ==> #[trigger] a[q] == jv(la@[q]),
                    forall|q: int| 0 <= q < b.len() ==> #[trigger] b[q] == jv(ra@[q]),
                    forall|q: int| 0 <= q < la@.len() ==> decreases_to!(*left => #[trigger] la@[q]),
                    diffs_view(out@) == start + diff_items(lv, rv, i as int, path@),
                decreases n - i,
            {
                let child = cat3(path, "[", cat(dec_string(i as u64).as_str(), "]").as_str());
                assert(child@ =~= path@ + "["@ + dec_seq(i as nat) + "]"@);
                let ghost before = diffs_view(out@);
                if i < la.len() && i < ra.len() {
                    diff_values(&la[i], &ra[i], child.as_str(), out);
                } else if i < la.len() {
                    push_entry(
                        out,
                        DiffEntry { path: child, kind: DiffKind::Removed, left: Some(copy_json(&la[i])), right: None },
                    );
                    assert(diffs_view(out@) =~= before + seq![removed(path@ + "["@ + dec_seq(i as nat) + "]"@, a[i as int])]);
                } else {
                    push_entry(
                        out,
                        DiffEntry { path: child, kind: DiffKind::Added, left: None, right: Some(copy_json(&ra[i])) },
                    );
                    assert(diffs_view(out@) =~= before + seq![added(path@ + "["@ + dec_seq(i as nat) + "]"@, b[i as int])]);
                }
                i += 1;
            }
        },
        _ => {
            if !scalar_eq(left, right) {
                push_entry(
                    out,
                    DiffEntry {
                        path: crate::text::owned(path),
                        kind: DiffKind::Changed,
                        left: Some(copy_json(left)),
                        right: Some(copy_json(right)),
                    },
                );
            } else {
                assert(diffs_view(out@) =~= start + Seq::<DiffView>::empty());
            }
        },
    }
}

/// The differences of the right document from the left, from the root `$`
/// (see `diff_spec`); there are none exactly when the two roots are the same
/// JSON value (see `json_same`).
pub fn diff_documents(left: &Document, right: &Document) -> (r: Vec<DiffEntry>)
    ensures
        diffs_view(r@) == diff_spec(left.root_view(), right.root_view(), "$"@),
        (r@.len() == 0) == json_same(left.root_view(), right.root_view()),
{
    let mut entries: Vec<DiffEntry> = Vec::new();
    let lr = left.root();
    let rr = right.root();
    proof {
        law_no_differences_iff_same(jv(*lr), jv(*rr), "$"@);
    }
    diff_values(lr, rr, "$", &mut entries);
    assert(diffs_view(Seq::<DiffEntry>::empty()) =~= Seq::<DiffView>::empty());
    entries
}

/// A document has no differences from itself, at any path.
pub proof fn law_no_differences_from_itself(v: JsonView, path: Seq<char>)
    ensures
        diff_spec(v, v, path) == Seq::<DiffView>::empty(),
    decreases v, 1int, 0int,
{
    match v {
        JsonView::Object(_) => {
            lemma_keys_of_itself(v, key_union(v, v), path);
        },
        JsonView::Array(a) => {
            lemma_items_of_itself(v, longest(v, v) as int, path);
        },
        _ => {},
    }
}

proof fn lemma_keys_of_itself(v: JsonView, keys: Seq<Seq<char>>, path: Seq<char>)
    requires
        v is Object,
    ensures
        diff_keys(v, v, keys, path) == Seq::<DiffView>::empty(),
    decreases v, 0int, keys.len(),
{
    if keys.len() > 0 {
        lemma_keys_of_itself(v, keys.drop_last(), path);
        let a = v->Object_0;
        let k = keys.last();
        let pa = key_pos(a, k);
        lemma_key_pos(a, k);
        if pa >= 0 {
            assert(decreases_to!(v => a));
            assert(decreases_to!(a => a[pa]));
            assert(decreases_to!(a[pa] => a[pa].1));
            law_no_differences_from_itself(a[pa].1, path + "."@ + k);
        }
        assert(diff_keys(v, v, keys, path) =~= Seq::<DiffView>::empty());
    }
}

proof fn lemma_items_of_itself(v: JsonView, n: int, path: Seq<char>)
    requires
        v is Array,
    ensures
        diff_items(v, v, n, path) == Seq::<DiffView>::empty(),
    decreases v, 0int, n,
{
    if n > 0 {
        lemma_items_of_itself(v, n - 1, path);
        let a = v->Array_0;
        let i = n - 1;
        if i < a.len() {
            assert(decreases_to!(v => a));
            assert(decreases_to!(a => a[i]));
            law_no_differences_from_itself(a[i], path + "["@ + dec_seq(i as nat) + "]"@);
        }
        assert(diff_items(v, v, n, path) =~= Seq::<DiffView>::empty());
    }
}


/// An entry reported under `path`: its path begins with `path`, and a type
/// change holds two values of different kinds.
pub open spec fn reported_under(e: DiffView, path: Seq<char>) -> bool {
    &&& path.len() <= e.path.len()
    &&& e.path.subrange(0, path.len() as int) == path
    &&& e.kind == DiffKind::TypeChanged ==> (e.left is Some && e.right is Some && tag(e.left->0)
        != tag(e.right->0))
}

proof fn lemma_prefix_of_prefix(s: Seq<char>, child: Seq<char>, path: Seq<char>)
    requires
        path.len() <= child.len(),
        child.subrange(0, path.len() as int) == path,
        child.len() <= s.len(),
        s.subrange(0, child.len() as int) == child,
    ensures
        s.subrange(0, path.len() as int) == path,
{
    assert(s.subrange(0, path.len() as int) =~= child.subrange(0, path.len() as int));
}

/// Every difference found at `path` is reported at a path that begins with
/// `path`, and every type change holds values of different kinds.
pub proof fn law_differences_are_under_their_path(l: JsonView, r: JsonView, path: Seq<char>)
    ensures
        forall|i: int|
            0 <= i < diff_spec(l, r, path).len() ==> reported_under(
                #[trigger] diff_spec(l, r, path)[i],
                path,
            ),
    decreases l, 1int, 0int,
{
    assert(path.subrange(0, path.len() as int) =~= path);
    let d = diff_spec(l, r, path);
    if tag(l) == tag(r) {
        match (l, r) {
            (JsonView::Object(_), JsonView::Object(_)) => {
                lemma_keys_under(l, r, key_union(l, r), path);
                assert(d == diff_keys(l, r, key_union(l, r), path));
            },
            (JsonView::Array(_), JsonView::Array(_)) => {
                lemma_items_under(l, r, longest(l, r) as int, path);
                assert(d == diff_items(l, r, longest(l, r) as int, path));
            },
            _ => {
                assert forall|i: int| 0 <= i < d.len() implies reported_under(#[trigger] d[i], path) by {
                    assert(d[i].path == path);
                }
            },
        }
    } else {
        assert forall|i: int| 0 <= i < d.len() implies reported_under(#[trigger] d[i], path) by {
            assert(i == 0);
        }
    }
}

proof fn lemma_keys_under(l: JsonView, r: JsonView, keys: Seq<Seq<char>>, path: Seq<char>)
    requires
        l is Object,
        r is Object,
    ensures
        forall|i: int|
            0 <= i < diff_keys(l, r, keys, path).len() ==> reported_under(
                #[trigger] diff_keys(l, r, keys, path)[i],
                path,
            ),
    decreases l, 0int, keys.len(),
{
    if keys.len() > 0 {
        lemma_keys_under(l, r, keys.drop_last(), path);
        let a = l->Object_0;
        let b = r->Object_0;
        let k = keys.last();
        let child = path + "."@ + k;
        let pa = key_pos(a, k);
        let pb = key_pos(b, k);
        lemma_key_pos(a, k);
        assert(child.subrange(0, path.len() as int) =~= path);
        let head = diff_keys(l, r, keys.drop_last(), path);
        let tail = if pa >= 0 && pa < a.len() && pb >= 0 {
            diff_spec(a[pa].1, obj_get(b, k)->0, child)
        } else if pa >= 0 {
            seq![removed(child, obj_get(a, k)->0)]
        } else if pb >= 0 {
            seq![added(child, obj_get(b, k)->0)]
        } else {
            Seq::empty()
        };
        if pa >= 0 && pa < a.len() && pb >= 0 {
            assert(decreases_to!(l => a));
            assert(decreases_to!(a => a[pa]));
            assert(decreases_to!(a[pa] => a[pa].1));
            law_differences_are_under_their_path(a[pa].1, obj_get(b, k)->0, child);
        }
        assert(diff_keys(l, r, keys, path) == head + tail);
        assert forall|i: int| 0 <= i < (head + tail).len() implies reported_under(
            #[trigger] (head + tail)[i],
            path,
        ) by {
            if i < head.len() {
                assert(reported_under(head[i], path));
            } else {
                let e = tail[i - head.len()];
                assert(child.subrange(0, child.len() as int) =~= child);
                if pa >= 0 && pa < a.len() && pb >= 0 {
                    assert(e == diff_spec(a[pa].1, obj_get(b, k)->0, child)[i - head.len()]);
                }
                assert(reported_under(e, child));
                lemma_prefix_of_prefix(e.path, child, path);
            }
        }
    }
}

proof fn lemma_items_under(l: JsonView, r: JsonView, n: int, path: Seq<char>)
    requires
        l is Array,
        r is Array,
    ensures
        forall|i: int|
            0 <= i < diff_items(l, r, n, path).len() ==> reported_under(
                #[trigger] diff_items(l, r, n, path)[i],
                path,
            ),
    decreases l, 0int, n,
{
    if n > 0 {
        lemma_items_under(l, r, n - 1, path);
        let a = l->Array_0;
        let b = r->Array_0;
        let j = n - 1;
        let child = path + "["@ + dec_seq(j as nat) + "]"@;
        assert(child.subrange(0, path.len() as int) =~= path);
        let head = diff_items(l, r, n - 1, path);
        let tail = if j < a.len() && j < b.len() {
            diff_spec(a[j], b[j], child)
        } else if j < a.len() {
            seq![removed(child, a[j])]
        } else if j < b.len() {
            seq![added(child, b[j])]
        } else {
            Seq::empty()
        };
        if j < a.len() && j < b.len() {
            assert(decreases_to!(l => a));
            assert(decreases_to!(a => a[j]));
            law_differences_are_under_their_path(a[j], b[j], child);
        }
        assert(diff_items(l, r, n, path) == head + tail);
        assert forall|i: int| 0 <= i < (head + tail).len() implies reported_under(
            #[trigger] (head + tail)[i],
            path,
        ) by {
            if i < head.len() {
                assert(reported_under(head[i], path));
            } else {
                let e = tail[i - head.len()];
                assert(child.subrange(0, child.len() as int) =~= child);
                if j < a.len() && j < b.len() {
                    assert(e == diff_spec(a[j], b[j], child)[i - head.len()]);
                }
                assert(reported_under(e, child));
                lemma_prefix_of_prefix(e.path, child, path);
            }
        }
    }
}


/// Every difference between two documents is reported at a path that
/// begins with `$`, the root.
pub proof fn law_document_differences_start_at_the_root(l: JsonView, r: JsonView)
    ensures
        forall|i: int|
            0 <= i < diff_spec(l, r, "$"@).len() ==> {
                let e = #[trigger] diff_spec(l, r, "$"@)[i];
                e.path.len() >= 1 && e.path[0] == '$'
            },
{
    reveal_strlit("$");
    law_differences_are_under_their_path(l, r, "$"@);
    assert forall|i: int| 0 <= i < diff_spec(l, r, "$"@).len() implies {
        let e = #[trigger] diff_spec(l, r, "$"@)[i];
        e.path.len() >= 1 && e.path[0] == '$'
    } by {
        let e = diff_spec(l, r, "$"@)[i];
        assert(reported_under(e, "$"@));
        assert(e.path.subrange(0, 1)[0] == e.path[0]);
    }
}



#[verifier::spinoff_prover]
proof fn lemma_keys_without_differences(l: JsonView, r: JsonView, keys: Seq<Seq<char>>, path: Seq<char>)
    requires
        l is Object,
        r is Object,
        canonical(l),
        canonical(r),
        diff_keys(l, r, keys, path).len() == 0,
    ensures
        forall|j: int|
            #![trigger keys[j]]
            0 <= j < keys.len() ==> ((key_pos(l->Object_0, keys[j]) >= 0 || key_pos(r->Object_0, keys[j])
                >= 0) ==> (key_pos(l->Object_0, keys[j]) >= 0 && key_pos(r->Object_0, keys[j]) >= 0
                && json_same(l->Object_0[key_pos(l->Object_0, keys[j])].1, r->Object_0[key_pos(
                r->Object_0,
                keys[j],
            )].1))),
    decreases l, 0int, keys.len(),
{
    if keys.len() > 0 {
        let a = l->Object_0;
        let b = r->Object_0;
        let k = keys.last();
        let child = path + "."@ + k;
        let pa = key_pos(a, k);
        let pb = key_pos(b, k);
        lemma_key_pos(a, k);
        lemma_key_pos(b, k);
        let head = diff_keys(l, r, keys.drop_last(), path);
        assert(head.len() == 0);
        lemma_keys_without_differences(l, r, keys.drop_last(), path);
        if pa >= 0 && pb >= 0 {
            assert(decreases_to!(l => a));
            assert(decreases_to!(a => a[pa]));
            assert(decreases_to!(a[pa] => a[pa].1));
            assert(canonical(a[pa].1));
            assert(canonical(b[pb].1));
            assert(diff_spec(a[pa].1, obj_get(b, k)->0, child).len() == 0);
            law_no_differences_only_between_same_values(a[pa].1, b[pb].1, child);
        }
        assert forall|j: int| 0 <= j < keys.len() implies ((key_pos(a, #[trigger] keys[j]) >= 0 || key_pos(
            b,
            keys[j],
        ) >= 0) ==> (key_pos(a, keys[j]) >= 0 && key_pos(b, keys[j]) >= 0 && json_same(a[key_pos(a, keys[j])].1,
            b[key_pos(b, keys[j])].1))) by {
            if j < keys.len() - 1 {
                assert(keys[j] == keys.drop_last()[j]);
            }
        }
    }
}

proof fn lemma_items_prefix(l: JsonView, r: JsonView, m: int, n: int, path: Seq<char>)
    requires
        l is Array,
        r is Array,
        0 <= m <= n,
        diff_items(l, r, n, path).len() == 0,
    ensures
        diff_items(l, r, m, path).len() == 0,
    decreases n - m,
{
    if m < n {
        assert(diff_items(l, r, n - 1, path).len() <= diff_items(l, r, n, path).len());
        lemma_items_prefix(l, r, m, n - 1, path);
    }
}

/// Two values as the parser makes them (see `canonical`) have no
/// differences only when they are the same JSON value (see `json_same`).
#[verifier::spinoff_prover]
pub proof fn law_no_differences_only_between_same_values(l: JsonView, r: JsonView, path: Seq<char>)
    requires
        canonical(l),
        canonical(r),
        diff_spec(l, r, path).len() == 0,
    ensures
        json_same(l, r),
    decreases l, 1int, 0int,
{
    if tag(l) == tag(r) {
        match (l, r) {
            (JsonView::Object(a), JsonView::Object(b)) => {
                let keys = key_union(l, r);
                assert(diff_spec(l, r, path) == diff_keys(l, r, keys, path));
                lemma_keys_without_differences(l, r, keys, path);
                let ka = a.map_values(|e: (Seq<char>, JsonView)| e.0);
                let kb = b.map_values(|e: (Seq<char>, JsonView)| e.0);
                let u = keys_of(a).union(keys_of(b));
                assert(keys_of(a) == ka.to_set());
                assert(keys_of(b) == kb.to_set());
                seq_to_set_is_finite(ka);
                seq_to_set_is_finite(kb);
                lemma_sorted_strs_of(u);
                assert(keys.to_set() == u);
                assert forall|x: Seq<char>| ka.to_set().contains(x) implies kb.to_set().contains(x) by {
                    assert(u.contains(x));
                    assert(keys.to_set().contains(x));
                    let j = choose|j: int| 0 <= j < keys.len() && keys[j] == x;
                    let ia = choose|ia: int| 0 <= ia < ka.len() && ka[ia] == x;
                    lemma_key_pos(a, x);
                    lemma_key_pos(b, x);
                    assert(a[ia].0 == x);
                    assert(key_pos(a, keys[j]) >= 0);
                    let pb = key_pos(b, x);
                    assert(kb[pb] == x);
                }
                assert forall|x: Seq<char>| kb.to_set().contains(x) implies ka.to_set().contains(x) by {
                    assert(u.contains(x));
                    assert(keys.to_set().contains(x));
                    let j = choose|j: int| 0 <= j < keys.len() && keys[j] == x;
                    let ib = choose|ib: int| 0 <= ib < kb.len() && kb[ib] == x;
                    lemma_key_pos(a, x);
                    lemma_key_pos(b, x);
                    assert(b[ib].0 == x);
                    assert(key_pos(b, keys[j]) >= 0);
                    let pa = key_pos(a, x);
                    assert(ka[pa] == x);
                }
                assert(ka.to_set() =~= kb.to_set());
                lemma_sorted_unique(ka, kb);
                assert forall|i: int| 0 <= i < a.len() implies a[i].0 == b[i].0 && json_same(a[i].1, b[i].1) by {
                    let x = a[i].0;
                    assert(ka[i] == x);
                    assert(kb[i] == b[i].0);
                    lemma_key_pos(a, x);
                    lemma_key_pos(b, x);
                    let pa = key_pos(a, x);
                    let pb = key_pos(b, x);
                    assert(pa >= 0) by {
                        if pa < 0 {
                            assert(a[i].0 != x);
                        }
                    }
                    if pa != i {
                        lemma_lt_irreflexive(x);
                        if pa < i {
                            assert(seq_lt(ka[pa], ka[i]));
                        } else {
                            assert(seq_lt(ka[i], ka[pa]));
                        }
                    }
                    assert(pb >= 0) by {
                        if pb < 0 {
                            assert(b[i].0 != x);
                        }
                    }
                    if pb != i {
                        lemma_lt_irreflexive(x);
                        if pb < i {
                            assert(seq_lt(kb[pb], kb[i]));
                        } else {
                            assert(seq_lt(kb[i], kb[pb]));
                        }
                    }
                    assert(keys.to_set().contains(x)) by {
                        assert(ka.to_set().contains(x));
                    }
                    let j = choose|j: int| 0 <= j < keys.len() && keys[j] == x;
                    assert(key_pos(a, keys[j]) >= 0);
                }
                assert(a.len() == b.len()) by {
                    assert(ka.len() == a.len() && kb.len() == b.len());
                }
            },
            (JsonView::Array(a), JsonView::Array(b)) => {
                let n = longest(l, r) as int;
                assert(diff_spec(l, r, path) == diff_items(l, r, n, path));
                assert forall|j: int| 0 <= j < n implies (j < a.len() && j < b.len() && json_same(
                    #[trigger] a[j],
                    b[j],
                )) by {
                    lemma_items_prefix(l, r, j + 1, n, path);
                    let child = path + "["@ + dec_seq(j as nat) + "]"@;
                    let head = diff_items(l, r, j, path);
                    let tail = if j < a.len() && j < b.len() {
                        diff_spec(a[j], b[j], child)
                    } else if j < a.len() {
                        seq![removed(child, a[j])]
                    } else if j < b.len() {
                        seq![added(child, b[j])]
                    } else {
                        Seq::empty()
                    };
                    assert(diff_items(l, r, j + 1, path) == head + tail);
                    assert(tail.len() == 0);
                    if j < a.len() && j < b.len() {
                        assert(decreases_to!(l => a));
                        assert(decreases_to!(a => a[j]));
                        assert(canonical(a[j]));
                        assert(canonical(b[j]));
                        law_no_differences_only_between_same_values(a[j], b[j], child);
                    }
                }
                assert(a.len() == b.len());
            },
            _ => {
                if !scalar_same(l, r) {
                    assert(diff_spec(l, r, path).len() == 1);
                }
            },
        }
    } else {
        assert(diff_spec(l, r, path).len() == 1);
    }
}


/// Two values that are the same JSON value (see `json_same`) have no
/// differences, at any path.
pub proof fn law_same_values_have_no_differences(l: JsonView, r: JsonView, path: Seq<char>)
    requires
        json_same(l, r),
    ensures
        diff_spec(l, r, path) == Seq::<DiffView>::empty(),
    decreases l, 1int, 0int,
{
    match (l, r) {
        (JsonView::Object(a), JsonView::Object(b)) => {
            lemma_same_keys(l, r, key_union(l, r), path);
        },
        (JsonView::Array(a), JsonView::Array(b)) => {
            lemma_same_items(l, r, longest(l, r) as int, path);
        },
        _ => {},
    }
}

proof fn lemma_key_pos_same_keys(a: Seq<(Seq<char>, JsonView)>, b: Seq<(Seq<char>, JsonView)>, k: Seq<char>)
    requires
        a.len() == b.len(),
        forall|i: int| #![trigger a[i]] 0 <= i < a.len() ==> a[i].0 == b[i].0,
    ensures
        key_pos(a, k) == key_pos(b, k),
{
    lemma_key_pos(a, k);
    lemma_key_pos(b, k);
    let pa = key_pos(a, k);
    let pb = key_pos(b, k);
    if pa >= 0 && pb >= 0 {
        if pb < pa {
            assert(a[pb].0 == b[pb].0);
        }
        if pa < pb {
            assert(a[pa].0 == b[pa].0);
        }
    } else if pa >= 0 {
        assert(a[pa].0 == b[pa].0);
    } else if pb >= 0 {
        assert(a[pb].0 == b[pb].0);
    }
}

proof fn lemma_same_keys(l: JsonView, r: JsonView, keys: Seq<Seq<char>>, path: Seq<char>)
    requires
        l is Object,
        r is Object,
        json_same(l, r),
    ensures
        diff_keys(l, r, keys, path) == Seq::<DiffView>::empty(),
    decreases l, 0int, keys.len(),
{
    if keys.len() > 0 {
        lemma_same_keys(l, r, keys.drop_last(), path);
        let a = l->Object_0;
        let b = r->Object_0;
        let k = keys.last();
        lemma_key_pos_same_keys(a, b, k);
        let pa = key_pos(a, k);
        lemma_key_pos(a, k);
        if pa >= 0 {
            assert(json_same(a[pa].1, b[pa].1));
            assert(decreases_to!(l => a));
            assert(decreases_to!(a => a[pa]));
            assert(decreases_to!(a[pa] => a[pa].1));
            law_same_values_have_no_differences(a[pa].1, b[pa].1, path + "."@ + k);
        }
        assert(diff_keys(l, r, keys, path) =~= Seq::<DiffView>::empty());
    }
}

proof fn lemma_same_items(l: JsonView, r: JsonView, n: int, path: Seq<char>)
    requires
        l is Array,
        r is Array,
        json_same(l, r),
    ensures
        diff_items(l, r, n, path) == Seq::<DiffView>::empty(),
    decreases l, 0int, n,
{
    if n > 0 {
        lemma_same_items(l, r, n - 1, path);
        let a = l->Array_0;
        let b = r->Array_0;
        let i = n - 1;
        if i < a.len() {
            assert(json_same(a[i], b[i]));
            assert(decreases_to!(l => a));
            assert(decreases_to!(a => a[i]));
            law_same_values_have_no_differences(a[i], b[i], path + "["@ + dec_seq(i as nat) + "]"@);
        }
        assert(diff_items(l, r, n, path) =~= Seq::<DiffView>::empty());
    }
}

/// Two values as the parser makes them have no differences exactly when
/// they are the same JSON value: equal, but for numbers, compared by value.
pub proof fn law_no_differences_iff_same(l: JsonView, r: JsonView, path: Seq<char>)
    requires
        canonical(l),
        canonical(r),
    ensures
        (diff_spec(l, r, path).len() == 0) == json_same(l, r),
{
    if diff_spec(l, r, path).len() == 0 {
        law_no_differences_only_between_same_values(l, r, path);
    }
    if json_same(l, r) {
        law_same_values_have_no_differences(l, r, path);
    }
}

} // verus!

//! Semantic differences between entity lists: entities matched by their
//! lowercased names (the last of equal names counts), renames (pairs of
//! entities judged to be one, as `detect_renames` finds them) told apart
//! from removals and additions, and the field, relationship and confidence changes of each
//! entity present on both sides. Names are visited in sorted order.
use vstd::prelude::*;

use crate::application_model::{Constraint, FieldShape};
use crate::model_evolution::delta::{patch_empty, ChangeKind, EntityPatch, FieldPatch};
use crate::model_evolution::model::{
    constraint_view, constraint_views, entity_view, ConstraintView, EntityModel, EntityView, RelationshipShape,
};
use crate::strset::{contains_string, insert_all, lemma_sorted_strs, lemma_sorted_strs_of, sorted_strs};
use crate::text::{clone_strings, str_eq, strictly_sorted, strs, to_lowercase, unicode_lower};

verus! {

// ---------------------------------------------------------------------------
// Names as keys
// ---------------------------------------------------------------------------

/// The position of the last key equal to `k`, or -1.
pub open spec fn last_ix(keys: Seq<Seq<char>>, k: Seq<char>) -> int
    decreases keys.len(),
{
    if keys.len() == 0 {
        -1
    } else if keys.last() == k {
        keys.len() - 1
    } else {
        last_ix(keys.drop_last(), k)
    }
}

pub(crate) proof fn lemma_last_ix(keys: Seq<Seq<char>>, k: Seq<char>)
    requires
        keys.contains(k),
    ensures
        0 <= last_ix(keys, k) < keys.len(),
        keys[last_ix(keys, k)] == k,
    decreases keys.len(),
{
    if keys.last() != k {
        let i = choose|i: int| 0 <= i < keys.len() && keys[i] == k;
        assert(keys.drop_last()[i] == k);
        lemma_last_ix(keys.drop_last(), k);
    }
}

/// The distinct keys, sorted.
pub open spec fn sorted_keys(keys: Seq<Seq<char>>) -> Seq<Seq<char>> {
    sorted_strs(keys.to_set())
}

pub open spec fn in_keys(keys: Seq<Seq<char>>) -> spec_fn(Seq<char>) -> bool {
    |k: Seq<char>| keys.contains(k)
}

pub open spec fn not_in_keys(keys: Seq<Seq<char>>) -> spec_fn(Seq<char>) -> bool {
    |k: Seq<char>| !keys.contains(k)
}

pub open spec fn entity_keys(s: Seq<EntityModel>) -> Seq<Seq<char>> {
    s.map_values(|e: EntityModel| unicode_lower(e.name@))
}

pub open spec fn field_keys(s: Seq<FieldShape>) -> Seq<Seq<char>> {
    s.map_values(|f: FieldShape| unicode_lower(f.name@))
}

pub open spec fn rel_keys(s: Seq<RelationshipShape>) -> Seq<Seq<char>> {
    s.map_values(|r: RelationshipShape| unicode_lower(r.name@))
}

pub(crate) fn lower_strings(names: &Vec<String>) -> (r: Vec<String>)
    ensures
        strs(r@) == names@.map_values(|s: String| unicode_lower(s@)),
{
    let mut r: Vec<String> = Vec::new();
    let mut i: usize = 0;
    while i < names.len()
        invariant
            i <= names@.len(),
            strs(r@) == names@.subrange(0, i as int).map_values(|s: String| unicode_lower(s@)),
        decreases names@.len() - i,
    {
        let l = to_lowercase(names[i].as_str());
        let ghost before = r@;
        r.push(l);
        assert(r@ =~= before.push(l));
        assert(strs(r@) =~= strs(before).push(l@));
        assert(names@.subrange(0, i + 1).map_values(|s: String| unicode_lower(s@)) =~= names@.subrange(
            0,
            i as int,
        ).map_values(|s: String| unicode_lower(s@)).push(unicode_lower(names@[i as int]@)));
        i += 1;
    }
    assert(names@.subrange(0, names@.len() as int) =~= names@);
    r
}

pub(crate) fn entity_keys_exec(v: &Vec<EntityModel>) -> (r: Vec<String>)
    ensures
        strs(r@) == entity_keys(v@),
{
    let mut names: Vec<String> = Vec::new();
    let mut i: usize = 0;
    while i < v.len()
        invariant
            i <= v@.len(),
            names@.len() == i,
            forall|j: int| 0 <= j < i ==> #[trigger] names@[j]@ == v@[j].name@,
        decreases v@.len() - i,
    {
        names.push(v[i].name.clone());
        i += 1;
    }
    let r = lower_strings(&names);
    assert(strs(r@) =~= entity_keys(v@));
    r
}

fn field_keys_exec(v: &Vec<FieldShape>) -> (r: Vec<String>)
    ensures
        strs(r@) == field_keys(v@),
{
    let mut names: Vec<String> = Vec::new();
    let mut i: usize = 0;
    while i < v.len()
        invariant
            i <= v@.len(),
            names@.len() == i,
            forall|j: int| 0 <= j < i ==> #[trigger] names@[j]@ == v@[j].name@,
        decreases v@.len() - i,
    {
        names.push(v[i].name.clone());
        i += 1;
    }
    let r = lower_strings(&names);
    assert(strs(r@) =~= field_keys(v@));
    r
}

fn rel_keys_exec(v: &Vec<RelationshipShape>) -> (r: Vec<String>)
    ensures
        strs(r@) == rel_keys(v@),
{
    let mut names: Vec<String> = Vec::new();
    let mut i: usize = 0;
    while i < v.len()
        invariant
            i <= v@.len(),
            names@.len() == i,
            forall|j: int| 0 <= j < i ==> #[trigger] names@[j]@ == v@[j].name@,
        decreases v@.len() - i,
    {
        names.push(v[i].name.clone());
        i += 1;
    }
    let r = lower_strings(&names);
    assert(strs(r@) =~= rel_keys(v@));
    r
}

pub(crate) fn sorted_keys_exec(keys: &Vec<String>) -> (r: Vec<String>)
    ensures
        strs(r@) == sorted_keys(strs(keys@)),
        strs(r@).to_set() == strs(keys@).to_set(),
{
    let mut r: Vec<String> = Vec::new();
    assert(strs(r@) =~= Seq::<Seq<char>>::empty());
    insert_all(&mut r, keys);
    proof {
        assert(strs(r@).to_set() =~= strs(keys@).to_set());
        lemma_sorted_strs(strs(r@), strs(keys@).to_set());
    }
    r
}

pub(crate) fn last_index(keys: &Vec<String>, k: &str) -> (r: usize)
    requires
        strs(keys@).contains(k@),
    ensures
        r as int == last_ix(strs(keys@), k@),
        r < keys@.len(),
{
    let ghost s = strs(keys@);
    proof {
        lemma_last_ix(s, k@);
    }
    let mut i: usize = keys.len();
    assert(s.subrange(0, s.len() as int) =~= s);
    while i > 0
        invariant
            i <= keys@.len(),
            s == strs(keys@),
            last_ix(s, k@) < i,
            s[last_ix(s, k@)] == k@,
            last_ix(s.subrange(0, i as int), k@) == last_ix(s, k@),
            0 <= last_ix(s, k@),
        decreases i,
    {
        let ghost t = s.subrange(0, i as int);
        assert(t.last() == keys@[i - 1]@);
        if str_eq(keys[i - 1].as_str(), k) {
            return i - 1;
        }
        assert(t.drop_last() =~= s.subrange(0, i - 1));
        i -= 1;
    }
    0
}

// ---------------------------------------------------------------------------
// Copies
// ---------------------------------------------------------------------------

fn copy_field(f: &FieldShape) -> (r: FieldShape)
    ensures
        r == *f,
{
    FieldShape {
        name: f.name.clone(),
        field_type: f.field_type.clone(),
        required: f.required,
        primary: f.primary,
        unique: f.unique,
    }
}

fn copy_rel(x: &RelationshipShape) -> (r: RelationshipShape)
    ensures
        r == *x,
{
    RelationshipShape {
        name: x.name.clone(),
        target: x.target.clone(),
        relationship_type: x.relationship_type,
        confidence: x.confidence,
    }
}

fn copy_constraint(c: &Constraint) -> (r: Constraint)
    ensures
        constraint_view(r) == constraint_view(*c),
{
    let expression = match &c.expression {
        Some(e) => Some(e.clone()),
        None => None,
    };
    Constraint {
        name: c.name.clone(),
        constraint_type: c.constraint_type.clone(),
        fields: clone_strings(&c.fields),
        expression,
    }
}

fn copy_entity(e: &EntityModel) -> (r: EntityModel)
    ensures
        entity_view(r) == entity_view(*e),
{
    let mut fields: Vec<FieldShape> = Vec::new();
    let mut i: usize = 0;
    while i < e.fields.len()
        invariant
            i <= e.fields@.len(),
            fields@ == e.fields@.subrange(0, i as int),
        decreases e.fields@.len() - i,
    {
        fields.push(copy_field(&e.fields[i]));
        assert(fields@ =~= e.fields@.subrange(0, i + 1));
        i += 1;
    }
    let mut rels: Vec<RelationshipShape> = Vec::new();
    let mut j: usize = 0;
    while j < e.relationships.len()
        invariant
            j <= e.relationships@.len(),
            rels@ == e.relationships@.subrange(0, j as int),
        decreases e.relationships@.len() - j,
    {
        rels.push(copy_rel(&e.relationships[j]));
        assert(rels@ =~= e.relationships@.subrange(0, j + 1));
        j += 1;
    }
    let mut cons: Vec<Constraint> = Vec::new();
    let mut k: usize = 0;
    while k < e.constraints.len()
        invariant
            k <= e.constraints@.len(),
            cons@.len() == k,
            constraint_views(cons@) == constraint_views(e.constraints@.subrange(0, k as int)),
        decreases e.constraints@.len() - k,
    {
        let c2 = copy_constraint(&e.constraints[k]);
        let ghost before = cons@;
        cons.push(c2);
        assert(cons@ =~= before.push(c2));
        assert(e.constraints@.subrange(0, k + 1) =~= e.constraints@.subrange(0, k as int).push(
            e.constraints@[k as int],
        ));
        assert forall|j: int| 0 <= j < k + 1 implies #[trigger] constraint_views(cons@)[j]
            == constraint_views(e.constraints@.subrange(0, k + 1))[j] by {
            if j < k {
                assert(cons@[j] == before[j]);
                assert(constraint_views(before)[j] == constraint_views(
                    e.constraints@.subrange(0, k as int),
                )[j]);
                assert(e.constraints@.subrange(0, k + 1)[j] == e.constraints@.subrange(0, k as int)[j]);
            } else {
                assert(cons@[j] == c2);
                assert(e.constraints@.subrange(0, k + 1)[j] == e.constraints@[k as int]);
            }
        }
        assert(constraint_views(cons@) =~= constraint_views(e.constraints@.subrange(0, k + 1)));
        k += 1;
    }
    assert(e.fields@.subrange(0, e.fields@.len() as int) =~= e.fields@);
    assert(e.relationships@.subrange(0, e.relationships@.len() as int) =~= e.relationships@);
    assert(e.constraints@.subrange(0, e.constraints@.len() as int) =~= e.constraints@);
    EntityModel {
        name: e.name.clone(),
        confidence: e.confidence,
        fields,
        relationships: rels,
        constraints: cons,
    }
}

// ---------------------------------------------------------------------------
// The changes of one entity
// ---------------------------------------------------------------------------

/// A patch with its lists as sequences (names as text).
pub struct PatchView {
    pub fields_added: Seq<FieldShape>,
    pub fields_removed: Seq<Seq<char>>,
    pub fields_changed: Seq<FieldPatch>,
    pub relationships_added: Seq<RelationshipShape>,
    pub relationships_removed: Seq<Seq<char>>,
    pub confidence_changed: Option<(u32, u32)>,
}

pub open spec fn patch_view(p: EntityPatch) -> PatchView {
    PatchView {
        fields_added: p.fields_added@,
        fields_removed: strs(p.fields_removed@),
        fields_changed: p.fields_changed@,
        relationships_added: p.relationships_added@,
        relationships_removed: strs(p.relationships_removed@),
        confidence_changed: p.confidence_changed,
    }
}

pub open spec fn patch_view_empty(p: PatchView) -> bool {
    &&& p.fields_added.len() == 0
    &&& p.fields_removed.len() == 0
    &&& p.fields_changed.len() == 0
    &&& p.relationships_added.len() == 0
    &&& p.relationships_removed.len() == 0
    &&& p.confidence_changed is None
}

/// Two fields are the same when every part reads the same.
pub open spec fn same_field(a: FieldShape, b: FieldShape) -> bool {
    a.name@ == b.name@ && a.field_type@ == b.field_type@ && a.required == b.required && a.primary
        == b.primary && a.unique == b.unique
}

pub open spec fn field_name_from(fields: Seq<FieldShape>) -> spec_fn(Seq<char>) -> Seq<char> {
    |k: Seq<char>| fields[last_ix(field_keys(fields), k)].name@
}

pub open spec fn field_from(fields: Seq<FieldShape>) -> spec_fn(Seq<char>) -> FieldShape {
    |k: Seq<char>| fields[last_ix(field_keys(fields), k)]
}

pub open spec fn rel_name_from(rels: Seq<RelationshipShape>) -> spec_fn(Seq<char>) -> Seq<char> {
    |k: Seq<char>| rels[last_ix(rel_keys(rels), k)].name@
}

pub open spec fn rel_from(rels: Seq<RelationshipShape>) -> spec_fn(Seq<char>) -> RelationshipShape {
    |k: Seq<char>| rels[last_ix(rel_keys(rels), k)]
}

/// The changed fields among the common keys: for each key whose fields
/// differ, the change from the old field to the new one.
pub open spec fn changed_fields(common: Seq<Seq<char>>, from: Seq<FieldShape>, to: Seq<FieldShape>) -> Seq<FieldPatch>
    decreases common.len(),
{
    if common.len() == 0 {
        Seq::empty()
    } else {
        let prev = changed_fields(common.drop_last(), from, to);
        let a = field_from(from)(common.last());
        let b = field_from(to)(common.last());
        if same_field(a, b) {
            prev
        } else {
            prev.push(FieldPatch { field_name: b.name, old_value: Some(a), new_value: Some(b) })
        }
    }
}

/// Confidences (in thousandths) count as changed when they differ by more
/// than one thousandth.
pub open spec fn confidence_moved(a: u32, b: u32) -> bool {
    a > b + 1 || b > a + 1
}

/// The changes from one entity to another, keys in sorted order: removed and
/// added fields, changed fields, removed and added relationships, and the
/// confidence change.
pub open spec fn entity_patch(from: EntityModel, to: EntityModel) -> PatchView {
    let fk = field_keys(from.fields@);
    let tk = field_keys(to.fields@);
    let rfk = rel_keys(from.relationships@);
    let rtk = rel_keys(to.relationships@);
    PatchView {
        fields_removed: sorted_keys(fk).filter(not_in_keys(tk)).map_values(field_name_from(from.fields@)),
        fields_added: sorted_keys(tk).filter(not_in_keys(fk)).map_values(field_from(to.fields@)),
        fields_changed: changed_fields(sorted_keys(fk).filter(in_keys(tk)), from.fields@, to.fields@),
        relationships_removed: sorted_keys(rfk).filter(not_in_keys(rtk)).map_values(
            rel_name_from(from.relationships@),
        ),
        relationships_added: sorted_keys(rtk).filter(not_in_keys(rfk)).map_values(
            rel_from(to.relationships@),
        ),
        confidence_changed: if confidence_moved(from.confidence, to.confidence) {
            Some((from.confidence, to.confidence))
        } else {
            None
        },
    }
}

fn same_field_exec(a: &FieldShape, b: &FieldShape) -> (r: bool)
    ensures
        r == same_field(*a, *b),
{
    str_eq(a.name.as_str(), b.name.as_str()) && str_eq(a.field_type.as_str(), b.field_type.as_str())
        && a.required == b.required && a.primary == b.primary && a.unique == b.unique
}

/// The names of fields whose keys are among `keys` but not `other_keys`.
fn field_names_missing(keys: &Vec<String>, other_keys: &Vec<String>, fk: &Vec<String>, fields: &Vec<FieldShape>) -> (r: Vec<String>)
    requires
        strs(fk@) == field_keys(fields@),
        strs(keys@).to_set() == strs(fk@).to_set(),
    ensures
        strs(r@) == strs(keys@).filter(not_in_keys(strs(other_keys@))).map_values(field_name_from(fields@)),
{
    let ghost s = strs(keys@);
    let ghost p = not_in_keys(strs(other_keys@));
    let ghost f = field_name_from(fields@);
    let mut out: Vec<String> = Vec::new();
    let mut i: usize = 0;
    proof {
        reveal(Seq::filter);
    }
    assert(strs(out@) =~= s.subrange(0, 0).filter(p).map_values(f));
    while i < keys.len()
        invariant
            i <= keys@.len(),
            s == strs(keys@),
            p == not_in_keys(strs(other_keys@)),
            f == field_name_from(fields@),
            strs(fk@) == field_keys(fields@),
            strs(keys@).to_set() == strs(fk@).to_set(),
            strs(out@) == s.subrange(0, i as int).filter(p).map_values(f),
        decreases keys@.len() - i,
    {
        proof {
            reveal(Seq::filter);
        }
        let k = keys[i].as_str();
        assert(s[i as int] == k@);
        assert(s.subrange(0, i + 1).drop_last() =~= s.subrange(0, i as int));
        let ghost before = out@;
        if !contains_string(other_keys, k) {
            assert(s.to_set().contains(k@));
            assert(strs(fk@).to_set().contains(k@));
            let j = last_index(fk, k);
            proof {
                lemma_last_ix(strs(fk@), k@);
            }
            let name = fields[j].name.clone();
            out.push(name);
            assert(strs(out@) =~= strs(before).push(f(k@)));
        }
        assert(strs(out@) =~= s.subrange(0, i + 1).filter(p).map_values(f));
        i += 1;
    }
    assert(s.subrange(0, s.len() as int) =~= s);
    out
}

/// The fields whose keys are among `keys` but not `other_keys`.
fn fields_missing(keys: &Vec<String>, other_keys: &Vec<String>, fk: &Vec<String>, fields: &Vec<FieldShape>) -> (r: Vec<FieldShape>)
    requires
        strs(fk@) == field_keys(fields@),
        strs(keys@).to_set() == strs(fk@).to_set(),
    ensures
        r@ == strs(keys@).filter(not_in_keys(strs(other_keys@))).map_values(field_from(fields@)),
{
    let ghost s = strs(keys@);
    let ghost p = not_in_keys(strs(other_keys@));
    let ghost f = field_from(fields@);
    let mut out: Vec<FieldShape> = Vec::new();
    let mut i: usize = 0;
    proof {
        reveal(Seq::filter);
    }
    assert(out@ =~= s.subrange(0, 0).filter(p).map_values(f));
    while i < keys.len()
        invariant
            i <= keys@.len(),
            s == strs(keys@),
            p == not_in_keys(strs(other_keys@)),
            f == field_from(fields@),
            strs(fk@) == field_keys(fields@),
            strs(keys@).to_set() == strs(fk@).to_set(),
            out@ == s.subrange(0, i as int).filter(p).map_values(f),
        decreases keys@.len() - i,
    {
        proof {
            reveal(Seq::filter);
        }
        let k = keys[i].as_str();
        assert(s[i as int] == k@);
        assert(s.subrange(0, i + 1).drop_last() =~= s.subrange(0, i as int));
        let ghost before = out@;
        if !contains_string(other_keys, k) {
            assert(s.to_set().contains(k@));
            assert(strs(fk@).to_set().contains(k@));
            let j = last_index(fk, k);
            proof {
                lemma_last_ix(strs(fk@), k@);
            }
            let x = copy_field(&fields[j]);
            out.push(x);
            assert(out@ =~= before.push(f(k@)));
        }
        assert(out@ =~= s.subrange(0, i + 1).filter(p).map_values(f));
        i += 1;
    }
    assert(s.subrange(0, s.len() as int) =~= s);
    out
}

/// The names of relationships whose keys are among `keys` but not `other_keys`.
fn rel_names_missing(keys: &Vec<String>, other_keys: &Vec<String>, fk: &Vec<String>, rels: &Vec<RelationshipShape>) -> (r: Vec<String>)
    requires
        strs(fk@) == rel_keys(rels@),
        strs(keys@).to_set() == strs(fk@).to_set(),
    ensures
        strs(r@) == strs(keys@).filter(not_in_keys(strs(other_keys@))).map_values(rel_name_from(rels@)),
{
    let ghost s = strs(keys@);
    let ghost p = not_in_keys(strs(other_keys@));
    let ghost f = rel_name_from(rels@);
    let mut out: Vec<String> = Vec::new();
    let mut i: usize = 0;
    proof {
        reveal(Seq::filter);
    }
    assert(strs(out@) =~= s.subrange(0, 0).filter(p).map_values(f));
    while i < keys.len()
        invariant
            i <= keys@.len(),
            s == strs(keys@),
            p == not_in_keys(strs(other_keys@)),
            f == rel_name_from(rels@),
            strs(fk@) == rel_keys(rels@),
            strs(keys@).to_set() == strs(fk@).to_set(),
            strs(out@) == s.subrange(0, i as int).filter(p).map_values(f),
        decreases keys@.len() - i,
    {
        proof {
            reveal(Seq::filter);
        }
        let k = keys[i].as_str();
        assert(s[i as int] == k@);
        assert(s.subrange(0, i + 1).drop_last() =~= s.subrange(0, i as int));
        let ghost before = out@;
        if !contains_string(other_keys, k) {
            assert(s.to_set().contains(k@));
            assert(strs(fk@).to_set().contains(k@));
            let j = last_index(fk, k);
            proof {
                lemma_last_ix(strs(fk@), k@);
            }
            let name = rels[j].name.clone();
            out.push(name);
            assert(strs(out@) =~= strs(before).push(f(k@)));
        }
        assert(strs(out@) =~= s.subrange(0, i + 1).filter(p).map_values(f));
        i += 1;
    }
    assert(s.subrange(0, s.len() as int) =~= s);
    out
}

/// The relationships whose keys are among `keys` but not `other_keys`.
fn rels_missing(keys: &Vec<String>, other_keys: &Vec<String>, fk: &Vec<String>, rels: &Vec<RelationshipShape>) -> (r: Vec<RelationshipShape>)
    requires
        strs(fk@) == rel_keys(rels@),
        strs(keys@).to_set() == strs(fk@).to_set(),
    ensures
        r@ == strs(keys@).filter(not_in_keys(strs(other_keys@))).map_values(rel_from(rels@)),
{
    let ghost s = strs(keys@);
    let ghost p = not_in_keys(strs(other_keys@));
    let ghost f = rel_from(rels@);
    let mut out: Vec<RelationshipShape> = Vec::new();
    let mut i: usize = 0;
    proof {
        reveal(Seq::filter);
    }
    assert(out@ =~= s.subrange(0, 0).filter(p).map_values(f));
    while i < keys.len()
        invariant
            i <= keys@.len(),
            s == strs(keys@),
            p == not_in_keys(strs(other_keys@)),
            f == rel_from(rels@),
            strs(fk@) == rel_keys(rels@),
            strs(keys@).to_set() == strs(fk@).to_set(),
            out@ == s.subrange(0, i as int).filter(p).map_values(f),
        decreases keys@.len() - i,
    {
        proof {
            reveal(Seq::filter);
        }
        let k = keys[i].as_str();
        assert(s[i as int] == k@);
        assert(s.subrange(0, i + 1).drop_last() =~= s.subrange(0, i as int));
        let ghost before = out@;
        if !contains_string(other_keys, k) {
            assert(s.to_set().contains(k@));
            assert(strs(fk@).to_set().contains(k@));
            let j = last_index(fk, k);
            proof {
                lemma_last_ix(strs(fk@), k@);
            }
            let x = copy_rel(&rels[j]);
            out.push(x);
            assert(out@ =~= before.push(f(k@)));
        }
        assert(out@ =~= s.subrange(0, i + 1).filter(p).map_values(f));
        i += 1;
    }
    assert(s.subrange(0, s.len() as int) =~= s);
    out
}

/// The changes of the fields present on both sides, in the order of `keys`.
fn fields_changed_exec(
    keys: &Vec<String>,
    tk: &Vec<String>,
    fk: &Vec<String>,
    from: &Vec<FieldShape>,
    to: &Vec<FieldShape>,
) -> (r: Vec<FieldPatch>)
    requires
        strs(fk@) == field_keys(from@),
        strs(tk@) == field_keys(to@),
        strs(keys@).to_set() == strs(fk@).to_set(),
    ensures
        r@ == changed_fields(strs(keys@).filter(in_keys(strs(tk@))), from@, to@),
{
    let ghost s = strs(keys@);
    let ghost p = in_keys(strs(tk@));
    let mut out: Vec<FieldPatch> = Vec::new();
    let mut i: usize = 0;
    proof {
        reveal(Seq::filter);
    }
    assert(out@ =~= changed_fields(s.subrange(0, 0).filter(p), from@, to@));
    while i < keys.len()
        invariant
            i <= keys@.len(),
            s == strs(keys@),
            p == in_keys(strs(tk@)),
            strs(fk@) == field_keys(from@),
            strs(tk@) == field_keys(to@),
            strs(keys@).to_set() == strs(fk@).to_set(),
            out@ == changed_fields(s.subrange(0, i as int).filter(p), from@, to@),
        decreases keys@.len() - i,
    {
        proof {
            reveal(Seq::filter);
        }
        let k = keys[i].as_str();
        assert(s[i as int] == k@);
        assert(s.subrange(0, i + 1).drop_last() =~= s.subrange(0, i as int));
        if contains_string(tk, k) {
            assert(s.to_set().contains(k@));
            assert(strs(fk@).to_set().contains(k@));
            let a = last_index(fk, k);
            let b = last_index(tk, k);
            proof {
                lemma_last_ix(strs(fk@), k@);
                lemma_last_ix(strs(tk@), k@);
                assert(s.subrange(0, i + 1).filter(p) == s.subrange(0, i as int).filter(p).push(k@));
                assert(s.subrange(0, i + 1).filter(p).drop_last() =~= s.subrange(0, i as int).filter(p));
            }
            if !same_field_exec(&from[a], &to[b]) {
                let fa = copy_field(&from[a]);
                let fb = copy_field(&to[b]);
                let name = fb.name.clone();
                out.push(FieldPatch { field_name: name, old_value: Some(fa), new_value: Some(fb) });
            }
        }
        i += 1;
    }
    assert(s.subrange(0, s.len() as int) =~= s);
    out
}

/// The changes from one entity to another (see `entity_patch`), none where
/// nothing changed.
pub fn diff_entity(from: &EntityModel, to: &EntityModel) -> (r: Option<EntityPatch>)
    ensures
        match r {
            Some(p) => patch_view(p) == entity_patch(*from, *to) && !patch_view_empty(patch_view(p)),
            None => patch_view_empty(entity_patch(*from, *to)),
        },
{
    let fk = field_keys_exec(&from.fields);
    let tk = field_keys_exec(&to.fields);
    let fs = sorted_keys_exec(&fk);
    let ts = sorted_keys_exec(&tk);
    let rfk = rel_keys_exec(&from.relationships);
    let rtk = rel_keys_exec(&to.relationships);
    let rfs = sorted_keys_exec(&rfk);
    let rts = sorted_keys_exec(&rtk);
    let fields_removed = field_names_missing(&fs, &tk, &fk, &from.fields);
    let fields_added = fields_missing(&ts, &fk, &tk, &to.fields);
    let fields_changed = fields_changed_exec(&fs, &tk, &fk, &from.fields, &to.fields);
    let relationships_removed = rel_names_missing(&rfs, &rtk, &rfk, &from.relationships);
    let relationships_added = rels_missing(&rts, &rfk, &rtk, &to.relationships);
    let moved = from.confidence > to.confidence && from.confidence - to.confidence > 1
        || to.confidence > from.confidence && to.confidence - from.confidence > 1;
    let confidence_changed = if moved {
        Some((from.confidence, to.confidence))
    } else {
        None
    };
    let patch = EntityPatch {
        fields_added,
        fields_removed,
        fields_changed,
        relationships_added,
        relationships_removed,
        confidence_changed,
    };
    assert(patch_view(patch) == entity_patch(*from, *to));
    if patch.is_empty() {
        None
    } else {
        Some(patch)
    }
}

// ---------------------------------------------------------------------------
// The changes of entity lists
// ---------------------------------------------------------------------------

/// An entity change as diffing entity lists produces it.
pub enum EntityChangeView {
    Renamed { from: Seq<char>, to: Seq<char>, reason: Seq<char> },
    Removed { name: Seq<char> },
    Added { entity: EntityView },
    Updated { name: Seq<char>, patch: PatchView },
    Other,
}

pub open spec fn entity_change_view(c: ChangeKind) -> EntityChangeView {
    match c {
        ChangeKind::EntityRenamed { from, to, reason } => EntityChangeView::Renamed {
            from: from@,
            to: to@,
            reason: reason@,
        },
        ChangeKind::EntityRemoved { name } => EntityChangeView::Removed { name: name@ },
        ChangeKind::EntityAdded { entity } => EntityChangeView::Added { entity: entity_view(entity) },
        ChangeKind::EntityUpdated { name, changes } => EntityChangeView::Updated {
            name: name@,
            patch: patch_view(changes),
        },
        _ => EntityChangeView::Other,
    }
}

pub open spec fn change_views(s: Seq<ChangeKind>) -> Seq<EntityChangeView> {
    s.map_values(|c: ChangeKind| entity_change_view(c))
}

pub open spec fn rename_of(from: Seq<EntityModel>, to: Seq<EntityModel>) -> spec_fn((usize, usize, String)) -> EntityChangeView {
    |p: (usize, usize, String)| EntityChangeView::Renamed { from: from[p.0 as int].name@, to: to[p.1 as int].name@, reason: p.2@ }
}

pub open spec fn key_at(keys: Seq<Seq<char>>, left: bool) -> spec_fn((usize, usize, String)) -> Seq<char> {
    |p: (usize, usize, String)| if left { keys[p.0 as int] } else { keys[p.1 as int] }
}

/// Keys in neither `a` nor `b`.
pub open spec fn outside(a: Seq<Seq<char>>, b: Seq<Seq<char>>) -> spec_fn(Seq<char>) -> bool {
    |k: Seq<char>| !a.contains(k) && !b.contains(k)
}

pub open spec fn removed_of(from: Seq<EntityModel>) -> spec_fn(Seq<char>) -> EntityChangeView {
    |k: Seq<char>| EntityChangeView::Removed { name: from[last_ix(entity_keys(from), k)].name@ }
}

pub open spec fn added_of(to: Seq<EntityModel>) -> spec_fn(Seq<char>) -> EntityChangeView {
    |k: Seq<char>| EntityChangeView::Added { entity: entity_view(to[last_ix(entity_keys(to), k)]) }
}

/// For each common key whose entities differ, the update to the new
/// entity's name.
pub open spec fn updates(common: Seq<Seq<char>>, from: Seq<EntityModel>, to: Seq<EntityModel>) -> Seq<EntityChangeView>
    decreases common.len(),
{
    if common.len() == 0 {
        Seq::empty()
    } else {
        let prev = updates(common.drop_last(), from, to);
        let a = from[last_ix(entity_keys(from), common.last())];
        let b = to[last_ix(entity_keys(to), common.last())];
        let p = entity_patch(a, b);
        if patch_view_empty(p) {
            prev
        } else {
            prev.push(EntityChangeView::Updated { name: b.name@, patch: p })
        }
    }
}

/// The changes from one entity list to another: the given renames (pairs of
/// positions in `from` and `to`, with their reason), then the removed names
/// and the added entities not covered by a rename, then the updates of the
/// entities on both sides; names are compared lowercased, in sorted order.
pub open spec fn entity_changes(
    from: Seq<EntityModel>,
    to: Seq<EntityModel>,
    renamed: Seq<(usize, usize, String)>,
) -> Seq<EntityChangeView> {
    let fk = entity_keys(from);
    let tk = entity_keys(to);
    let hr = renamed.map_values(key_at(fk, true));
    let ha = renamed.map_values(key_at(tk, false));
    renamed.map_values(rename_of(from, to)) + sorted_keys(fk).filter(outside(tk, hr)).map_values(
        removed_of(from),
    ) + sorted_keys(tk).filter(outside(fk, ha)).map_values(added_of(to)) + updates(
        sorted_keys(fk).filter(in_keys(tk)),
        from,
        to,
    )
}

/// Diffs two entity lists (see `entity_changes`); `renamed` holds the pairs
/// of entities judged to be one entity renamed.
pub fn diff_entities(
    from: &Vec<EntityModel>,
    to: &Vec<EntityModel>,
    renamed: &Vec<(usize, usize, String)>,
) -> (r: Vec<ChangeKind>)
    requires
        forall|i: int|
            0 <= i < renamed@.len() ==> (#[trigger] renamed@[i]).0 < from@.len() && renamed@[i].1
                < to@.len(),
    ensures
        change_views(r@) == entity_changes(from@, to@, renamed@),
{
    let fk = entity_keys_exec(from);
    let tk = entity_keys_exec(to);
    let fs = sorted_keys_exec(&fk);
    let ts = sorted_keys_exec(&tk);
    let ghost fkv = strs(fk@);
    let ghost tkv = strs(tk@);
    assert(fk@.len() == from@.len() && tk@.len() == to@.len()) by {
        assert(strs(fk@).len() == fk@.len());
        assert(strs(tk@).len() == tk@.len());
    }
    // renames
    let mut out: Vec<ChangeKind> = Vec::new();
    let mut hr: Vec<String> = Vec::new();
    let mut ha: Vec<String> = Vec::new();
    let mut i: usize = 0;
    while i < renamed.len()
        invariant
            i <= renamed@.len(),
            fkv == strs(fk@),
            tkv == strs(tk@),
            fkv == entity_keys(from@),
            tkv == entity_keys(to@),
            fk@.len() == from@.len(),
            tk@.len() == to@.len(),
            forall|j: int|
                0 <= j < renamed@.len() ==> (#[trigger] renamed@[j]).0 < from@.len() && renamed@[j].1
                    < to@.len(),
            change_views(out@) == renamed@.subrange(0, i as int).map_values(rename_of(from@, to@)),
            strs(hr@) == renamed@.subrange(0, i as int).map_values(key_at(fkv, true)),
            strs(ha@) == renamed@.subrange(0, i as int).map_values(key_at(tkv, false)),
        decreases renamed@.len() - i,
    {
        let (a, b, reason) = (renamed[i].0, renamed[i].1, &renamed[i].2);
        let ghost before = out@;
        let ghost hb = hr@;
        let ghost hab = ha@;
        out.push(ChangeKind::EntityRenamed { from: from[a].name.clone(), to: to[b].name.clone(), reason: reason.clone() });
        hr.push(fk[a].clone());
        ha.push(tk[b].clone());
        assert(renamed@.subrange(0, i + 1) =~= renamed@.subrange(0, i as int).push(renamed@[i as int]));
        assert(change_views(out@) =~= change_views(before).push(rename_of(from@, to@)(renamed@[i as int])));
        assert(strs(hr@) =~= strs(hb).push(key_at(fkv, true)(renamed@[i as int])));
        assert(strs(ha@) =~= strs(hab).push(key_at(tkv, false)(renamed@[i as int])));
        i += 1;
    }
    assert(renamed@.subrange(0, renamed@.len() as int) =~= renamed@);
    let ghost part1 = change_views(out@);
    // removals
    let ghost s = strs(fs@);
    let ghost pr = outside(tkv, strs(hr@));
    let ghost fr = removed_of(from@);
    let mut rem: Vec<ChangeKind> = Vec::new();
    let mut k: usize = 0;
    proof {
        reveal(Seq::filter);
    }
    assert(change_views(rem@) =~= s.subrange(0, 0).filter(pr).map_values(fr));
    while k < fs.len()
        invariant
            k <= fs@.len(),
            s == strs(fs@),
            s.to_set() == fkv.to_set(),
            fkv == strs(fk@),
            fkv == entity_keys(from@),
            pr == outside(tkv, strs(hr@)),
            tkv == strs(tk@),
            fr == removed_of(from@),
            change_views(rem@) == s.subrange(0, k as int).filter(pr).map_values(fr),
        decreases fs@.len() - k,
    {
        proof {
            reveal(Seq::filter);
        }
        let key = fs[k].as_str();
        assert(s[k as int] == key@);
        assert(s.subrange(0, k + 1).drop_last() =~= s.subrange(0, k as int));
        let ghost before = rem@;
        if !contains_string(&tk, key) && !contains_string(&hr, key) {
            assert(s.to_set().contains(key@));
            assert(fkv.to_set().contains(key@));
            let j = last_index(&fk, key);
            rem.push(ChangeKind::EntityRemoved { name: from[j].name.clone() });
            assert(change_views(rem@) =~= change_views(before).push(fr(key@)));
        }
        assert(change_views(rem@) =~= s.subrange(0, k + 1).filter(pr).map_values(fr));
        k += 1;
    }
    assert(s.subrange(0, s.len() as int) =~= s);
    // additions
    let ghost t = strs(ts@);
    let ghost pa = outside(fkv, strs(ha@));
    let ghost fa = added_of(to@);
    let mut add: Vec<ChangeKind> = Vec::new();
    let mut m: usize = 0;
    proof {
        reveal(Seq::filter);
    }
    assert(change_views(add@) =~= t.subrange(0, 0).filter(pa).map_values(fa));
    while m < ts.len()
        invariant
            m <= ts@.len(),
            t == strs(ts@),
            t.to_set() == tkv.to_set(),
            tkv == strs(tk@),
            tkv == entity_keys(to@),
            pa == outside(fkv, strs(ha@)),
            fkv == strs(fk@),
            fa == added_of(to@),
            change_views(add@) == t.subrange(0, m as int).filter(pa).map_values(fa),
        decreases ts@.len() - m,
    {
        proof {
            reveal(Seq::filter);
        }
        let key = ts[m].as_str();
        assert(t[m as int] == key@);
        assert(t.subrange(0, m + 1).drop_last() =~= t.subrange(0, m as int));
        let ghost before = add@;
        if !contains_string(&fk, key) && !contains_string(&ha, key) {
            assert(t.to_set().contains(key@));
            assert(tkv.to_set().contains(key@));
            let j = last_index(&tk, key);
            let e = copy_entity(&to[j]);
            add.push(ChangeKind::EntityAdded { entity: e });
            assert(change_views(add@) =~= change_views(before).push(fa(key@)));
        }
        assert(change_views(add@) =~= t.subrange(0, m + 1).filter(pa).map_values(fa));
        m += 1;
    }
    assert(t.subrange(0, t.len() as int) =~= t);
    // updates
    let ghost pc = in_keys(tkv);
    let mut upd: Vec<ChangeKind> = Vec::new();
    let mut u: usize = 0;
    proof {
        reveal(Seq::filter);
    }
    assert(change_views(upd@) =~= updates(s.subrange(0, 0).filter(pc), from@, to@));
    while u < fs.len()
        invariant
            u <= fs@.len(),
            s == strs(fs@),
            s.to_set() == fkv.to_set(),
            fkv == strs(fk@),
            fkv == entity_keys(from@),
            tkv == strs(tk@),
            tkv == entity_keys(to@),
            pc == in_keys(tkv),
            change_views(upd@) == updates(s.subrange(0, u as int).filter(pc), from@, to@),
        decreases fs@.len() - u,
    {
        proof {
            reveal(Seq::filter);
        }
        let key = fs[u].as_str();
        assert(s[u as int] == key@);
        assert(s.subrange(0, u + 1).drop_last() =~= s.subrange(0, u as int));
        let ghost before = upd@;
        if contains_string(&tk, key) {
            assert(s.to_set().contains(key@));
            assert(fkv.to_set().contains(key@));
            let a = last_index(&fk, key);
            let b = last_index(&tk, key);
            proof {
                assert(s.subrange(0, u + 1).filter(pc) == s.subrange(0, u as int).filter(pc).push(key@));
                assert(s.subrange(0, u + 1).filter(pc).drop_last() =~= s.subrange(0, u as int).filter(pc));
            }
            match diff_entity(&from[a], &to[b]) {
                Some(p) => {
                    upd.push(ChangeKind::EntityUpdated { name: to[b].name.clone(), changes: p });
                    assert(change_views(upd@) =~= change_views(before).push(
                        EntityChangeView::Updated { name: to@[b as int].name@, patch: patch_view(p) },
                    ));
                },
                None => {},
            }
        }
        u += 1;
    }
    assert(s.subrange(0, s.len() as int) =~= s);
    let ghost p2 = change_views(rem@);
    let ghost p3 = change_views(add@);
    let ghost p4 = change_views(upd@);
    out.append(&mut rem);
    out.append(&mut add);
    out.append(&mut upd);
    assert(change_views(out@) =~= part1 + p2 + p3 + p4);
    out
}

} // verus!

//! Statistics of the fields seen in an entity's samples: for each field
//! name, how often it was present, null, of each kind of value, holding
//! times, and whether its name suggests personal data.
use vstd::prelude::*;

use crate::graph::{
    classify_kind, is_temporal_field, kind_of, looks_like_pii, pii_name, temporal_field, IdentityKind,
    ValueKind,
};
use crate::json::{jv, JsonValue, JsonView};
use crate::strset::{insert_all, lemma_sorted_strs, sorted_strs};
use crate::text::{cat, ends_with, has_suffix, owned, str_eq, strictly_sorted, strs, to_lowercase, unicode_lower};

verus! {

/// Every entry of every sample, in order.
pub open spec fn flat(samples: Seq<Vec<(String, JsonValue)>>) -> Seq<(String, JsonValue)>
    decreases samples.len(),
{
    if samples.len() == 0 {
        Seq::empty()
    } else {
        flat(samples.drop_last()) + samples.last()@
    }
}

/// The number of entries that satisfy `p`.
pub open spec fn count_where(s: Seq<(String, JsonValue)>, p: spec_fn((String, JsonValue)) -> bool) -> nat
    decreases s.len(),
{
    if s.len() == 0 {
        0
    } else {
        count_where(s.drop_last(), p) + if p(s.last()) {
            1nat
        } else {
            0nat
        }
    }
}

pub open spec fn has_name(n: Seq<char>) -> spec_fn((String, JsonValue)) -> bool {
    |e: (String, JsonValue)| e.0@ == n
}

pub open spec fn null_named(n: Seq<char>) -> spec_fn((String, JsonValue)) -> bool {
    |e: (String, JsonValue)| e.0@ == n && jv(e.1) is Null
}

pub open spec fn kind_named(n: Seq<char>, k: ValueKind) -> spec_fn((String, JsonValue)) -> bool {
    |e: (String, JsonValue)| e.0@ == n && kind_of(jv(e.1)) == k
}

pub open spec fn time_named(n: Seq<char>) -> spec_fn((String, JsonValue)) -> bool {
    |e: (String, JsonValue)| e.0@ == n && temporal_field(n, jv(e.1))
}

/// The kinds of value, in their order.
pub open spec fn value_kinds() -> Seq<ValueKind> {
    seq![
        ValueKind::String,
        ValueKind::Number,
        ValueKind::Boolean,
        ValueKind::Timestamp,
        ValueKind::Object,
        ValueKind::Array,
        ValueKind::Null,
        ValueKind::Mixed,
    ]
}

/// The kinds among `kinds` that values of field `n` had, in order, each with
/// its count.
pub open spec fn kind_counts(s: Seq<(String, JsonValue)>, n: Seq<char>, kinds: Seq<ValueKind>) -> Seq<
    (ValueKind, usize),
>
    decreases kinds.len(),
{
    if kinds.len() == 0 {
        Seq::empty()
    } else {
        let prev = kind_counts(s, n, kinds.drop_last());
        let c = count_where(s, kind_named(n, kinds.last()));
        if c > 0 {
            prev.push((kinds.last(), c as usize))
        } else {
            prev
        }
    }
}

/// The statistics of one field.
#[derive(Debug, Clone, PartialEq, Eq)]
pub struct FieldStats {
    pub name: String,
    pub present: usize,
    pub nulls: usize,
    /// The kinds of value seen, in kind order, with their counts.
    pub type_counts: Vec<(ValueKind, usize)>,
    pub timestamp_hits: usize,
    pub pii_hits: usize,
}

pub struct StatsView {
    pub name: Seq<char>,
    pub present: nat,
    pub nulls: nat,
    pub type_counts: Seq<(ValueKind, usize)>,
    pub timestamp_hits: nat,
    pub pii_hits: nat,
}

pub open spec fn stats_view(f: FieldStats) -> StatsView {
    StatsView {
        name: f.name@,
        present: f.present as nat,
        nulls: f.nulls as nat,
        type_counts: f.type_counts@,
        timestamp_hits: f.timestamp_hits as nat,
        pii_hits: f.pii_hits as nat,
    }
}

/// The statistics of field `n` over the entries `s`: one hit per entry of
/// that name (for personal data, when the name suggests it).
pub open spec fn stats_of(s: Seq<(String, JsonValue)>, n: Seq<char>) -> StatsView {
    StatsView {
        name: n,
        present: count_where(s, has_name(n)),
        nulls: count_where(s, null_named(n)),
        type_counts: kind_counts(s, n, value_kinds()),
        timestamp_hits: count_where(s, time_named(n)),
        pii_hits: if pii_name(n) {
            count_where(s, has_name(n))
        } else {
            0
        },
    }
}

/// The field names of the entries, in order.
pub open spec fn entry_names(s: Seq<(String, JsonValue)>) -> Seq<Seq<char>> {
    s.map_values(|e: (String, JsonValue)| e.0@)
}

/// The distinct field names of the entries, sorted.
pub open spec fn field_names_of(s: Seq<(String, JsonValue)>) -> Seq<Seq<char>> {
    sorted_strs(entry_names(s).to_set())
}

proof fn lemma_count_le(s: Seq<(String, JsonValue)>, p: spec_fn((String, JsonValue)) -> bool)
    ensures
        count_where(s, p) <= s.len(),
    decreases s.len(),
{
    if s.len() > 0 {
        lemma_count_le(s.drop_last(), p);
    }
}

proof fn lemma_flat_step(samples: Seq<Vec<(String, JsonValue)>>, s: int)
    requires
        0 <= s < samples.len(),
    ensures
        flat(samples.subrange(0, s + 1)) == flat(samples.subrange(0, s)) + samples[s]@,
{
    assert(samples.subrange(0, s + 1).drop_last() =~= samples.subrange(0, s));
}

proof fn lemma_flat_prefix(samples: Seq<Vec<(String, JsonValue)>>, s: int)
    requires
        0 <= s <= samples.len(),
    ensures
        flat(samples.subrange(0, s)).len() <= flat(samples).len(),
    decreases samples.len(),
{
    if s < samples.len() {
        assert(samples.drop_last().subrange(0, s) =~= samples.subrange(0, s));
        lemma_flat_prefix(samples.drop_last(), s);
    } else {
        assert(samples.subrange(0, s) =~= samples);
    }
}

proof fn lemma_count_push(a: Seq<(String, JsonValue)>, x: (String, JsonValue), p: spec_fn((String, JsonValue)) -> bool)
    ensures
        count_where(a.push(x), p) == count_where(a, p) + if p(x) {
            1nat
        } else {
            0nat
        },
{
    assert(a.push(x).drop_last() =~= a);
}

fn kind_index(k: ValueKind) -> (r: usize)
    ensures
        r < 8,
        value_kinds()[r as int] == k,
{
    match k {
        ValueKind::String => 0,
        ValueKind::Number => 1,
        ValueKind::Boolean => 2,
        ValueKind::Timestamp => 3,
        ValueKind::Object => 4,
        ValueKind::Array => 5,
        ValueKind::Null => 6,
        ValueKind::Mixed => 7,
    }
}

fn kind_at(i: usize) -> (r: ValueKind)
    requires
        i < 8,
    ensures
        r == value_kinds()[i as int],
{
    if i == 0 {
        ValueKind::String
    } else if i == 1 {
        ValueKind::Number
    } else if i == 2 {
        ValueKind::Boolean
    } else if i == 3 {
        ValueKind::Timestamp
    } else if i == 4 {
        ValueKind::Object
    } else if i == 5 {
        ValueKind::Array
    } else if i == 6 {
        ValueKind::Null
    } else {
        ValueKind::Mixed
    }
}

/// The counts for field `n`: present, null, holding times, and per kind.
fn count_field(samples: &Vec<Vec<(String, JsonValue)>>, n: &str) -> (r: (usize, usize, usize, Vec<usize>))
    requires
        flat(samples@).len() <= usize::MAX,
    ensures
        r.0 == count_where(flat(samples@), has_name(n@)),
        r.1 == count_where(flat(samples@), null_named(n@)),
        r.2 == count_where(flat(samples@), time_named(n@)),
        r.3@.len() == 8,
        forall|k: int| 0 <= k < 8 ==> #[trigger] r.3@[k] == count_where(flat(samples@), kind_named(n@, value_kinds()[k])),
{
    let mut present: usize = 0;
    let mut nulls: usize = 0;
    let mut times: usize = 0;
    let mut kinds: Vec<usize> = Vec::new();
    let mut q: usize = 0;
    while q < 8
        invariant
            q <= 8,
            kinds@.len() == q,
            forall|k: int| 0 <= k < q ==> #[trigger] kinds@[k] == 0,
        decreases 8 - q,
    {
        kinds.push(0);
        q += 1;
    }
    assert(samples@.subrange(0, 0) =~= Seq::<Vec<(String, JsonValue)>>::empty());
    let mut s: usize = 0;
    while s < samples.len()
        invariant
            s <= samples@.len(),
            flat(samples@).len() <= usize::MAX,
            kinds@.len() == 8,
            present == count_where(flat(samples@.subrange(0, s as int)), has_name(n@)),
            nulls == count_where(flat(samples@.subrange(0, s as int)), null_named(n@)),
            times == count_where(flat(samples@.subrange(0, s as int)), time_named(n@)),
            forall|k: int|
                0 <= k < 8 ==> #[trigger] kinds@[k] == count_where(
                    flat(samples@.subrange(0, s as int)),
                    kind_named(n@, value_kinds()[k]),
                ),
        decreases samples@.len() - s,
    {
        let sample = &samples[s];
        let ghost base = flat(samples@.subrange(0, s as int));
        proof {
            lemma_flat_step(samples@, s as int);
            lemma_flat_prefix(samples@, s + 1);
        }
        let mut e: usize = 0;
        assert(sample@.subrange(0, 0) =~= Seq::<(String, JsonValue)>::empty());
        assert(base + sample@.subrange(0, 0) =~= base);
        while e < sample.len()
            invariant
                e <= sample@.len(),
                sample == &samples@[s as int],
                base + sample@ == flat(samples@.subrange(0, s + 1)),
                flat(samples@.subrange(0, s + 1)).len() <= usize::MAX,
                kinds@.len() == 8,
                present == count_where(base + sample@.subrange(0, e as int), has_name(n@)),
                nulls == count_where(base + sample@.subrange(0, e as int), null_named(n@)),
                times == count_where(base + sample@.subrange(0, e as int), time_named(n@)),
                forall|k: int|
                    0 <= k < 8 ==> #[trigger] kinds@[k] == count_where(
                        base + sample@.subrange(0, e as int),
                        kind_named(n@, value_kinds()[k]),
                    ),
            decreases sample@.len() - e,
        {
            let ghost cur = base + sample@.subrange(0, e as int);
            let ghost x = sample@[e as int];
            assert(base + sample@.subrange(0, e + 1) =~= cur.push(x));
            proof {
                lemma_count_push(cur, x, has_name(n@));
                lemma_count_push(cur, x, null_named(n@));
                lemma_count_push(cur, x, time_named(n@));
                assert forall|k: int| 0 <= k < 8 implies count_where(cur.push(x), kind_named(n@, value_kinds()[k]))
                    == count_where(cur, kind_named(n@, value_kinds()[k])) + if kind_named(n@, value_kinds()[k])(x) {
                    1nat
                } else {
                    0nat
                } by {
                    lemma_count_push(cur, x, kind_named(n@, value_kinds()[k]));
                }
                lemma_count_le(cur.push(x), has_name(n@));
                assert(cur.push(x).len() <= (base + sample@).len());
            }
            let (name, value) = (&sample[e].0, &sample[e].1);
            if str_eq(name.as_str(), n) {
                present += 1;
                proof {
                    lemma_count_le(cur, null_named(n@));
                    lemma_count_le(cur, time_named(n@));
                }
                if matches!(value, JsonValue::Null) {
                    nulls += 1;
                }
                if is_temporal_field(name.as_str(), value) {
                    times += 1;
                }
                let ki = kind_index(classify_kind(value));
                proof {
                    lemma_count_le(cur, kind_named(n@, value_kinds()[ki as int]));
                }
                let c = kinds[ki];
                kinds.set(ki, c + 1);
            }
            e += 1;
        }
        assert(sample@.subrange(0, sample@.len() as int) =~= sample@);
        s += 1;
    }
    assert(samples@.subrange(0, samples@.len() as int) =~= samples@);
    (present, nulls, times, kinds)
}

/// The kinds seen for a field, in kind order, with their counts.
fn kinds_seen(counts: &Vec<usize>, Ghost(s): Ghost<Seq<(String, JsonValue)>>, Ghost(n): Ghost<Seq<char>>) -> (r: Vec<(ValueKind, usize)>)
    requires
        counts@.len() == 8,
        forall|k: int| 0 <= k < 8 ==> #[trigger] counts@[k] == count_where(s, kind_named(n, value_kinds()[k])),
    ensures
        r@ == kind_counts(s, n, value_kinds()),
{
    let mut r: Vec<(ValueKind, usize)> = Vec::new();
    let mut k: usize = 0;
    assert(value_kinds().subrange(0, 0) =~= Seq::<ValueKind>::empty());
    while k < 8
        invariant
            k <= 8,
            counts@.len() == 8,
            forall|j: int| 0 <= j < 8 ==> #[trigger] counts@[j] == count_where(s, kind_named(n, value_kinds()[j])),
            r@ == kind_counts(s, n, value_kinds().subrange(0, k as int)),
        decreases 8 - k,
    {
        assert(value_kinds().subrange(0, k + 1).drop_last() =~= value_kinds().subrange(0, k as int));
        assert(value_kinds().subrange(0, k + 1).last() == value_kinds()[k as int]);
        let c = counts[k];
        if c > 0 {
            r.push((kind_at(k), c));
        }
        k += 1;
    }
    assert(value_kinds().subrange(0, 8) =~= value_kinds());
    r
}

/// The statistics of every field of the samples, by field name in sorted
/// order (see `stats_of`).
pub fn field_statistics(samples: &Vec<Vec<(String, JsonValue)>>) -> (r: Vec<FieldStats>)
    requires
        flat(samples@).len() <= usize::MAX,
    ensures
        r@.len() == field_names_of(flat(samples@)).len(),
        forall|i: int|
            0 <= i < r@.len() ==> stats_view(#[trigger] r@[i]) == stats_of(
                flat(samples@),
                field_names_of(flat(samples@))[i],
            ),
{
    let ghost f = flat(samples@);
    let mut keys: Vec<String> = Vec::new();
    let mut s: usize = 0;
    assert(samples@.subrange(0, 0) =~= Seq::<Vec<(String, JsonValue)>>::empty());
    while s < samples.len()
        invariant
            s <= samples@.len(),
            strs(keys@) == entry_names(flat(samples@.subrange(0, s as int))),
        decreases samples@.len() - s,
    {
        let sample = &samples[s];
        let ghost base = flat(samples@.subrange(0, s as int));
        proof {
            lemma_flat_step(samples@, s as int);
        }
        let mut e: usize = 0;
        assert(base + sample@.subrange(0, 0) =~= base);
        while e < sample.len()
            invariant
                e <= sample@.len(),
                sample == &samples@[s as int],
                strs(keys@) == entry_names(base + sample@.subrange(0, e as int)),
            decreases sample@.len() - e,
        {
            let ghost before = keys@;
            keys.push(sample[e].0.clone());
            assert(base + sample@.subrange(0, e + 1) =~= (base + sample@.subrange(0, e as int)).push(sample@[e as int]));
            assert(strs(keys@) =~= strs(before).push(sample@[e as int].0@));
            assert(entry_names(base + sample@.subrange(0, e + 1)) =~= entry_names(
                base + sample@.subrange(0, e as int),
            ).push(sample@[e as int].0@));
            e += 1;
        }
        assert(sample@.subrange(0, sample@.len() as int) =~= sample@);
        s += 1;
    }
    assert(samples@.subrange(0, samples@.len() as int) =~= samples@);
    let mut names: Vec<String> = Vec::new();
    assert(strs(names@) =~= Seq::<Seq<char>>::empty());
    insert_all(&mut names, &keys);
    proof {
        assert(strs(names@).to_set() =~= entry_names(f).to_set());
        lemma_sorted_strs(strs(names@), entry_names(f).to_set());
    }
    let ghost fnames = field_names_of(f);
    assert(strs(names@) == fnames);
    let mut r: Vec<FieldStats> = Vec::new();
    let mut i: usize = 0;
    while i < names.len()
        invariant
            i <= names@.len(),
            f == flat(samples@),
            f.len() <= usize::MAX,
            strs(names@) == fnames,
            fnames == field_names_of(f),
            r@.len() == i,
            forall|j: int| 0 <= j < i ==> stats_view(#[trigger] r@[j]) == stats_of(f, fnames[j]),
        decreases names@.len() - i,
    {
        let n = names[i].as_str();
        assert(fnames[i as int] == n@);
        let (present, nulls, times, kinds) = count_field(samples, n);
        let type_counts = kinds_seen(&kinds, Ghost(f), Ghost(n@));
        let pii_hits = if looks_like_pii(n) {
            present
        } else {
            0
        };
        let st = FieldStats {
            name: names[i].clone(),
            present,
            nulls,
            type_counts,
            timestamp_hits: times,
            pii_hits,
        };
        assert(stats_view(st) == stats_of(f, fnames[i as int]));
        r.push(st);
        i += 1;
    }
    r
}


// ---------------------------------------------------------------------------
// Identities
// ---------------------------------------------------------------------------

/// A field that identifies an entity, of some kind, with a confidence in
/// thousandths.
#[derive(Debug, Clone, PartialEq, Eq)]
pub struct FieldIdentity {
    pub field: String,
    pub kind: IdentityKind,
    pub confidence: u32,
}

pub struct FieldIdentityView {
    pub field: Seq<char>,
    pub kind: IdentityKind,
    pub confidence: u32,
}

pub open spec fn identity_view(i: FieldIdentity) -> FieldIdentityView {
    FieldIdentityView { field: i.field@, kind: i.kind, confidence: i.confidence }
}

/// A field name that is the entity's own identifier: `id`, or the entity's
/// name followed by `_id` or `id` (all lowercased).
pub open spec fn primary_name(lower_entity: Seq<char>, field: Seq<char>) -> bool {
    let lower = unicode_lower(field);
    lower == "id"@ || lower == lower_entity + "_id"@ || lower == lower_entity + "id"@
}

/// The position of the first field that is the entity's own identifier, or
/// -1.
pub open spec fn first_primary(lower_entity: Seq<char>, fields: Seq<Seq<char>>) -> int
    decreases fields.len(),
{
    if fields.len() == 0 {
        -1
    } else if first_primary(lower_entity, fields.drop_last()) >= 0 {
        first_primary(lower_entity, fields.drop_last())
    } else if primary_name(lower_entity, fields.last()) {
        fields.len() - 1
    } else {
        -1
    }
}

/// The fields whose lowercased names end in `id`, as foreign identities.
pub open spec fn foreign_identities(fields: Seq<Seq<char>>) -> Seq<FieldIdentityView>
    decreases fields.len(),
{
    if fields.len() == 0 {
        Seq::empty()
    } else {
        let prev = foreign_identities(fields.drop_last());
        if has_suffix(unicode_lower(fields.last()), "id"@) {
            prev.push(FieldIdentityView { field: fields.last(), kind: IdentityKind::Foreign, confidence: 900 })
        } else {
            prev
        }
    }
}

/// The identities of an entity with the given fields: the first field that
/// is its own identifier, as its primary identity (980); else every field
/// ending in `id` as a foreign identity (900); else a synthetic identity
/// `_synthetic` (600).
pub open spec fn identities_of(entity: Seq<char>, fields: Seq<Seq<char>>) -> Seq<FieldIdentityView> {
    let p = first_primary(unicode_lower(entity), fields);
    if p >= 0 {
        seq![FieldIdentityView { field: fields[p], kind: IdentityKind::Primary, confidence: 980 }]
    } else if foreign_identities(fields).len() > 0 {
        foreign_identities(fields)
    } else {
        seq![FieldIdentityView { field: "_synthetic"@, kind: IdentityKind::Synthetic, confidence: 600 }]
    }
}

/// The identities of an entity with the given fields (see `identities_of`).
pub fn infer_identities(entity: &str, fields: &Vec<String>) -> (r: Vec<FieldIdentity>)
    ensures
        r@.map_values(|i: FieldIdentity| identity_view(i)) == identities_of(entity@, strs(fields@)),
{
    let ghost fv = strs(fields@);
    let lower_entity = to_lowercase(entity);
    let with_underscore = cat(lower_entity.as_str(), "_id");
    let with_id = cat(lower_entity.as_str(), "id");
    let mut i: usize = 0;
    assert(fv.subrange(0, 0) =~= Seq::<Seq<char>>::empty());
    while i < fields.len()
        invariant
            i <= fields@.len(),
            fv == strs(fields@),
            lower_entity@ == unicode_lower(entity@),
            with_underscore@ == lower_entity@ + "_id"@,
            with_id@ == lower_entity@ + "id"@,
            first_primary(lower_entity@, fv.subrange(0, i as int)) == -1,
        decreases fields@.len() - i,
    {
        assert(fv.subrange(0, i + 1).drop_last() =~= fv.subrange(0, i as int));
        assert(fv.subrange(0, i + 1).last() == fields@[i as int]@);
        let lower = to_lowercase(fields[i].as_str());
        if str_eq(lower.as_str(), "id") || str_eq(lower.as_str(), with_underscore.as_str()) || str_eq(
            lower.as_str(),
            with_id.as_str(),
        ) {
            let mut r: Vec<FieldIdentity> = Vec::new();
            r.push(FieldIdentity { field: fields[i].clone(), kind: IdentityKind::Primary, confidence: 980 });
            proof {
                lemma_first_primary_prefix(lower_entity@, fv, i + 1);
            }
            assert(r@.map_values(|x: FieldIdentity| identity_view(x)) =~= identities_of(entity@, fv));
            return r;
        }
        i += 1;
    }
    assert(fv.subrange(0, fv.len() as int) =~= fv);
    let mut r: Vec<FieldIdentity> = Vec::new();
    let mut j: usize = 0;
    assert(r@.map_values(|x: FieldIdentity| identity_view(x)) =~= foreign_identities(fv.subrange(0, 0)));
    while j < fields.len()
        invariant
            j <= fields@.len(),
            fv == strs(fields@),
            r@.map_values(|x: FieldIdentity| identity_view(x)) == foreign_identities(fv.subrange(0, j as int)),
        decreases fields@.len() - j,
    {
        assert(fv.subrange(0, j + 1).drop_last() =~= fv.subrange(0, j as int));
        assert(fv.subrange(0, j + 1).last() == fields@[j as int]@);
        let lower = to_lowercase(fields[j].as_str());
        let ghost before = r@;
        if ends_with(lower.as_str(), "id") {
            r.push(FieldIdentity { field: fields[j].clone(), kind: IdentityKind::Foreign, confidence: 900 });
            assert(r@.map_values(|x: FieldIdentity| identity_view(x)) =~= before.map_values(
                |x: FieldIdentity| identity_view(x),
            ).push(FieldIdentityView { field: fields@[j as int]@, kind: IdentityKind::Foreign, confidence: 900 }));
        }
        j += 1;
    }
    assert(fv.subrange(0, fv.len() as int) =~= fv);
    if r.len() == 0 {
        r.push(FieldIdentity { field: owned("_synthetic"), kind: IdentityKind::Synthetic, confidence: 600 });
        assert(r@.map_values(|x: FieldIdentity| identity_view(x)) =~= identities_of(entity@, fv));
    }
    r
}

/// Once a prefix holds a primary field, the whole list's first primary
/// field is that one.
proof fn lemma_first_primary_prefix(lower_entity: Seq<char>, fields: Seq<Seq<char>>, n: int)
    requires
        0 < n <= fields.len(),
        first_primary(lower_entity, fields.subrange(0, n)) >= 0,
    ensures
        first_primary(lower_entity, fields) == first_primary(lower_entity, fields.subrange(0, n)),
    decreases fields.len() - n,
{
    if n < fields.len() {
        assert(fields.subrange(0, n + 1).drop_last() =~= fields.subrange(0, n));
        lemma_first_primary_prefix(lower_entity, fields, n + 1);
    } else {
        assert(fields.subrange(0, n) =~= fields);
    }
}

} // verus!

//! The profile of an inferred entity: how many instances and fields it has,
//! its primary identifier, the fields that look like personal data, the
//! entities its fields point to, and the sources it was seen in. The
//! required and nullable ratios and the confidence, which are floating
//! point, are left to the caller, which has the field statistics for them.
use vstd::prelude::*;

use crate::collector::EntityAggregate;
use crate::data_graph::{belongs_to, foreign_relations, rels_view, RelView};
use crate::field_stats::{
    field_names_of, field_statistics, first_primary, flat, foreign_identities, identities_of, identity_view,
    infer_identities, stats_of, stats_view, FieldIdentity, FieldStats,
};
use crate::graph::IdentityKind;
use crate::strset::{insert_sorted, lemma_sorted_strs, sorted_strs};
use crate::text::{clone_strings, opt_view, strictly_sorted, strs, unicode_lower};

verus! {

pub struct EntityProfile {
    pub name: String,
    pub instances: usize,
    pub fields: usize,
    pub primary_identifier: Option<String>,
    pub related: Vec<String>,
    pub detected_pii: Vec<String>,
    pub sources: Vec<String>,
}

/// The entity's own identifier among its fields (see `first_primary`).
pub open spec fn primary_of(entity: Seq<char>, names: Seq<Seq<char>>) -> Option<Seq<char>> {
    let p = first_primary(unicode_lower(entity), names);
    if p >= 0 {
        Some(names[p])
    } else {
        None
    }
}

/// The names, in order, whose statistics over the entries `f` count a hit
/// of personal data.
pub open spec fn pii_fields(f: Seq<(String, crate::json::JsonValue)>, names: Seq<Seq<char>>) -> Seq<Seq<char>>
    decreases names.len(),
{
    if names.len() == 0 {
        Seq::empty()
    } else {
        let prev = pii_fields(f, names.drop_last());
        if stats_of(f, names.last()).pii_hits > 0 {
            prev.push(names.last())
        } else {
            prev
        }
    }
}

/// The targets of relationships.
pub open spec fn targets(rels: Seq<RelView>) -> Set<Seq<char>> {
    rels.map_values(|r: RelView| r.to).to_set()
}

proof fn lemma_foreign_kinds(fields: Seq<Seq<char>>)
    ensures
        forall|i: int|
            0 <= i < foreign_identities(fields).len() ==> (#[trigger] foreign_identities(fields)[i]).kind
                == IdentityKind::Foreign,
    decreases fields.len(),
{
    if fields.len() > 0 {
        lemma_foreign_kinds(fields.drop_last());
    }
}

/// The profile of entity `entity` from what was collected of it: its
/// instances, its fields (by sorted name, see `field_statistics`), its
/// primary identifier (see `identities_of`), the fields with a personal-data
/// hit, the entities its fields point to (see `belongs_to`) sorted and each
/// once, and its sources.
pub fn entity_profile(entity: &str, aggregate: &EntityAggregate, entity_names: &Vec<String>) -> (r:
    EntityProfile)
    requires
        flat(aggregate.samples@).len() <= usize::MAX,
    ensures
        r.name@ == entity@,
        r.instances == aggregate.samples@.len(),
        r.fields == field_names_of(flat(aggregate.samples@)).len(),
        opt_view(r.primary_identifier) == primary_of(entity@, field_names_of(flat(aggregate.samples@))),
        strs(r.detected_pii@) == pii_fields(flat(aggregate.samples@), field_names_of(flat(aggregate.samples@))),
        strs(r.related@) == sorted_strs(
            targets(belongs_to(entity@, field_names_of(flat(aggregate.samples@)), strs(entity_names@))),
        ),
        r.sources@ == aggregate.sources@,
{
    let ghost f = flat(aggregate.samples@);
    let ghost fnames = field_names_of(f);
    let stats = field_statistics(&aggregate.samples);
    // the names, and those with a personal-data hit
    let mut names: Vec<String> = Vec::new();
    let mut pii: Vec<String> = Vec::new();
    let mut i: usize = 0;
    while i < stats.len()
        invariant
            i <= stats@.len(),
            f == flat(aggregate.samples@),
            fnames == field_names_of(f),
            stats@.len() == fnames.len(),
            forall|k: int| 0 <= k < stats@.len() ==> stats_view(#[trigger] stats@[k]) == stats_of(f, fnames[k]),
            strs(names@) == fnames.subrange(0, i as int),
            strs(pii@) == pii_fields(f, fnames.subrange(0, i as int)),
        decreases stats@.len() - i,
    {
        assert(stats_view(stats@[i as int]) == stats_of(f, fnames[i as int]));
        assert(fnames.subrange(0, i + 1).drop_last() =~= fnames.subrange(0, i as int));
        assert(fnames.subrange(0, i + 1).last() == fnames[i as int]);
        let ghost nb = names@;
        let ghost pb = pii@;
        names.push(stats[i].name.clone());
        assert(strs(names@) =~= strs(nb).push(fnames[i as int]));
        if stats[i].pii_hits > 0 {
            pii.push(stats[i].name.clone());
            assert(strs(pii@) =~= strs(pb).push(fnames[i as int]));
        }
        i += 1;
    }
    assert(fnames.subrange(0, fnames.len() as int) =~= fnames);
    // the primary identifier
    let ids = infer_identities(entity, &names);
    proof {
        lemma_foreign_kinds(fnames);
    }
    let ghost iv = ids@.map_values(|x: FieldIdentity| identity_view(x));
    assert(iv.len() == ids@.len());
    let primary = if ids.len() > 0 && ids[0].kind == IdentityKind::Primary {
        assert(iv[0] == identity_view(ids@[0]));
        Some(ids[0].field.clone())
    } else {
        proof {
            if first_primary(unicode_lower(entity@), fnames) >= 0 {
                assert(iv[0] == identity_view(ids@[0]));
            } else if foreign_identities(fnames).len() > 0 {
                assert(iv[0] == identity_view(ids@[0]));
                assert(foreign_identities(fnames)[0].kind == IdentityKind::Foreign);
            }
        }
        None
    };
    // the entities the fields point to
    let rels = foreign_relations(entity, &names, entity_names);
    let ghost rv = rels_view(rels@);
    let mut related: Vec<String> = Vec::new();
    let mut k: usize = 0;
    assert(strs(related@).to_set() =~= targets(rv.subrange(0, 0)));
    while k < rels.len()
        invariant
            k <= rels@.len(),
            rv == rels_view(rels@),
            strictly_sorted(strs(related@)),
            strs(related@).to_set() == targets(rv.subrange(0, k as int)),
        decreases rels@.len() - k,
    {
        let ghost before = strs(related@).to_set();
        insert_sorted(&mut related, rels[k].to.clone());
        proof {
            let s0 = rv.subrange(0, k as int).map_values(|r: RelView| r.to);
            assert(rv.subrange(0, k + 1).map_values(|r: RelView| r.to) =~= s0.push(rels@[k as int].to@));
            s0.lemma_push_to_set_commute(rels@[k as int].to@);
        }
        k += 1;
    }
    proof {
        assert(rv.subrange(0, rv.len() as int) =~= rv);
        lemma_sorted_strs(strs(related@), targets(rv));
    }
    EntityProfile {
        name: crate::text::owned(entity),
        instances: aggregate.samples.len(),
        fields: stats.len(),
        primary_identifier: primary,
        related,
        detected_pii: pii,
        sources: clone_strings(&aggregate.sources),
    }
}

} // verus!

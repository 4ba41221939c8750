//! Architecture drift: duplicated capabilities, overlapping subsystems,
//! ownership violations, fragmented models and newly emerging subsystems.
use vstd::prelude::*;

use crate::strset::{contains_string, insert_sorted, lemma_sorted_strs, lemma_sorted_strs_of, sorted_strs};
use crate::system_graph::{Subsystem, SystemGraphVersion};
use crate::text::{
    cat, cat3, join, join_seq, lower, lower_seq, owned, str_eq, strictly_sorted, strs,
};

verus! {

#[derive(Debug, Clone, Copy, PartialEq, Eq, Structural)]
pub enum DriftType {
    DuplicateCapability,
    SubsystemOverlap,
    OwnershipViolation,
    ArchitectureDrift,
    ModelFragmentation,
}

#[derive(Debug, Clone, PartialEq, Eq)]
pub struct Recommendation {
    pub action: String,
    pub details: String,
}

#[derive(Debug, Clone, PartialEq, Eq)]
pub struct DriftEvent {
    pub drift_type: DriftType,
    pub affected_subsystems: Vec<String>,
    pub evidence: Vec<String>,
    pub recommendation: Recommendation,
}

#[derive(Debug, Clone, PartialEq, Eq)]
pub struct OwnershipPolicy {
    pub subsystem: String,
    pub owns: Vec<String>,
}

pub struct DriftEventView {
    pub drift_type: DriftType,
    pub affected: Seq<Seq<char>>,
    pub evidence: Seq<Seq<char>>,
    pub action: Seq<char>,
    pub details: Seq<char>,
}

impl View for DriftEvent {
    type V = DriftEventView;

    open spec fn view(&self) -> DriftEventView {
        DriftEventView {
            drift_type: self.drift_type,
            affected: strs(self.affected_subsystems@),
            evidence: strs(self.evidence@),
            action: self.recommendation.action@,
            details: self.recommendation.details@,
        }
    }
}

pub open spec fn events_view(v: Seq<DriftEvent>) -> Seq<DriftEventView> {
    v.map_values(|e: DriftEvent| e@)
}

proof fn lemma_events_push(v: Seq<DriftEvent>, e: DriftEvent)
    ensures
        events_view(v.push(e)) == events_view(v).push(e@),
{
    assert(events_view(v.push(e)) =~= events_view(v).push(e@));
}

proof fn lemma_events_add(a: Seq<DriftEvent>, b: Seq<DriftEvent>)
    ensures
        events_view(a + b) == events_view(a) + events_view(b),
{
    assert(events_view(a + b) =~= events_view(a) + events_view(b));
}

// ---------------------------------------------------------------------------
// Duplicate capabilities
// ---------------------------------------------------------------------------

/// The entities two subsystems share, as a sorted set.
pub open spec fn shared_entities(l: Subsystem, r: Subsystem) -> Seq<Seq<char>> {
    sorted_strs(strs(l.entities@).to_set().intersect(strs(r.entities@).to_set()))
}

pub open spec fn dup_event(l: Subsystem, r: Subsystem) -> Seq<DriftEventView> {
    let shared = shared_entities(l, r);
    if shared.len() >= 2 {
        seq![
            DriftEventView {
                drift_type: DriftType::DuplicateCapability,
                affected: seq![l.id@, r.id@],
                evidence: shared,
                action: "Merge"@,
                details: "Unify overlapping capabilities into `"@ + l.id@
                    + "` to avoid parallel implementations."@,
            },
        ]
    } else {
        Seq::<DriftEventView>::empty()
    }
}

/// Duplication events of subsystem `i` with subsystems `i+1 .. j`.
pub open spec fn dup_row(subs: Seq<Subsystem>, i: int, j: int) -> Seq<DriftEventView>
    decreases j - i,
{
    if j <= i + 1 {
        Seq::<DriftEventView>::empty()
    } else {
        dup_row(subs, i, j - 1) + dup_event(subs[i], subs[j - 1])
    }
}

/// Duplication events of every pair whose first subsystem is before `n`.
pub open spec fn dup_all(subs: Seq<Subsystem>, n: int) -> Seq<DriftEventView>
    decreases n,
{
    if n <= 0 {
        Seq::<DriftEventView>::empty()
    } else {
        dup_all(subs, n - 1) + dup_row(subs, n - 1, subs.len() as int)
    }
}

// ---------------------------------------------------------------------------
// Subsystem overlap
// ---------------------------------------------------------------------------

/// Every lowercased entity name of the graph.
pub open spec fn entity_keys(subs: Seq<Subsystem>) -> Set<Seq<char>> {
    Set::new(
        |k: Seq<char>|
            exists|i: int, j: int|
                0 <= i < subs.len() && 0 <= j < subs[i].entities@.len() && lower_seq(
                    #[trigger] subs[i].entities@[j]@,
                ) == k,
    )
}

/// `id` once for every entity of `ents` whose lowercase name is `key`.
pub open spec fn owners_in(ents: Seq<String>, id: Seq<char>, key: Seq<char>) -> Seq<Seq<char>>
    decreases ents.len(),
{
    if ents.len() == 0 {
        Seq::<Seq<char>>::empty()
    } else {
        owners_in(ents.drop_last(), id, key) + if lower_seq(ents.last()@) == key {
            seq![id]
        } else {
            Seq::<Seq<char>>::empty()
        }
    }
}

/// The subsystems listing the entity `key`, once per listing, in order.
pub open spec fn owners_of(subs: Seq<Subsystem>, key: Seq<char>) -> Seq<Seq<char>>
    decreases subs.len(),
{
    if subs.len() == 0 {
        Seq::<Seq<char>>::empty()
    } else {
        owners_of(subs.drop_last(), key) + owners_in(subs.last().entities@, subs.last().id@, key)
    }
}

pub open spec fn overlap_events(keys: Seq<Seq<char>>, subs: Seq<Subsystem>) -> Seq<DriftEventView>
    decreases keys.len(),
{
    if keys.len() == 0 {
        Seq::<DriftEventView>::empty()
    } else {
        let k = keys.last();
        let owners = owners_of(subs, k);
        overlap_events(keys.drop_last(), subs) + if owners.len() > 1 {
            seq![
                DriftEventView {
                    drift_type: DriftType::SubsystemOverlap,
                    affected: owners,
                    evidence: seq!["Entity `"@ + k + "` appears in multiple subsystems"@],
                    action: "Extend"@,
                    details: "Consolidate ownership under a single subsystem boundary."@,
                },
            ]
        } else {
            Seq::<DriftEventView>::empty()
        }
    }
}

// ---------------------------------------------------------------------------
// Ownership violations
// ---------------------------------------------------------------------------

/// Some entity of `owns` has the lowercase name `key`.
pub open spec fn owns_key(owns: Seq<String>, key: Seq<char>) -> bool {
    exists|j: int| 0 <= j < owns.len() && lower_seq(#[trigger] owns[j]@) == key
}

/// The subsystem that the policies assign `key` to: the last policy that owns it.
pub open spec fn policy_owner(policies: Seq<OwnershipPolicy>, key: Seq<char>) -> Option<Seq<char>>
    decreases policies.len(),
{
    if policies.len() == 0 {
        None
    } else if owns_key(policies.last().owns@, key) {
        Some(policies.last().subsystem@)
    } else {
        policy_owner(policies.drop_last(), key)
    }
}

pub open spec fn violation_event(
    id: Seq<char>,
    entity: Seq<char>,
    policies: Seq<OwnershipPolicy>,
) -> Seq<DriftEventView> {
    match policy_owner(policies, lower_seq(entity)) {
        Some(owner) => if owner != id {
            seq![
                DriftEventView {
                    drift_type: DriftType::OwnershipViolation,
                    affected: seq![id, owner],
                    evidence: seq![
                        "`"@ + owner + "` owns `"@ + entity + "`, but it appears under `"@ + id
                            + "`"@,
                    ],
                    action: "Reassign ownership"@,
                    details: "Move `"@ + entity + "` responsibilities to `"@ + owner + "`."@,
                },
            ]
        } else {
            Seq::<DriftEventView>::empty()
        },
        None => Seq::<DriftEventView>::empty(),
    }
}

pub open spec fn violations_in(
    id: Seq<char>,
    ents: Seq<String>,
    policies: Seq<OwnershipPolicy>,
) -> Seq<DriftEventView>
    decreases ents.len(),
{
    if ents.len() == 0 {
        Seq::<DriftEventView>::empty()
    } else {
        violations_in(id, ents.drop_last(), policies) + violation_event(
            id,
            ents.last()@,
            policies,
        )
    }
}

pub open spec fn violations_spec(subs: Seq<Subsystem>, policies: Seq<OwnershipPolicy>) -> Seq<
    DriftEventView,
>
    decreases subs.len(),
{
    if subs.len() == 0 {
        Seq::<DriftEventView>::empty()
    } else {
        violations_spec(subs.drop_last(), policies) + violations_in(
            subs.last().id@,
            subs.last().entities@,
            policies,
        )
    }
}

// ---------------------------------------------------------------------------
// Model fragmentation and architecture drift
// ---------------------------------------------------------------------------

/// Some entity of `ents` is named `word` (ASCII case-insensitively).
pub open spec fn has_lower(ents: Seq<String>, word: Seq<char>) -> bool {
    exists|j: int| 0 <= j < ents.len() && lower_seq(#[trigger] ents[j]@) == word
}

/// The subsystem names a customer together with an account or a client.
pub open spec fn is_fragmented(s: Subsystem) -> bool {
    has_lower(s.entities@, "customer"@) && (has_lower(s.entities@, "account"@) || has_lower(
        s.entities@,
        "client"@,
    ))
}

pub open spec fn fragmented_ids(subs: Seq<Subsystem>) -> Set<Seq<char>> {
    Set::new(
        |id: Seq<char>|
            exists|i: int| 0 <= i < subs.len() && is_fragmented(#[trigger] subs[i]) && subs[i].id@ == id,
    )
}

pub open spec fn fragmentation_spec(subs: Seq<Subsystem>) -> Seq<DriftEventView> {
    let ids = sorted_strs(fragmented_ids(subs));
    if ids.len() == 0 {
        Seq::<DriftEventView>::empty()
    } else {
        seq![
            DriftEventView {
                drift_type: DriftType::ModelFragmentation,
                affected: ids,
                evidence: seq!["Competing identity model names detected (Customer/Account/Client)."@],
                action: "Rename"@,
                details: "Converge on one canonical entity name to avoid divergence."@,
            },
        ]
    }
}

/// A subsystem whose entities name a customer and a client, or a customer
/// and an account (ASCII case-insensitively), is listed among the affected
/// subsystems of a model-fragmentation event that drift detection reports.
pub proof fn law_customer_with_client_or_account_is_fragmented(
    previous: Option<SystemGraphVersion>,
    current: SystemGraphVersion,
    policies: Seq<OwnershipPolicy>,
    i: int,
    j: int,
    k: int,
    other: Seq<char>,
)
    requires
        0 <= i < current.subsystems@.len(),
        0 <= j < current.subsystems@[i].entities@.len(),
        0 <= k < current.subsystems@[i].entities@.len(),
        lower_seq(current.subsystems@[i].entities@[j]@) == "customer"@,
        lower_seq(current.subsystems@[i].entities@[k]@) == other,
        other == "client"@ || other == "account"@,
    ensures
        exists|e: DriftEventView|
            #[trigger] drift_spec(previous, current, policies).contains(e) && e.drift_type
                == DriftType::ModelFragmentation && e.affected.contains(current.subsystems@[i].id@),
{
    let subs = current.subsystems@;
    let s = subs[i];
    assert(has_lower(s.entities@, "customer"@));
    if other == "client"@ {
        assert(has_lower(s.entities@, "client"@));
    } else {
        assert(has_lower(s.entities@, "account"@));
    }
    let ids = fragmented_ids(subs);
    assert(ids.contains(s.id@));
    let all_ids = subs.map_values(|x: Subsystem| x.id@).to_set();
    assert(ids.subset_of(all_ids)) by {
        assert forall|id: Seq<char>| ids.contains(id) implies all_ids.contains(id) by {
            let q = choose|q: int| 0 <= q < subs.len() && is_fragmented(#[trigger] subs[q]) && subs[q].id@ == id;
            assert(subs.map_values(|x: Subsystem| x.id@)[q] == id);
        }
    }
    vstd::seq_lib::seq_to_set_is_finite(subs.map_values(|x: Subsystem| x.id@));
    vstd::set_lib::lemma_set_subset_finite(all_ids, ids);
    lemma_sorted_strs_of(ids);
    let sorted = sorted_strs(ids);
    assert(sorted.to_set().contains(s.id@));
    assert(sorted.len() > 0);
    let f = fragmentation_spec(subs);
    let e = f[0];
    assert(e.affected == sorted);
    let a = dup_all(subs, subs.len() as int) + overlap_events(sorted_strs(entity_keys(subs)), subs)
        + violations_spec(subs, policies);
    let d = match previous {
        Some(p) => architecture_spec(p.subsystems@, subs),
        None => Seq::<DriftEventView>::empty(),
    };
    let all = drift_spec(previous, current, policies);
    assert(all == a + f + d);
    assert(all[a.len() as int] == e);
    assert(all.contains(e));
}

/// No event of `events` reports model fragmentation.
pub open spec fn no_fragmentation(events: Seq<DriftEventView>) -> bool {
    forall|i: int| 0 <= i < events.len() ==> (#[trigger] events[i]).drift_type != DriftType::ModelFragmentation
}

proof fn lemma_no_fragmentation_add(a: Seq<DriftEventView>, b: Seq<DriftEventView>)
    requires
        no_fragmentation(a),
        no_fragmentation(b),
    ensures
        no_fragmentation(a + b),
{
    assert forall|i: int| 0 <= i < (a + b).len() implies (#[trigger] (a + b)[i]).drift_type
        != DriftType::ModelFragmentation by {
        if i < a.len() {
            assert((a + b)[i] == a[i]);
        } else {
            assert((a + b)[i] == b[i - a.len()]);
        }
    }
}

proof fn lemma_dup_row_no_fragmentation(subs: Seq<Subsystem>, i: int, j: int)
    ensures
        no_fragmentation(dup_row(subs, i, j)),
    decreases j - i,
{
    if j > i + 1 {
        lemma_dup_row_no_fragmentation(subs, i, j - 1);
        lemma_no_fragmentation_add(dup_row(subs, i, j - 1), dup_event(subs[i], subs[j - 1]));
    }
}

proof fn lemma_dup_all_no_fragmentation(subs: Seq<Subsystem>, n: int)
    ensures
        no_fragmentation(dup_all(subs, n)),
    decreases n,
{
    if n > 0 {
        lemma_dup_all_no_fragmentation(subs, n - 1);
        lemma_dup_row_no_fragmentation(subs, n - 1, subs.len() as int);
        lemma_no_fragmentation_add(dup_all(subs, n - 1), dup_row(subs, n - 1, subs.len() as int));
    }
}

proof fn lemma_overlap_no_fragmentation(keys: Seq<Seq<char>>, subs: Seq<Subsystem>)
    ensures
        no_fragmentation(overlap_events(keys, subs)),
    decreases keys.len(),
{
    if keys.len() > 0 {
        lemma_overlap_no_fragmentation(keys.drop_last(), subs);
        let k = keys.last();
        let owners = owners_of(subs, k);
        let tail = if owners.len() > 1 {
            seq![
                DriftEventView {
                    drift_type: DriftType::SubsystemOverlap,
                    affected: owners,
                    evidence: seq!["Entity `"@ + k + "` appears in multiple subsystems"@],
                    action: "Extend"@,
                    details: "Consolidate ownership under a single subsystem boundary."@,
                },
            ]
        } else {
            Seq::<DriftEventView>::empty()
        };
        assert(overlap_events(keys, subs) == overlap_events(keys.drop_last(), subs) + tail);
        lemma_no_fragmentation_add(overlap_events(keys.drop_last(), subs), tail);
    }
}

proof fn lemma_violations_in_no_fragmentation(id: Seq<char>, ents: Seq<String>, policies: Seq<OwnershipPolicy>)
    ensures
        no_fragmentation(violations_in(id, ents, policies)),
    decreases ents.len(),
{
    if ents.len() > 0 {
        lemma_violations_in_no_fragmentation(id, ents.drop_last(), policies);
        lemma_no_fragmentation_add(
            violations_in(id, ents.drop_last(), policies),
            violation_event(id, ents.last()@, policies),
        );
    }
}

proof fn lemma_violations_no_fragmentation(subs: Seq<Subsystem>, policies: Seq<OwnershipPolicy>)
    ensures
        no_fragmentation(violations_spec(subs, policies)),
    decreases subs.len(),
{
    if subs.len() > 0 {
        lemma_violations_no_fragmentation(subs.drop_last(), policies);
        lemma_violations_in_no_fragmentation(subs.last().id@, subs.last().entities@, policies);
        lemma_no_fragmentation_add(
            violations_spec(subs.drop_last(), policies),
            violations_in(subs.last().id@, subs.last().entities@, policies),
        );
    }
}

/// Every subsystem that a model-fragmentation event of drift detection
/// lists names a customer and also a client or an account among its
/// entities (ASCII case-insensitively).
pub proof fn law_fragmented_subsystems_name_customer_and_client_or_account(
    previous: Option<SystemGraphVersion>,
    current: SystemGraphVersion,
    policies: Seq<OwnershipPolicy>,
    p: int,
    id: Seq<char>,
)
    requires
        0 <= p < drift_spec(previous, current, policies).len(),
        drift_spec(previous, current, policies)[p].drift_type == DriftType::ModelFragmentation,
        drift_spec(previous, current, policies)[p].affected.contains(id),
    ensures
        exists|i: int, j: int, k: int|
            #![trigger current.subsystems@[i].entities@[j], current.subsystems@[i].entities@[k]]
            0 <= i < current.subsystems@.len() && current.subsystems@[i].id@ == id && 0 <= j
                < current.subsystems@[i].entities@.len() && 0 <= k < current.subsystems@[i].entities@.len()
                && lower_seq(current.subsystems@[i].entities@[j]@) == "customer"@ && (lower_seq(
                current.subsystems@[i].entities@[k]@,
            ) == "client"@ || lower_seq(current.subsystems@[i].entities@[k]@) == "account"@),
{
    let subs = current.subsystems@;
    let a1 = dup_all(subs, subs.len() as int);
    let a2 = overlap_events(sorted_strs(entity_keys(subs)), subs);
    let a3 = violations_spec(subs, policies);
    let f = fragmentation_spec(subs);
    let d = match previous {
        Some(pv) => architecture_spec(pv.subsystems@, subs),
        None => Seq::<DriftEventView>::empty(),
    };
    lemma_dup_all_no_fragmentation(subs, subs.len() as int);
    lemma_overlap_no_fragmentation(sorted_strs(entity_keys(subs)), subs);
    lemma_violations_no_fragmentation(subs, policies);
    lemma_no_fragmentation_add(a1, a2);
    lemma_no_fragmentation_add(a1 + a2, a3);
    let a = a1 + a2 + a3;
    assert(no_fragmentation(d)) by {
        match previous {
            Some(pv) => {
                assert forall|q: int| 0 <= q < d.len() implies (#[trigger] d[q]).drift_type
                    != DriftType::ModelFragmentation by {}
            },
            None => {},
        }
    }
    let all = drift_spec(previous, current, policies);
    assert(all == a + f + d);
    let e = all[p];
    if p < a.len() {
        assert(all[p] == a[p]);
        assert(false);
    } else if p >= a.len() + f.len() {
        assert(all[p] == d[p - a.len() - f.len()]);
        assert(false);
    }
    assert(e == f[p - a.len()]);
    let ids = fragmented_ids(subs);
    let all_ids = subs.map_values(|x: Subsystem| x.id@).to_set();
    assert(ids.subset_of(all_ids)) by {
        assert forall|x: Seq<char>| ids.contains(x) implies all_ids.contains(x) by {
            let q = choose|q: int| 0 <= q < subs.len() && is_fragmented(#[trigger] subs[q]) && subs[q].id@ == x;
            assert(subs.map_values(|y: Subsystem| y.id@)[q] == x);
        }
    }
    vstd::seq_lib::seq_to_set_is_finite(subs.map_values(|x: Subsystem| x.id@));
    vstd::set_lib::lemma_set_subset_finite(all_ids, ids);
    lemma_sorted_strs_of(ids);
    assert(e.affected == sorted_strs(ids));
    assert(sorted_strs(ids).to_set().contains(id));
    assert(ids.contains(id));
    let i = choose|i: int| 0 <= i < subs.len() && is_fragmented(#[trigger] subs[i]) && subs[i].id@ == id;
    let ents = subs[i].entities@;
    let j = choose|j: int| 0 <= j < ents.len() && lower_seq(#[trigger] ents[j]@) == "customer"@;
    if has_lower(ents, "client"@) {
        let k = choose|k: int| 0 <= k < ents.len() && lower_seq(#[trigger] ents[k]@) == "client"@;
        assert(lower_seq(current.subsystems@[i].entities@[k]@) == "client"@);
        assert(lower_seq(current.subsystems@[i].entities@[j]@) == "customer"@);
    } else {
        let k = choose|k: int| 0 <= k < ents.len() && lower_seq(#[trigger] ents[k]@) == "account"@;
        assert(lower_seq(current.subsystems@[i].entities@[k]@) == "account"@);
        assert(lower_seq(current.subsystems@[i].entities@[j]@) == "customer"@);
    }
}

/// Some subsystem of `subs` has this id.
pub open spec fn has_id(subs: Seq<Subsystem>, id: Seq<char>) -> bool {
    exists|i: int| 0 <= i < subs.len() && #[trigger] subs[i].id@ == id
}

/// The ids of the current subsystems that the previous version lacks, in order.
pub open spec fn new_ids(current: Seq<Subsystem>, previous: Seq<Subsystem>) -> Seq<Seq<char>>
    decreases current.len(),
{
    if current.len() == 0 {
        Seq::<Seq<char>>::empty()
    } else {
        new_ids(current.drop_last(), previous) + if has_id(previous, current.last().id@) {
            Seq::<Seq<char>>::empty()
        } else {
            seq![current.last().id@]
        }
    }
}

pub open spec fn architecture_spec(previous: Seq<Subsystem>, current: Seq<Subsystem>) -> Seq<
    DriftEventView,
> {
    let ids = new_ids(current, previous);
    if ids.len() == 0 {
        Seq::<DriftEventView>::empty()
    } else {
        seq![
            DriftEventView {
                drift_type: DriftType::ArchitectureDrift,
                affected: ids,
                evidence: seq!["New subsystem(s) detected: "@ + join_seq(ids, ", "@)],
                action: "Promote subsystem"@,
                details: "Review and formalize boundaries for emerging subsystem(s)."@,
            },
        ]
    }
}

/// Every drift event of `current` (and, given the previous version, the
/// subsystems that emerged since), in detector order.
pub open spec fn drift_spec(
    previous: Option<SystemGraphVersion>,
    current: SystemGraphVersion,
    policies: Seq<OwnershipPolicy>,
) -> Seq<DriftEventView> {
    let subs = current.subsystems@;
    dup_all(subs, subs.len() as int) + overlap_events(sorted_strs(entity_keys(subs)), subs)
        + violations_spec(subs, policies) + fragmentation_spec(subs) + match previous {
        Some(p) => architecture_spec(p.subsystems@, subs),
        None => Seq::<DriftEventView>::empty(),
    }
}

// ---------------------------------------------------------------------------
// Executable detectors
// ---------------------------------------------------------------------------

fn one_string(s: String) -> (r: Vec<String>)
    ensures
        strs(r@) == seq![s@],
{
    let mut r: Vec<String> = Vec::new();
    r.push(s);
    assert(strs(r@) =~= seq![s@]);
    r
}

fn two_strings(a: String, b: String) -> (r: Vec<String>)
    ensures
        strs(r@) == seq![a@, b@],
{
    let mut r: Vec<String> = Vec::new();
    r.push(a);
    r.push(b);
    assert(strs(r@) =~= seq![a@, b@]);
    r
}

fn make_event(
    drift_type: DriftType,
    affected: Vec<String>,
    evidence: Vec<String>,
    action: &str,
    details: String,
) -> (e: DriftEvent)
    ensures
        e@ == (DriftEventView {
            drift_type,
            affected: strs(affected@),
            evidence: strs(evidence@),
            action: action@,
            details: details@,
        }),
{
    DriftEvent {
        drift_type,
        affected_subsystems: affected,
        evidence,
        recommendation: Recommendation { action: owned(action), details },
    }
}

/// The strings present in both lists, as a sorted set.
fn sorted_intersection(a: &Vec<String>, b: &Vec<String>) -> (r: Vec<String>)
    ensures
        strs(r@) == sorted_strs(strs(a@).to_set().intersect(strs(b@).to_set())),
{
    let mut out: Vec<String> = Vec::new();
    let mut i: usize = 0;
    while i < a.len()
        invariant
            i <= a.len(),
            strictly_sorted(strs(out@)),
            strs(out@).to_set() == strs(a@).subrange(0, i as int).to_set().intersect(
                strs(b@).to_set(),
            ),
        decreases a.len() - i,
    {
        let ghost before = strs(out@).to_set();
        let ghost pre = strs(a@).subrange(0, i as int);
        let ghost post = strs(a@).subrange(0, i + 1);
        assert(post =~= pre.push(a@[i as int]@));
        proof {
            pre.lemma_push_to_set_commute(a@[i as int]@);
        }
        if contains_string(b, a[i].as_str()) {
            insert_sorted(&mut out, a[i].clone());
            assert(strs(out@).to_set() =~= post.to_set().intersect(strs(b@).to_set()));
        } else {
            assert(strs(out@).to_set() =~= post.to_set().intersect(strs(b@).to_set()));
        }
        i += 1;
    }
    assert(strs(a@).subrange(0, a@.len() as int) =~= strs(a@));
    proof {
        lemma_sorted_strs(strs(out@), strs(a@).to_set().intersect(strs(b@).to_set()));
    }
    out
}

fn detect_duplicate_capabilities(current: &SystemGraphVersion) -> (r: Vec<DriftEvent>)
    ensures
        events_view(r@) == dup_all(current.subsystems@, current.subsystems@.len() as int),
{
    let subs = &current.subsystems;
    let n = subs.len();
    let mut events: Vec<DriftEvent> = Vec::new();
    let mut i: usize = 0;
    while i < n
        invariant
            n == subs@.len(),
            subs == &current.subsystems,
            i <= n,
            events_view(events@) == dup_all(subs@, i as int),
        decreases n - i,
    {
        let left = &subs[i];
        let ghost row_start = events@;
        let mut j: usize = i + 1;
        while j < n
            invariant
                n == subs@.len(),
                i < n,
                i + 1 <= j <= n,
                left == &subs@[i as int],
                events_view(events@) == dup_all(subs@, i as int) + dup_row(subs@, i as int, j as int),
            decreases n - j,
        {
            let right = &subs[j];
            let ghost before = events@;
            let shared = sorted_intersection(&left.entities, &right.entities);
            if shared.len() >= 2 {
                let e = make_event(
                    DriftType::DuplicateCapability,
                    two_strings(left.id.clone(), right.id.clone()),
                    shared,
                    "Merge",
                    cat3(
                        "Unify overlapping capabilities into `",
                        left.id.as_str(),
                        "` to avoid parallel implementations.",
                    ),
                );
                events.push(e);
                proof {
                    lemma_events_push(before, e);
                }
            }
            assert(dup_row(subs@, i as int, j + 1) == dup_row(subs@, i as int, j as int)
                + dup_event(subs@[i as int], subs@[j as int]));
            j += 1;
        }
        i += 1;
    }
    events
}

/// The lowercase entity names of the graph, as a sorted set.
fn entity_key_list(subs: &Vec<Subsystem>) -> (r: Vec<String>)
    ensures
        strs(r@) == sorted_strs(entity_keys(subs@)),
{
    let mut out: Vec<String> = Vec::new();
    let mut i: usize = 0;
    while i < subs.len()
        invariant
            i <= subs.len(),
            strictly_sorted(strs(out@)),
            strs(out@).to_set() == Set::new(
                |k: Seq<char>|
                    exists|a: int, b: int|
                        0 <= a < i && 0 <= b < subs@[a].entities@.len() && lower_seq(
                            #[trigger] subs@[a].entities@[b]@,
                        ) == k,
            ),
        decreases subs.len() - i,
    {
        let ents = &subs[i].entities;
        let ghost at_i = strs(out@).to_set();
        let mut j: usize = 0;
        while j < ents.len()
            invariant
                j <= ents.len(),
                ents == &subs@[i as int].entities,
                strictly_sorted(strs(out@)),
                strs(out@).to_set() == at_i.union(
                    Set::new(|k: Seq<char>| exists|b: int| 0 <= b < j && lower_seq(#[trigger] ents@[b]@) == k),
                ),
            decreases ents.len() - j,
        {
            let ghost before = strs(out@).to_set();
            let key = lower(ents[j].as_str());
            insert_sorted(&mut out, key);
            assert(strs(out@).to_set() =~= at_i.union(
                Set::new(|k: Seq<char>| exists|b: int| 0 <= b < j + 1 && lower_seq(#[trigger] ents@[b]@) == k),
            )) by {
                assert forall|k: Seq<char>|
                    strs(out@).to_set().contains(k) implies at_i.union(
                        Set::new(|k: Seq<char>| exists|b: int| 0 <= b < j + 1 && lower_seq(#[trigger] ents@[b]@) == k),
                    ).contains(k) by {
                    if k != lower_seq(ents@[j as int]@) && !at_i.contains(k) {
                        let b = choose|b: int| 0 <= b < j && lower_seq(#[trigger] ents@[b]@) == k;
                        assert(0 <= b < j + 1);
                    }
                }
                assert forall|k: Seq<char>|
                    at_i.union(
                        Set::new(|k: Seq<char>| exists|b: int| 0 <= b < j + 1 && lower_seq(#[trigger] ents@[b]@) == k),
                    ).contains(k) implies strs(out@).to_set().contains(k) by {
                    if !at_i.contains(k) {
                        let b = choose|b: int| 0 <= b < j + 1 && lower_seq(#[trigger] ents@[b]@) == k;
                        if b < j {
                            assert(before.contains(k));
                        }
                    }
                }
            }
            j += 1;
        }
        assert(strs(out@).to_set() =~= Set::new(
            |k: Seq<char>|
                exists|a: int, b: int|
                    0 <= a < i + 1 && 0 <= b < subs@[a].entities@.len() && lower_seq(
                        #[trigger] subs@[a].entities@[b]@,
                    ) == k,
        )) by {
            assert forall|k: Seq<char>|
                strs(out@).to_set().contains(k) implies (exists|a: int, b: int|
                    0 <= a < i + 1 && 0 <= b < subs@[a].entities@.len() && lower_seq(
                        #[trigger] subs@[a].entities@[b]@,
                    ) == k) by {
                if !at_i.contains(k) {
                    let b = choose|b: int| 0 <= b < ents@.len() && lower_seq(#[trigger] ents@[b]@) == k;
                    assert(lower_seq(subs@[i as int].entities@[b]@) == k);
                } else {
                    let (a, b) = choose|a: int, b: int|
                        0 <= a < i && 0 <= b < subs@[a].entities@.len() && lower_seq(
                            #[trigger] subs@[a].entities@[b]@,
                        ) == k;
                    assert(0 <= a < i + 1);
                }
            }
            assert forall|k: Seq<char>|
                (exists|a: int, b: int|
                    0 <= a < i + 1 && 0 <= b < subs@[a].entities@.len() && lower_seq(
                        #[trigger] subs@[a].entities@[b]@,
                    ) == k) implies strs(out@).to_set().contains(k) by {
                let (a, b) = choose|a: int, b: int|
                    0 <= a < i + 1 && 0 <= b < subs@[a].entities@.len() && lower_seq(
                        #[trigger] subs@[a].entities@[b]@,
                    ) == k;
                if a == i {
                    assert(lower_seq(ents@[b]@) == k);
                } else {
                    assert(at_i.contains(k));
                }
            }
        }
        i += 1;
    }
    proof {
        assert(strs(out@).to_set() =~= entity_keys(subs@));
        lemma_sorted_strs(strs(out@), entity_keys(subs@));
    }
    out
}

/// The subsystems listing the entity `key` (lowercase), once per listing.
fn owners_list(subs: &Vec<Subsystem>, key: &str) -> (r: Vec<String>)
    ensures
        strs(r@) == owners_of(subs@, key@),
{
    let mut out: Vec<String> = Vec::new();
    let mut i: usize = 0;
    while i < subs.len()
        invariant
            i <= subs.len(),
            strs(out@) == owners_of(subs@.subrange(0, i as int), key@),
        decreases subs.len() - i,
    {
        let s = &subs[i];
        let ghost at_i = strs(out@);
        let mut j: usize = 0;
        while j < s.entities.len()
            invariant
                j <= s.entities.len(),
                s == &subs@[i as int],
                strs(out@) == at_i + owners_in(s.entities@.subrange(0, j as int), s.id@, key@),
            decreases s.entities.len() - j,
        {
            let ghost before = strs(out@);
            proof {
                let t = s.entities@.subrange(0, j + 1);
                assert(t.drop_last() =~= s.entities@.subrange(0, j as int));
                assert(t.last() == s.entities@[j as int]);
            }
            let lk = lower(s.entities[j].as_str());
            if str_eq(lk.as_str(), key) {
                out.push(s.id.clone());
                assert(strs(out@) =~= before.push(s.id@));
            }
            j += 1;
        }
        proof {
            assert(s.entities@.subrange(0, s.entities@.len() as int) =~= s.entities@);
            let t = subs@.subrange(0, i + 1);
            assert(t.drop_last() =~= subs@.subrange(0, i as int));
            assert(t.last() == subs@[i as int]);
        }
        i += 1;
    }
    assert(subs@.subrange(0, subs@.len() as int) =~= subs@);
    out
}

fn detect_subsystem_overlap(current: &SystemGraphVersion) -> (r: Vec<DriftEvent>)
    ensures
        events_view(r@) == overlap_events(
            sorted_strs(entity_keys(current.subsystems@)),
            current.subsystems@,
        ),
{
    let keys = entity_key_list(&current.subsystems);
    let mut events: Vec<DriftEvent> = Vec::new();
    let mut i: usize = 0;
    while i < keys.len()
        invariant
            i <= keys.len(),
            events_view(events@) == overlap_events(
                strs(keys@).subrange(0, i as int),
                current.subsystems@,
            ),
        decreases keys.len() - i,
    {
        let ghost before = events@;
        proof {
            let t = strs(keys@).subrange(0, i + 1);
            assert(t.drop_last() =~= strs(keys@).subrange(0, i as int));
            assert(t.last() == keys@[i as int]@);
        }
        let owners = owners_list(&current.subsystems, keys[i].as_str());
        if owners.len() > 1 {
            let e = make_event(
                DriftType::SubsystemOverlap,
                owners,
                one_string(cat3("Entity `", keys[i].as_str(), "` appears in multiple subsystems")),
                "Extend",
                owned("Consolidate ownership under a single subsystem boundary."),
            );
            events.push(e);
            proof {
                lemma_events_push(before, e);
            }
        }
        i += 1;
    }
    assert(strs(keys@).subrange(0, keys@.len() as int) =~= strs(keys@));
    events
}

fn owns_lower_key(owns: &Vec<String>, key: &str) -> (r: bool)
    ensures
        r == owns_key(owns@, key@),
{
    let mut j: usize = 0;
    while j < owns.len()
        invariant
            j <= owns.len(),
            forall|b: int| 0 <= b < j ==> lower_seq(#[trigger] owns@[b]@) != key@,
        decreases owns.len() - j,
    {
        let lk = lower(owns[j].as_str());
        if str_eq(lk.as_str(), key) {
            return true;
        }
        j += 1;
    }
    false
}

fn find_policy_owner(policies: &Vec<OwnershipPolicy>, key: &str) -> (r: Option<String>)
    ensures
        opt_seq(r) == policy_owner(policies@, key@),
{
    let mut i = policies.len();
    assert(policies@.subrange(0, policies@.len() as int) =~= policies@);
    while i > 0
        invariant
            i <= policies.len(),
            policy_owner(policies@, key@) == policy_owner(policies@.subrange(0, i as int), key@),
        decreases i,
    {
        let ghost t = policies@.subrange(0, i as int);
        assert(t.drop_last() =~= policies@.subrange(0, i - 1));
        if owns_lower_key(&policies[i - 1].owns, key) {
            return Some(policies[i - 1].subsystem.clone());
        }
        i -= 1;
    }
    None
}

pub open spec fn opt_seq(o: Option<String>) -> Option<Seq<char>> {
    match o {
        Some(s) => Some(s@),
        None => None,
    }
}

fn detect_ownership_violations(current: &SystemGraphVersion, policies: &Vec<OwnershipPolicy>) -> (r:
    Vec<DriftEvent>)
    ensures
        events_view(r@) == violations_spec(current.subsystems@, policies@),
{
    let subs = &current.subsystems;
    let mut events: Vec<DriftEvent> = Vec::new();
    let mut i: usize = 0;
    while i < subs.len()
        invariant
            i <= subs.len(),
            subs == &current.subsystems,
            events_view(events@) == violations_spec(subs@.subrange(0, i as int), policies@),
        decreases subs.len() - i,
    {
        let s = &subs[i];
        let ghost at_i = events_view(events@);
        let mut j: usize = 0;
        while j < s.entities.len()
            invariant
                j <= s.entities.len(),
                s == &subs@[i as int],
                events_view(events@) == at_i + violations_in(
                    s.id@,
                    s.entities@.subrange(0, j as int),
                    policies@,
                ),
            decreases s.entities.len() - j,
        {
            let ghost before = events@;
            proof {
                let t = s.entities@.subrange(0, j + 1);
                assert(t.drop_last() =~= s.entities@.subrange(0, j as int));
                assert(t.last() == s.entities@[j as int]);
            }
            let entity = &s.entities[j];
            let key = lower(entity.as_str());
            match find_policy_owner(policies, key.as_str()) {
                Some(owner) => {
                    if !(owner == s.id) {
                        let evidence = cat3(
                            cat3("`", owner.as_str(), "` owns `").as_str(),
                            entity.as_str(),
                            cat3("`, but it appears under `", s.id.as_str(), "`").as_str(),
                        );
                        let details = cat3(
                            cat3("Move `", entity.as_str(), "` responsibilities to `").as_str(),
                            owner.as_str(),
                            "`.",
                        );
                        assert(evidence@ =~= "`"@ + owner@ + "` owns `"@ + entity@
                            + "`, but it appears under `"@ + s.id@ + "`"@);
                        assert(details@ =~= "Move `"@ + entity@ + "` responsibilities to `"@
                            + owner@ + "`."@);
                        let e = make_event(
                            DriftType::OwnershipViolation,
                            two_strings(s.id.clone(), owner),
                            one_string(evidence),
                            "Reassign ownership",
                            details,
                        );
                        events.push(e);
                        proof {
                            lemma_events_push(before, e);
                        }
                    }
                },
                None => {},
            }
            j += 1;
        }
        proof {
            assert(s.entities@.subrange(0, s.entities@.len() as int) =~= s.entities@);
            let t = subs@.subrange(0, i + 1);
            assert(t.drop_last() =~= subs@.subrange(0, i as int));
            assert(t.last() == subs@[i as int]);
        }
        i += 1;
    }
    assert(subs@.subrange(0, subs@.len() as int) =~= subs@);
    events
}

fn has_lower_name(ents: &Vec<String>, word: &str) -> (r: bool)
    ensures
        r == has_lower(ents@, word@),
{
    let mut j: usize = 0;
    while j < ents.len()
        invariant
            j <= ents.len(),
            forall|b: int| 0 <= b < j ==> lower_seq(#[trigger] ents@[b]@) != word@,
        decreases ents.len() - j,
    {
        let lk = lower(ents[j].as_str());
        if str_eq(lk.as_str(), word) {
            return true;
        }
        j += 1;
    }
    false
}

fn detect_model_fragmentation(current: &SystemGraphVersion) -> (r: Vec<DriftEvent>)
    ensures
        events_view(r@) == fragmentation_spec(current.subsystems@),
{
    let subs = &current.subsystems;
    let mut synonyms: Vec<String> = Vec::new();
    let mut i: usize = 0;
    while i < subs.len()
        invariant
            i <= subs.len(),
            subs == &current.subsystems,
            strictly_sorted(strs(synonyms@)),
            strs(synonyms@).to_set() == fragmented_ids(subs@.subrange(0, i as int)),
        decreases subs.len() - i,
    {
        let s = &subs[i];
        let ghost before = strs(synonyms@).to_set();
        let ghost pre = subs@.subrange(0, i as int);
        let ghost post = subs@.subrange(0, i + 1);
        let customer = has_lower_name(&s.entities, "customer");
        let account = has_lower_name(&s.entities, "account");
        let client = has_lower_name(&s.entities, "client");
        if customer && account {
            insert_sorted(&mut synonyms, s.id.clone());
        }
        if customer && client {
            insert_sorted(&mut synonyms, s.id.clone());
        }
        assert(strs(synonyms@).to_set() =~= fragmented_ids(post)) by {
            assert forall|id: Seq<char>|
                fragmented_ids(post).contains(id) implies strs(synonyms@).to_set().contains(id) by {
                let k = choose|k: int| 0 <= k < post.len() && is_fragmented(#[trigger] post[k]) && post[k].id@ == id;
                if k < i {
                    assert(pre[k] == post[k]);
                    assert(fragmented_ids(pre).contains(id));
                }
            }
            assert forall|id: Seq<char>|
                strs(synonyms@).to_set().contains(id) implies fragmented_ids(post).contains(id) by {
                if before.contains(id) {
                    let k = choose|k: int| 0 <= k < pre.len() && is_fragmented(#[trigger] pre[k]) && pre[k].id@ == id;
                    assert(post[k] == pre[k]);
                } else {
                    assert(post[i as int] == subs@[i as int]);
                }
            }
        }
        i += 1;
    }
    assert(subs@.subrange(0, subs@.len() as int) =~= subs@);
    proof {
        lemma_sorted_strs(strs(synonyms@), fragmented_ids(subs@));
    }
    if synonyms.len() == 0 {
        return Vec::new();
    }
    let e = make_event(
        DriftType::ModelFragmentation,
        synonyms,
        one_string(owned("Competing identity model names detected (Customer/Account/Client).")),
        "Rename",
        owned("Converge on one canonical entity name to avoid divergence."),
    );
    let mut out: Vec<DriftEvent> = Vec::new();
    out.push(e);
    assert(events_view(out@) =~= seq![e@]);
    out
}

pub(crate) fn has_subsystem_id(subs: &Vec<Subsystem>, id: &str) -> (r: bool)
    ensures
        r == has_id(subs@, id@),
{
    let mut i: usize = 0;
    while i < subs.len()
        invariant
            i <= subs.len(),
            forall|j: int| 0 <= j < i ==> #[trigger] subs@[j].id@ != id@,
        decreases subs.len() - i,
    {
        if str_eq(subs[i].id.as_str(), id) {
            return true;
        }
        i += 1;
    }
    false
}

fn detect_architecture_drift(previous: &SystemGraphVersion, current: &SystemGraphVersion) -> (r:
    Vec<DriftEvent>)
    ensures
        events_view(r@) == architecture_spec(previous.subsystems@, current.subsystems@),
{
    let subs = &current.subsystems;
    let mut ids: Vec<String> = Vec::new();
    let mut i: usize = 0;
    while i < subs.len()
        invariant
            i <= subs.len(),
            subs == &current.subsystems,
            strs(ids@) == new_ids(subs@.subrange(0, i as int), previous.subsystems@),
        decreases subs.len() - i,
    {
        proof {
            let t = subs@.subrange(0, i + 1);
            assert(t.drop_last() =~= subs@.subrange(0, i as int));
            assert(t.last() == subs@[i as int]);
        }
        let ghost before = strs(ids@);
        if !has_subsystem_id(&previous.subsystems, subs[i].id.as_str()) {
            ids.push(subs[i].id.clone());
            assert(strs(ids@) =~= before.push(subs@[i as int].id@));
        }
        i += 1;
    }
    assert(subs@.subrange(0, subs@.len() as int) =~= subs@);
    if ids.len() == 0 {
        return Vec::new();
    }
    let listed = join(&ids, ", ");
    let e = make_event(
        DriftType::ArchitectureDrift,
        ids,
        one_string(cat("New subsystem(s) detected: ", listed.as_str())),
        "Promote subsystem",
        owned("Review and formalize boundaries for emerging subsystem(s)."),
    );
    let mut out: Vec<DriftEvent> = Vec::new();
    out.push(e);
    assert(events_view(out@) =~= seq![e@]);
    out
}

/// All drift events: duplicated capabilities, subsystem overlap, ownership
/// violations against the policies, model fragmentation, and (given the
/// previous version) newly emerged subsystems.
pub fn detect_drift(
    previous: Option<&SystemGraphVersion>,
    current: &SystemGraphVersion,
    ownership_policies: &Vec<OwnershipPolicy>,
) -> (r: Vec<DriftEvent>)
    ensures
        events_view(r@) == drift_spec(
            match previous {
                Some(p) => Some(*p),
                None => None,
            },
            *current,
            ownership_policies@,
        ),
{
    let mut events = detect_duplicate_capabilities(current);
    let ghost v1 = events@;
    let mut b = detect_subsystem_overlap(current);
    let ghost v2 = b@;
    events.append(&mut b);
    let ghost w2 = events@;
    let mut c = detect_ownership_violations(current, ownership_policies);
    let ghost v3 = c@;
    events.append(&mut c);
    let ghost w3 = events@;
    let mut d = detect_model_fragmentation(current);
    let ghost v4 = d@;
    events.append(&mut d);
    let ghost w4 = events@;
    proof {
        lemma_events_add(v1, v2);
        lemma_events_add(w2, v3);
        lemma_events_add(w3, v4);
    }
    match previous {
        Some(before) => {
            let mut e = detect_architecture_drift(before, current);
            let ghost v5 = e@;
            events.append(&mut e);
            proof {
                lemma_events_add(w4, v5);
            }
        },
        None => {
            assert(events_view(events@) =~= events_view(w4) + Seq::<DriftEventView>::empty());
        },
    }
    events
}

} // verus!

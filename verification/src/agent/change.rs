//! Architecture change events: everything that changed between two versions
//! of the system graph, with drift, contract drift, impact and alerts.
use vstd::prelude::*;

use crate::agent::files::{all_events, classify_file_changes, event_key_of, FileChangeEvent};
use crate::agent::infer::{infer_subsystem_contracts, inferred_all};
use crate::agent::report::{alerts_spec, alerts_view, build_alerts, build_diagrams, build_impact, contract_lines, impact_spec, impact_view, ownership_lines, reports_view, ArchitectureDiagrams, ArchitectureImpact, DeveloperAlert};
use crate::contracts::definition::{OwnershipContract, SubsystemContract};
use crate::contracts::observer::{detect_drift_parts, drift_parts, drifts_view, writes_view, ContractDriftReport, ContractDriftView, OwnershipWriteObservation};
use crate::drift::{detect_drift, drift_spec, events_view, has_subsystem_id, new_ids, DriftEvent, OwnershipPolicy};
use crate::strset::{insert_all, lemma_sorted_strs, sorted_strs};
use crate::system_graph::{Subsystem, SystemGraphVersion};
use crate::text::{cat, cat3, owned, str_eq, strs};

verus! {

#[derive(Debug, Clone, PartialEq)]
pub struct ArchitectureChangeEvent {
    pub event: String,
    pub changes: Vec<String>,
    pub file_events: Vec<FileChangeEvent>,
    pub subsystem_contracts: Vec<SubsystemContract>,
    pub contract_drifts: Vec<ContractDriftReport>,
    pub impact: Option<ArchitectureImpact>,
    pub alerts: Vec<DeveloperAlert>,
    pub diagrams: ArchitectureDiagrams,
    pub drift_events: Vec<DriftEvent>,
}

// ---------------------------------------------------------------------------
// Contract drift between two inferred versions
// ---------------------------------------------------------------------------

/// Index of the last contract of subsystem `name`, or -1.
pub open spec fn last_contract_ix(v: Seq<SubsystemContract>, name: Seq<char>) -> int
    decreases v.len(),
{
    if v.len() == 0 {
        -1
    } else if v.last().subsystem@ == name {
        v.len() - 1
    } else {
        last_contract_ix(v.drop_last(), name)
    }
}

/// The writes a contract's own subsystem makes: one per owned field.
pub open spec fn owner_writes(c: SubsystemContract) -> Seq<(Seq<char>, Seq<char>)> {
    c.ownership_contracts@.map_values(|o: OwnershipContract| (c.subsystem@, o.entity_field@))
}

/// The drift of a declared contract against the contract observed now.
pub open spec fn drift_against(d: SubsystemContract, c: SubsystemContract) -> Seq<ContractDriftView> {
    drift_parts(
        d,
        c.data_contracts@,
        c.provides.apis@,
        c.provides.events@,
        c.process_contracts@,
        owner_writes(c),
        Seq::<Seq<char>>::empty(),
    )
}

/// For each previous contract whose subsystem still has a contract, in
/// order, its drift against the last such contract, when there is any.
pub open spec fn contract_drifts_spec(
    previous: Seq<SubsystemContract>,
    current: Seq<SubsystemContract>,
) -> Seq<(Seq<char>, Seq<ContractDriftView>)>
    decreases previous.len(),
{
    if previous.len() == 0 {
        Seq::empty()
    } else {
        let rest = contract_drifts_spec(previous.drop_last(), current);
        let d = previous.last();
        let k = last_contract_ix(current, d.subsystem@);
        if k >= 0 && drift_against(d, current[k]).len() > 0 {
            rest.push((d.subsystem@, drift_against(d, current[k])))
        } else {
            rest
        }
    }
}

proof fn lemma_last_contract_ix_range(v: Seq<SubsystemContract>, name: Seq<char>)
    ensures
        -1 <= last_contract_ix(v, name) < v.len(),
        last_contract_ix(v, name) >= 0 ==> v[last_contract_ix(v, name)].subsystem@ == name,
    decreases v.len(),
{
    if v.len() > 0 {
        lemma_last_contract_ix_range(v.drop_last(), name);
    }
}

fn find_contract(v: &Vec<SubsystemContract>, name: &str) -> (r: Option<usize>)
    ensures
        match r {
            Some(k) => k == last_contract_ix(v@, name@),
            None => last_contract_ix(v@, name@) == -1,
        },
{
    let mut k = v.len();
    assert(v@.subrange(0, k as int) =~= v@);
    while k > 0
        invariant
            k <= v.len(),
            last_contract_ix(v@, name@) == last_contract_ix(v@.subrange(0, k as int), name@),
        decreases k,
    {
        let ghost t = v@.subrange(0, k as int);
        assert(t.drop_last() =~= v@.subrange(0, k - 1));
        assert(t.last() == v@[k - 1]);
        if str_eq(v[k - 1].subsystem.as_str(), name) {
            return Some(k - 1);
        }
        k -= 1;
    }
    None
}

/// The writes of a contract's own subsystem.
fn own_writes(c: &SubsystemContract) -> (r: Vec<OwnershipWriteObservation>)
    ensures
        writes_view(r@) == owner_writes(*c),
{
    let mut r: Vec<OwnershipWriteObservation> = Vec::new();
    let mut i: usize = 0;
    while i < c.ownership_contracts.len()
        invariant
            i <= c.ownership_contracts.len(),
            writes_view(r@) == owner_writes(*c).subrange(0, i as int),
        decreases c.ownership_contracts.len() - i,
    {
        let w = OwnershipWriteObservation {
            actor_subsystem: c.subsystem.clone(),
            entity_field: c.ownership_contracts[i].entity_field.clone(),
        };
        let ghost before = r@;
        r.push(w);
        assert(writes_view(r@) =~= writes_view(before).push(
            (w.actor_subsystem@, w.entity_field@),
        ));
        assert(writes_view(r@) =~= owner_writes(*c).subrange(0, i + 1));
        i += 1;
    }
    assert(owner_writes(*c).subrange(0, c.ownership_contracts@.len() as int) =~= owner_writes(
        *c,
    ));
    r
}

/// Compares each previous contract with the current contract of the same
/// subsystem (see `contract_drifts_spec`).
pub fn detect_contract_drifts(
    previous: &Vec<SubsystemContract>,
    current: &Vec<SubsystemContract>,
) -> (r: Vec<ContractDriftReport>)
    ensures
        reports_view(r@) == contract_drifts_spec(previous@, current@),
{
    let mut out: Vec<ContractDriftReport> = Vec::new();
    let mut i: usize = 0;
    while i < previous.len()
        invariant
            i <= previous.len(),
            reports_view(out@) == contract_drifts_spec(previous@.subrange(0, i as int), current@),
        decreases previous.len() - i,
    {
        let declared = &previous[i];
        let ghost t = previous@.subrange(0, i + 1);
        assert(t.drop_last() =~= previous@.subrange(0, i as int));
        assert(t.last() == *declared);
        match find_contract(current, declared.subsystem.as_str()) {
            None => {},
            Some(k) => {
                proof {
                    lemma_last_contract_ix_range(current@, declared.subsystem@);
                }
                let observed = &current[k];
                let writes = own_writes(observed);
                let none: Vec<String> = Vec::new();
                assert(strs(none@) =~= Seq::<Seq<char>>::empty());
                let report = detect_drift_parts(
                    declared,
                    &observed.data_contracts,
                    &observed.provides.apis,
                    &observed.provides.events,
                    &observed.process_contracts,
                    &writes,
                    &none,
                );
                assert(drifts_view(report.drifts@) == drift_against(*declared, *observed));
                if report.drifts.len() > 0 {
                    let ghost before = out@;
                    out.push(report);
                    assert(reports_view(out@) =~= reports_view(before).push(
                        (report.subsystem@, drifts_view(report.drifts@)),
                    ));
                }
            },
        }
        i += 1;
    }
    assert(previous@.subrange(0, previous@.len() as int) =~= previous@);
    out
}

// ---------------------------------------------------------------------------
// Structural changes
// ---------------------------------------------------------------------------

/// Index of the last subsystem with this id, or -1.
pub open spec fn last_sub_ix(subs: Seq<Subsystem>, id: Seq<char>) -> int
    decreases subs.len(),
{
    if subs.len() == 0 {
        -1
    } else if subs.last().id@ == id {
        subs.len() - 1
    } else {
        last_sub_ix(subs.drop_last(), id)
    }
}

/// The entities the previous version gave subsystem `id` (its last listing).
pub open spec fn known_entities(previous: Seq<Subsystem>, id: Seq<char>) -> Set<Seq<char>> {
    let k = last_sub_ix(previous, id);
    if k >= 0 {
        strs(previous[k].entities@).to_set()
    } else {
        Set::empty()
    }
}

pub open spec fn new_entity_lines(id: Seq<char>, ents: Seq<Seq<char>>, known: Set<Seq<char>>) -> Seq<
    Seq<char>,
>
    decreases ents.len(),
{
    if ents.len() == 0 {
        Seq::empty()
    } else {
        new_entity_lines(id, ents.drop_last(), known) + if known.contains(ents.last()) {
            Seq::<Seq<char>>::empty()
        } else {
            seq![id + " new owned entity: "@ + ents.last()]
        }
    }
}

/// For each current subsystem in order, a line per entity it owns that the
/// previous version did not give it.
pub open spec fn shape_changes(previous: Seq<Subsystem>, current: Seq<Subsystem>) -> Seq<Seq<char>>
    decreases current.len(),
{
    if current.len() == 0 {
        Seq::empty()
    } else {
        let s = current.last();
        shape_changes(previous, current.drop_last()) + new_entity_lines(
            s.id@,
            strs(s.entities@),
            known_entities(previous, s.id@),
        )
    }
}

/// The changes between two versions, before sorting: new subsystems, then
/// newly owned entities.
pub open spec fn raw_changes(previous: Option<SystemGraphVersion>, current: SystemGraphVersion) -> Seq<
    Seq<char>,
> {
    match previous {
        Some(p) => new_ids(current.subsystems@, p.subsystems@).map_values(
            |id: Seq<char>| "new subsystem "@ + id,
        ) + shape_changes(p.subsystems@, current.subsystems@),
        None => Seq::empty(),
    }
}

fn find_subsystem(subs: &Vec<Subsystem>, id: &str) -> (r: Option<usize>)
    ensures
        match r {
            Some(k) => k == last_sub_ix(subs@, id@) && k < subs@.len(),
            None => last_sub_ix(subs@, id@) == -1,
        },
{
    let mut k = subs.len();
    assert(subs@.subrange(0, k as int) =~= subs@);
    while k > 0
        invariant
            k <= subs.len(),
            last_sub_ix(subs@, id@) == last_sub_ix(subs@.subrange(0, k as int), id@),
        decreases k,
    {
        let ghost t = subs@.subrange(0, k as int);
        assert(t.drop_last() =~= subs@.subrange(0, k - 1));
        assert(t.last() == subs@[k - 1]);
        if str_eq(subs[k - 1].id.as_str(), id) {
            return Some(k - 1);
        }
        k -= 1;
    }
    None
}

/// Lines for the entities of `s` that were not known before.
fn push_new_entities(out: &mut Vec<String>, s: &Subsystem, previous: &Vec<Subsystem>)
    ensures
        strs(final(out)@) == strs(old(out)@) + new_entity_lines(
            s.id@,
            strs(s.entities@),
            known_entities(previous@, s.id@),
        ),
{
    let ghost start = strs(out@);
    let ghost known = known_entities(previous@, s.id@);
    let found = find_subsystem(previous, s.id.as_str());
    let ents = &s.entities;
    let mut j: usize = 0;
    while j < ents.len()
        invariant
            j <= ents.len(),
            ents == &s.entities,
            known == known_entities(previous@, s.id@),
            match found {
                Some(k) => k == last_sub_ix(previous@, s.id@) && k < previous@.len(),
                None => last_sub_ix(previous@, s.id@) == -1,
            },
            strs(out@) == start + new_entity_lines(
                s.id@,
                strs(ents@).subrange(0, j as int),
                known,
            ),
        decreases ents.len() - j,
    {
        let ghost t = strs(ents@).subrange(0, j + 1);
        assert(t.drop_last() =~= strs(ents@).subrange(0, j as int));
        assert(t.last() == ents@[j as int]@);
        let is_known = match found {
            Some(k) => crate::strset::contains_string(&previous[k].entities, ents[j].as_str()),
            None => false,
        };
        assert(is_known == known.contains(ents@[j as int]@));
        if !is_known {
            let line = cat3(s.id.as_str(), " new owned entity: ", ents[j].as_str());
            let ghost before = strs(out@);
            out.push(line);
            assert(strs(out@) =~= before.push(line@));
        }
        assert(strs(out@) =~= start + new_entity_lines(s.id@, t, known));
        j += 1;
    }
    assert(strs(ents@).subrange(0, ents@.len() as int) =~= strs(ents@));
}

/// The changes between two versions, before sorting (see `raw_changes`).
fn collect_changes(previous: Option<&SystemGraphVersion>, current: &SystemGraphVersion) -> (r: Vec<
    String,
>)
    ensures
        strs(r@) == raw_changes(
            match previous {
                Some(p) => Some(*p),
                None => None,
            },
            *current,
        ),
{
    let mut out: Vec<String> = Vec::new();
    match previous {
        None => {
            assert(strs(out@) =~= Seq::<Seq<char>>::empty());
            out
        },
        Some(before) => {
            let subs = &current.subsystems;
            let ghost f = |id: Seq<char>| "new subsystem "@ + id;
            let mut i: usize = 0;
            while i < subs.len()
                invariant
                    i <= subs.len(),
                    subs == &current.subsystems,
                    f == (|id: Seq<char>| "new subsystem "@ + id),
                    strs(out@) == new_ids(subs@.subrange(0, i as int), before.subsystems@).map_values(f),
                decreases subs.len() - i,
            {
                let ghost t = subs@.subrange(0, i + 1);
                assert(t.drop_last() =~= subs@.subrange(0, i as int));
                assert(t.last() == subs@[i as int]);
                let ghost before_out = strs(out@);
                if !has_subsystem_id(&before.subsystems, subs[i].id.as_str()) {
                    let line = cat("new subsystem ", subs[i].id.as_str());
                    out.push(line);
                    assert(strs(out@) =~= before_out.push(line@));
                }
                assert(strs(out@) =~= new_ids(t, before.subsystems@).map_values(f));
                i += 1;
            }
            assert(subs@.subrange(0, subs@.len() as int) =~= subs@);
            let ghost head = strs(out@);
            let mut j: usize = 0;
            while j < subs.len()
                invariant
                    j <= subs.len(),
                    subs == &current.subsystems,
                    strs(out@) == head + shape_changes(
                        before.subsystems@,
                        subs@.subrange(0, j as int),
                    ),
                decreases subs.len() - j,
            {
                let ghost t = subs@.subrange(0, j + 1);
                assert(t.drop_last() =~= subs@.subrange(0, j as int));
                assert(t.last() == subs@[j as int]);
                let ghost at_j = strs(out@);
                push_new_entities(&mut out, &subs[j], &before.subsystems);
                assert(strs(out@) =~= head + shape_changes(before.subsystems@, t));
                j += 1;
            }
            assert(subs@.subrange(0, subs@.len() as int) =~= subs@);
            out
        },
    }
}

// ---------------------------------------------------------------------------
// The change event
// ---------------------------------------------------------------------------

pub open spec fn opt_graph(p: Option<&SystemGraphVersion>) -> Option<SystemGraphVersion> {
    match p {
        Some(g) => Some(*g),
        None => None,
    }
}

/// The contracts inferred for the previous version (none without one).
pub open spec fn previous_inferred(pc: Seq<SubsystemContract>, previous: Option<SystemGraphVersion>) -> bool {
    match previous {
        Some(p) => inferred_all(pc, p),
        None => pc.len() == 0,
    }
}

/// What an architecture change event reports, given the contracts inferred
/// for the previous (`pc`) and current (`cc`) versions: nothing when no
/// structural change, drift event, contract drift or file event occurred;
/// else the sorted distinct changes, the classified file events, the current
/// contracts, contract drift, impact, alerts, diagrams and drift events.
pub open spec fn change_event_spec(
    r: Option<ArchitectureChangeEvent>,
    previous: Option<SystemGraphVersion>,
    current: SystemGraphVersion,
    ownership: Seq<OwnershipPolicy>,
    files: Seq<Seq<char>>,
    pc: Seq<SubsystemContract>,
    cc: Seq<SubsystemContract>,
) -> bool {
    let changes = raw_changes(previous, current);
    let drifts = drift_spec(previous, current, ownership);
    let reports = contract_drifts_spec(pc, cc);
    let events = sorted_strs(all_events(files));
    let impact = impact_spec(drifts, reports);
    if changes.len() == 0 && drifts.len() == 0 && reports.len() == 0 && events.len() == 0 {
        r is None
    } else {
        &&& r is Some
        &&& r->0.event@ == "architecture_change"@
        &&& strs(r->0.changes@) == sorted_strs(changes.to_set())
        &&& r->0.file_events@.map_values(|e: FileChangeEvent| event_key_of(e)) == events
        &&& r->0.subsystem_contracts@ == cc
        &&& reports_view(r->0.contract_drifts@) == reports
        &&& impact_view(r->0.impact) == impact
        &&& alerts_view(r->0.alerts@) == alerts_spec(
            changes.len(),
            events.len(),
            drifts,
            reports,
            impact,
        )
        &&& strs(r->0.diagrams.subsystem_map@) == strs(current.relationships@)
        &&& strs(r->0.diagrams.contract_map@) == sorted_strs(contract_lines(cc))
        &&& strs(r->0.diagrams.data_ownership_map@) == sorted_strs(ownership_lines(cc))
        &&& events_view(r->0.drift_events@) == drifts
    }
}

/// Detects what changed between two versions of the system graph, given
/// changed-file lines (see `change_event_spec`; the contracts of both
/// versions are those `infer_subsystem_contracts` gives).
pub fn detect_architecture_change_with_files(
    previous: Option<&SystemGraphVersion>,
    current: &SystemGraphVersion,
    ownership: &Vec<OwnershipPolicy>,
    changed_files: &Vec<String>,
) -> (r: Option<ArchitectureChangeEvent>)
    ensures
        exists|pc: Seq<SubsystemContract>, cc: Seq<SubsystemContract>|
            #[trigger] previous_inferred(pc, opt_graph(previous)) && #[trigger] inferred_all(
                cc,
                *current,
            ) && change_event_spec(
                r,
                opt_graph(previous),
                *current,
                ownership@,
                strs(changed_files@),
                pc,
                cc,
            ),
{
    let ghost prev = opt_graph(previous);
    let drift_events = detect_drift(previous, current, ownership);
    let subsystem_contracts = infer_subsystem_contracts(current);
    let previous_contracts = match previous {
        Some(p) => infer_subsystem_contracts(p),
        None => Vec::new(),
    };
    let contract_drifts = detect_contract_drifts(&previous_contracts, &subsystem_contracts);
    let changes = collect_changes(previous, current);
    let file_events = classify_file_changes(changed_files);
    let diagrams = build_diagrams(current, &subsystem_contracts);
    let impact = build_impact(&drift_events, &contract_drifts);
    let alerts = build_alerts(
        &changes,
        &file_events,
        &drift_events,
        &contract_drifts,
        match &impact {
            Some(i) => Some(i),
            None => None,
        },
    );
    let ghost pc = previous_contracts@;
    let ghost cc = subsystem_contracts@;
    proof {
        assert(file_events@.len() == file_events@.map_values(
            |e: FileChangeEvent| event_key_of(e),
        ).len());
    }
    let r = if changes.len() == 0 && drift_events.len() == 0 && contract_drifts.len() == 0
        && file_events.len() == 0 {
        None
    } else {
        let mut sorted: Vec<String> = Vec::new();
        insert_all(&mut sorted, &changes);
        proof {
            assert(strs(Seq::<String>::empty()).to_set() =~= Set::<Seq<char>>::empty());
            assert(Set::<Seq<char>>::empty().union(strs(changes@).to_set()) =~= strs(
                changes@,
            ).to_set());
            vstd::seq_lib::seq_to_set_is_finite(strs(changes@));
            lemma_sorted_strs(strs(sorted@), strs(changes@).to_set());
        }
        Some(
            ArchitectureChangeEvent {
                event: owned("architecture_change"),
                changes: sorted,
                file_events,
                subsystem_contracts,
                contract_drifts,
                impact,
                alerts,
                diagrams,
                drift_events,
            },
        )
    };
    assert(previous_inferred(pc, prev) && inferred_all(cc, *current) && change_event_spec(
        r,
        prev,
        *current,
        ownership@,
        strs(changed_files@),
        pc,
        cc,
    ));
    r
}

/// Detects what changed between two versions of the system graph, with no
/// changed files.
pub fn detect_architecture_change(
    previous: Option<&SystemGraphVersion>,
    current: &SystemGraphVersion,
    ownership: &Vec<OwnershipPolicy>,
) -> (r: Option<ArchitectureChangeEvent>)
    ensures
        exists|pc: Seq<SubsystemContract>, cc: Seq<SubsystemContract>|
            #[trigger] previous_inferred(pc, opt_graph(previous)) && #[trigger] inferred_all(
                cc,
                *current,
            ) && change_event_spec(
                r,
                opt_graph(previous),
                *current,
                ownership@,
                Seq::<Seq<char>>::empty(),
                pc,
                cc,
            ),
{
    let none: Vec<String> = Vec::new();
    assert(strs(none@) =~= Seq::<Seq<char>>::empty());
    detect_architecture_change_with_files(previous, current, ownership, &none)
}

} // verus!

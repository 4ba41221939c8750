//! What an architecture change is reported with: diagrams of the current
//! contracts, the impact of the drift found, and alerts for developers.
use vstd::prelude::*;

use crate::agent::files::FileChangeEvent;
use crate::contracts::definition::{ApiContract, EventContract, SubsystemContract};
use crate::contracts::observer::{
    drifts_view, ContractDrift, ContractDriftKind, ContractDriftReport, ContractDriftView,
};
use crate::drift::{events_view, DriftEvent, DriftEventView, DriftType};
use crate::strset::{insert_all, insert_sorted, lemma_sorted_strs, sorted_strs};
use crate::system_graph::SystemGraphVersion;
use crate::text::{cat, cat3, dec_seq, dec_string, join, join_seq, owned, strictly_sorted, strs};

verus! {

#[derive(Debug, Clone, Copy, PartialEq, Eq, Structural)]
pub enum RiskLevel {
    Low,
    Medium,
    High,
}

#[derive(Debug, Clone, Copy, PartialEq, Eq, Structural)]
pub enum AlertSeverity {
    Info,
    Warning,
    Critical,
}

#[derive(Debug, Clone, PartialEq, Eq)]
pub struct DeveloperAlert {
    pub severity: AlertSeverity,
    pub title: String,
    pub message: String,
    pub affected_components: Vec<String>,
    pub suggested_fixes: Vec<String>,
}

#[derive(Debug, Clone, PartialEq, Eq)]
pub struct ArchitectureDiagrams {
    pub subsystem_map: Vec<String>,
    pub contract_map: Vec<String>,
    pub data_ownership_map: Vec<String>,
}

#[derive(Debug, Clone, PartialEq, Eq)]
pub struct ArchitectureImpact {
    pub risk_level: RiskLevel,
    pub summary: String,
    pub affected_components: Vec<String>,
    pub breaking_contracts: Vec<String>,
    pub suggested_migration: Vec<String>,
}

impl Default for ArchitectureDiagrams {
    fn default() -> (r: Self)
        ensures
            r.subsystem_map@.len() == 0,
            r.contract_map@.len() == 0,
            r.data_ownership_map@.len() == 0,
    {
        ArchitectureDiagrams {
            subsystem_map: Vec::new(),
            contract_map: Vec::new(),
            data_ownership_map: Vec::new(),
        }
    }
}

pub struct AlertView {
    pub severity: AlertSeverity,
    pub title: Seq<char>,
    pub message: Seq<char>,
    pub affected: Seq<Seq<char>>,
    pub fixes: Seq<Seq<char>>,
}

impl View for DeveloperAlert {
    type V = AlertView;

    open spec fn view(&self) -> AlertView {
        AlertView {
            severity: self.severity,
            title: self.title@,
            message: self.message@,
            affected: strs(self.affected_components@),
            fixes: strs(self.suggested_fixes@),
        }
    }
}

pub open spec fn alerts_view(v: Seq<DeveloperAlert>) -> Seq<AlertView> {
    v.map_values(|a: DeveloperAlert| a@)
}

pub struct ImpactView {
    pub risk: RiskLevel,
    pub summary: Seq<char>,
    pub affected: Seq<Seq<char>>,
    pub breaking: Seq<Seq<char>>,
    pub suggested: Seq<Seq<char>>,
}

impl View for ArchitectureImpact {
    type V = ImpactView;

    open spec fn view(&self) -> ImpactView {
        ImpactView {
            risk: self.risk_level,
            summary: self.summary@,
            affected: strs(self.affected_components@),
            breaking: strs(self.breaking_contracts@),
            suggested: strs(self.suggested_migration@),
        }
    }
}

pub open spec fn impact_view(i: Option<ArchitectureImpact>) -> Option<ImpactView> {
    match i {
        Some(x) => Some(x@),
        None => None,
    }
}

/// A drift report as (subsystem, drifts).
pub open spec fn reports_view(v: Seq<ContractDriftReport>) -> Seq<(Seq<char>, Seq<ContractDriftView>)> {
    v.map_values(|r: ContractDriftReport| (r.subsystem@, drifts_view(r.drifts@)))
}

// ---------------------------------------------------------------------------
// Diagrams
// ---------------------------------------------------------------------------

pub open spec fn api_line(sub: Seq<char>, a: ApiContract) -> Seq<char> {
    sub + " provides "@ + a.method@ + " "@ + a.path@
}

pub open spec fn event_line(sub: Seq<char>, e: EventContract) -> Seq<char> {
    sub + " provides event "@ + e.name@
}

/// What one contract provides, one line per endpoint and event.
pub open spec fn provided_lines(c: SubsystemContract) -> Set<Seq<char>> {
    c.provides.apis@.map_values(|a: ApiContract| api_line(c.subsystem@, a)).to_set().union(
        c.provides.events@.map_values(|e: EventContract| event_line(c.subsystem@, e)).to_set(),
    )
}

pub open spec fn contract_lines(cs: Seq<SubsystemContract>) -> Set<Seq<char>>
    decreases cs.len(),
{
    if cs.len() == 0 {
        Set::empty()
    } else {
        contract_lines(cs.drop_last()).union(provided_lines(cs.last()))
    }
}

/// `"{subsystem} owns {entities, comma separated}"`, for contracts owning
/// at least one entity.
pub open spec fn ownership_lines(cs: Seq<SubsystemContract>) -> Set<Seq<char>>
    decreases cs.len(),
{
    if cs.len() == 0 {
        Set::empty()
    } else {
        let c = cs.last();
        ownership_lines(cs.drop_last()).union(
            if c.owns.entities@.len() > 0 {
                set![c.subsystem@ + " owns "@ + join_seq(strs(c.owns.entities@), ", "@)]
            } else {
                Set::empty()
            },
        )
    }
}

proof fn lemma_lines_finite(cs: Seq<SubsystemContract>)
    ensures
        contract_lines(cs).finite(),
        ownership_lines(cs).finite(),
    decreases cs.len(),
{
    broadcast use vstd::seq_lib::seq_to_set_is_finite;

    if cs.len() > 0 {
        lemma_lines_finite(cs.drop_last());
    }
}

/// The subsystem map is the graph's relationships; the contract map and the
/// data ownership map are sorted sets of lines (see `contract_lines` and
/// `ownership_lines`).
pub fn build_diagrams(graph: &SystemGraphVersion, contracts: &Vec<SubsystemContract>) -> (r:
    ArchitectureDiagrams)
    ensures
        strs(r.subsystem_map@) == strs(graph.relationships@),
        strs(r.contract_map@) == sorted_strs(contract_lines(contracts@)),
        strs(r.data_ownership_map@) == sorted_strs(ownership_lines(contracts@)),
{
    let mut contract_map: Vec<String> = Vec::new();
    let mut ownership_map: Vec<String> = Vec::new();
    let mut i: usize = 0;
    while i < contracts.len()
        invariant
            i <= contracts.len(),
            strictly_sorted(strs(contract_map@)),
            strictly_sorted(strs(ownership_map@)),
            strs(contract_map@).to_set() == contract_lines(contracts@.subrange(0, i as int)),
            strs(ownership_map@).to_set() == ownership_lines(contracts@.subrange(0, i as int)),
        decreases contracts.len() - i,
    {
        let c = &contracts[i];
        let ghost t = contracts@.subrange(0, i + 1);
        assert(t.drop_last() =~= contracts@.subrange(0, i as int));
        assert(t.last() == *c);
        let mut lines: Vec<String> = Vec::new();
        let mut j: usize = 0;
        while j < c.provides.apis.len()
            invariant
                j <= c.provides.apis.len(),
                strs(lines@) == c.provides.apis@.subrange(0, j as int).map_values(
                    |a: ApiContract| api_line(c.subsystem@, a),
                ),
            decreases c.provides.apis.len() - j,
        {
            let a = &c.provides.apis[j];
            let line = cat(
                cat3(c.subsystem.as_str(), " provides ", a.method.as_str()).as_str(),
                cat(" ", a.path.as_str()).as_str(),
            );
            assert(line@ =~= api_line(c.subsystem@, *a));
            let ghost before = lines@;
            lines.push(line);
            assert(strs(lines@) =~= c.provides.apis@.subrange(0, j + 1).map_values(
                |a: ApiContract| api_line(c.subsystem@, a),
            )) by {
                assert(strs(lines@) =~= strs(before).push(line@));
            }
            j += 1;
        }
        let ghost api_part = strs(lines@);
        let mut k: usize = 0;
        while k < c.provides.events.len()
            invariant
                k <= c.provides.events.len(),
                api_part == c.provides.apis@.map_values(
                    |a: ApiContract| api_line(c.subsystem@, a),
                ),
                strs(lines@) == api_part + c.provides.events@.subrange(0, k as int).map_values(
                    |e: EventContract| event_line(c.subsystem@, e),
                ),
            decreases c.provides.events.len() - k,
        {
            let line = cat3(
                c.subsystem.as_str(),
                " provides event ",
                c.provides.events[k].name.as_str(),
            );
            let ghost before = lines@;
            lines.push(line);
            assert(strs(lines@) =~= api_part + c.provides.events@.subrange(0, k + 1).map_values(
                |e: EventContract| event_line(c.subsystem@, e),
            )) by {
                assert(strs(lines@) =~= strs(before).push(line@));
            }
            k += 1;
        }
        proof {
            assert(c.provides.apis@.subrange(0, c.provides.apis@.len() as int)
                =~= c.provides.apis@);
            assert(c.provides.events@.subrange(0, c.provides.events@.len() as int)
                =~= c.provides.events@);
            vstd::seq_lib::seq_to_set_distributes_over_add(
                api_part,
                c.provides.events@.map_values(|e: EventContract| event_line(c.subsystem@, e)),
            );
        }
        insert_all(&mut contract_map, &lines);
        if c.owns.entities.len() > 0 {
            let line = cat3(
                c.subsystem.as_str(),
                " owns ",
                join(&c.owns.entities, ", ").as_str(),
            );
            let ghost before = strs(ownership_map@).to_set();
            insert_sorted(&mut ownership_map, line);
            assert(strs(ownership_map@).to_set() =~= ownership_lines(t));
        } else {
            assert(ownership_lines(t) =~= ownership_lines(contracts@.subrange(0, i as int)));
        }
        i += 1;
    }
    assert(contracts@.subrange(0, contracts@.len() as int) =~= contracts@);
    proof {
        lemma_lines_finite(contracts@);
        lemma_sorted_strs(strs(contract_map@), contract_lines(contracts@));
        lemma_sorted_strs(strs(ownership_map@), ownership_lines(contracts@));
    }
    let mut subsystem_map: Vec<String> = Vec::new();
    let mut m: usize = 0;
    while m < graph.relationships.len()
        invariant
            m <= graph.relationships.len(),
            strs(subsystem_map@) == strs(graph.relationships@).subrange(0, m as int),
        decreases graph.relationships.len() - m,
    {
        let c = graph.relationships[m].clone();
        let ghost before = subsystem_map@;
        subsystem_map.push(c);
        assert(strs(subsystem_map@) =~= strs(before).push(c@));
        assert(strs(subsystem_map@) =~= strs(graph.relationships@).subrange(0, m + 1));
        m += 1;
    }
    assert(strs(graph.relationships@).subrange(0, graph.relationships@.len() as int) =~= strs(
        graph.relationships@,
    ));
    ArchitectureDiagrams { subsystem_map, contract_map, data_ownership_map: ownership_map }
}

// ---------------------------------------------------------------------------
// Impact
// ---------------------------------------------------------------------------

/// Ownership violations and architecture drift are high-risk drift.
pub open spec fn is_high_drift(t: DriftType) -> bool {
    t == DriftType::OwnershipViolation || t == DriftType::ArchitectureDrift
}

pub open spec fn event_affected(ev: Seq<DriftEventView>) -> Set<Seq<char>>
    decreases ev.len(),
{
    if ev.len() == 0 {
        Set::empty()
    } else {
        event_affected(ev.drop_last()).union(ev.last().affected.to_set())
    }
}

pub open spec fn event_evidence(ev: Seq<DriftEventView>) -> Set<Seq<char>>
    decreases ev.len(),
{
    if ev.len() == 0 {
        Set::empty()
    } else {
        event_evidence(ev.drop_last()).union(ev.last().evidence.to_set())
    }
}

pub open spec fn event_details(ev: Seq<DriftEventView>) -> Set<Seq<char>>
    decreases ev.len(),
{
    if ev.len() == 0 {
        Set::empty()
    } else {
        event_details(ev.drop_last()).insert(ev.last().details)
    }
}

pub open spec fn compat_note() -> Seq<char> {
    "Add compatibility fields before removing existing contracts"@
}

pub open spec fn migrate_note(area: Seq<char>) -> Seq<char> {
    "Migrate consumers for "@ + area
}

pub open spec fn drift_messages(ds: Seq<ContractDriftView>) -> Set<Seq<char>>
    decreases ds.len(),
{
    if ds.len() == 0 {
        Set::empty()
    } else {
        drift_messages(ds.drop_last()).insert(ds.last().message)
    }
}

/// A migration note per impacted area, and the compatibility note for data
/// and API drift.
pub open spec fn drift_suggestions(ds: Seq<ContractDriftView>) -> Set<Seq<char>>
    decreases ds.len(),
{
    if ds.len() == 0 {
        Set::empty()
    } else {
        let d = ds.last();
        drift_suggestions(ds.drop_last()).union(
            d.areas.map_values(|a: Seq<char>| migrate_note(a)).to_set(),
        ).union(
            if d.kind == ContractDriftKind::Data || d.kind == ContractDriftKind::Api {
                set![compat_note()]
            } else {
                Set::empty()
            },
        )
    }
}

pub open spec fn report_subsystems(rs: Seq<(Seq<char>, Seq<ContractDriftView>)>) -> Set<Seq<char>>
    decreases rs.len(),
{
    if rs.len() == 0 {
        Set::empty()
    } else {
        report_subsystems(rs.drop_last()).union(
            if rs.last().1.len() > 0 {
                set![rs.last().0]
            } else {
                Set::empty()
            },
        )
    }
}

pub open spec fn report_messages(rs: Seq<(Seq<char>, Seq<ContractDriftView>)>) -> Set<Seq<char>>
    decreases rs.len(),
{
    if rs.len() == 0 {
        Set::empty()
    } else {
        report_messages(rs.drop_last()).union(drift_messages(rs.last().1))
    }
}

pub open spec fn report_suggestions(rs: Seq<(Seq<char>, Seq<ContractDriftView>)>) -> Set<
    Seq<char>,
>
    decreases rs.len(),
{
    if rs.len() == 0 {
        Set::empty()
    } else {
        report_suggestions(rs.drop_last()).union(drift_suggestions(rs.last().1))
    }
}

/// High when an ownership or architecture drift occurred or a contract
/// drifted; else medium when any drift event occurred; else low.
pub open spec fn risk_of(ev: Seq<DriftEventView>, rs: Seq<(Seq<char>, Seq<ContractDriftView>)>) -> RiskLevel {
    if (exists|i: int| 0 <= i < ev.len() && is_high_drift(#[trigger] ev[i].drift_type)) || (
    exists|j: int| 0 <= j < rs.len() && (#[trigger] rs[j]).1.len() > 0) {
        RiskLevel::High
    } else if ev.len() > 0 {
        RiskLevel::Medium
    } else {
        RiskLevel::Low
    }
}

pub open spec fn summary_of(risk: RiskLevel) -> Seq<char> {
    match risk {
        RiskLevel::High => "HIGH RISK CHANGE: subsystem contracts drifted"@,
        RiskLevel::Medium => "Moderate architecture impact detected"@,
        RiskLevel::Low => "Low impact architecture change"@,
    }
}

/// The impact of the drift found: affected components, breaking contracts
/// and suggested migrations as sorted sets, with a risk level; none when
/// nothing is affected and no contract breaks.
pub open spec fn impact_spec(ev: Seq<DriftEventView>, rs: Seq<(Seq<char>, Seq<ContractDriftView>)>) -> Option<ImpactView> {
    let affected = event_affected(ev).union(report_subsystems(rs));
    let breaking = event_evidence(ev).union(report_messages(rs));
    let suggested = event_details(ev).union(report_suggestions(rs));
    if affected == Set::<Seq<char>>::empty() && breaking == Set::<Seq<char>>::empty() {
        None
    } else {
        Some(
            ImpactView {
                risk: risk_of(ev, rs),
                summary: summary_of(risk_of(ev, rs)),
                affected: sorted_strs(affected),
                breaking: sorted_strs(breaking),
                suggested: sorted_strs(suggested),
            },
        )
    }
}

proof fn lemma_event_sets_finite(ev: Seq<DriftEventView>)
    ensures
        event_affected(ev).finite(),
        event_evidence(ev).finite(),
        event_details(ev).finite(),
    decreases ev.len(),
{
    broadcast use vstd::seq_lib::seq_to_set_is_finite;

    if ev.len() > 0 {
        lemma_event_sets_finite(ev.drop_last());
    }
}

proof fn lemma_drift_sets_finite(ds: Seq<ContractDriftView>)
    ensures
        drift_messages(ds).finite(),
        drift_suggestions(ds).finite(),
    decreases ds.len(),
{
    broadcast use vstd::seq_lib::seq_to_set_is_finite;

    if ds.len() > 0 {
        lemma_drift_sets_finite(ds.drop_last());
    }
}

proof fn lemma_report_sets_finite(rs: Seq<(Seq<char>, Seq<ContractDriftView>)>)
    ensures
        report_subsystems(rs).finite(),
        report_messages(rs).finite(),
        report_suggestions(rs).finite(),
    decreases rs.len(),
{
    if rs.len() > 0 {
        lemma_report_sets_finite(rs.drop_last());
        lemma_drift_sets_finite(rs.last().1);
    }
}

/// A sorted set of strings is empty exactly when its list is.
proof fn lemma_empty_set(v: Seq<Seq<char>>)
    ensures
        (v.to_set() == Set::<Seq<char>>::empty()) == (v.len() == 0),
{
    if v.len() == 0 {
        assert(v.to_set() =~= Set::<Seq<char>>::empty());
    } else {
        assert(v.to_set().contains(v[0]));
    }
}

/// Adds the suggestions of one contract drift.
fn add_drift_suggestions(suggested: &mut Vec<String>, d: &ContractDrift)
    requires
        strictly_sorted(strs(old(suggested)@)),
    ensures
        strictly_sorted(strs(final(suggested)@)),
        strs(final(suggested)@).to_set() == strs(old(suggested)@).to_set().union(
            d@.areas.map_values(|a: Seq<char>| migrate_note(a)).to_set(),
        ).union(
            if d.kind == ContractDriftKind::Data || d.kind == ContractDriftKind::Api {
                set![compat_note()]
            } else {
                Set::empty()
            },
        ),
{
    let ghost start = strs(suggested@).to_set();
    let areas = &d.impacted_areas;
    let mut a: usize = 0;
    while a < areas.len()
        invariant
            a <= areas.len(),
            areas == &d.impacted_areas,
            strictly_sorted(strs(suggested@)),
            strs(suggested@).to_set() == start.union(
                strs(areas@).subrange(0, a as int).map_values(
                    |x: Seq<char>| migrate_note(x),
                ).to_set(),
            ),
        decreases areas.len() - a,
    {
        let note = cat("Migrate consumers for ", areas[a].as_str());
        let ghost pre = strs(areas@).subrange(0, a as int).map_values(|x: Seq<char>| migrate_note(x));
        let ghost post = strs(areas@).subrange(0, a + 1).map_values(|x: Seq<char>| migrate_note(x));
        assert(post =~= pre.push(note@));
        proof {
            pre.lemma_push_to_set_commute(note@);
        }
        insert_sorted(suggested, note);
        assert(strs(suggested@).to_set() =~= start.union(post.to_set()));
        a += 1;
    }
    assert(strs(areas@).subrange(0, areas@.len() as int) =~= strs(areas@));
    let ghost mid = strs(suggested@).to_set();
    match d.kind {
        ContractDriftKind::Data | ContractDriftKind::Api => {
            insert_sorted(
                suggested,
                owned("Add compatibility fields before removing existing contracts"),
            );
            assert(strs(suggested@).to_set() =~= mid.union(set![compat_note()]));
        },
        _ => {
            assert(mid.union(Set::<Seq<char>>::empty()) =~= mid);
        },
    }
}

/// The impact of drift events and contract drift reports (see `impact_spec`).
pub fn build_impact(drift_events: &Vec<DriftEvent>, contract_drifts: &Vec<ContractDriftReport>) -> (r:
    Option<ArchitectureImpact>)
    ensures
        impact_view(r) == impact_spec(events_view(drift_events@), reports_view(contract_drifts@)),
{
    let ghost ev = events_view(drift_events@);
    let ghost rs = reports_view(contract_drifts@);
    let mut affected: Vec<String> = Vec::new();
    let mut breaking: Vec<String> = Vec::new();
    let mut suggested: Vec<String> = Vec::new();
    let mut high = false;
    let mut medium = false;
    let mut i: usize = 0;
    while i < drift_events.len()
        invariant
            i <= drift_events.len(),
            ev == events_view(drift_events@),
            strictly_sorted(strs(affected@)),
            strictly_sorted(strs(breaking@)),
            strictly_sorted(strs(suggested@)),
            strs(affected@).to_set() == event_affected(ev.subrange(0, i as int)),
            strs(breaking@).to_set() == event_evidence(ev.subrange(0, i as int)),
            strs(suggested@).to_set() == event_details(ev.subrange(0, i as int)),
            high == exists|k: int| 0 <= k < i && is_high_drift(#[trigger] ev[k].drift_type),
            medium == (i > 0 && exists|k: int| 0 <= k < i && !is_high_drift(#[trigger] ev[k].drift_type)),
        decreases drift_events.len() - i,
    {
        let drift = &drift_events[i];
        let ghost t = ev.subrange(0, i + 1);
        assert(t.drop_last() =~= ev.subrange(0, i as int));
        assert(t.last() == drift@);
        insert_all(&mut affected, &drift.affected_subsystems);
        insert_all(&mut breaking, &drift.evidence);
        insert_sorted(&mut suggested, drift.recommendation.details.clone());
        match drift.drift_type {
            DriftType::OwnershipViolation | DriftType::ArchitectureDrift => {
                high = true;
                assert(is_high_drift(ev[i as int].drift_type));
            },
            _ => {
                medium = true;
                assert(!is_high_drift(ev[i as int].drift_type));
            },
        }
        i += 1;
    }
    assert(ev.subrange(0, ev.len() as int) =~= ev);
    let ghost a0 = strs(affected@).to_set();
    let ghost b0 = strs(breaking@).to_set();
    let ghost s0 = strs(suggested@).to_set();
    let ghost high0 = high;
    let mut j: usize = 0;
    while j < contract_drifts.len()
        invariant
            j <= contract_drifts.len(),
            rs == reports_view(contract_drifts@),
            strictly_sorted(strs(affected@)),
            strictly_sorted(strs(breaking@)),
            strictly_sorted(strs(suggested@)),
            strs(affected@).to_set() == a0.union(report_subsystems(rs.subrange(0, j as int))),
            strs(breaking@).to_set() == b0.union(report_messages(rs.subrange(0, j as int))),
            strs(suggested@).to_set() == s0.union(report_suggestions(rs.subrange(0, j as int))),
            high == (high0 || exists|k: int| 0 <= k < j && (#[trigger] rs[k]).1.len() > 0),
        decreases contract_drifts.len() - j,
    {
        let report = &contract_drifts[j];
        let ghost t = rs.subrange(0, j + 1);
        assert(t.drop_last() =~= rs.subrange(0, j as int));
        assert(t.last() == rs[j as int]);
        assert(rs[j as int].1 == drifts_view(report.drifts@));
        let ghost a1 = strs(affected@).to_set();
        if report.drifts.len() > 0 {
            insert_sorted(&mut affected, report.subsystem.clone());
            high = true;
            assert(rs[j as int].1.len() > 0);
            assert(strs(affected@).to_set() =~= a0.union(report_subsystems(t)));
        } else {
            assert(strs(affected@).to_set() =~= a0.union(report_subsystems(t)));
        }
        let ghost b1 = strs(breaking@).to_set();
        let ghost s1 = strs(suggested@).to_set();
        let ds = &report.drifts;
        let mut k: usize = 0;
        while k < ds.len()
            invariant
                k <= ds.len(),
                ds == &report.drifts,
                strictly_sorted(strs(breaking@)),
                strictly_sorted(strs(suggested@)),
                strs(breaking@).to_set() == b1.union(
                    drift_messages(drifts_view(ds@).subrange(0, k as int)),
                ),
                strs(suggested@).to_set() == s1.union(
                    drift_suggestions(drifts_view(ds@).subrange(0, k as int)),
                ),
            decreases ds.len() - k,
        {
            let ghost u = drifts_view(ds@).subrange(0, k + 1);
            assert(u.drop_last() =~= drifts_view(ds@).subrange(0, k as int));
            assert(u.last() == ds@[k as int]@);
            insert_sorted(&mut breaking, ds[k].message.clone());
            let ghost before = strs(suggested@).to_set();
            add_drift_suggestions(&mut suggested, &ds[k]);
            assert(strs(breaking@).to_set() =~= b1.union(drift_messages(u)));
            assert(strs(suggested@).to_set() =~= s1.union(drift_suggestions(u)));
            k += 1;
        }
        assert(drifts_view(ds@).subrange(0, ds@.len() as int) =~= drifts_view(ds@));
        assert(strs(breaking@).to_set() =~= b0.union(report_messages(t)));
        assert(strs(suggested@).to_set() =~= s0.union(report_suggestions(t)));
        j += 1;
    }
    assert(rs.subrange(0, rs.len() as int) =~= rs);
    let ghost all_affected = event_affected(ev).union(report_subsystems(rs));
    let ghost all_breaking = event_evidence(ev).union(report_messages(rs));
    let ghost all_suggested = event_details(ev).union(report_suggestions(rs));
    proof {
        lemma_event_sets_finite(ev);
        lemma_report_sets_finite(rs);
        lemma_empty_set(strs(affected@));
        lemma_empty_set(strs(breaking@));
        lemma_sorted_strs(strs(affected@), all_affected);
        lemma_sorted_strs(strs(breaking@), all_breaking);
        lemma_sorted_strs(strs(suggested@), all_suggested);
    }
    if affected.len() == 0 && breaking.len() == 0 {
        return None;
    }
    let risk_level = if high {
        RiskLevel::High
    } else if medium {
        RiskLevel::Medium
    } else {
        RiskLevel::Low
    };
    proof {
        if !high && ev.len() > 0 {
            assert(!is_high_drift(ev[0].drift_type));
        }
    }
    assert(risk_level == risk_of(ev, rs));
    let summary = match risk_level {
        RiskLevel::High => owned("HIGH RISK CHANGE: subsystem contracts drifted"),
        RiskLevel::Medium => owned("Moderate architecture impact detected"),
        RiskLevel::Low => owned("Low impact architecture change"),
    };
    Some(
        ArchitectureImpact {
            risk_level,
            summary,
            affected_components: affected,
            breaking_contracts: breaking,
            suggested_migration: suggested,
        },
    )
}

// ---------------------------------------------------------------------------
// Alerts
// ---------------------------------------------------------------------------

/// The name of a drift type, as its debug form prints it.
pub open spec fn drift_type_name(t: DriftType) -> Seq<char> {
    match t {
        DriftType::DuplicateCapability => "DuplicateCapability"@,
        DriftType::SubsystemOverlap => "SubsystemOverlap"@,
        DriftType::OwnershipViolation => "OwnershipViolation"@,
        DriftType::ArchitectureDrift => "ArchitectureDrift"@,
        DriftType::ModelFragmentation => "ModelFragmentation"@,
    }
}

pub open spec fn drift_alert(e: DriftEventView) -> AlertView {
    AlertView {
        severity: if is_high_drift(e.drift_type) {
            AlertSeverity::Critical
        } else {
            AlertSeverity::Warning
        },
        title: drift_type_name(e.drift_type),
        message: e.details,
        affected: e.affected,
        fixes: seq![e.action],
    }
}

pub open spec fn contract_alerts(sub: Seq<char>, ds: Seq<ContractDriftView>) -> Seq<AlertView> {
    ds.map_values(
        |d: ContractDriftView|
            AlertView {
                severity: AlertSeverity::Critical,
                title: "Contract drift in "@ + sub,
                message: d.message,
                affected: d.consumers,
                fixes: d.areas,
            },
    )
}

pub open spec fn report_alerts(rs: Seq<(Seq<char>, Seq<ContractDriftView>)>) -> Seq<AlertView>
    decreases rs.len(),
{
    if rs.len() == 0 {
        Seq::<AlertView>::empty()
    } else {
        report_alerts(rs.drop_last()) + contract_alerts(rs.last().0, rs.last().1)
    }
}

pub open spec fn impact_severity(risk: RiskLevel) -> AlertSeverity {
    match risk {
        RiskLevel::High => AlertSeverity::Critical,
        RiskLevel::Medium => AlertSeverity::Warning,
        RiskLevel::Low => AlertSeverity::Info,
    }
}

pub open spec fn impact_alerts(impact: Option<ImpactView>) -> Seq<AlertView> {
    match impact {
        Some(i) => seq![
            AlertView {
                severity: impact_severity(i.risk),
                title: "Architecture impact"@,
                message: i.summary,
                affected: i.affected,
                fixes: i.suggested,
            },
        ],
        None => Seq::<AlertView>::empty(),
    }
}

pub open spec fn capability_alerts(changes: nat, files: nat) -> Seq<AlertView> {
    if changes > 0 || files > 0 {
        seq![
            AlertView {
                severity: AlertSeverity::Info,
                title: "New capability detected"@,
                message: dec_seq(changes) + " architecture deltas and "@ + dec_seq(files)
                    + " file events observed"@,
                affected: Seq::<Seq<char>>::empty(),
                fixes: seq!["Review generated subsystem contracts"@],
            },
        ]
    } else {
        Seq::<AlertView>::empty()
    }
}

/// A capability alert when anything changed, an alert per drift event, one
/// per contract drift, and one for the impact.
pub open spec fn alerts_spec(
    changes: nat,
    files: nat,
    ev: Seq<DriftEventView>,
    rs: Seq<(Seq<char>, Seq<ContractDriftView>)>,
    impact: Option<ImpactView>,
) -> Seq<AlertView> {
    capability_alerts(changes, files) + ev.map_values(|e: DriftEventView| drift_alert(e))
        + report_alerts(rs) + impact_alerts(impact)
}

fn one_string(s: &str) -> (r: Vec<String>)
    ensures
        strs(r@) == seq![s@],
{
    let mut r: Vec<String> = Vec::new();
    r.push(owned(s));
    assert(strs(r@) =~= seq![s@]);
    r
}

fn push_alert(alerts: &mut Vec<DeveloperAlert>, a: DeveloperAlert)
    ensures
        alerts_view(final(alerts)@) == alerts_view(old(alerts)@).push(a@),
{
    alerts.push(a);
    assert(alerts_view(alerts@) =~= alerts_view(old(alerts)@).push(a@));
}

/// Alerts for developers (see `alerts_spec`).
pub fn build_alerts(
    changes: &Vec<String>,
    file_events: &Vec<FileChangeEvent>,
    drift_events: &Vec<DriftEvent>,
    contract_drifts: &Vec<ContractDriftReport>,
    impact: Option<&ArchitectureImpact>,
) -> (r: Vec<DeveloperAlert>)
    ensures
        alerts_view(r@) == alerts_spec(
            changes@.len(),
            file_events@.len(),
            events_view(drift_events@),
            reports_view(contract_drifts@),
            match impact {
                Some(i) => Some(i@),
                None => None,
            },
        ),
{
    let ghost ev = events_view(drift_events@);
    let ghost rs = reports_view(contract_drifts@);
    let mut alerts: Vec<DeveloperAlert> = Vec::new();
    if changes.len() > 0 || file_events.len() > 0 {
        let n_changes = changes.len() as u64;
        let n_files = file_events.len() as u64;
        assert(n_changes as nat == changes@.len() && n_files as nat == file_events@.len());
        let d1 = dec_string(n_changes);
        let d2 = dec_string(n_files);
        let message = cat(
            cat(d1.as_str(), " architecture deltas and ").as_str(),
            cat(d2.as_str(), " file events observed").as_str(),
        );
        assert(message@ =~= dec_seq(changes@.len()) + " architecture deltas and "@ + dec_seq(
            file_events@.len(),
        ) + " file events observed"@);
        push_alert(
            &mut alerts,
            DeveloperAlert {
                severity: AlertSeverity::Info,
                title: owned("New capability detected"),
                message,
                affected_components: Vec::new(),
                suggested_fixes: one_string("Review generated subsystem contracts"),
            },
        );
        assert(strs(Seq::<String>::empty()) =~= Seq::<Seq<char>>::empty());
        assert(alerts_view(alerts@) =~= capability_alerts(changes@.len(), file_events@.len()));
    } else {
        assert(alerts_view(alerts@) =~= capability_alerts(changes@.len(), file_events@.len()));
    }
    let ghost cap = alerts_view(alerts@);
    let mut i: usize = 0;
    while i < drift_events.len()
        invariant
            i <= drift_events.len(),
            ev == events_view(drift_events@),
            alerts_view(alerts@) == cap + ev.subrange(0, i as int).map_values(
                |e: DriftEventView| drift_alert(e),
            ),
        decreases drift_events.len() - i,
    {
        let drift = &drift_events[i];
        let severity = match drift.drift_type {
            DriftType::OwnershipViolation | DriftType::ArchitectureDrift => AlertSeverity::Critical,
            _ => AlertSeverity::Warning,
        };
        let title = match drift.drift_type {
            DriftType::DuplicateCapability => owned("DuplicateCapability"),
            DriftType::SubsystemOverlap => owned("SubsystemOverlap"),
            DriftType::OwnershipViolation => owned("OwnershipViolation"),
            DriftType::ArchitectureDrift => owned("ArchitectureDrift"),
            DriftType::ModelFragmentation => owned("ModelFragmentation"),
        };
        let a = DeveloperAlert {
            severity,
            title,
            message: drift.recommendation.details.clone(),
            affected_components: crate::text::clone_strings(&drift.affected_subsystems),
            suggested_fixes: one_string(drift.recommendation.action.as_str()),
        };
        assert(a@ == drift_alert(drift@));
        let ghost before = alerts_view(alerts@);
        push_alert(&mut alerts, a);
        assert(ev.subrange(0, i + 1) =~= ev.subrange(0, i as int).push(drift@));
        assert(alerts_view(alerts@) =~= cap + ev.subrange(0, i + 1).map_values(
            |e: DriftEventView| drift_alert(e),
        ));
        i += 1;
    }
    assert(ev.subrange(0, ev.len() as int) =~= ev);
    let ghost with_drifts = alerts_view(alerts@);
    let mut j: usize = 0;
    while j < contract_drifts.len()
        invariant
            j <= contract_drifts.len(),
            rs == reports_view(contract_drifts@),
            alerts_view(alerts@) == with_drifts + report_alerts(rs.subrange(0, j as int)),
        decreases contract_drifts.len() - j,
    {
        let report = &contract_drifts[j];
        let ghost t = rs.subrange(0, j + 1);
        assert(t.drop_last() =~= rs.subrange(0, j as int));
        assert(t.last() == rs[j as int]);
        let ghost at_j = alerts_view(alerts@);
        let title = cat("Contract drift in ", report.subsystem.as_str());
        let ds = &report.drifts;
        let mut k: usize = 0;
        while k < ds.len()
            invariant
                k <= ds.len(),
                ds == &report.drifts,
                title@ == "Contract drift in "@ + report.subsystem@,
                alerts_view(alerts@) == at_j + contract_alerts(
                    report.subsystem@,
                    drifts_view(ds@).subrange(0, k as int),
                ),
            decreases ds.len() - k,
        {
            let d = &ds[k];
            let a = DeveloperAlert {
                severity: AlertSeverity::Critical,
                title: owned(title.as_str()),
                message: d.message.clone(),
                affected_components: crate::text::clone_strings(&d.affected_consumers),
                suggested_fixes: crate::text::clone_strings(&d.impacted_areas),
            };
            push_alert(&mut alerts, a);
            assert(drifts_view(ds@).subrange(0, k + 1) =~= drifts_view(ds@).subrange(
                0,
                k as int,
            ).push(d@));
            assert(alerts_view(alerts@) =~= at_j + contract_alerts(
                report.subsystem@,
                drifts_view(ds@).subrange(0, k + 1),
            ));
            k += 1;
        }
        assert(drifts_view(ds@).subrange(0, ds@.len() as int) =~= drifts_view(ds@));
        assert(alerts_view(alerts@) =~= with_drifts + report_alerts(t));
        j += 1;
    }
    assert(rs.subrange(0, rs.len() as int) =~= rs);
    let ghost with_reports = alerts_view(alerts@);
    match impact {
        Some(imp) => {
            let severity = match imp.risk_level {
                RiskLevel::High => AlertSeverity::Critical,
                RiskLevel::Medium => AlertSeverity::Warning,
                RiskLevel::Low => AlertSeverity::Info,
            };
            push_alert(
                &mut alerts,
                DeveloperAlert {
                    severity,
                    title: owned("Architecture impact"),
                    message: imp.summary.clone(),
                    affected_components: crate::text::clone_strings(&imp.affected_components),
                    suggested_fixes: crate::text::clone_strings(&imp.suggested_migration),
                },
            );
        },
        None => {},
    }
    alerts
}

} // verus!

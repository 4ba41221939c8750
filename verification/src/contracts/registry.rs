//! The contract registry: published contract versions per subsystem, and
//! the impact analysis of a proposed contract change.
use vstd::prelude::*;

use crate::contracts::definition::{ConsumerDependency, SubsystemContract};
use crate::contracts::migration::{
    build_migration_plan, migration_plan_of, migration_steps_spec, steps_view, ContractMigrationPlan,
};
use crate::contracts::observer::{
    detect_subsystem_contract_drift, drift_report_of, drifts_view, subsystem_drift_spec, ContractDrift,
    ContractDriftReport, ContractDriftView, ObservedContractReality,
};
use crate::strset::{insert_sorted, lemma_sorted_strs, sorted_strs};
use crate::text::{chars_lt, chars_of, contains, has_sub, seq_lt, str_eq, strictly_sorted, strs};

verus! {

#[derive(Debug, Clone, PartialEq, Eq)]
pub struct CompatibilityRecord {
    pub from_version: String,
    pub to_version: String,
    pub breaking: bool,
}

#[derive(Debug, Clone, PartialEq, Eq)]
pub struct ContractPublication {
    pub contract: SubsystemContract,
    pub consumers: Vec<String>,
    pub compatibility: Vec<CompatibilityRecord>,
}

/// Published contracts, in publication order.
#[derive(Debug, Clone, PartialEq, Eq)]
pub struct ContractRegistry {
    entries: Vec<ContractPublication>,
}

#[derive(Debug, Clone, PartialEq, Eq)]
pub struct ContractChangeImpact {
    pub previous_version: String,
    pub next_version: String,
    pub drift_report: ContractDriftReport,
    pub impacted_consumers: Vec<String>,
    pub breaking: bool,
    pub migration_plan: ContractMigrationPlan,
}

/// Index of the publication `latest` returns for `subsystem` among
/// `pubs`: the last one whose version is not below any earlier one's
/// (the last of the maximal versions), or -1.
pub open spec fn latest_ix(pubs: Seq<ContractPublication>, subsystem: Seq<char>) -> int
    decreases pubs.len(),
{
    if pubs.len() == 0 {
        -1
    } else {
        let k = latest_ix(pubs.drop_last(), subsystem);
        let p = pubs.last();
        if p.contract.subsystem@ == subsystem && (k < 0 || !seq_lt(
            p.contract.version@,
            pubs[k].contract.version@,
        )) {
            pubs.len() - 1
        } else {
            k
        }
    }
}

/// The publications of `subsystem`, in publication order.
pub open spec fn publications_of(pubs: Seq<ContractPublication>, subsystem: Seq<char>) -> Seq<
    ContractPublication,
>
    decreases pubs.len(),
{
    if pubs.len() == 0 {
        Seq::<ContractPublication>::empty()
    } else {
        let rest = publications_of(pubs.drop_last(), subsystem);
        if pubs.last().contract.subsystem@ == subsystem {
            rest.push(pubs.last())
        } else {
            rest
        }
    }
}

/// Every consumer named by either contract's dependencies or affected by a drift.
pub open spec fn impact_consumer_set(
    drifts: Seq<ContractDriftView>,
    previous: Seq<ConsumerDependency>,
    next: Seq<ConsumerDependency>,
) -> Set<Seq<char>> {
    Set::new(
        |c: Seq<char>|
            (exists|i: int| 0 <= i < previous.len() && #[trigger] previous[i].consumer@ == c) || (
            exists|i: int| 0 <= i < next.len() && #[trigger] next[i].consumer@ == c) || (exists|
                i: int,
                j: int,
            | 0 <= i < drifts.len() && 0 <= j < drifts[i].consumers.len() && #[trigger] drifts[i].consumers[j] == c),
    )
}

/// The drift counts as breaking under a version change.
pub open spec fn breaking_drift(d: ContractDriftView) -> bool {
    d.expected != d.actual && (has_sub(d.message, "removed field"@) || has_sub(d.message, "missing endpoint"@)
        || has_sub(d.message, "missing event"@) || has_sub(d.message, "type"@))
}

/// Whether the change is breaking: with an unchanged version, any drift; with
/// a new version, a drift that changes a value and removes a field or an
/// endpoint or an event, or changes a type.
pub open spec fn is_breaking_spec(
    previous: SubsystemContract,
    next: SubsystemContract,
    drifts: Seq<ContractDriftView>,
) -> bool {
    if previous.version@ == next.version@ {
        drifts.len() > 0
    } else {
        exists|i: int| 0 <= i < drifts.len() && breaking_drift(#[trigger] drifts[i])
    }
}

/// `r` is the impact of replacing `previous` with `next` given what was
/// observed: both versions; the drift report of `next` against `observed`;
/// the consumers of either contract's dependencies or of a drift, sorted,
/// each once; whether that drift makes the change breaking; and the
/// migration plan from `previous` to `next` for that drift.
pub open spec fn impact_of(
    previous: SubsystemContract,
    next: SubsystemContract,
    observed: ObservedContractReality,
    r: ContractChangeImpact,
) -> bool {
    let drifts = subsystem_drift_spec(next, observed);
    &&& r.previous_version@ == previous.version@
    &&& r.next_version@ == next.version@
    &&& drift_report_of(next, observed, r.drift_report)
    &&& strs(r.impacted_consumers@) == sorted_strs(
        impact_consumer_set(drifts, previous.consumer_dependencies@, next.consumer_dependencies@),
    )
    &&& r.breaking == is_breaking_spec(previous, next, drifts)
    &&& migration_plan_of(previous, next, drifts, r.migration_plan)
}

/// Analysing a proposed change gives what the separate steps give: the
/// drift report that `detect_subsystem_contract_drift` makes of the next
/// contract, the migration plan that `build_migration_plan` makes for that
/// report, the breaking flag that report calls for, and the consumers of
/// either contract's dependencies and of that report's drifts.
pub proof fn law_impact_is_the_drift_and_its_plan(
    previous: SubsystemContract,
    next: SubsystemContract,
    observed: ObservedContractReality,
    impact: ContractChangeImpact,
    report: ContractDriftReport,
    plan: ContractMigrationPlan,
)
    requires
        impact_of(previous, next, observed, impact),
        drift_report_of(next, observed, report),
        migration_plan_of(previous, next, drifts_view(report.drifts@), plan),
    ensures
        impact.drift_report.subsystem@ == report.subsystem@,
        drifts_view(impact.drift_report.drifts@) == drifts_view(report.drifts@),
        impact.migration_plan.subsystem@ == plan.subsystem@,
        impact.migration_plan.from_version@ == plan.from_version@,
        impact.migration_plan.to_version@ == plan.to_version@,
        steps_view(impact.migration_plan.steps@) == steps_view(plan.steps@),
        impact.breaking == is_breaking_spec(previous, next, drifts_view(report.drifts@)),
        strs(impact.impacted_consumers@) == sorted_strs(
            impact_consumer_set(
                drifts_view(report.drifts@),
                previous.consumer_dependencies@,
                next.consumer_dependencies@,
            ),
        ),
{
}

impl Default for ContractRegistry {
    fn default() -> (r: Self)
        ensures
            r.all()@.len() == 0,
    {
        ContractRegistry { entries: Vec::new() }
    }
}

impl ContractRegistry {
    /// Every publication, in publication order.
    pub closed spec fn all(&self) -> Vec<ContractPublication> {
        self.entries
    }

    /// Records a new publication of `contract`.
    pub fn publish(
        &mut self,
        contract: SubsystemContract,
        consumers: Vec<String>,
        compatibility: Vec<CompatibilityRecord>,
    )
        ensures
            final(self).all()@ == old(self).all()@.push(
                ContractPublication { contract, consumers, compatibility },
            ),
    {
        self.entries.push(ContractPublication { contract, consumers, compatibility });
    }

    /// The publication of `subsystem` with the greatest version (the last
    /// such one on ties), if any.
    pub fn latest(&self, subsystem: &str) -> (r: Option<&ContractPublication>)
        ensures
            match r {
                Some(p) => {
                    let k = latest_ix(self.all()@, subsystem@);
                    0 <= k < self.all()@.len() && *p == self.all()@[k]
                },
                None => latest_ix(self.all()@, subsystem@) == -1,
            },
    {
        let mut best: Option<usize> = None;
        let mut i: usize = 0;
        while i < self.entries.len()
            invariant
                i <= self.entries.len(),
                match best {
                    Some(k) => k < i && latest_ix(self.entries@.subrange(0, i as int), subsystem@)
                        == k,
                    None => latest_ix(self.entries@.subrange(0, i as int), subsystem@) == -1,
                },
            decreases self.entries.len() - i,
        {
            proof {
                let t = self.entries@.subrange(0, i + 1);
                assert(t.drop_last() =~= self.entries@.subrange(0, i as int));
                assert(t.last() == self.entries@[i as int]);
                match best {
                    Some(k) => {
                        assert(t[k as int] == self.entries@[k as int]);
                    },
                    None => {},
                }
            }
            let p = &self.entries[i];
            if str_eq(p.contract.subsystem.as_str(), subsystem) {
                match best {
                    None => {
                        best = Some(i);
                    },
                    Some(k) => {
                        let pv = chars_of(p.contract.version.as_str());
                        let kv = chars_of(self.entries[k].contract.version.as_str());
                        if !chars_lt(&pv, &kv) {
                            best = Some(i);
                        }
                    },
                }
            }
            i += 1;
        }
        assert(self.entries@.subrange(0, self.entries@.len() as int) =~= self.entries@);
        match best {
            Some(k) => Some(&self.entries[k]),
            None => None,
        }
    }

    /// The publications of `subsystem`, in publication order.
    pub fn publications(&self, subsystem: &str) -> (r: Vec<&ContractPublication>)
        ensures
            r@.map_values(|p: &ContractPublication| *p) == publications_of(
                self.all()@,
                subsystem@,
            ),
    {
        let mut out: Vec<&ContractPublication> = Vec::new();
        let mut i: usize = 0;
        while i < self.entries.len()
            invariant
                i <= self.entries.len(),
                out@.map_values(|p: &ContractPublication| *p) == publications_of(
                    self.entries@.subrange(0, i as int),
                    subsystem@,
                ),
            decreases self.entries.len() - i,
        {
            proof {
                let t = self.entries@.subrange(0, i + 1);
                assert(t.drop_last() =~= self.entries@.subrange(0, i as int));
                assert(t.last() == self.entries@[i as int]);
            }
            let ghost before = out@;
            let p = &self.entries[i];
            if str_eq(p.contract.subsystem.as_str(), subsystem) {
                out.push(p);
                assert(out@.map_values(|q: &ContractPublication| *q) =~= before.map_values(
                    |q: &ContractPublication| *q,
                ).push(*p));
            }
            i += 1;
        }
        assert(self.entries@.subrange(0, self.entries@.len() as int) =~= self.entries@);
        out
    }

    /// The impact of replacing `previous` with `next`: the drift of `next`
    /// against `observed`, every consumer involved, whether the change is
    /// breaking, and its migration plan.
    pub fn analyze_proposed_change(
        &self,
        previous: &SubsystemContract,
        next: &SubsystemContract,
        observed: &ObservedContractReality,
    ) -> (r: ContractChangeImpact)
        ensures
            impact_of(*previous, *next, *observed, r),
    {
        let drift_report = detect_subsystem_contract_drift(next, observed);
        let impacted = impacted_consumers(
            &drift_report,
            &previous.consumer_dependencies,
            &next.consumer_dependencies,
        );
        let breaking = is_breaking_change(previous, next, &drift_report);
        let migration_plan = build_migration_plan(previous, next, &drift_report);
        ContractChangeImpact {
            previous_version: previous.version.clone(),
            next_version: next.version.clone(),
            drift_report,
            impacted_consumers: impacted,
            breaking,
            migration_plan,
        }
    }
}

fn insert_consumers_of(
    out: &mut Vec<String>,
    deps: &Vec<ConsumerDependency>,
    Ghost(base): Ghost<Set<Seq<char>>>,
)
    requires
        strictly_sorted(strs(old(out)@)),
        strs(old(out)@).to_set() == base,
    ensures
        strictly_sorted(strs(final(out)@)),
        strs(final(out)@).to_set() == base.union(
            Set::new(|c: Seq<char>| exists|i: int| 0 <= i < deps@.len() && #[trigger] deps@[i].consumer@ == c),
        ),
{
    let mut i: usize = 0;
    while i < deps.len()
        invariant
            i <= deps.len(),
            strictly_sorted(strs(out@)),
            strs(out@).to_set() == base.union(
                Set::new(|c: Seq<char>| exists|j: int| 0 <= j < i && #[trigger] deps@[j].consumer@ == c),
            ),
        decreases deps.len() - i,
    {
        let ghost before = strs(out@).to_set();
        insert_sorted(out, deps[i].consumer.clone());
        assert(strs(out@).to_set() =~= base.union(
            Set::new(|c: Seq<char>| exists|j: int| 0 <= j < i + 1 && #[trigger] deps@[j].consumer@ == c),
        )) by {
            assert forall|c: Seq<char>|
                base.union(
                    Set::new(|c: Seq<char>| exists|j: int| 0 <= j < i + 1 && #[trigger] deps@[j].consumer@ == c),
                ).contains(c) implies before.insert(deps@[i as int].consumer@).contains(c) by {
                if !base.contains(c) && c != deps@[i as int].consumer@ {
                    let j = choose|j: int| 0 <= j < i + 1 && #[trigger] deps@[j].consumer@ == c;
                    assert(j < i);
                }
            }
            assert forall|c: Seq<char>|
                before.insert(deps@[i as int].consumer@).contains(c) implies base.union(
                    Set::new(|c: Seq<char>| exists|j: int| 0 <= j < i + 1 && #[trigger] deps@[j].consumer@ == c),
                ).contains(c) by {
                if c == deps@[i as int].consumer@ {
                } else if !base.contains(c) {
                    let j = choose|j: int| 0 <= j < i && #[trigger] deps@[j].consumer@ == c;
                    assert(0 <= j < i + 1);
                }
            }
        }
        i += 1;
    }
}

fn impacted_consumers(
    drift_report: &ContractDriftReport,
    previous_dependencies: &Vec<ConsumerDependency>,
    next_dependencies: &Vec<ConsumerDependency>,
) -> (r: Vec<String>)
    ensures
        strs(r@) == sorted_strs(
            impact_consumer_set(drifts_view(drift_report.drifts@), previous_dependencies@, next_dependencies@),
        ),
{
    let mut out: Vec<String> = Vec::new();
    assert(strs(out@).to_set() =~= Set::<Seq<char>>::empty());
    insert_consumers_of(&mut out, previous_dependencies, Ghost(Set::<Seq<char>>::empty()));
    let ghost s1 = strs(out@).to_set();
    insert_consumers_of(&mut out, next_dependencies, Ghost(s1));
    let ghost s2 = strs(out@).to_set();
    let drifts = &drift_report.drifts;
    let mut i: usize = 0;
    while i < drifts.len()
        invariant
            i <= drifts.len(),
            strictly_sorted(strs(out@)),
            strs(out@).to_set() == s2.union(
                Set::new(
                    |c: Seq<char>|
                        exists|a: int, b: int|
                            0 <= a < i && 0 <= b < drifts@[a].affected_consumers@.len()
                                && #[trigger] drifts@[a].affected_consumers@[b]@ == c,
                ),
            ),
        decreases drifts.len() - i,
    {
        let consumers = &drifts[i].affected_consumers;
        let ghost at_i = strs(out@).to_set();
        let mut j: usize = 0;
        while j < consumers.len()
            invariant
                j <= consumers.len(),
                consumers == &drifts@[i as int].affected_consumers,
                strictly_sorted(strs(out@)),
                strs(out@).to_set() == at_i.union(
                    Set::new(|c: Seq<char>| exists|b: int| 0 <= b < j && #[trigger] consumers@[b]@ == c),
                ),
            decreases consumers.len() - j,
        {
            let ghost before = strs(out@).to_set();
            insert_sorted(&mut out, consumers[j].clone());
            assert(strs(out@).to_set() =~= at_i.union(
                Set::new(|c: Seq<char>| exists|b: int| 0 <= b < j + 1 && #[trigger] consumers@[b]@ == c),
            )) by {
                assert forall|c: Seq<char>|
                    at_i.union(
                        Set::new(|c: Seq<char>| exists|b: int| 0 <= b < j + 1 && #[trigger] consumers@[b]@ == c),
                    ).contains(c) implies before.insert(consumers@[j as int]@).contains(c) by {
                    if !at_i.contains(c) && c != consumers@[j as int]@ {
                        let b = choose|b: int| 0 <= b < j + 1 && #[trigger] consumers@[b]@ == c;
                        assert(b < j);
                    }
                }
                assert forall|c: Seq<char>|
                    before.insert(consumers@[j as int]@).contains(c) implies at_i.union(
                        Set::new(|c: Seq<char>| exists|b: int| 0 <= b < j + 1 && #[trigger] consumers@[b]@ == c),
                    ).contains(c) by {
                    if c != consumers@[j as int]@ && !at_i.contains(c) {
                        let b = choose|b: int| 0 <= b < j && #[trigger] consumers@[b]@ == c;
                        assert(0 <= b < j + 1);
                    }
                }
            }
            j += 1;
        }
        assert(strs(out@).to_set() =~= s2.union(
            Set::new(
                |c: Seq<char>|
                    exists|a: int, b: int|
                        0 <= a < i + 1 && 0 <= b < drifts@[a].affected_consumers@.len()
                            && #[trigger] drifts@[a].affected_consumers@[b]@ == c,
            ),
        )) by {
            assert forall|c: Seq<char>|
                strs(out@).to_set().contains(c) implies s2.union(
                    Set::new(
                        |c: Seq<char>|
                            exists|a: int, b: int|
                                0 <= a < i + 1 && 0 <= b < drifts@[a].affected_consumers@.len()
                                    && #[trigger] drifts@[a].affected_consumers@[b]@ == c,
                    ),
                ).contains(c) by {
                if !at_i.contains(c) {
                    let b = choose|b: int| 0 <= b < consumers@.len() && #[trigger] consumers@[b]@ == c;
                    assert(drifts@[i as int].affected_consumers@[b]@ == c);
                } else if !s2.contains(c) {
                    let (a, b) = choose|a: int, b: int|
                        0 <= a < i && 0 <= b < drifts@[a].affected_consumers@.len()
                            && #[trigger] drifts@[a].affected_consumers@[b]@ == c;
                    assert(0 <= a < i + 1);
                }
            }
            assert forall|c: Seq<char>|
                s2.union(
                    Set::new(
                        |c: Seq<char>|
                            exists|a: int, b: int|
                                0 <= a < i + 1 && 0 <= b < drifts@[a].affected_consumers@.len()
                                    && #[trigger] drifts@[a].affected_consumers@[b]@ == c,
                    ),
                ).contains(c) implies strs(out@).to_set().contains(c) by {
                if !s2.contains(c) {
                    let (a, b) = choose|a: int, b: int|
                        0 <= a < i + 1 && 0 <= b < drifts@[a].affected_consumers@.len()
                            && #[trigger] drifts@[a].affected_consumers@[b]@ == c;
                    if a == i {
                        assert(consumers@[b]@ == c);
                    } else {
                        assert(at_i.contains(c));
                    }
                }
            }
        }
        i += 1;
    }
    proof {
        let dv = drifts_view(drift_report.drifts@);
        let target = impact_consumer_set(dv, previous_dependencies@, next_dependencies@);
        assert forall|a: int, b: int|
            0 <= a < dv.len() && 0 <= b < dv[a].consumers.len() implies #[trigger] dv[a].consumers[b]
            == drifts@[a].affected_consumers@[b]@ && b < drifts@[a].affected_consumers@.len() by {
            assert(dv[a] == drifts@[a]@);
        }
        assert forall|a: int, b: int|
            0 <= a < drifts@.len() && 0 <= b < drifts@[a].affected_consumers@.len() implies #[trigger] drifts@[a].affected_consumers@[b]@
            == dv[a].consumers[b] && b < dv[a].consumers.len() by {
            assert(dv[a] == drifts@[a]@);
        }
        assert(strs(out@).to_set() =~= target);
        lemma_sorted_strs(strs(out@), target);
    }
    out
}

fn is_breaking_change(
    previous: &SubsystemContract,
    next: &SubsystemContract,
    drift_report: &ContractDriftReport,
) -> (r: bool)
    ensures
        r == is_breaking_spec(*previous, *next, drifts_view(drift_report.drifts@)),
{
    if previous.version == next.version {
        return drift_report.drifts.len() > 0;
    }
    let drifts = &drift_report.drifts;
    let mut i: usize = 0;
    while i < drifts.len()
        invariant
            i <= drifts.len(),
            drifts == &drift_report.drifts,
            previous.version@ != next.version@,
            forall|j: int| 0 <= j < i ==> !breaking_drift(#[trigger] drifts_view(drifts@)[j]),
        decreases drifts.len() - i,
    {
        let d = &drifts[i];
        if !(d.expected == d.actual) && (contains(d.message.as_str(), "removed field") || contains(
            d.message.as_str(),
            "missing endpoint",
        ) || contains(d.message.as_str(), "missing event") || contains(
            d.message.as_str(),
            "type",
        )) {
            assert(drifts_view(drifts@)[i as int] == drifts@[i as int]@);
            assert(breaking_drift(drifts_view(drifts@)[i as int]));
            return true;
        }
        assert(drifts_view(drifts@)[i as int] == drifts@[i as int]@);
        i += 1;
    }
    false
}

proof fn lemma_latest_range(pubs: Seq<ContractPublication>, subsystem: Seq<char>)
    ensures
        -1 <= latest_ix(pubs, subsystem) < pubs.len(),
    decreases pubs.len(),
{
    if pubs.len() > 0 {
        lemma_latest_range(pubs.drop_last(), subsystem);
    }
}

/// A publication becomes the latest of its subsystem exactly when no
/// earlier publication of that subsystem has a greater version; publishing
/// for another subsystem leaves the latest of a subsystem as it was.
pub proof fn law_latest_after_publish(
    pubs: Seq<ContractPublication>,
    p: ContractPublication,
    subsystem: Seq<char>,
)
    ensures
        p.contract.subsystem@ == subsystem ==> (latest_ix(pubs.push(p), subsystem) == pubs.len() <==> (
        latest_ix(pubs, subsystem) < 0 || !seq_lt(
            p.contract.version@,
            pubs[latest_ix(pubs, subsystem)].contract.version@,
        ))),
        p.contract.subsystem@ != subsystem ==> latest_ix(pubs.push(p), subsystem) == latest_ix(
            pubs,
            subsystem,
        ),
{
    lemma_latest_range(pubs, subsystem);
    assert(pubs.push(p).drop_last() =~= pubs);
    let k = latest_ix(pubs, subsystem);
    if k >= 0 {
        assert(pubs.push(p)[k] == pubs[k]);
    }
}

} // verus!

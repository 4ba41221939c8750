//! Migration plans: the rollout steps that a contract drift report calls for.
use vstd::prelude::*;

use crate::contracts::definition::SubsystemContract;
use crate::contracts::observer::{drifts_view, ContractDrift, ContractDriftKind, ContractDriftReport, ContractDriftView};
use crate::text::{cat3, dec_seq, dec_string, owned};

verus! {

#[derive(Debug, Clone, PartialEq, Eq)]
pub struct ContractMigrationStep {
    pub title: String,
    pub details: String,
}

#[derive(Debug, Clone, PartialEq, Eq)]
pub struct ContractMigrationPlan {
    pub subsystem: String,
    pub from_version: String,
    pub to_version: String,
    pub steps: Vec<ContractMigrationStep>,
}

pub struct StepView {
    pub title: Seq<char>,
    pub details: Seq<char>,
}

impl View for ContractMigrationStep {
    type V = StepView;

    open spec fn view(&self) -> StepView {
        StepView { title: self.title@, details: self.details@ }
    }
}

pub open spec fn steps_view(v: Seq<ContractMigrationStep>) -> Seq<StepView> {
    v.map_values(|s: ContractMigrationStep| s@)
}

/// Some drift of the report has this kind.
pub open spec fn has_kind(drifts: Seq<ContractDriftView>, kind: ContractDriftKind) -> bool {
    exists|i: int| 0 <= i < drifts.len() && #[trigger] drifts[i].kind == kind
}

pub open spec fn step_if(cond: bool, title: Seq<char>, details: Seq<char>) -> Seq<StepView> {
    if cond {
        seq![StepView { title, details }]
    } else {
        Seq::<StepView>::empty()
    }
}

/// The steps before the fallback: one per kind of drift present.
pub open spec fn drift_steps(drifts: Seq<ContractDriftView>) -> Seq<StepView> {
    step_if(
        drifts.len() > 0,
        "Run impact analysis"@,
        "Analyze "@ + dec_seq(drifts.len()) + " detected drift events before rollout."@,
    ) + step_if(
        has_kind(drifts, ContractDriftKind::Data),
        "Introduce compatibility fields"@,
        "Ship dual-read/write support for renamed/removed fields before final removal."@,
    ) + step_if(
        has_kind(drifts, ContractDriftKind::Api) || has_kind(drifts, ContractDriftKind::Event),
        "Version external interfaces"@,
        "Expose both previous and next contract forms during migration to avoid consumer outages."@,
    ) + step_if(
        has_kind(drifts, ContractDriftKind::Process),
        "Backfill missing process emissions"@,
        "Ensure required downstream events are emitted or replayed for in-flight entities."@,
    ) + step_if(
        has_kind(drifts, ContractDriftKind::Ownership),
        "Restore ownership boundaries"@,
        "Move unauthorized writes behind the owning subsystem API."@,
    )
}

/// All migration steps for a drift report.
pub open spec fn migration_steps_spec(drifts: Seq<ContractDriftView>) -> Seq<StepView> {
    let steps = drift_steps(drifts);
    if steps.len() == 0 {
        seq![
            StepView {
                title: "No migration required"@,
                details: "No drift detected; rollout can proceed directly."@,
            },
        ]
    } else {
        steps
    }
}

fn any_kind(drifts: &Vec<ContractDrift>, kind: ContractDriftKind) -> (r: bool)
    ensures
        r == has_kind(drifts_view(drifts@), kind),
{
    let mut i: usize = 0;
    while i < drifts.len()
        invariant
            i <= drifts.len(),
            forall|j: int| 0 <= j < i ==> drifts@[j].kind != kind,
        decreases drifts.len() - i,
    {
        if drifts[i].kind == kind {
            assert(drifts_view(drifts@)[i as int].kind == kind);
            return true;
        }
        i += 1;
    }
    assert forall|j: int| 0 <= j < drifts@.len() implies #[trigger] drifts_view(drifts@)[j].kind != kind by {
        assert(drifts_view(drifts@)[j] == drifts@[j]@);
    }
    false
}

fn push_step(steps: &mut Vec<ContractMigrationStep>, title: &str, details: String)
    ensures
        steps_view(final(steps)@) == steps_view(old(steps)@).push(
            StepView { title: title@, details: details@ },
        ),
{
    let ghost before = steps@;
    steps.push(ContractMigrationStep { title: owned(title), details });
    assert(steps_view(steps@) =~= steps_view(before).push(
        StepView { title: title@, details: details@ },
    ));
}

/// `plan` is the rollout plan from `previous` to `next` for `drifts`: named
/// after the next contract's subsystem, from the previous version to the
/// next, with the steps of `migration_steps_spec`.
pub open spec fn migration_plan_of(
    previous: SubsystemContract,
    next: SubsystemContract,
    drifts: Seq<ContractDriftView>,
    plan: ContractMigrationPlan,
) -> bool {
    &&& plan.subsystem@ == next.subsystem@
    &&& plan.from_version@ == previous.version@
    &&& plan.to_version@ == next.version@
    &&& steps_view(plan.steps@) == migration_steps_spec(drifts)
}

/// The rollout plan from `previous` to `next` for a drift report: impact
/// analysis when anything drifted, then one step per kind of drift present,
/// or a single "no migration" step.
pub fn build_migration_plan(
    previous: &SubsystemContract,
    next: &SubsystemContract,
    drift_report: &ContractDriftReport,
) -> (plan: ContractMigrationPlan)
    ensures
        migration_plan_of(*previous, *next, drifts_view(drift_report.drifts@), plan),
{
    let drifts = &drift_report.drifts;
    let mut steps: Vec<ContractMigrationStep> = Vec::new();
    let ghost d = drifts_view(drifts@);
    if drifts.len() > 0 {
        let n = dec_string(drifts.len() as u64);
        push_step(
            &mut steps,
            "Run impact analysis",
            cat3("Analyze ", n.as_str(), " detected drift events before rollout."),
        );
    }
    let ghost s1 = steps_view(steps@);
    assert(s1 =~= step_if(
        d.len() > 0,
        "Run impact analysis"@,
        "Analyze "@ + dec_seq(d.len()) + " detected drift events before rollout."@,
    ));
    if any_kind(drifts, ContractDriftKind::Data) {
        push_step(
            &mut steps,
            "Introduce compatibility fields",
            owned("Ship dual-read/write support for renamed/removed fields before final removal."),
        );
    }
    let ghost s2 = steps_view(steps@);
    assert(s2 =~= s1 + step_if(
        has_kind(d, ContractDriftKind::Data),
        "Introduce compatibility fields"@,
        "Ship dual-read/write support for renamed/removed fields before final removal."@,
    ));
    if any_kind(drifts, ContractDriftKind::Api) || any_kind(drifts, ContractDriftKind::Event) {
        push_step(
            &mut steps,
            "Version external interfaces",
            owned(
                "Expose both previous and next contract forms during migration to avoid consumer outages.",
            ),
        );
    }
    let ghost s3 = steps_view(steps@);
    assert(s3 =~= s2 + step_if(
        has_kind(d, ContractDriftKind::Api) || has_kind(d, ContractDriftKind::Event),
        "Version external interfaces"@,
        "Expose both previous and next contract forms during migration to avoid consumer outages."@,
    ));
    if any_kind(drifts, ContractDriftKind::Process) {
        push_step(
            &mut steps,
            "Backfill missing process emissions",
            owned("Ensure required downstream events are emitted or replayed for in-flight entities."),
        );
    }
    let ghost s4 = steps_view(steps@);
    assert(s4 =~= s3 + step_if(
        has_kind(d, ContractDriftKind::Process),
        "Backfill missing process emissions"@,
        "Ensure required downstream events are emitted or replayed for in-flight entities."@,
    ));
    if any_kind(drifts, ContractDriftKind::Ownership) {
        push_step(
            &mut steps,
            "Restore ownership boundaries",
            owned("Move unauthorized writes behind the owning subsystem API."),
        );
    }
    let ghost s5 = steps_view(steps@);
    assert(s5 =~= s4 + step_if(
        has_kind(d, ContractDriftKind::Ownership),
        "Restore ownership boundaries"@,
        "Move unauthorized writes behind the owning subsystem API."@,
    ));
    assert(s5 == drift_steps(d));
    if steps.len() == 0 {
        push_step(
            &mut steps,
            "No migration required",
            owned("No drift detected; rollout can proceed directly."),
        );
        assert(steps_view(steps@) =~= migration_steps_spec(d));
    }
    ContractMigrationPlan {
        subsystem: next.subsystem.clone(),
        from_version: previous.version.clone(),
        to_version: next.version.clone(),
        steps,
    }
}

} // verus!

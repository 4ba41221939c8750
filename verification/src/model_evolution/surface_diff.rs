//! Differences between the workflows, endpoints and permissions of two
//! models, and between two whole models. Items are matched by a lowercased
//! key (the last item of equal keys counts) and visited in sorted key order:
//! first the removed ones, then the added ones, then the changed ones.
use vstd::prelude::*;

use crate::application_model::{ApiEndpoint, PermissionPolicy, Workflow, WorkflowTransition};
use crate::model_evolution::delta::{ChangeKind, ModelDelta};
use crate::model_evolution::model::ModelShape;
use crate::model_evolution::version::{hex_digits, VersionId};
use crate::model_evolution::model::EntityModel;
use crate::model_evolution::renames::{pair_views, rename_pairs, semantic_diff};
use crate::model_evolution::semantic_diff::{
    added_of, change_views, diff_entities, entity_changes, entity_keys, in_keys, key_at, last_index, last_ix,
    lemma_last_ix, lower_strings, not_in_keys, outside, removed_of, rename_of, sorted_keys, sorted_keys_exec,
    updates, EntityChangeView,
};
use crate::strset::contains_string;
use crate::text::{cat3, clone_strings, str_eq, strs, to_lowercase, unicode_lower};

verus! {

// ---------------------------------------------------------------------------
// Positions by key
// ---------------------------------------------------------------------------

pub open spec fn last_in(a: Seq<Seq<char>>) -> spec_fn(Seq<char>) -> int {
    |k: Seq<char>| last_ix(a, k)
}

pub open spec fn pair_in(a: Seq<Seq<char>>, b: Seq<Seq<char>>) -> spec_fn(Seq<char>) -> (int, int) {
    |k: Seq<char>| (last_ix(a, k), last_ix(b, k))
}

/// The positions (of the last item of each key) of the keys of `a` that
/// `b` lacks, in sorted key order.
pub open spec fn missing_ix(a: Seq<Seq<char>>, b: Seq<Seq<char>>) -> Seq<int> {
    sorted_keys(a).filter(not_in_keys(b)).map_values(last_in(a))
}

/// The pairs of positions of the keys on both sides, in sorted key order.
pub open spec fn common_ix(a: Seq<Seq<char>>, b: Seq<Seq<char>>) -> Seq<(int, int)> {
    sorted_keys(a).filter(in_keys(b)).map_values(pair_in(a, b))
}

pub(crate) fn missing_positions(a: &Vec<String>, b: &Vec<String>) -> (r: Vec<usize>)
    ensures
        r@.len() == missing_ix(strs(a@), strs(b@)).len(),
        forall|i: int|
            #![trigger r@[i]]
            0 <= i < r@.len() ==> r@[i] as int == missing_ix(strs(a@), strs(b@))[i] && r@[i] < a@.len(),
{
    let sa = sorted_keys_exec(a);
    let ghost s = strs(sa@);
    let ghost av = strs(a@);
    let ghost bv = strs(b@);
    let ghost p = not_in_keys(bv);
    let ghost f = last_in(av);
    let mut r: Vec<usize> = Vec::new();
    let mut k: usize = 0;
    proof {
        reveal(Seq::filter);
    }
    assert(s.subrange(0, 0).filter(p).map_values(f) =~= Seq::<int>::empty());
    while k < sa.len()
        invariant
            k <= sa@.len(),
            s == strs(sa@),
            s == sorted_keys(av),
            s.to_set() == av.to_set(),
            av == strs(a@),
            bv == strs(b@),
            p == not_in_keys(bv),
            f == last_in(av),
            r@.len() == s.subrange(0, k as int).filter(p).map_values(f).len(),
            forall|i: int|
                #![trigger r@[i]]
                0 <= i < r@.len() ==> r@[i] as int == s.subrange(0, k as int).filter(p).map_values(f)[i]
                    && r@[i] < a@.len(),
        decreases sa@.len() - k,
    {
        proof {
            reveal(Seq::filter);
        }
        let key = sa[k].as_str();
        assert(s[k as int] == key@);
        assert(s.subrange(0, k + 1).drop_last() =~= s.subrange(0, k as int));
        let ghost before = s.subrange(0, k as int).filter(p).map_values(f);
        if !contains_string(b, key) {
            assert(s.to_set().contains(key@));
            assert(av.to_set().contains(key@));
            let j = last_index(a, key);
            r.push(j);
            assert(s.subrange(0, k + 1).filter(p).map_values(f) =~= before.push(f(key@)));
        } else {
            assert(s.subrange(0, k + 1).filter(p).map_values(f) =~= before);
        }
        k += 1;
    }
    assert(s.subrange(0, s.len() as int) =~= s);
    r
}

fn common_positions(a: &Vec<String>, b: &Vec<String>) -> (r: Vec<(usize, usize)>)
    ensures
        r@.len() == common_ix(strs(a@), strs(b@)).len(),
        forall|i: int|
            #![trigger r@[i]]
            0 <= i < r@.len() ==> r@[i].0 as int == common_ix(strs(a@), strs(b@))[i].0 && r@[i].1 as int
                == common_ix(strs(a@), strs(b@))[i].1 && r@[i].0 < a@.len() && r@[i].1 < b@.len(),
{
    let sa = sorted_keys_exec(a);
    let ghost s = strs(sa@);
    let ghost av = strs(a@);
    let ghost bv = strs(b@);
    let ghost p = in_keys(bv);
    let ghost f = pair_in(av, bv);
    let mut r: Vec<(usize, usize)> = Vec::new();
    let mut k: usize = 0;
    proof {
        reveal(Seq::filter);
    }
    assert(s.subrange(0, 0).filter(p).map_values(f) =~= Seq::<(int, int)>::empty());
    while k < sa.len()
        invariant
            k <= sa@.len(),
            s == strs(sa@),
            s == sorted_keys(av),
            s.to_set() == av.to_set(),
            av == strs(a@),
            bv == strs(b@),
            p == in_keys(bv),
            f == pair_in(av, bv),
            r@.len() == s.subrange(0, k as int).filter(p).map_values(f).len(),
            forall|i: int|
                #![trigger r@[i]]
                0 <= i < r@.len() ==> r@[i].0 as int == s.subrange(0, k as int).filter(p).map_values(f)[i].0
                    && r@[i].1 as int == s.subrange(0, k as int).filter(p).map_values(f)[i].1 && r@[i].0
                    < a@.len() && r@[i].1 < b@.len(),
        decreases sa@.len() - k,
    {
        proof {
            reveal(Seq::filter);
        }
        let key = sa[k].as_str();
        assert(s[k as int] == key@);
        assert(s.subrange(0, k + 1).drop_last() =~= s.subrange(0, k as int));
        let ghost before = s.subrange(0, k as int).filter(p).map_values(f);
        if contains_string(b, key) {
            assert(s.to_set().contains(key@));
            assert(av.to_set().contains(key@));
            let i = last_index(a, key);
            let j = last_index(b, key);
            r.push((i, j));
            assert(s.subrange(0, k + 1).filter(p).map_values(f) =~= before.push(f(key@)));
        } else {
            assert(s.subrange(0, k + 1).filter(p).map_values(f) =~= before);
        }
        k += 1;
    }
    assert(s.subrange(0, s.len() as int) =~= s);
    r
}


// ---------------------------------------------------------------------------
// Views of the changes
// ---------------------------------------------------------------------------

pub struct TransitionView {
    pub from: Seq<char>,
    pub allowed: Seq<Seq<char>>,
}

pub struct FlowView {
    pub entity: Seq<char>,
    pub states: Seq<Seq<char>>,
    pub transitions: Seq<TransitionView>,
}

pub struct EndpointView {
    pub method: Seq<char>,
    pub path: Seq<char>,
    pub operation: crate::application_model::CrudOperation,
    pub entity: Seq<char>,
}

pub struct PolicyView {
    pub entity: Seq<char>,
    pub list: bool,
    pub get: bool,
    pub create: bool,
    pub update: bool,
}

pub open spec fn transition_view(t: WorkflowTransition) -> TransitionView {
    TransitionView { from: t.from@, allowed: strs(t.allowed@) }
}

pub open spec fn transition_views(s: Seq<WorkflowTransition>) -> Seq<TransitionView> {
    s.map_values(|t: WorkflowTransition| transition_view(t))
}

pub open spec fn flow_view(w: Workflow) -> FlowView {
    FlowView { entity: w.entity@, states: strs(w.states@), transitions: transition_views(w.transitions@) }
}

pub open spec fn endpoint_view(e: ApiEndpoint) -> EndpointView {
    EndpointView { method: e.method@, path: e.path@, operation: e.operation, entity: e.entity@ }
}

pub open spec fn policy_view(p: PermissionPolicy) -> PolicyView {
    PolicyView { entity: p.entity@, list: p.list, get: p.get, create: p.create, update: p.update }
}

/// A change to the workflows, endpoints or permissions, by its views.
pub enum SurfaceChange {
    WorkflowAdded { workflow: FlowView },
    WorkflowRemoved { entity: Seq<char> },
    WorkflowChanged { entity: Seq<char>, old_states: Seq<Seq<char>>, new_states: Seq<Seq<char>> },
    ApiAdded { endpoint: EndpointView },
    ApiRemoved { method: Seq<char>, path: Seq<char> },
    ApiChanged { method: Seq<char>, path: Seq<char>, old: EndpointView, new: EndpointView },
    PermissionAdded { permission: PolicyView },
    PermissionRemoved { entity: Seq<char> },
    PermissionChanged { entity: Seq<char>, old: PolicyView, new: PolicyView },
    Other,
}

pub open spec fn surface_view(c: ChangeKind) -> SurfaceChange {
    match c {
        ChangeKind::WorkflowAdded { workflow } => SurfaceChange::WorkflowAdded { workflow: flow_view(workflow) },
        ChangeKind::WorkflowRemoved { entity } => SurfaceChange::WorkflowRemoved { entity: entity@ },
        ChangeKind::WorkflowChanged { entity, old_states, new_states } => SurfaceChange::WorkflowChanged {
            entity: entity@,
            old_states: strs(old_states@),
            new_states: strs(new_states@),
        },
        ChangeKind::ApiSurfaceAdded { endpoint } => SurfaceChange::ApiAdded { endpoint: endpoint_view(endpoint) },
        ChangeKind::ApiSurfaceRemoved { method, path } => SurfaceChange::ApiRemoved { method: method@, path: path@ },
        ChangeKind::ApiSurfaceChanged { method, path, old, new } => SurfaceChange::ApiChanged {
            method: method@,
            path: path@,
            old: endpoint_view(old),
            new: endpoint_view(new),
        },
        ChangeKind::PermissionAdded { permission } => SurfaceChange::PermissionAdded {
            permission: policy_view(permission),
        },
        ChangeKind::PermissionRemoved { entity } => SurfaceChange::PermissionRemoved { entity: entity@ },
        ChangeKind::PermissionChanged { entity, old, new } => SurfaceChange::PermissionChanged {
            entity: entity@,
            old: policy_view(old),
            new: policy_view(new),
        },
        _ => SurfaceChange::Other,
    }
}

pub open spec fn surface_views(s: Seq<ChangeKind>) -> Seq<SurfaceChange> {
    s.map_values(|c: ChangeKind| surface_view(c))
}

// ---------------------------------------------------------------------------
// Copies and comparisons
// ---------------------------------------------------------------------------

fn copy_workflow(w: &Workflow) -> (r: Workflow)
    ensures
        flow_view(r) == flow_view(*w),
{
    let mut transitions: Vec<WorkflowTransition> = Vec::new();
    let mut i: usize = 0;
    while i < w.transitions.len()
        invariant
            i <= w.transitions@.len(),
            transition_views(transitions@) == transition_views(w.transitions@.subrange(0, i as int)),
        decreases w.transitions@.len() - i,
    {
        let t = &w.transitions[i];
        let c = WorkflowTransition { from: t.from.clone(), allowed: clone_strings(&t.allowed) };
        let ghost before = transitions@;
        transitions.push(c);
        assert(transition_views(transitions@) =~= transition_views(before).push(transition_view(*t)));
        assert(transition_views(w.transitions@.subrange(0, i + 1)) =~= transition_views(
            w.transitions@.subrange(0, i as int),
        ).push(transition_view(*t)));
        i += 1;
    }
    assert(w.transitions@.subrange(0, w.transitions@.len() as int) =~= w.transitions@);
    Workflow { entity: w.entity.clone(), states: clone_strings(&w.states), transitions }
}

fn copy_endpoint(e: &ApiEndpoint) -> (r: ApiEndpoint)
    ensures
        endpoint_view(r) == endpoint_view(*e),
{
    ApiEndpoint {
        method: e.method.clone(),
        path: e.path.clone(),
        operation: e.operation,
        entity: e.entity.clone(),
    }
}

fn copy_policy(p: &PermissionPolicy) -> (r: PermissionPolicy)
    ensures
        policy_view(r) == policy_view(*p),
{
    PermissionPolicy {
        entity: p.entity.clone(),
        list: p.list,
        get: p.get,
        create: p.create,
        update: p.update,
    }
}

fn same_strings(a: &Vec<String>, b: &Vec<String>) -> (r: bool)
    ensures
        r == (strs(a@) == strs(b@)),
{
    if a.len() != b.len() {
        assert(strs(a@).len() != strs(b@).len());
        return false;
    }
    let mut i: usize = 0;
    while i < a.len()
        invariant
            i <= a@.len(),
            a@.len() == b@.len(),
            forall|j: int| 0 <= j < i ==> (#[trigger] a@[j])@ == b@[j]@,
        decreases a@.len() - i,
    {
        if !str_eq(a[i].as_str(), b[i].as_str()) {
            assert(strs(a@)[i as int] != strs(b@)[i as int]);
            return false;
        }
        i += 1;
    }
    assert(strs(a@) =~= strs(b@));
    true
}

fn same_endpoint(a: &ApiEndpoint, b: &ApiEndpoint) -> (r: bool)
    ensures
        r == (endpoint_view(*a) == endpoint_view(*b)),
{
    str_eq(a.method.as_str(), b.method.as_str()) && str_eq(a.path.as_str(), b.path.as_str())
        && a.operation == b.operation && str_eq(a.entity.as_str(), b.entity.as_str())
}

fn same_policy(a: &PermissionPolicy, b: &PermissionPolicy) -> (r: bool)
    ensures
        r == (policy_view(*a) == policy_view(*b)),
{
    str_eq(a.entity.as_str(), b.entity.as_str()) && a.list == b.list && a.get == b.get && a.create
        == b.create && a.update == b.update
}

// ---------------------------------------------------------------------------
// Workflows
// ---------------------------------------------------------------------------

pub open spec fn workflow_keys(s: Seq<Workflow>) -> Seq<Seq<char>> {
    s.map_values(|w: Workflow| unicode_lower(w.entity@))
}

pub open spec fn workflow_removed(from: Seq<Workflow>) -> spec_fn(int) -> SurfaceChange {
    |i: int| SurfaceChange::WorkflowRemoved { entity: from[i].entity@ }
}

pub open spec fn workflow_added(to: Seq<Workflow>) -> spec_fn(int) -> SurfaceChange {
    |j: int| SurfaceChange::WorkflowAdded { workflow: flow_view(to[j]) }
}

/// For each pair of workflows on both sides whose states differ, the change
/// of states.
pub open spec fn states_changed(pairs: Seq<(int, int)>, from: Seq<Workflow>, to: Seq<Workflow>) -> Seq<
    SurfaceChange,
>
    decreases pairs.len(),
{
    if pairs.len() == 0 {
        Seq::empty()
    } else {
        let prev = states_changed(pairs.drop_last(), from, to);
        let a = from[pairs.last().0];
        let b = to[pairs.last().1];
        if strs(a.states@) != strs(b.states@) {
            prev.push(
                SurfaceChange::WorkflowChanged {
                    entity: b.entity@,
                    old_states: strs(a.states@),
                    new_states: strs(b.states@),
                },
            )
        } else {
            prev
        }
    }
}

/// The workflow changes: removed workflows, added ones, and those whose
/// states changed, keyed by their lowercased entity.
pub open spec fn workflow_changes(from: Seq<Workflow>, to: Seq<Workflow>) -> Seq<SurfaceChange> {
    let fk = workflow_keys(from);
    let tk = workflow_keys(to);
    missing_ix(fk, tk).map_values(workflow_removed(from)) + missing_ix(tk, fk).map_values(
        workflow_added(to),
    ) + states_changed(common_ix(fk, tk), from, to)
}

fn workflow_keys_exec(v: &Vec<Workflow>) -> (r: Vec<String>)
    ensures
        strs(r@) == workflow_keys(v@),
        r@.len() == v@.len(),
{
    let mut names: Vec<String> = Vec::new();
    let mut i: usize = 0;
    while i < v.len()
        invariant
            i <= v@.len(),
            names@.len() == i,
            forall|j: int| 0 <= j < i ==> #[trigger] names@[j]@ == v@[j].entity@,
        decreases v@.len() - i,
    {
        names.push(v[i].entity.clone());
        i += 1;
    }
    let r = lower_strings(&names);
    assert(strs(r@) =~= workflow_keys(v@));
    assert(strs(r@).len() == r@.len());
    r
}

/// The workflow changes from `from` to `to` (see `workflow_changes`).
pub fn diff_workflows(from: &Vec<Workflow>, to: &Vec<Workflow>) -> (r: Vec<ChangeKind>)
    ensures
        surface_views(r@) == workflow_changes(from@, to@),
{
    let fk = workflow_keys_exec(from);
    let tk = workflow_keys_exec(to);
    let removed = missing_positions(&fk, &tk);
    let added = missing_positions(&tk, &fk);
    let common = common_positions(&fk, &tk);
    let ghost mr = missing_ix(strs(fk@), strs(tk@));
    let ghost ma = missing_ix(strs(tk@), strs(fk@));
    let ghost mc = common_ix(strs(fk@), strs(tk@));
    let mut out: Vec<ChangeKind> = Vec::new();
    let mut i: usize = 0;
    while i < removed.len()
        invariant
            i <= removed@.len(),
            removed@.len() == mr.len(),
            forall|k: int| #![trigger removed@[k]] 0 <= k < removed@.len() ==> removed@[k] as int == mr[k] && removed@[k] < from@.len(),
            surface_views(out@) == mr.subrange(0, i as int).map_values(workflow_removed(from@)),
        decreases removed@.len() - i,
    {
        let p = removed[i];
        let ghost before = out@;
        out.push(ChangeKind::WorkflowRemoved { entity: from[p].entity.clone() });
        assert(surface_views(out@) =~= surface_views(before).push(workflow_removed(from@)(mr[i as int])));
        assert(mr.subrange(0, i + 1).map_values(workflow_removed(from@)) =~= mr.subrange(0, i as int).map_values(
            workflow_removed(from@),
        ).push(workflow_removed(from@)(mr[i as int])));
        i += 1;
    }
    assert(mr.subrange(0, mr.len() as int) =~= mr);
    let ghost part1 = surface_views(out@);
    let mut add: Vec<ChangeKind> = Vec::new();
    let mut i: usize = 0;
    while i < added.len()
        invariant
            i <= added@.len(),
            added@.len() == ma.len(),
            forall|k: int| #![trigger added@[k]] 0 <= k < added@.len() ==> added@[k] as int == ma[k] && added@[k] < to@.len(),
            surface_views(add@) == ma.subrange(0, i as int).map_values(workflow_added(to@)),
        decreases added@.len() - i,
    {
        let p = added[i];
        let ghost before = add@;
        add.push(ChangeKind::WorkflowAdded { workflow: copy_workflow(&to[p]) });
        assert(surface_views(add@) =~= surface_views(before).push(workflow_added(to@)(ma[i as int])));
        assert(ma.subrange(0, i + 1).map_values(workflow_added(to@)) =~= ma.subrange(0, i as int).map_values(
            workflow_added(to@),
        ).push(workflow_added(to@)(ma[i as int])));
        i += 1;
    }
    assert(ma.subrange(0, ma.len() as int) =~= ma);
    let mut chg: Vec<ChangeKind> = Vec::new();
    let mut i: usize = 0;
    while i < common.len()
        invariant
            i <= common@.len(),
            common@.len() == mc.len(),
            forall|k: int|
                #![trigger common@[k]]
                0 <= k < common@.len() ==> common@[k].0 as int == mc[k].0 && common@[k].1 as int == mc[k].1
                    && common@[k].0 < from@.len() && common@[k].1 < to@.len(),
            surface_views(chg@) == states_changed(mc.subrange(0, i as int), from@, to@),
        decreases common@.len() - i,
    {
        let (a, b) = common[i];
        let ghost before = chg@;
        assert(mc.subrange(0, i + 1).drop_last() =~= mc.subrange(0, i as int));
        assert(mc.subrange(0, i + 1).last() == mc[i as int]);
        if !same_strings(&from[a].states, &to[b].states) {
            chg.push(
                ChangeKind::WorkflowChanged {
                    entity: to[b].entity.clone(),
                    old_states: clone_strings(&from[a].states),
                    new_states: clone_strings(&to[b].states),
                },
            );
            assert(surface_views(chg@) =~= surface_views(before).push(
                SurfaceChange::WorkflowChanged {
                    entity: to@[b as int].entity@,
                    old_states: strs(from@[a as int].states@),
                    new_states: strs(to@[b as int].states@),
                },
            ));
        }
        i += 1;
    }
    assert(mc.subrange(0, mc.len() as int) =~= mc);
    let ghost part2 = surface_views(add@);
    let ghost part3 = surface_views(chg@);
    out.append(&mut add);
    out.append(&mut chg);
    assert(surface_views(out@) =~= part1 + part2 + part3);
    out
}


// ---------------------------------------------------------------------------
// Endpoints
// ---------------------------------------------------------------------------

pub open spec fn api_keys(s: Seq<ApiEndpoint>) -> Seq<Seq<char>> {
    s.map_values(|e: ApiEndpoint| unicode_lower(e.method@) + ":"@ + unicode_lower(e.path@))
}

pub open spec fn api_removed(from: Seq<ApiEndpoint>) -> spec_fn(int) -> SurfaceChange {
    |i: int| SurfaceChange::ApiRemoved { method: from[i].method@, path: from[i].path@ }
}

pub open spec fn api_added(to: Seq<ApiEndpoint>) -> spec_fn(int) -> SurfaceChange {
    |j: int| SurfaceChange::ApiAdded { endpoint: endpoint_view(to[j]) }
}

/// For each pair of endpoints on both sides that differ, the change.
pub open spec fn endpoints_changed(
    pairs: Seq<(int, int)>,
    from: Seq<ApiEndpoint>,
    to: Seq<ApiEndpoint>,
) -> Seq<SurfaceChange>
    decreases pairs.len(),
{
    if pairs.len() == 0 {
        Seq::empty()
    } else {
        let prev = endpoints_changed(pairs.drop_last(), from, to);
        let a = from[pairs.last().0];
        let b = to[pairs.last().1];
        if endpoint_view(a) != endpoint_view(b) {
            prev.push(
                SurfaceChange::ApiChanged {
                    method: b.method@,
                    path: b.path@,
                    old: endpoint_view(a),
                    new: endpoint_view(b),
                },
            )
        } else {
            prev
        }
    }
}

/// The endpoint changes: removed endpoints, added ones, and changed ones,
/// keyed by lowercased method and path.
pub open spec fn api_changes(from: Seq<ApiEndpoint>, to: Seq<ApiEndpoint>) -> Seq<SurfaceChange> {
    let fk = api_keys(from);
    let tk = api_keys(to);
    missing_ix(fk, tk).map_values(api_removed(from)) + missing_ix(tk, fk).map_values(api_added(to))
        + endpoints_changed(common_ix(fk, tk), from, to)
}

fn api_keys_exec(v: &Vec<ApiEndpoint>) -> (r: Vec<String>)
    ensures
        strs(r@) == api_keys(v@),
        r@.len() == v@.len(),
{
    let mut r: Vec<String> = Vec::new();
    let mut i: usize = 0;
    while i < v.len()
        invariant
            i <= v@.len(),
            r@.len() == i,
            forall|j: int|
                0 <= j < i ==> #[trigger] r@[j]@ == unicode_lower(v@[j].method@) + ":"@ + unicode_lower(
                    v@[j].path@,
                ),
        decreases v@.len() - i,
    {
        let m = to_lowercase(v[i].method.as_str());
        let p = to_lowercase(v[i].path.as_str());
        r.push(cat3(m.as_str(), ":", p.as_str()));
        i += 1;
    }
    assert(strs(r@) =~= api_keys(v@));
    r
}

/// The endpoint changes from `from` to `to` (see `api_changes`).
pub fn diff_api(from: &Vec<ApiEndpoint>, to: &Vec<ApiEndpoint>) -> (r: Vec<ChangeKind>)
    ensures
        surface_views(r@) == api_changes(from@, to@),
{
    let fk = api_keys_exec(from);
    let tk = api_keys_exec(to);
    let removed = missing_positions(&fk, &tk);
    let added = missing_positions(&tk, &fk);
    let common = common_positions(&fk, &tk);
    let ghost mr = missing_ix(strs(fk@), strs(tk@));
    let ghost ma = missing_ix(strs(tk@), strs(fk@));
    let ghost mc = common_ix(strs(fk@), strs(tk@));
    let mut out: Vec<ChangeKind> = Vec::new();
    let mut i: usize = 0;
    while i < removed.len()
        invariant
            i <= removed@.len(),
            removed@.len() == mr.len(),
            forall|k: int| #![trigger removed@[k]] 0 <= k < removed@.len() ==> removed@[k] as int == mr[k] && removed@[k] < from@.len(),
            surface_views(out@) == mr.subrange(0, i as int).map_values(api_removed(from@)),
        decreases removed@.len() - i,
    {
        let p = removed[i];
        let ghost before = out@;
        out.push(ChangeKind::ApiSurfaceRemoved { method: from[p].method.clone(), path: from[p].path.clone() });
        assert(surface_views(out@) =~= surface_views(before).push(api_removed(from@)(mr[i as int])));
        assert(mr.subrange(0, i + 1).map_values(api_removed(from@)) =~= mr.subrange(0, i as int).map_values(
            api_removed(from@),
        ).push(api_removed(from@)(mr[i as int])));
        i += 1;
    }
    assert(mr.subrange(0, mr.len() as int) =~= mr);
    let ghost part1 = surface_views(out@);
    let mut add: Vec<ChangeKind> = Vec::new();
    let mut i: usize = 0;
    while i < added.len()
        invariant
            i <= added@.len(),
            added@.len() == ma.len(),
            forall|k: int| #![trigger added@[k]] 0 <= k < added@.len() ==> added@[k] as int == ma[k] && added@[k] < to@.len(),
            surface_views(add@) == ma.subrange(0, i as int).map_values(api_added(to@)),
        decreases added@.len() - i,
    {
        let p = added[i];
        let ghost before = add@;
        add.push(ChangeKind::ApiSurfaceAdded { endpoint: copy_endpoint(&to[p]) });
        assert(surface_views(add@) =~= surface_views(before).push(api_added(to@)(ma[i as int])));
        assert(ma.subrange(0, i + 1).map_values(api_added(to@)) =~= ma.subrange(0, i as int).map_values(
            api_added(to@),
        ).push(api_added(to@)(ma[i as int])));
        i += 1;
    }
    assert(ma.subrange(0, ma.len() as int) =~= ma);
    let mut chg: Vec<ChangeKind> = Vec::new();
    let mut i: usize = 0;
    while i < common.len()
        invariant
            i <= common@.len(),
            common@.len() == mc.len(),
            forall|k: int|
                #![trigger common@[k]]
                0 <= k < common@.len() ==> common@[k].0 as int == mc[k].0 && common@[k].1 as int == mc[k].1
                    && common@[k].0 < from@.len() && common@[k].1 < to@.len(),
            surface_views(chg@) == endpoints_changed(mc.subrange(0, i as int), from@, to@),
        decreases common@.len() - i,
    {
        let (a, b) = common[i];
        let ghost before = chg@;
        assert(mc.subrange(0, i + 1).drop_last() =~= mc.subrange(0, i as int));
        assert(mc.subrange(0, i + 1).last() == mc[i as int]);
        if !same_endpoint(&from[a], &to[b]) {
            chg.push(
                ChangeKind::ApiSurfaceChanged {
                    method: to[b].method.clone(),
                    path: to[b].path.clone(),
                    old: copy_endpoint(&from[a]),
                    new: copy_endpoint(&to[b]),
                },
            );
            assert(surface_views(chg@) =~= surface_views(before).push(
                SurfaceChange::ApiChanged {
                    method: to@[b as int].method@,
                    path: to@[b as int].path@,
                    old: endpoint_view(from@[a as int]),
                    new: endpoint_view(to@[b as int]),
                },
            ));
        }
        i += 1;
    }
    assert(mc.subrange(0, mc.len() as int) =~= mc);
    let ghost part2 = surface_views(add@);
    let ghost part3 = surface_views(chg@);
    out.append(&mut add);
    out.append(&mut chg);
    assert(surface_views(out@) =~= part1 + part2 + part3);
    out
}

// ---------------------------------------------------------------------------
// Permissions
// ---------------------------------------------------------------------------

pub open spec fn policy_keys(s: Seq<PermissionPolicy>) -> Seq<Seq<char>> {
    s.map_values(|p: PermissionPolicy| unicode_lower(p.entity@))
}

pub open spec fn policy_removed(from: Seq<PermissionPolicy>) -> spec_fn(int) -> SurfaceChange {
    |i: int| SurfaceChange::PermissionRemoved { entity: from[i].entity@ }
}

pub open spec fn policy_added(to: Seq<PermissionPolicy>) -> spec_fn(int) -> SurfaceChange {
    |j: int| SurfaceChange::PermissionAdded { permission: policy_view(to[j]) }
}

/// For each pair of policies on both sides that differ, the change.
pub open spec fn policies_changed(
    pairs: Seq<(int, int)>,
    from: Seq<PermissionPolicy>,
    to: Seq<PermissionPolicy>,
) -> Seq<SurfaceChange>
    decreases pairs.len(),
{
    if pairs.len() == 0 {
        Seq::empty()
    } else {
        let prev = policies_changed(pairs.drop_last(), from, to);
        let a = from[pairs.last().0];
        let b = to[pairs.last().1];
        if policy_view(a) != policy_view(b) {
            prev.push(
                SurfaceChange::PermissionChanged { entity: b.entity@, old: policy_view(a), new: policy_view(b) },
            )
        } else {
            prev
        }
    }
}

/// The permission changes: removed policies, added ones, and changed ones,
/// keyed by their lowercased entity.
pub open spec fn permission_changes(from: Seq<PermissionPolicy>, to: Seq<PermissionPolicy>) -> Seq<
    SurfaceChange,
> {
    let fk = policy_keys(from);
    let tk = policy_keys(to);
    missing_ix(fk, tk).map_values(policy_removed(from)) + missing_ix(tk, fk).map_values(
        policy_added(to),
    ) + policies_changed(common_ix(fk, tk), from, to)
}

fn policy_keys_exec(v: &Vec<PermissionPolicy>) -> (r: Vec<String>)
    ensures
        strs(r@) == policy_keys(v@),
        r@.len() == v@.len(),
{
    let mut names: Vec<String> = Vec::new();
    let mut i: usize = 0;
    while i < v.len()
        invariant
            i <= v@.len(),
            names@.len() == i,
            forall|j: int| 0 <= j < i ==> #[trigger] names@[j]@ == v@[j].entity@,
        decreases v@.len() - i,
    {
        names.push(v[i].entity.clone());
        i += 1;
    }
    let r = lower_strings(&names);
    assert(strs(r@) =~= policy_keys(v@));
    assert(strs(r@).len() == r@.len());
    r
}

/// The permission changes from `from` to `to` (see `permission_changes`).
pub fn diff_permissions(from: &Vec<PermissionPolicy>, to: &Vec<PermissionPolicy>) -> (r: Vec<ChangeKind>)
    ensures
        surface_views(r@) == permission_changes(from@, to@),
{
    let fk = policy_keys_exec(from);
    let tk = policy_keys_exec(to);
    let removed = missing_positions(&fk, &tk);
    let added = missing_positions(&tk, &fk);
    let common = common_positions(&fk, &tk);
    let ghost mr = missing_ix(strs(fk@), strs(tk@));
    let ghost ma = missing_ix(strs(tk@), strs(fk@));
    let ghost mc = common_ix(strs(fk@), strs(tk@));
    let mut out: Vec<ChangeKind> = Vec::new();
    let mut i: usize = 0;
    while i < removed.len()
        invariant
            i <= removed@.len(),
            removed@.len() == mr.len(),
            forall|k: int| #![trigger removed@[k]] 0 <= k < removed@.len() ==> removed@[k] as int == mr[k] && removed@[k] < from@.len(),
            surface_views(out@) == mr.subrange(0, i as int).map_values(policy_removed(from@)),
        decreases removed@.len() - i,
    {
        let p = removed[i];
        let ghost before = out@;
        out.push(ChangeKind::PermissionRemoved { entity: from[p].entity.clone() });
        assert(surface_views(out@) =~= surface_views(before).push(policy_removed(from@)(mr[i as int])));
        assert(mr.subrange(0, i + 1).map_values(policy_removed(from@)) =~= mr.subrange(0, i as int).map_values(
            policy_removed(from@),
        ).push(policy_removed(from@)(mr[i as int])));
        i += 1;
    }
    assert(mr.subrange(0, mr.len() as int) =~= mr);
    let ghost part1 = surface_views(out@);
    let mut add: Vec<ChangeKind> = Vec::new();
    let mut i: usize = 0;
    while i < added.len()
        invariant
            i <= added@.len(),
            added@.len() == ma.len(),
            forall|k: int| #![trigger added@[k]] 0 <= k < added@.len() ==> added@[k] as int == ma[k] && added@[k] < to@.len(),
            surface_views(add@) == ma.subrange(0, i as int).map_values(policy_added(to@)),
        decreases added@.len() - i,
    {
        let p = added[i];
        let ghost before = add@;
        add.push(ChangeKind::PermissionAdded { permission: copy_policy(&to[p]) });
        assert(surface_views(add@) =~= surface_views(before).push(policy_added(to@)(ma[i as int])));
        assert(ma.subrange(0, i + 1).map_values(policy_added(to@)) =~= ma.subrange(0, i as int).map_values(
            policy_added(to@),
        ).push(policy_added(to@)(ma[i as int])));
        i += 1;
    }
    assert(ma.subrange(0, ma.len() as int) =~= ma);
    let mut chg: Vec<ChangeKind> = Vec::new();
    let mut i: usize = 0;
    while i < common.len()
        invariant
            i <= common@.len(),
            common@.len() == mc.len(),
            forall|k: int|
                #![trigger common@[k]]
                0 <= k < common@.len() ==> common@[k].0 as int == mc[k].0 && common@[k].1 as int == mc[k].1
                    && common@[k].0 < from@.len() && common@[k].1 < to@.len(),
            surface_views(chg@) == policies_changed(mc.subrange(0, i as int), from@, to@),
        decreases common@.len() - i,
    {
        let (a, b) = common[i];
        let ghost before = chg@;
        assert(mc.subrange(0, i + 1).drop_last() =~= mc.subrange(0, i as int));
        assert(mc.subrange(0, i + 1).last() == mc[i as int]);
        if !same_policy(&from[a], &to[b]) {
            chg.push(
                ChangeKind::PermissionChanged {
                    entity: to[b].entity.clone(),
                    old: copy_policy(&from[a]),
                    new: copy_policy(&to[b]),
                },
            );
            assert(surface_views(chg@) =~= surface_views(before).push(
                SurfaceChange::PermissionChanged {
                    entity: to@[b as int].entity@,
                    old: policy_view(from@[a as int]),
                    new: policy_view(to@[b as int]),
                },
            ));
        }
        i += 1;
    }
    assert(mc.subrange(0, mc.len() as int) =~= mc);
    let ghost part2 = surface_views(add@);
    let ghost part3 = surface_views(chg@);
    out.append(&mut add);
    out.append(&mut chg);
    assert(surface_views(out@) =~= part1 + part2 + part3);
    out
}


// ---------------------------------------------------------------------------
// Whole models
// ---------------------------------------------------------------------------

/// `changes` are the changes from one model to another: a change of the
/// application's name, when it changed; then the entity changes (see
/// `entity_changes`, with the renames given); then the workflow, endpoint
/// and permission changes.
pub open spec fn model_changes_are(
    from: ModelShape,
    to: ModelShape,
    renamed: Seq<(usize, usize, String)>,
    changes: Seq<ChangeKind>,
) -> bool {
    let info: int = if from.application.name@ != to.application.name@ {
        1
    } else {
        0
    };
    let ents = entity_changes(from.entities@, to.entities@, renamed);
    let rest = workflow_changes(from.workflows@, to.workflows@) + api_changes(from.api@, to.api@)
        + permission_changes(from.permissions@, to.permissions@);
    &&& changes.len() == info + ents.len() + rest.len()
    &&& info == 1 ==> (changes[0] matches ChangeKind::ApplicationInfoChanged { old_name, new_name }
        && old_name@ == from.application.name@ && new_name@ == to.application.name@)
    &&& change_views(changes.subrange(info, info + ents.len())) == ents
    &&& surface_views(changes.subrange(info + ents.len(), changes.len() as int)) == rest
}

/// The changes from one model to another (see `model_changes_are`);
/// `renamed` holds the pairs of entities judged to be one entity renamed.
pub fn diff_models(from: &ModelShape, to: &ModelShape, renamed: &Vec<(usize, usize, String)>) -> (r: Vec<
    ChangeKind,
>)
    requires
        forall|i: int|
            0 <= i < renamed@.len() ==> (#[trigger] renamed@[i]).0 < from.entities@.len() && renamed@[i].1
                < to.entities@.len(),
    ensures
        model_changes_are(*from, *to, renamed@, r@),
{
    let mut out: Vec<ChangeKind> = Vec::new();
    if !str_eq(from.application.name.as_str(), to.application.name.as_str()) {
        out.push(
            ChangeKind::ApplicationInfoChanged {
                old_name: from.application.name.clone(),
                new_name: to.application.name.clone(),
            },
        );
    }
    let ghost info = out@;
    let mut ents = diff_entities(&from.entities, &to.entities, renamed);
    let ghost ev = ents@;
    let mut wf = diff_workflows(&from.workflows, &to.workflows);
    let mut api = diff_api(&from.api, &to.api);
    let mut perm = diff_permissions(&from.permissions, &to.permissions);
    let ghost w0 = wf@;
    let ghost a0 = api@;
    let ghost p0 = perm@;
    let ghost sv = w0 + a0 + p0;
    out.append(&mut ents);
    out.append(&mut wf);
    out.append(&mut api);
    out.append(&mut perm);
    assert(out@ =~= info + ev + sv);
    assert(out@.subrange(info.len() as int, (info.len() + ev.len()) as int) =~= ev);
    assert(out@.subrange((info.len() + ev.len()) as int, out@.len() as int) =~= sv);
    assert(surface_views(sv) =~= surface_views(w0) + surface_views(a0) + surface_views(p0));
    out
}

/// A delta from version `from_version` holding the changes from one model
/// to another (see `semantic_diff`, renames judged at `threshold_thousandths`),
/// with the evidence behind them and the default confidence (800
/// thousandths), identified by a fresh id drawn from `random`.
pub fn compute_delta(
    from_version: VersionId,
    from: &ModelShape,
    to: &ModelShape,
    threshold_thousandths: u32,
    evidence_refs: Vec<String>,
    random: u64,
) -> (r: ModelDelta)
    ensures
        r.id.0@ == "delta-"@ + hex_digits(random as nat, 16),
        r.from == from_version,
        exists|renamed: Seq<(usize, usize, String)>|
            #[trigger] pair_views(renamed) == rename_pairs(from.entities@, to.entities@, threshold_thousandths)
                && model_changes_are(*from, *to, renamed, r.changes@),
        r.evidence_refs == evidence_refs,
        r.confidence == 800,
        r.conflicts@.len() == 0,
{
    let changes = semantic_diff(from, to, threshold_thousandths);
    ModelDelta::new(from_version, changes, evidence_refs, 800, random)
}


// ---------------------------------------------------------------------------
// A model has no changes from itself
// ---------------------------------------------------------------------------

pub(crate) proof fn lemma_filter_none<A>(s: Seq<A>, p: spec_fn(A) -> bool)
    requires
        forall|i: int| 0 <= i < s.len() ==> !p(#[trigger] s[i]),
    ensures
        s.filter(p).len() == 0,
    decreases s.len(),
{
    reveal(Seq::filter);
    if s.len() > 0 {
        assert forall|i: int| 0 <= i < s.drop_last().len() implies !p(#[trigger] s.drop_last()[i]) by {
            assert(s.drop_last()[i] == s[i]);
        }
        lemma_filter_none(s.drop_last(), p);
        assert(!p(s[s.len() - 1]));
    }
}

/// Every key of `sorted_keys(k)` is a key of `k`.
pub(crate) proof fn lemma_sorted_keys_of(k: Seq<Seq<char>>)
    ensures
        forall|i: int| 0 <= i < sorted_keys(k).len() ==> k.contains(#[trigger] sorted_keys(k)[i]),
{
    vstd::seq_lib::seq_to_set_is_finite(k);
    crate::strset::lemma_sorted_strs_of(k.to_set());
    assert forall|i: int| 0 <= i < sorted_keys(k).len() implies k.contains(#[trigger] sorted_keys(k)[i]) by {
        assert(sorted_keys(k).to_set().contains(sorted_keys(k)[i]));
    }
}

pub(crate) proof fn lemma_nothing_missing(k: Seq<Seq<char>>)
    ensures
        sorted_keys(k).filter(not_in_keys(k)).len() == 0,
        missing_ix(k, k).len() == 0,
{
    lemma_sorted_keys_of(k);
    lemma_filter_none(sorted_keys(k), not_in_keys(k));
}

proof fn lemma_nothing_outside(k: Seq<Seq<char>>)
    ensures
        sorted_keys(k).filter(crate::model_evolution::semantic_diff::outside(k, Seq::empty())).len() == 0,
{
    lemma_sorted_keys_of(k);
    lemma_filter_none(sorted_keys(k), crate::model_evolution::semantic_diff::outside(k, Seq::empty()));
}

/// The common pairs of a key list with itself pair each position with itself.
proof fn lemma_common_with_itself(k: Seq<Seq<char>>)
    ensures
        forall|i: int| 0 <= i < common_ix(k, k).len() ==> (#[trigger] common_ix(k, k)[i]).0 == common_ix(k, k)[i].1,
{
}

proof fn lemma_no_changed_pairs(pairs: Seq<(int, int)>, w: Seq<Workflow>, a: Seq<ApiEndpoint>, p: Seq<PermissionPolicy>)
    requires
        forall|i: int| 0 <= i < pairs.len() ==> (#[trigger] pairs[i]).0 == pairs[i].1,
    ensures
        states_changed(pairs, w, w).len() == 0,
        endpoints_changed(pairs, a, a).len() == 0,
        policies_changed(pairs, p, p).len() == 0,
    decreases pairs.len(),
{
    if pairs.len() > 0 {
        assert forall|i: int| 0 <= i < pairs.drop_last().len() implies (#[trigger] pairs.drop_last()[i]).0
            == pairs.drop_last()[i].1 by {
            assert(pairs.drop_last()[i] == pairs[i]);
        }
        lemma_no_changed_pairs(pairs.drop_last(), w, a, p);
        assert(pairs.last() == pairs[pairs.len() - 1]);
    }
}

proof fn lemma_no_changed_fields(common: Seq<Seq<char>>, f: Seq<crate::application_model::FieldShape>)
    ensures
        crate::model_evolution::semantic_diff::changed_fields(common, f, f).len() == 0,
    decreases common.len(),
{
    if common.len() > 0 {
        lemma_no_changed_fields(common.drop_last(), f);
    }
}

/// An entity has no changes from itself.
pub proof fn law_entity_has_no_changes_from_itself(e: crate::model_evolution::model::EntityModel)
    ensures
        crate::model_evolution::semantic_diff::patch_view_empty(
            crate::model_evolution::semantic_diff::entity_patch(e, e),
        ),
{
    let fk = crate::model_evolution::semantic_diff::field_keys(e.fields@);
    let rk = crate::model_evolution::semantic_diff::rel_keys(e.relationships@);
    lemma_nothing_missing(fk);
    lemma_nothing_missing(rk);
    lemma_no_changed_fields(sorted_keys(fk).filter(in_keys(fk)), e.fields@);
}

proof fn lemma_no_updates(
    common: Seq<Seq<char>>,
    from: Seq<crate::model_evolution::model::EntityModel>,
)
    ensures
        crate::model_evolution::semantic_diff::updates(common, from, from).len() == 0,
    decreases common.len(),
{
    if common.len() > 0 {
        lemma_no_updates(common.drop_last(), from);
        let a = from[last_ix(crate::model_evolution::semantic_diff::entity_keys(from), common.last())];
        law_entity_has_no_changes_from_itself(a);
    }
}

/// A model has no changes from itself (with no renames given).
pub proof fn law_model_has_no_changes_from_itself(m: ModelShape, changes: Seq<ChangeKind>)
    requires
        model_changes_are(m, m, Seq::empty(), changes),
    ensures
        changes.len() == 0,
{
    let fk = crate::model_evolution::semantic_diff::entity_keys(m.entities@);
    lemma_nothing_outside(fk);
    lemma_sorted_keys_of(fk);
    lemma_no_updates(sorted_keys(fk).filter(in_keys(fk)), m.entities@);
    let renamed = Seq::<(usize, usize, String)>::empty();
    assert(renamed.map_values(crate::model_evolution::semantic_diff::key_at(fk, true)) =~= Seq::<Seq<char>>::empty());
    assert(renamed.map_values(crate::model_evolution::semantic_diff::key_at(fk, false)) =~= Seq::<Seq<char>>::empty());
    assert(entity_changes(m.entities@, m.entities@, renamed).len() == 0);
    let wk = workflow_keys(m.workflows@);
    let ak = api_keys(m.api@);
    let pk = policy_keys(m.permissions@);
    lemma_nothing_missing(wk);
    lemma_nothing_missing(ak);
    lemma_nothing_missing(pk);
    lemma_common_with_itself(wk);
    lemma_common_with_itself(ak);
    lemma_common_with_itself(pk);
    lemma_no_changed_pairs(common_ix(wk, wk), m.workflows@, m.api@, m.permissions@);
    lemma_no_changed_pairs(common_ix(ak, ak), m.workflows@, m.api@, m.permissions@);
    lemma_no_changed_pairs(common_ix(pk, pk), m.workflows@, m.api@, m.permissions@);
}


// ---------------------------------------------------------------------------
// Renames are neither removals nor additions
// ---------------------------------------------------------------------------

proof fn lemma_updates_are_updates(common: Seq<Seq<char>>, from: Seq<EntityModel>, to: Seq<EntityModel>)
    ensures
        forall|i: int| 0 <= i < updates(common, from, to).len() ==> (#[trigger] updates(common, from, to)[i]) is Updated,
    decreases common.len(),
{
    if common.len() > 0 {
        lemma_updates_are_updates(common.drop_last(), from, to);
    }
}

/// A change that is not the removal of an entity whose lowercased name is
/// among `gone`, nor the addition of one whose lowercased name is among
/// `came`.
pub open spec fn apart_from(c: EntityChangeView, gone: Seq<Seq<char>>, came: Seq<Seq<char>>) -> bool {
    match c {
        EntityChangeView::Removed { name } => !gone.contains(unicode_lower(name)),
        EntityChangeView::Added { entity } => !came.contains(unicode_lower(entity.name@)),
        _ => true,
    }
}

/// An entity judged renamed is reported as a rename, first, and never as
/// removed or added: no removal names an entity whose lowercased name is
/// that of a renamed entity of the old list, and no addition one of a
/// renamed entity of the new list.
pub proof fn law_renames_are_not_removals_or_additions(
    from: Seq<EntityModel>,
    to: Seq<EntityModel>,
    renamed: Seq<(usize, usize, String)>,
)
    requires
        forall|i: int| 0 <= i < renamed.len() ==> (#[trigger] renamed[i]).0 < from.len() && renamed[i].1 < to.len(),
    ensures
        forall|i: int|
            0 <= i < renamed.len() ==> entity_changes(from, to, renamed)[i] == rename_of(from, to)(
                #[trigger] renamed[i],
            ),
        forall|p: int|
            0 <= p < entity_changes(from, to, renamed).len() ==> apart_from(
                #[trigger] entity_changes(from, to, renamed)[p],
                renamed.map_values(key_at(entity_keys(from), true)),
                renamed.map_values(key_at(entity_keys(to), false)),
            ),
{
    let fk = entity_keys(from);
    let tk = entity_keys(to);
    let hr = renamed.map_values(key_at(fk, true));
    let ha = renamed.map_values(key_at(tk, false));
    let r = renamed.map_values(rename_of(from, to));
    let sm = sorted_keys(fk).filter(outside(tk, hr));
    let sa = sorted_keys(tk).filter(outside(fk, ha));
    let m = sm.map_values(removed_of(from));
    let a = sa.map_values(added_of(to));
    let u = updates(sorted_keys(fk).filter(in_keys(tk)), from, to);
    let c = entity_changes(from, to, renamed);
    assert(c == r + m + a + u);
    lemma_sorted_keys_of(fk);
    lemma_sorted_keys_of(tk);
    lemma_updates_are_updates(sorted_keys(fk).filter(in_keys(tk)), from, to);
    assert forall|i: int| 0 <= i < renamed.len() implies c[i] == rename_of(from, to)(#[trigger] renamed[i]) by {
        assert(c[i] == r[i]);
    }
    assert forall|q: int| 0 <= q < sm.len() implies !hr.contains(unicode_lower(from[last_ix(fk, #[trigger] sm[q])].name@)) by {
        sorted_keys(fk).lemma_filter_pred(outside(tk, hr), q);
        let k = sm[q];
        assert(sm.contains(k));
        sorted_keys(fk).lemma_filter_contains_rev(outside(tk, hr), k);
        let w = choose|w: int| 0 <= w < sorted_keys(fk).len() && sorted_keys(fk)[w] == k;
        assert(fk.contains(sorted_keys(fk)[w]));
        lemma_last_ix(fk, k);
        assert(fk[last_ix(fk, k)] == unicode_lower(from[last_ix(fk, k)].name@));
    }
    assert forall|q: int| 0 <= q < sa.len() implies !ha.contains(unicode_lower(to[last_ix(tk, #[trigger] sa[q])].name@)) by {
        sorted_keys(tk).lemma_filter_pred(outside(fk, ha), q);
        let k = sa[q];
        assert(sa.contains(k));
        sorted_keys(tk).lemma_filter_contains_rev(outside(fk, ha), k);
        let w = choose|w: int| 0 <= w < sorted_keys(tk).len() && sorted_keys(tk)[w] == k;
        assert(tk.contains(sorted_keys(tk)[w]));
        lemma_last_ix(tk, k);
        assert(tk[last_ix(tk, k)] == unicode_lower(to[last_ix(tk, k)].name@));
    }
    assert forall|p: int| 0 <= p < c.len() implies apart_from(#[trigger] c[p], hr, ha) by {
        if p < r.len() {
            assert(c[p] == r[p]);
        } else if p < r.len() + m.len() {
            let q = p - r.len();
            assert(c[p] == m[q]);
            assert(m[q] == removed_of(from)(sm[q]));
        } else if p < r.len() + m.len() + a.len() {
            let q = p - r.len() - m.len();
            assert(c[p] == a[q]);
            assert(a[q] == added_of(to)(sa[q]));
        } else {
            let q = p - r.len() - m.len() - a.len();
            assert(c[p] == u[q]);
        }
    }
}

} // verus!

//! Applying a list of changes to a model: each change is matched by name
//! (entities, workflows and permissions by entity name, endpoints by method
//! and path) and applied in order; a change whose target is missing, or an
//! addition whose name is taken, leaves the model as it was.
use vstd::prelude::*;

use crate::application_model::{ApiEndpoint, ApplicationInfo, FieldShape, PermissionPolicy, Workflow};
use crate::model_evolution::delta::{ChangeKind, EntityPatch, FieldPatch};
use crate::model_evolution::model::{
    entity_view, entity_views, model_view, workflow_view, workflow_views, EntityModel, EntityView,
    ModelShape, ModelView, RelationshipShape, WorkflowView,
};
use crate::text::str_eq;

verus! {

// ---------------------------------------------------------------------------
// Finding by a condition
// ---------------------------------------------------------------------------

/// The position of the first element meeting `p`, or -1.
pub open spec fn first_where<T>(s: Seq<T>, p: spec_fn(T) -> bool) -> int
    decreases s.len(),
{
    if s.len() == 0 {
        -1
    } else if p(s[0]) {
        0
    } else if first_where(s.drop_first(), p) < 0 {
        -1
    } else {
        1 + first_where(s.drop_first(), p)
    }
}

proof fn lemma_first_where<T>(s: Seq<T>, p: spec_fn(T) -> bool)
    ensures
        -1 <= first_where(s, p) < s.len(),
        first_where(s, p) >= 0 ==> p(s[first_where(s, p)]),
        forall|j: int| 0 <= j < s.len() && (first_where(s, p) < 0 || j < first_where(s, p)) ==> !p(s[j]),
    decreases s.len(),
{
    if s.len() > 0 {
        lemma_first_where(s.drop_first(), p);
        assert forall|j: int| 0 <= j < s.len() && (first_where(s, p) < 0 || j < first_where(s, p)) implies !p(s[j]) by {
            if j > 0 {
                assert(s[j] == s.drop_first()[j - 1]);
            }
        }
    }
}

proof fn lemma_first_where_is<T>(s: Seq<T>, p: spec_fn(T) -> bool, k: int)
    requires
        -1 <= k < s.len(),
        k >= 0 ==> p(s[k]),
        forall|j: int| 0 <= j < s.len() && (k < 0 || j < k) ==> !p(s[j]),
    ensures
        first_where(s, p) == k,
{
    lemma_first_where(s, p);
    let f = first_where(s, p);
    if f >= 0 && (k < 0 || f < k) {
        assert(p(s[f]));
    }
    if k >= 0 && (f < 0 || k < f) {
        assert(p(s[k]));
    }
}

// ---------------------------------------------------------------------------
// The specification
// ---------------------------------------------------------------------------

pub open spec fn entity_named(name: Seq<char>) -> spec_fn(EntityView) -> bool {
    |e: EntityView| e.name@ == name
}

pub open spec fn entity_not_named(name: Seq<char>) -> spec_fn(EntityView) -> bool {
    |e: EntityView| e.name@ != name
}

pub open spec fn field_named(name: Seq<char>) -> spec_fn(FieldShape) -> bool {
    |f: FieldShape| f.name@ == name
}

pub open spec fn rel_named(name: Seq<char>) -> spec_fn(RelationshipShape) -> bool {
    |r: RelationshipShape| r.name@ == name
}

pub open spec fn rel_not_named(name: Seq<char>) -> spec_fn(RelationshipShape) -> bool {
    |r: RelationshipShape| r.name@ != name
}

/// Whether some string of `v` reads `x`.
pub open spec fn str_in(v: Seq<String>, x: Seq<char>) -> bool {
    exists|i: int| 0 <= i < v.len() && v[i]@ == x
}

pub open spec fn field_kept(removed: Seq<String>) -> spec_fn(FieldShape) -> bool {
    |f: FieldShape| !str_in(removed, f.name@)
}

pub open spec fn rel_kept(removed: Seq<String>) -> spec_fn(RelationshipShape) -> bool {
    |r: RelationshipShape| !str_in(removed, r.name@)
}

pub open spec fn workflow_for(entity: Seq<char>) -> spec_fn(WorkflowView) -> bool {
    |w: WorkflowView| w.entity@ == entity
}

pub open spec fn workflow_not_for(entity: Seq<char>) -> spec_fn(WorkflowView) -> bool {
    |w: WorkflowView| w.entity@ != entity
}

pub open spec fn endpoint_at(method: Seq<char>, path: Seq<char>) -> spec_fn(ApiEndpoint) -> bool {
    |e: ApiEndpoint| e.method@ == method && e.path@ == path
}

pub open spec fn endpoint_not_at(method: Seq<char>, path: Seq<char>) -> spec_fn(ApiEndpoint) -> bool {
    |e: ApiEndpoint| !(e.method@ == method && e.path@ == path)
}

pub open spec fn permission_for(entity: Seq<char>) -> spec_fn(PermissionPolicy) -> bool {
    |p: PermissionPolicy| p.entity@ == entity
}

pub open spec fn permission_not_for(entity: Seq<char>) -> spec_fn(PermissionPolicy) -> bool {
    |p: PermissionPolicy| p.entity@ != entity
}

/// The first `n` added fields appended in turn, each unless a field of its
/// name is already there.
pub open spec fn add_fields(fields: Seq<FieldShape>, adds: Seq<FieldShape>, n: int) -> Seq<FieldShape>
    decreases n,
{
    if n <= 0 || n > adds.len() {
        fields
    } else {
        let prev = add_fields(fields, adds, n - 1);
        if first_where(prev, field_named(adds[n - 1].name@)) >= 0 {
            prev
        } else {
            prev.push(adds[n - 1])
        }
    }
}

/// The first `n` field changes applied in turn: the first field of the
/// patched name takes the new value, where there is one.
pub open spec fn change_fields(fields: Seq<FieldShape>, chs: Seq<FieldPatch>, n: int) -> Seq<FieldShape>
    decreases n,
{
    if n <= 0 || n > chs.len() {
        fields
    } else {
        let prev = change_fields(fields, chs, n - 1);
        let k = first_where(prev, field_named(chs[n - 1].field_name@));
        match chs[n - 1].new_value {
            Some(v) => if k >= 0 {
                prev.update(k, v)
            } else {
                prev
            },
            None => prev,
        }
    }
}

/// The first `n` added relationships appended in turn, each unless one of
/// its name is already there.
pub open spec fn add_rels(
    rels: Seq<RelationshipShape>,
    adds: Seq<RelationshipShape>,
    n: int,
) -> Seq<RelationshipShape>
    decreases n,
{
    if n <= 0 || n > adds.len() {
        rels
    } else {
        let prev = add_rels(rels, adds, n - 1);
        if first_where(prev, rel_named(adds[n - 1].name@)) >= 0 {
            prev
        } else {
            prev.push(adds[n - 1])
        }
    }
}

/// An entity with a patch applied: fields added, removed, then changed;
/// relationships added, then removed; the new confidence, if any.
pub open spec fn patch_entity(e: EntityView, p: EntityPatch) -> EntityView {
    let f1 = add_fields(e.fields, p.fields_added@, p.fields_added@.len() as int);
    let f2 = f1.filter(field_kept(p.fields_removed@));
    let f3 = change_fields(f2, p.fields_changed@, p.fields_changed@.len() as int);
    let r1 = add_rels(e.relationships, p.relationships_added@, p.relationships_added@.len() as int);
    let r2 = r1.filter(rel_kept(p.relationships_removed@));
    EntityView {
        name: e.name,
        confidence: match p.confidence_changed {
            Some(c) => c.1,
            None => e.confidence,
        },
        fields: f3,
        relationships: r2,
        constraints: e.constraints,
    }
}

/// The model after one change.
pub open spec fn apply_one(m: ModelView, c: ChangeKind) -> ModelView {
    match c {
        ChangeKind::EntityAdded { entity } => if first_where(m.entities, entity_named(entity.name@)) >= 0 {
            m
        } else {
            ModelView { entities: m.entities.push(entity_view(entity)), ..m }
        },
        ChangeKind::EntityRemoved { name } => ModelView {
            entities: m.entities.filter(entity_not_named(name@)),
            ..m
        },
        ChangeKind::EntityUpdated { name, changes } => {
            let k = first_where(m.entities, entity_named(name@));
            if k >= 0 {
                ModelView { entities: m.entities.update(k, patch_entity(m.entities[k], changes)), ..m }
            } else {
                m
            }
        },
        ChangeKind::EntityRenamed { from, to, .. } => {
            let k = first_where(m.entities, entity_named(from@));
            if k >= 0 {
                ModelView { entities: m.entities.update(k, EntityView { name: to, ..m.entities[k] }), ..m }
            } else {
                m
            }
        },
        ChangeKind::RelationshipAdded { entity, relationship } => {
            let k = first_where(m.entities, entity_named(entity@));
            if k >= 0 && first_where(m.entities[k].relationships, rel_named(relationship.name@)) < 0 {
                ModelView {
                    entities: m.entities.update(
                        k,
                        EntityView {
                            relationships: m.entities[k].relationships.push(relationship),
                            ..m.entities[k]
                        },
                    ),
                    ..m
                }
            } else {
                m
            }
        },
        ChangeKind::RelationshipRemoved { entity, relationship_name } => {
            let k = first_where(m.entities, entity_named(entity@));
            if k >= 0 {
                ModelView {
                    entities: m.entities.update(
                        k,
                        EntityView {
                            relationships: m.entities[k].relationships.filter(
                                rel_not_named(relationship_name@),
                            ),
                            ..m.entities[k]
                        },
                    ),
                    ..m
                }
            } else {
                m
            }
        },
        ChangeKind::WorkflowAdded { workflow } => if first_where(m.workflows, workflow_for(workflow.entity@)) >= 0 {
            m
        } else {
            ModelView { workflows: m.workflows.push(workflow_view(workflow)), ..m }
        },
        ChangeKind::WorkflowRemoved { entity } => ModelView {
            workflows: m.workflows.filter(workflow_not_for(entity@)),
            ..m
        },
        ChangeKind::WorkflowChanged { entity, new_states, .. } => {
            let k = first_where(m.workflows, workflow_for(entity@));
            if k >= 0 {
                ModelView {
                    workflows: m.workflows.update(k, WorkflowView { states: new_states@, ..m.workflows[k] }),
                    ..m
                }
            } else {
                m
            }
        },
        ChangeKind::ApiSurfaceAdded { endpoint } => if first_where(m.api, endpoint_at(endpoint.method@, endpoint.path@)) >= 0 {
            m
        } else {
            ModelView { api: m.api.push(endpoint), ..m }
        },
        ChangeKind::ApiSurfaceRemoved { method, path } => ModelView {
            api: m.api.filter(endpoint_not_at(method@, path@)),
            ..m
        },
        ChangeKind::ApiSurfaceChanged { method, path, new, .. } => {
            let k = first_where(m.api, endpoint_at(method@, path@));
            if k >= 0 {
                ModelView { api: m.api.update(k, new), ..m }
            } else {
                m
            }
        },
        ChangeKind::PermissionAdded { permission } => if first_where(m.permissions, permission_for(permission.entity@)) >= 0 {
            m
        } else {
            ModelView { permissions: m.permissions.push(permission), ..m }
        },
        ChangeKind::PermissionRemoved { entity } => ModelView {
            permissions: m.permissions.filter(permission_not_for(entity@)),
            ..m
        },
        ChangeKind::PermissionChanged { entity, new, .. } => {
            let k = first_where(m.permissions, permission_for(entity@));
            if k >= 0 {
                ModelView { permissions: m.permissions.update(k, new), ..m }
            } else {
                m
            }
        },
        ChangeKind::ApplicationInfoChanged { new_name, .. } => ModelView {
            application: ApplicationInfo { name: new_name, ..m.application },
            ..m
        },
    }
}

/// The model after each change of `changes`, in order.
pub open spec fn apply_all(m: ModelView, changes: Seq<ChangeKind>) -> ModelView
    decreases changes.len(),
{
    if changes.len() == 0 {
        m
    } else {
        apply_one(apply_all(m, changes.drop_last()), changes.last())
    }
}

// ---------------------------------------------------------------------------
// Finding and filtering
// ---------------------------------------------------------------------------

fn find_entity(v: &Vec<EntityModel>, name: &str) -> (r: Option<usize>)
    ensures
        match r {
            Some(k) => k < v@.len() && k as int == first_where(entity_views(v@), entity_named(name@)),
            None => first_where(entity_views(v@), entity_named(name@)) == -1,
        },
{
    let ghost s = entity_views(v@);
    let ghost p = entity_named(name@);
    let mut i: usize = 0;
    while i < v.len()
        invariant
            i <= v@.len(),
            s == entity_views(v@),
            p == entity_named(name@),
            forall|j: int| 0 <= j < i ==> !p(#[trigger] s[j]),
        decreases v@.len() - i,
    {
        assert(s[i as int] == entity_view(v@[i as int]));
        if str_eq(v[i].name.as_str(), name) {
            proof {
                lemma_first_where_is(s, p, i as int);
            }
            return Some(i);
        }
        i += 1;
    }
    proof {
        lemma_first_where_is(s, p, -1);
    }
    None
}

fn find_field(v: &Vec<FieldShape>, name: &str) -> (r: Option<usize>)
    ensures
        match r {
            Some(k) => k < v@.len() && k as int == first_where(v@, field_named(name@)),
            None => first_where(v@, field_named(name@)) == -1,
        },
{
    let ghost p = field_named(name@);
    let mut i: usize = 0;
    while i < v.len()
        invariant
            i <= v@.len(),
            p == field_named(name@),
            forall|j: int| 0 <= j < i ==> !p(#[trigger] v@[j]),
        decreases v@.len() - i,
    {
        if str_eq(v[i].name.as_str(), name) {
            proof {
                lemma_first_where_is(v@, p, i as int);
            }
            return Some(i);
        }
        i += 1;
    }
    proof {
        lemma_first_where_is(v@, p, -1);
    }
    None
}

fn find_rel(v: &Vec<RelationshipShape>, name: &str) -> (r: Option<usize>)
    ensures
        match r {
            Some(k) => k < v@.len() && k as int == first_where(v@, rel_named(name@)),
            None => first_where(v@, rel_named(name@)) == -1,
        },
{
    let ghost p = rel_named(name@);
    let mut i: usize = 0;
    while i < v.len()
        invariant
            i <= v@.len(),
            p == rel_named(name@),
            forall|j: int| 0 <= j < i ==> !p(#[trigger] v@[j]),
        decreases v@.len() - i,
    {
        if str_eq(v[i].name.as_str(), name) {
            proof {
                lemma_first_where_is(v@, p, i as int);
            }
            return Some(i);
        }
        i += 1;
    }
    proof {
        lemma_first_where_is(v@, p, -1);
    }
    None
}

fn find_workflow(v: &Vec<Workflow>, entity: &str) -> (r: Option<usize>)
    ensures
        match r {
            Some(k) => k < v@.len() && k as int == first_where(workflow_views(v@), workflow_for(entity@)),
            None => first_where(workflow_views(v@), workflow_for(entity@)) == -1,
        },
{
    let ghost s = workflow_views(v@);
    let ghost p = workflow_for(entity@);
    let mut i: usize = 0;
    while i < v.len()
        invariant
            i <= v@.len(),
            s == workflow_views(v@),
            p == workflow_for(entity@),
            forall|j: int| 0 <= j < i ==> !p(#[trigger] s[j]),
        decreases v@.len() - i,
    {
        assert(s[i as int] == workflow_view(v@[i as int]));
        if str_eq(v[i].entity.as_str(), entity) {
            proof {
                lemma_first_where_is(s, p, i as int);
            }
            return Some(i);
        }
        i += 1;
    }
    proof {
        lemma_first_where_is(s, p, -1);
    }
    None
}

fn find_endpoint(v: &Vec<ApiEndpoint>, method: &str, path: &str) -> (r: Option<usize>)
    ensures
        match r {
            Some(k) => k < v@.len() && k as int == first_where(v@, endpoint_at(method@, path@)),
            None => first_where(v@, endpoint_at(method@, path@)) == -1,
        },
{
    let ghost p = endpoint_at(method@, path@);
    let mut i: usize = 0;
    while i < v.len()
        invariant
            i <= v@.len(),
            p == endpoint_at(method@, path@),
            forall|j: int| 0 <= j < i ==> !p(#[trigger] v@[j]),
        decreases v@.len() - i,
    {
        if str_eq(v[i].method.as_str(), method) && str_eq(v[i].path.as_str(), path) {
            proof {
                lemma_first_where_is(v@, p, i as int);
            }
            return Some(i);
        }
        i += 1;
    }
    proof {
        lemma_first_where_is(v@, p, -1);
    }
    None
}

fn find_permission(v: &Vec<PermissionPolicy>, entity: &str) -> (r: Option<usize>)
    ensures
        match r {
            Some(k) => k < v@.len() && k as int == first_where(v@, permission_for(entity@)),
            None => first_where(v@, permission_for(entity@)) == -1,
        },
{
    let ghost p = permission_for(entity@);
    let mut i: usize = 0;
    while i < v.len()
        invariant
            i <= v@.len(),
            p == permission_for(entity@),
            forall|j: int| 0 <= j < i ==> !p(#[trigger] v@[j]),
        decreases v@.len() - i,
    {
        if str_eq(v[i].entity.as_str(), entity) {
            proof {
                lemma_first_where_is(v@, p, i as int);
            }
            return Some(i);
        }
        i += 1;
    }
    proof {
        lemma_first_where_is(v@, p, -1);
    }
    None
}

fn contains_name(v: &Vec<String>, x: &str) -> (r: bool)
    ensures
        r == str_in(v@, x@),
{
    let mut i: usize = 0;
    while i < v.len()
        invariant
            i <= v@.len(),
            forall|j: int| 0 <= j < i ==> v@[j]@ != x@,
        decreases v@.len() - i,
    {
        if str_eq(v[i].as_str(), x) {
            return true;
        }
        i += 1;
    }
    false
}

fn drop_entities(v: Vec<EntityModel>, name: &str) -> (r: Vec<EntityModel>)
    ensures
        entity_views(r@) == entity_views(v@).filter(entity_not_named(name@)),
{
    let ghost v0 = v@;
    let ghost s = entity_views(v0);
    let ghost p = entity_not_named(name@);
    let n = v.len();
    let mut v = v;
    let mut out: Vec<EntityModel> = Vec::new();
    let mut k: usize = 0;
    proof {
        reveal(Seq::filter);
    }
    assert(entity_views(out@) =~= s.subrange(0, 0).filter(p));
    while k < n
        invariant
            n == v0.len(),
            k <= n,
            s == entity_views(v0),
            p == entity_not_named(name@),
            v@ == v0.subrange(k as int, n as int),
            entity_views(out@) == s.subrange(0, k as int).filter(p),
        decreases n - k,
    {
        let x = v.remove(0);
        assert(x == v0[k as int]);
        let ghost before = out@;
        if !str_eq(x.name.as_str(), name) {
            out.push(x);
        }
        proof {
            reveal(Seq::filter);
        }
        assert(s.subrange(0, k + 1).drop_last() =~= s.subrange(0, k as int));
        assert(s.subrange(0, k + 1).last() == entity_view(v0[k as int]));
        assert(entity_views(out@) =~= s.subrange(0, k + 1).filter(p));
        assert(v@ =~= v0.subrange(k + 1, n as int));
        k += 1;
    }
    assert(s.subrange(0, n as int) =~= s);
    out
}

fn drop_workflows(v: Vec<Workflow>, entity: &str) -> (r: Vec<Workflow>)
    ensures
        workflow_views(r@) == workflow_views(v@).filter(workflow_not_for(entity@)),
{
    let ghost v0 = v@;
    let ghost s = workflow_views(v0);
    let ghost p = workflow_not_for(entity@);
    let n = v.len();
    let mut v = v;
    let mut out: Vec<Workflow> = Vec::new();
    let mut k: usize = 0;
    proof {
        reveal(Seq::filter);
    }
    assert(workflow_views(out@) =~= s.subrange(0, 0).filter(p));
    while k < n
        invariant
            n == v0.len(),
            k <= n,
            s == workflow_views(v0),
            p == workflow_not_for(entity@),
            v@ == v0.subrange(k as int, n as int),
            workflow_views(out@) == s.subrange(0, k as int).filter(p),
        decreases n - k,
    {
        let x = v.remove(0);
        assert(x == v0[k as int]);
        if !str_eq(x.entity.as_str(), entity) {
            out.push(x);
        }
        proof {
            reveal(Seq::filter);
        }
        assert(s.subrange(0, k + 1).drop_last() =~= s.subrange(0, k as int));
        assert(s.subrange(0, k + 1).last() == workflow_view(v0[k as int]));
        assert(workflow_views(out@) =~= s.subrange(0, k + 1).filter(p));
        assert(v@ =~= v0.subrange(k + 1, n as int));
        k += 1;
    }
    assert(s.subrange(0, n as int) =~= s);
    out
}

fn drop_endpoints(v: Vec<ApiEndpoint>, method: &str, path: &str) -> (r: Vec<ApiEndpoint>)
    ensures
        r@ == v@.filter(endpoint_not_at(method@, path@)),
{
    let ghost v0 = v@;
    let ghost p = endpoint_not_at(method@, path@);
    let n = v.len();
    let mut v = v;
    let mut out: Vec<ApiEndpoint> = Vec::new();
    let mut k: usize = 0;
    proof {
        reveal(Seq::filter);
    }
    assert(out@ =~= v0.subrange(0, 0).filter(p));
    while k < n
        invariant
            n == v0.len(),
            k <= n,
            p == endpoint_not_at(method@, path@),
            v@ == v0.subrange(k as int, n as int),
            out@ == v0.subrange(0, k as int).filter(p),
        decreases n - k,
    {
        let x = v.remove(0);
        assert(x == v0[k as int]);
        if !(str_eq(x.method.as_str(), method) && str_eq(x.path.as_str(), path)) {
            out.push(x);
        }
        proof {
            reveal(Seq::filter);
        }
        assert(v0.subrange(0, k + 1).drop_last() =~= v0.subrange(0, k as int));
        assert(out@ =~= v0.subrange(0, k + 1).filter(p));
        assert(v@ =~= v0.subrange(k + 1, n as int));
        k += 1;
    }
    assert(v0.subrange(0, n as int) =~= v0);
    out
}

fn drop_permissions(v: Vec<PermissionPolicy>, entity: &str) -> (r: Vec<PermissionPolicy>)
    ensures
        r@ == v@.filter(permission_not_for(entity@)),
{
    let ghost v0 = v@;
    let ghost p = permission_not_for(entity@);
    let n = v.len();
    let mut v = v;
    let mut out: Vec<PermissionPolicy> = Vec::new();
    let mut k: usize = 0;
    proof {
        reveal(Seq::filter);
    }
    assert(out@ =~= v0.subrange(0, 0).filter(p));
    while k < n
        invariant
            n == v0.len(),
            k <= n,
            p == permission_not_for(entity@),
            v@ == v0.subrange(k as int, n as int),
            out@ == v0.subrange(0, k as int).filter(p),
        decreases n - k,
    {
        let x = v.remove(0);
        assert(x == v0[k as int]);
        if !str_eq(x.entity.as_str(), entity) {
            out.push(x);
        }
        proof {
            reveal(Seq::filter);
        }
        assert(v0.subrange(0, k + 1).drop_last() =~= v0.subrange(0, k as int));
        assert(out@ =~= v0.subrange(0, k + 1).filter(p));
        assert(v@ =~= v0.subrange(k + 1, n as int));
        k += 1;
    }
    assert(v0.subrange(0, n as int) =~= v0);
    out
}

fn drop_rels_named(v: Vec<RelationshipShape>, name: &str) -> (r: Vec<RelationshipShape>)
    ensures
        r@ == v@.filter(rel_not_named(name@)),
{
    let ghost v0 = v@;
    let ghost p = rel_not_named(name@);
    let n = v.len();
    let mut v = v;
    let mut out: Vec<RelationshipShape> = Vec::new();
    let mut k: usize = 0;
    proof {
        reveal(Seq::filter);
    }
    assert(out@ =~= v0.subrange(0, 0).filter(p));
    while k < n
        invariant
            n == v0.len(),
            k <= n,
            p == rel_not_named(name@),
            v@ == v0.subrange(k as int, n as int),
            out@ == v0.subrange(0, k as int).filter(p),
        decreases n - k,
    {
        let x = v.remove(0);
        assert(x == v0[k as int]);
        if !str_eq(x.name.as_str(), name) {
            out.push(x);
        }
        proof {
            reveal(Seq::filter);
        }
        assert(v0.subrange(0, k + 1).drop_last() =~= v0.subrange(0, k as int));
        assert(out@ =~= v0.subrange(0, k + 1).filter(p));
        assert(v@ =~= v0.subrange(k + 1, n as int));
        k += 1;
    }
    assert(v0.subrange(0, n as int) =~= v0);
    out
}

fn keep_fields(v: Vec<FieldShape>, removed: &Vec<String>) -> (r: Vec<FieldShape>)
    ensures
        r@ == v@.filter(field_kept(removed@)),
{
    let ghost v0 = v@;
    let ghost p = field_kept(removed@);
    let n = v.len();
    let mut v = v;
    let mut out: Vec<FieldShape> = Vec::new();
    let mut k: usize = 0;
    proof {
        reveal(Seq::filter);
    }
    assert(out@ =~= v0.subrange(0, 0).filter(p));
    while k < n
        invariant
            n == v0.len(),
            k <= n,
            p == field_kept(removed@),
            v@ == v0.subrange(k as int, n as int),
            out@ == v0.subrange(0, k as int).filter(p),
        decreases n - k,
    {
        let x = v.remove(0);
        assert(x == v0[k as int]);
        if !contains_name(removed, x.name.as_str()) {
            out.push(x);
        }
        proof {
            reveal(Seq::filter);
        }
        assert(v0.subrange(0, k + 1).drop_last() =~= v0.subrange(0, k as int));
        assert(out@ =~= v0.subrange(0, k + 1).filter(p));
        assert(v@ =~= v0.subrange(k + 1, n as int));
        k += 1;
    }
    assert(v0.subrange(0, n as int) =~= v0);
    out
}

fn keep_rels(v: Vec<RelationshipShape>, removed: &Vec<String>) -> (r: Vec<RelationshipShape>)
    ensures
        r@ == v@.filter(rel_kept(removed@)),
{
    let ghost v0 = v@;
    let ghost p = rel_kept(removed@);
    let n = v.len();
    let mut v = v;
    let mut out: Vec<RelationshipShape> = Vec::new();
    let mut k: usize = 0;
    proof {
        reveal(Seq::filter);
    }
    assert(out@ =~= v0.subrange(0, 0).filter(p));
    while k < n
        invariant
            n == v0.len(),
            k <= n,
            p == rel_kept(removed@),
            v@ == v0.subrange(k as int, n as int),
            out@ == v0.subrange(0, k as int).filter(p),
        decreases n - k,
    {
        let x = v.remove(0);
        assert(x == v0[k as int]);
        if !contains_name(removed, x.name.as_str()) {
            out.push(x);
        }
        proof {
            reveal(Seq::filter);
        }
        assert(v0.subrange(0, k + 1).drop_last() =~= v0.subrange(0, k as int));
        assert(out@ =~= v0.subrange(0, k + 1).filter(p));
        assert(v@ =~= v0.subrange(k + 1, n as int));
        k += 1;
    }
    assert(v0.subrange(0, n as int) =~= v0);
    out
}

// ---------------------------------------------------------------------------
// Patching an entity
// ---------------------------------------------------------------------------

fn copy_field(f: &FieldShape) -> (r: FieldShape)
    ensures
        r == *f,
{
    FieldShape {
        name: f.name.clone(),
        field_type: f.field_type.clone(),
        required: f.required,
        primary: f.primary,
        unique: f.unique,
    }
}

fn add_fields_exec(fields: Vec<FieldShape>, adds: Vec<FieldShape>) -> (r: Vec<FieldShape>)
    ensures
        r@ == add_fields(fields@, adds@, adds@.len() as int),
{
    let ghost a0 = adds@;
    let ghost f0 = fields@;
    let n = adds.len();
    let mut adds = adds;
    let mut out = fields;
    let mut k: usize = 0;
    while k < n
        invariant
            n == a0.len(),
            k <= n,
            adds@ == a0.subrange(k as int, n as int),
            out@ == add_fields(f0, a0, k as int),
        decreases n - k,
    {
        let x = adds.remove(0);
        assert(x == a0[k as int]);
        match find_field(&out, x.name.as_str()) {
            Some(_) => {},
            None => {
                out.push(x);
            },
        }
        assert(adds@ =~= a0.subrange(k + 1, n as int));
        k += 1;
    }
    out
}

fn change_fields_exec(fields: Vec<FieldShape>, chs: &Vec<FieldPatch>) -> (r: Vec<FieldShape>)
    ensures
        r@ == change_fields(fields@, chs@, chs@.len() as int),
{
    let ghost f0 = fields@;
    let mut out = fields;
    let mut k: usize = 0;
    while k < chs.len()
        invariant
            k <= chs@.len(),
            out@ == change_fields(f0, chs@, k as int),
        decreases chs@.len() - k,
    {
        let fp = &chs[k];
        match &fp.new_value {
            Some(v) => match find_field(&out, fp.field_name.as_str()) {
                Some(i) => {
                    let nv = copy_field(v);
                    let ghost before = out@;
                    out.remove(i);
                    out.insert(i, nv);
                    assert(out@ =~= before.update(i as int, nv));
                },
                None => {},
            },
            None => {},
        }
        k += 1;
    }
    out
}

fn add_rels_exec(rels: Vec<RelationshipShape>, adds: Vec<RelationshipShape>) -> (r: Vec<RelationshipShape>)
    ensures
        r@ == add_rels(rels@, adds@, adds@.len() as int),
{
    let ghost a0 = adds@;
    let ghost r0 = rels@;
    let n = adds.len();
    let mut adds = adds;
    let mut out = rels;
    let mut k: usize = 0;
    while k < n
        invariant
            n == a0.len(),
            k <= n,
            adds@ == a0.subrange(k as int, n as int),
            out@ == add_rels(r0, a0, k as int),
        decreases n - k,
    {
        let x = adds.remove(0);
        assert(x == a0[k as int]);
        match find_rel(&out, x.name.as_str()) {
            Some(_) => {},
            None => {
                out.push(x);
            },
        }
        assert(adds@ =~= a0.subrange(k + 1, n as int));
        k += 1;
    }
    out
}

/// An entity with a patch applied (see `patch_entity`).
fn patch_entity_exec(e: EntityModel, p: EntityPatch) -> (r: EntityModel)
    ensures
        entity_view(r) == patch_entity(entity_view(e), p),
{
    let ghost e0 = entity_view(e);
    let ghost p0 = p;
    let EntityPatch {
        fields_added,
        fields_removed,
        fields_changed,
        relationships_added,
        relationships_removed,
        confidence_changed,
    } = p;
    let EntityModel { name, confidence, fields, relationships, constraints } = e;
    let f1 = add_fields_exec(fields, fields_added);
    let f2 = keep_fields(f1, &fields_removed);
    let f3 = change_fields_exec(f2, &fields_changed);
    let r1 = add_rels_exec(relationships, relationships_added);
    let r2 = keep_rels(r1, &relationships_removed);
    let c = match confidence_changed {
        Some((_, after)) => after,
        None => confidence,
    };
    EntityModel { name, confidence: c, fields: f3, relationships: r2, constraints }
}

// ---------------------------------------------------------------------------
// Applying changes
// ---------------------------------------------------------------------------

proof fn lemma_entity_views_update(v: Seq<EntityModel>, k: int, x: EntityModel)
    requires
        0 <= k < v.len(),
    ensures
        entity_views(v.remove(k).insert(k, x)) == entity_views(v).update(k, entity_view(x)),
{
    assert(entity_views(v.remove(k).insert(k, x)) =~= entity_views(v).update(k, entity_view(x)));
}

proof fn lemma_workflow_views_update(v: Seq<Workflow>, k: int, x: Workflow)
    requires
        0 <= k < v.len(),
    ensures
        workflow_views(v.remove(k).insert(k, x)) == workflow_views(v).update(k, workflow_view(x)),
{
    assert(workflow_views(v.remove(k).insert(k, x)) =~= workflow_views(v).update(k, workflow_view(x)));
}

/// The model after one change (see `apply_one`).
fn apply_change(m: ModelShape, c: ChangeKind) -> (r: ModelShape)
    ensures
        model_view(r) == apply_one(model_view(m), c),
{
    let ghost mv = model_view(m);
    let ModelShape { application, entities, workflows, api, permissions, metadata } = m;
    let mut application = application;
    let mut entities = entities;
    let mut workflows = workflows;
    let mut api = api;
    let mut permissions = permissions;
    let ghost e0 = entities@;
    let ghost w0 = workflows@;
    let ghost a0 = api@;
    let ghost p0 = permissions@;
    match c {
        ChangeKind::EntityAdded { entity } => {
            if find_entity(&entities, entity.name.as_str()).is_none() {
                let ghost ev = entity_view(entity);
                entities.push(entity);
                assert(entity_views(entities@) =~= entity_views(e0).push(ev));
            }
        },
        ChangeKind::EntityRemoved { name } => {
            entities = drop_entities(entities, name.as_str());
        },
        ChangeKind::EntityUpdated { name, changes } => {
            match find_entity(&entities, name.as_str()) {
                Some(k) => {
                    let e = entities.remove(k);
                    assert(e == e0[k as int]);
                    assert(entity_views(e0)[k as int] == entity_view(e));
                    let e2 = patch_entity_exec(e, changes);
                    entities.insert(k, e2);
                    proof {
                        lemma_entity_views_update(e0, k as int, e2);
                    }
                },
                None => {},
            }
        },
        ChangeKind::EntityRenamed { from, to, reason } => {
            match find_entity(&entities, from.as_str()) {
                Some(k) => {
                    let e = entities.remove(k);
                    assert(e == e0[k as int]);
                    assert(entity_views(e0)[k as int] == entity_view(e));
                    let EntityModel { name, confidence, fields, relationships, constraints } = e;
                    let e2 = EntityModel { name: to, confidence, fields, relationships, constraints };
                    entities.insert(k, e2);
                    proof {
                        lemma_entity_views_update(e0, k as int, e2);
                    }
                },
                None => {},
            }
        },
        ChangeKind::RelationshipAdded { entity, relationship } => {
            match find_entity(&entities, entity.as_str()) {
                Some(k) => {
                    assert(entity_views(e0)[k as int] == entity_view(e0[k as int]));
                    if find_rel(&entities[k].relationships, relationship.name.as_str()).is_none() {
                        let e = entities.remove(k);
                        assert(e == e0[k as int]);
                        let EntityModel { name, confidence, fields, relationships, constraints } = e;
                        let mut rels = relationships;
                        rels.push(relationship);
                        let e2 = EntityModel { name, confidence, fields, relationships: rels, constraints };
                        entities.insert(k, e2);
                        proof {
                            lemma_entity_views_update(e0, k as int, e2);
                        }
                    }
                },
                None => {},
            }
        },
        ChangeKind::RelationshipRemoved { entity, relationship_name } => {
            match find_entity(&entities, entity.as_str()) {
                Some(k) => {
                    let e = entities.remove(k);
                    assert(e == e0[k as int]);
                    assert(entity_views(e0)[k as int] == entity_view(e));
                    let EntityModel { name, confidence, fields, relationships, constraints } = e;
                    let rels = drop_rels_named(relationships, relationship_name.as_str());
                    let e2 = EntityModel { name, confidence, fields, relationships: rels, constraints };
                    entities.insert(k, e2);
                    proof {
                        lemma_entity_views_update(e0, k as int, e2);
                    }
                },
                None => {},
            }
        },
        ChangeKind::WorkflowAdded { workflow } => {
            if find_workflow(&workflows, workflow.entity.as_str()).is_none() {
                let ghost wv = workflow_view(workflow);
                workflows.push(workflow);
                assert(workflow_views(workflows@) =~= workflow_views(w0).push(wv));
            }
        },
        ChangeKind::WorkflowRemoved { entity } => {
            workflows = drop_workflows(workflows, entity.as_str());
        },
        ChangeKind::WorkflowChanged { entity, old_states, new_states } => {
            match find_workflow(&workflows, entity.as_str()) {
                Some(k) => {
                    let w = workflows.remove(k);
                    assert(w == w0[k as int]);
                    assert(workflow_views(w0)[k as int] == workflow_view(w));
                    let Workflow { entity: we, states, transitions } = w;
                    let w2 = Workflow { entity: we, states: new_states, transitions };
                    workflows.insert(k, w2);
                    proof {
                        lemma_workflow_views_update(w0, k as int, w2);
                    }
                },
                None => {},
            }
        },
        ChangeKind::ApiSurfaceAdded { endpoint } => {
            if find_endpoint(&api, endpoint.method.as_str(), endpoint.path.as_str()).is_none() {
                api.push(endpoint);
            }
        },
        ChangeKind::ApiSurfaceRemoved { method, path } => {
            api = drop_endpoints(api, method.as_str(), path.as_str());
        },
        ChangeKind::ApiSurfaceChanged { method, path, old, new } => {
            match find_endpoint(&api, method.as_str(), path.as_str()) {
                Some(k) => {
                    api.remove(k);
                    api.insert(k, new);
                    assert(api@ =~= a0.update(k as int, new));
                },
                None => {},
            }
        },
        ChangeKind::PermissionAdded { permission } => {
            if find_permission(&permissions, permission.entity.as_str()).is_none() {
                permissions.push(permission);
            }
        },
        ChangeKind::PermissionRemoved { entity } => {
            permissions = drop_permissions(permissions, entity.as_str());
        },
        ChangeKind::PermissionChanged { entity, old, new } => {
            match find_permission(&permissions, entity.as_str()) {
                Some(k) => {
                    permissions.remove(k);
                    permissions.insert(k, new);
                    assert(permissions@ =~= p0.update(k as int, new));
                },
                None => {},
            }
        },
        ChangeKind::ApplicationInfoChanged { old_name, new_name } => {
            application = ApplicationInfo { name: new_name, version: application.version };
        },
    }
    ModelShape { application, entities, workflows, api, permissions, metadata }
}

/// Applies the changes to the model, in order (see `apply_all`).
pub fn apply_changes(model: ModelShape, changes: Vec<ChangeKind>) -> (r: ModelShape)
    ensures
        model_view(r) == apply_all(model_view(model), changes@),
{
    let ghost m0 = model_view(model);
    let ghost c0 = changes@;
    let n = changes.len();
    let mut rest = changes;
    let mut m = model;
    let mut k: usize = 0;
    while k < n
        invariant
            n == c0.len(),
            k <= n,
            rest@ == c0.subrange(k as int, n as int),
            model_view(m) == apply_all(m0, c0.subrange(0, k as int)),
        decreases n - k,
    {
        let c = rest.remove(0);
        assert(c == c0[k as int]);
        assert(c0.subrange(0, k + 1).drop_last() =~= c0.subrange(0, k as int));
        m = apply_change(m, c);
        assert(rest@ =~= c0.subrange(k + 1, n as int));
        k += 1;
    }
    assert(c0.subrange(0, n as int) =~= c0);
    m
}

} // verus!

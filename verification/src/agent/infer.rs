//! Subsystem contracts inferred from a system graph version: what each
//! subsystem owns, provides and consumes, as the graph shows it.
use vstd::prelude::*;

use crate::contracts::definition::{ApiContract, ConsumedSubsystem, DataContract, EventContract, OwnershipContract, OwnershipDeclaration, ProcessContract, ProvidedInterfaces, SchemaContract, SubsystemContract};
use crate::strset::{insert_sorted, lemma_sorted_strs, sorted_strs};
use crate::system_graph::{Subsystem, SystemGraphVersion};
use crate::sorting::{insert_pos, lemma_insert_keeps_sorted, lemma_stable_order_range, sorted_le, stable_order};
use crate::text::{cat, chars_of, dec_seq, dec_string, find_from, has_sub, occurs_at, owned, seq_lt, str_eq, str_lt, strictly_sorted, string_of_range, strs, trim, trim_seq, words, words_seq};

verus! {

// ---------------------------------------------------------------------------
// Endpoint signatures and relationships
// ---------------------------------------------------------------------------

/// `"METHOD /path"`: the first two words; a signature with fewer words is
/// kept whole as the path of an `UNPARSEABLE` method.
pub open spec fn api_signature(api: Seq<char>) -> (Seq<char>, Seq<char>) {
    let w = words_seq(api);
    if w.len() >= 2 {
        (w[0], w[1])
    } else {
        ("UNPARSEABLE"@, api)
    }
}

/// No `->` starts before position `i`.
pub open spec fn no_arrow_before(r: Seq<char>, i: int) -> bool {
    forall|j: int| 0 <= j < i ==> !occurs_at(r, "->"@, j)
}

/// The position of the first `->`.
pub open spec fn first_arrow(r: Seq<char>) -> int {
    choose|i: int| occurs_at(r, "->"@, i) && no_arrow_before(r, i)
}

/// `"Source -> Target"`, split at the first arrow, both sides trimmed.
pub open spec fn relationship_pair(r: Seq<char>) -> Option<(Seq<char>, Seq<char>)> {
    if has_sub(r, "->"@) {
        let i = first_arrow(r);
        Some((trim_seq(r.subrange(0, i)), trim_seq(r.subrange(i + 2, r.len() as int))))
    } else {
        None
    }
}

/// The subsystems that `source` consumes, by the relationships.
pub open spec fn targets_of(rels: Seq<Seq<char>>, source: Seq<char>) -> Set<Seq<char>>
    decreases rels.len(),
{
    if rels.len() == 0 {
        Set::empty()
    } else {
        let rest = targets_of(rels.drop_last(), source);
        match relationship_pair(rels.last()) {
            Some(p) => if p.0 == source {
                rest.insert(p.1)
            } else {
                rest
            },
            None => rest,
        }
    }
}

proof fn lemma_targets_finite(rels: Seq<Seq<char>>, source: Seq<char>)
    ensures
        targets_of(rels, source).finite(),
    decreases rels.len(),
{
    if rels.len() > 0 {
        lemma_targets_finite(rels.drop_last(), source);
    }
}

/// Splits an endpoint signature into method and path.
pub fn parse_api_signature(api: &str) -> (r: (String, String))
    ensures
        (r.0@, r.1@) == api_signature(api@),
{
    let w = words(api);
    if w.len() >= 2 {
        (w[0].clone(), w[1].clone())
    } else {
        (owned("UNPARSEABLE"), owned(api))
    }
}

/// Splits a relationship at its first `->`.
fn split_relationship(r: &str) -> (out: Option<(String, String)>)
    ensures
        match out {
            Some(p) => relationship_pair(r@) == Some((p.0@, p.1@)),
            None => relationship_pair(r@) is None,
        },
{
    let cs = chars_of(r);
    let mut arrow: Vec<char> = Vec::new();
    arrow.push('-');
    arrow.push('>');
    proof {
        reveal_strlit("->");
    }
    assert(arrow@ =~= "->"@);
    match find_from(&cs, &arrow, 0) {
        None => {
            assert(!has_sub(r@, "->"@));
            None
        },
        Some(i) => {
            assert(occurs_at(r@, "->"@, i as int));
            assert(has_sub(r@, "->"@));
            assert(no_arrow_before(r@, i as int));
            assert(occurs_at(r@, "->"@, i as int) && no_arrow_before(r@, i as int));
            let ghost c = first_arrow(r@);
            assert(occurs_at(r@, "->"@, c) && no_arrow_before(r@, c));
            assert(c == i) by {
                if c < i {
                    assert(!occurs_at(r@, "->"@, c));
                } else if c > i {
                    assert(!occurs_at(r@, "->"@, i as int));
                }
            }
            let left = string_of_range(cs.as_slice(), 0, i);
            let right = string_of_range(cs.as_slice(), i + 2, cs.len());
            Some((trim(left.as_str()), trim(right.as_str())))
        },
    }
}

// ---------------------------------------------------------------------------
// What an inferred contract holds
// ---------------------------------------------------------------------------

pub open spec fn api_inferred(a: ApiContract, sig: Seq<char>) -> bool {
    &&& (a.method@, a.path@) == api_signature(sig)
    &&& a.request.fields@.len() == 0
    &&& a.response.fields@.len() == 0
    &&& a.authorization is None
    &&& a.lifecycle@.len() == 0
}

pub open spec fn event_inferred(e: EventContract, name: Seq<char>) -> bool {
    &&& e.name@ == name
    &&& e.payload.fields@.len() == 0
    &&& e.ordering_key is None
}

pub open spec fn data_inferred(d: DataContract, entity: Seq<char>) -> bool {
    d.entity@ == entity && d.fields@.len() == 0
}

pub open spec fn process_inferred(p: ProcessContract, workflow: Seq<char>) -> bool {
    &&& p.trigger_event@ == workflow + ":trigger"@
    &&& p.must_eventually_emit@ == workflow + ":complete"@
}

pub open spec fn ownership_inferred(o: OwnershipContract, entity: Seq<char>, owner: Seq<char>) -> bool {
    o.entity_field@ == entity + ".*"@ && o.owner_subsystem@ == owner
}

pub open spec fn consumed_inferred(c: ConsumedSubsystem, target: Seq<char>) -> bool {
    c.subsystem@ == target && strs(c.relationship_types@) == seq!["relationship"@]
}

/// The guarantee of a workflow.
pub open spec fn guarantee_of(workflow: Seq<char>) -> Seq<char> {
    workflow + " must complete"@
}

/// The contract inferred for subsystem `s` of a graph at `version` with
/// relationships `rels`: it owns the subsystem's entities and workflows,
/// provides its endpoints and events, consumes the targets of its outgoing
/// relationships (sorted), guarantees that each workflow completes, and
/// holds one data, process and ownership contract per entity or workflow.
pub open spec fn contract_inferred(
    c: SubsystemContract,
    s: Subsystem,
    rels: Seq<Seq<char>>,
    version: u64,
) -> bool {
    let targets = sorted_strs(targets_of(rels, s.id@));
    &&& c.subsystem@ == s.id@
    &&& c.version@ == dec_seq(version as nat)
    &&& strs(c.owns.entities@) == strs(s.entities@)
    &&& strs(c.owns.workflows@) == strs(s.workflows@)
    &&& c.provides.apis@.len() == s.apis@.len()
    &&& (forall|i: int|
        0 <= i < s.apis@.len() ==> api_inferred(#[trigger] c.provides.apis@[i], s.apis@[i]@))
    &&& c.provides.events@.len() == s.events@.len()
    &&& (forall|i: int|
        0 <= i < s.events@.len() ==> event_inferred(
            #[trigger] c.provides.events@[i],
            s.events@[i]@,
        ))
    &&& c.consumes@.len() == targets.len()
    &&& (forall|i: int|
        0 <= i < targets.len() ==> consumed_inferred(#[trigger] c.consumes@[i], targets[i]))
    &&& strs(c.guarantees@) == strs(s.workflows@).map_values(|w: Seq<char>| guarantee_of(w))
    &&& c.data_contracts@.len() == s.entities@.len()
    &&& (forall|i: int|
        0 <= i < s.entities@.len() ==> data_inferred(
            #[trigger] c.data_contracts@[i],
            s.entities@[i]@,
        ))
    &&& c.process_contracts@.len() == s.workflows@.len()
    &&& (forall|i: int|
        0 <= i < s.workflows@.len() ==> process_inferred(
            #[trigger] c.process_contracts@[i],
            s.workflows@[i]@,
        ))
    &&& c.ownership_contracts@.len() == s.entities@.len()
    &&& (forall|i: int|
        0 <= i < s.entities@.len() ==> ownership_inferred(
            #[trigger] c.ownership_contracts@[i],
            s.entities@[i]@,
            s.id@,
        ))
    &&& c.consumer_dependencies@.len() == 0
}

// ---------------------------------------------------------------------------
// Stable ordering by subsystem name
// ---------------------------------------------------------------------------

pub open spec fn ids_of(subs: Seq<Subsystem>) -> Seq<Seq<char>> {
    subs.map_values(|s: Subsystem| s.id@)
}

// ---------------------------------------------------------------------------
// Building the pieces
// ---------------------------------------------------------------------------

fn empty_schema() -> (r: SchemaContract)
    ensures
        r.fields@.len() == 0,
{
    SchemaContract { fields: Vec::new() }
}

fn infer_apis(apis: &Vec<String>) -> (r: Vec<ApiContract>)
    ensures
        r@.len() == apis@.len(),
        forall|i: int| 0 <= i < apis@.len() ==> api_inferred(#[trigger] r@[i], apis@[i]@),
{
    let mut r: Vec<ApiContract> = Vec::new();
    let mut i: usize = 0;
    while i < apis.len()
        invariant
            i <= apis.len(),
            r@.len() == i,
            forall|k: int| 0 <= k < i ==> api_inferred(#[trigger] r@[k], apis@[k]@),
        decreases apis.len() - i,
    {
        let (method, path) = parse_api_signature(apis[i].as_str());
        r.push(
            ApiContract {
                method,
                path,
                request: empty_schema(),
                response: empty_schema(),
                authorization: None,
                lifecycle: Vec::new(),
            },
        );
        i += 1;
    }
    r
}

fn infer_events(events: &Vec<String>) -> (r: Vec<EventContract>)
    ensures
        r@.len() == events@.len(),
        forall|i: int| 0 <= i < events@.len() ==> event_inferred(#[trigger] r@[i], events@[i]@),
{
    let mut r: Vec<EventContract> = Vec::new();
    let mut i: usize = 0;
    while i < events.len()
        invariant
            i <= events.len(),
            r@.len() == i,
            forall|k: int| 0 <= k < i ==> event_inferred(#[trigger] r@[k], events@[k]@),
        decreases events.len() - i,
    {
        r.push(
            EventContract { name: events[i].clone(), payload: empty_schema(), ordering_key: None },
        );
        i += 1;
    }
    r
}

fn infer_data(entities: &Vec<String>) -> (r: Vec<DataContract>)
    ensures
        r@.len() == entities@.len(),
        forall|i: int| 0 <= i < entities@.len() ==> data_inferred(#[trigger] r@[i], entities@[i]@),
{
    let mut r: Vec<DataContract> = Vec::new();
    let mut i: usize = 0;
    while i < entities.len()
        invariant
            i <= entities.len(),
            r@.len() == i,
            forall|k: int| 0 <= k < i ==> data_inferred(#[trigger] r@[k], entities@[k]@),
        decreases entities.len() - i,
    {
        r.push(DataContract { entity: entities[i].clone(), fields: Vec::new() });
        i += 1;
    }
    r
}

fn infer_processes(workflows: &Vec<String>) -> (r: Vec<ProcessContract>)
    ensures
        r@.len() == workflows@.len(),
        forall|i: int|
            0 <= i < workflows@.len() ==> process_inferred(#[trigger] r@[i], workflows@[i]@),
{
    let mut r: Vec<ProcessContract> = Vec::new();
    let mut i: usize = 0;
    while i < workflows.len()
        invariant
            i <= workflows.len(),
            r@.len() == i,
            forall|k: int| 0 <= k < i ==> process_inferred(#[trigger] r@[k], workflows@[k]@),
        decreases workflows.len() - i,
    {
        r.push(
            ProcessContract {
                trigger_event: cat(workflows[i].as_str(), ":trigger"),
                must_eventually_emit: cat(workflows[i].as_str(), ":complete"),
            },
        );
        i += 1;
    }
    r
}

fn infer_ownership(entities: &Vec<String>, owner: &String) -> (r: Vec<OwnershipContract>)
    ensures
        r@.len() == entities@.len(),
        forall|i: int|
            0 <= i < entities@.len() ==> ownership_inferred(
                #[trigger] r@[i],
                entities@[i]@,
                owner@,
            ),
{
    let mut r: Vec<OwnershipContract> = Vec::new();
    let mut i: usize = 0;
    while i < entities.len()
        invariant
            i <= entities.len(),
            r@.len() == i,
            forall|k: int|
                0 <= k < i ==> ownership_inferred(#[trigger] r@[k], entities@[k]@, owner@),
        decreases entities.len() - i,
    {
        r.push(
            OwnershipContract {
                entity_field: cat(entities[i].as_str(), ".*"),
                owner_subsystem: owner.clone(),
            },
        );
        i += 1;
    }
    r
}

fn infer_guarantees(workflows: &Vec<String>) -> (r: Vec<String>)
    ensures
        strs(r@) == strs(workflows@).map_values(|w: Seq<char>| guarantee_of(w)),
{
    let mut r: Vec<String> = Vec::new();
    let mut i: usize = 0;
    while i < workflows.len()
        invariant
            i <= workflows.len(),
            strs(r@) == strs(workflows@).subrange(0, i as int).map_values(
                |w: Seq<char>| guarantee_of(w),
            ),
        decreases workflows.len() - i,
    {
        let g = cat(workflows[i].as_str(), " must complete");
        let ghost before = r@;
        r.push(g);
        assert(strs(r@) =~= strs(before).push(g@));
        assert(strs(r@) =~= strs(workflows@).subrange(0, i + 1).map_values(
            |w: Seq<char>| guarantee_of(w),
        ));
        i += 1;
    }
    assert(strs(workflows@).subrange(0, workflows@.len() as int) =~= strs(workflows@));
    r
}

fn copy_strings(v: &Vec<String>) -> (r: Vec<String>)
    ensures
        strs(r@) == strs(v@),
{
    let mut r: Vec<String> = Vec::new();
    let mut i: usize = 0;
    while i < v.len()
        invariant
            i <= v.len(),
            strs(r@) == strs(v@).subrange(0, i as int),
        decreases v.len() - i,
    {
        let c = v[i].clone();
        let ghost before = r@;
        r.push(c);
        assert(strs(r@) =~= strs(before).push(c@));
        assert(strs(r@) =~= strs(v@).subrange(0, i + 1));
        i += 1;
    }
    assert(strs(v@).subrange(0, v@.len() as int) =~= strs(v@));
    r
}

/// The parsed relationships of a graph.
fn parse_relationships(rels: &Vec<String>) -> (r: Vec<Option<(String, String)>>)
    ensures
        r@.len() == rels@.len(),
        forall|i: int|
            0 <= i < rels@.len() ==> match #[trigger] r@[i] {
                Some(p) => relationship_pair(rels@[i]@) == Some((p.0@, p.1@)),
                None => relationship_pair(rels@[i]@) is None,
            },
{
    let mut r: Vec<Option<(String, String)>> = Vec::new();
    let mut i: usize = 0;
    while i < rels.len()
        invariant
            i <= rels.len(),
            r@.len() == i,
            forall|k: int|
                0 <= k < i ==> match #[trigger] r@[k] {
                    Some(p) => relationship_pair(rels@[k]@) == Some((p.0@, p.1@)),
                    None => relationship_pair(rels@[k]@) is None,
                },
        decreases rels.len() - i,
    {
        r.push(split_relationship(rels[i].as_str()));
        i += 1;
    }
    r
}

/// What `source` consumes: each target once, sorted, through `relationship`.
fn infer_consumes(
    pairs: &Vec<Option<(String, String)>>,
    source: &String,
    Ghost(rels): Ghost<Seq<Seq<char>>>,
) -> (r: Vec<ConsumedSubsystem>)
    requires
        pairs@.len() == rels.len(),
        forall|i: int|
            0 <= i < rels.len() ==> match #[trigger] pairs@[i] {
                Some(p) => relationship_pair(rels[i]) == Some((p.0@, p.1@)),
                None => relationship_pair(rels[i]) is None,
            },
    ensures
        r@.len() == sorted_strs(targets_of(rels, source@)).len(),
        forall|i: int|
            0 <= i < r@.len() ==> consumed_inferred(
                #[trigger] r@[i],
                sorted_strs(targets_of(rels, source@))[i],
            ),
{
    let mut targets: Vec<String> = Vec::new();
    let mut i: usize = 0;
    while i < pairs.len()
        invariant
            i <= pairs.len(),
            pairs@.len() == rels.len(),
            forall|k: int|
                0 <= k < rels.len() ==> match #[trigger] pairs@[k] {
                    Some(p) => relationship_pair(rels[k]) == Some((p.0@, p.1@)),
                    None => relationship_pair(rels[k]) is None,
                },
            strictly_sorted(strs(targets@)),
            strs(targets@).to_set() == targets_of(rels.subrange(0, i as int), source@),
        decreases pairs.len() - i,
    {
        let ghost t = rels.subrange(0, i + 1);
        assert(t.drop_last() =~= rels.subrange(0, i as int));
        assert(t.last() == rels[i as int]);
        match &pairs[i] {
            Some(p) => {
                if str_eq(p.0.as_str(), source.as_str()) {
                    insert_sorted(&mut targets, p.1.clone());
                }
            },
            None => {},
        }
        i += 1;
    }
    assert(rels.subrange(0, rels.len() as int) =~= rels);
    proof {
        lemma_targets_finite(rels, source@);
        lemma_sorted_strs(strs(targets@), targets_of(rels, source@));
    }
    let mut r: Vec<ConsumedSubsystem> = Vec::new();
    let mut j: usize = 0;
    while j < targets.len()
        invariant
            j <= targets.len(),
            r@.len() == j,
            strs(targets@) == sorted_strs(targets_of(rels, source@)),
            forall|k: int|
                0 <= k < j ==> consumed_inferred(
                    #[trigger] r@[k],
                    sorted_strs(targets_of(rels, source@))[k],
                ),
        decreases targets.len() - j,
    {
        let mut kinds: Vec<String> = Vec::new();
        kinds.push(owned("relationship"));
        assert(strs(kinds@) =~= seq!["relationship"@]);
        r.push(ConsumedSubsystem { subsystem: targets[j].clone(), relationship_types: kinds });
        j += 1;
    }
    r
}

/// The contract of one subsystem.
fn infer_one(
    s: &Subsystem,
    pairs: &Vec<Option<(String, String)>>,
    version: u64,
    Ghost(rels): Ghost<Seq<Seq<char>>>,
) -> (c: SubsystemContract)
    requires
        pairs@.len() == rels.len(),
        forall|i: int|
            0 <= i < rels.len() ==> match #[trigger] pairs@[i] {
                Some(p) => relationship_pair(rels[i]) == Some((p.0@, p.1@)),
                None => relationship_pair(rels[i]) is None,
            },
    ensures
        contract_inferred(c, *s, rels, version),
{
    SubsystemContract {
        subsystem: s.id.clone(),
        version: dec_string(version),
        owns: OwnershipDeclaration {
            entities: copy_strings(&s.entities),
            workflows: copy_strings(&s.workflows),
        },
        provides: ProvidedInterfaces { apis: infer_apis(&s.apis), events: infer_events(&s.events) },
        consumes: infer_consumes(pairs, &s.id, Ghost(rels)),
        guarantees: infer_guarantees(&s.workflows),
        data_contracts: infer_data(&s.entities),
        process_contracts: infer_processes(&s.workflows),
        ownership_contracts: infer_ownership(&s.entities, &s.id),
        consumer_dependencies: Vec::new(),
    }
}

pub open spec fn contract_names(v: Seq<SubsystemContract>) -> Seq<Seq<char>> {
    v.map_values(|c: SubsystemContract| c.subsystem@)
}

/// One contract per subsystem of the graph (see `contract_inferred`), sorted
/// by subsystem name; subsystems of the same name keep the graph's order.
pub open spec fn inferred_all(r: Seq<SubsystemContract>, graph: SystemGraphVersion) -> bool {
    &&& r.len() == graph.subsystems@.len()
    &&& forall|k: int|
        0 <= k < r.len() ==> contract_inferred(
            #[trigger] r[k],
            graph.subsystems@[stable_order(ids_of(graph.subsystems@), r.len())[k]],
            strs(graph.relationships@),
            graph.version,
        )
    &&& sorted_le(contract_names(r))
}

/// The contracts of every subsystem of the graph (see `inferred_all`).
pub fn infer_subsystem_contracts(graph: &SystemGraphVersion) -> (r: Vec<SubsystemContract>)
    ensures
        inferred_all(r@, *graph),
{
    let subs = &graph.subsystems;
    let ghost ids = ids_of(subs@);
    let ghost rels = strs(graph.relationships@);
    let pairs = parse_relationships(&graph.relationships);
    let mut v: Vec<SubsystemContract> = Vec::new();
    let mut i: usize = 0;
    while i < subs.len()
        invariant
            i <= subs.len(),
            subs == &graph.subsystems,
            ids == ids_of(subs@),
            rels == strs(graph.relationships@),
            pairs@.len() == rels.len(),
            forall|j: int|
                0 <= j < rels.len() ==> match #[trigger] pairs@[j] {
                    Some(p) => relationship_pair(rels[j]) == Some((p.0@, p.1@)),
                    None => relationship_pair(rels[j]) is None,
                },
            v@.len() == i,
            forall|k: int|
                0 <= k < i ==> contract_inferred(
                    #[trigger] v@[k],
                    subs@[stable_order(ids, i as nat)[k]],
                    rels,
                    graph.version,
                ),
            sorted_le(contract_names(v@)),
        decreases subs.len() - i,
    {
        proof {
            lemma_stable_order_range(ids, i as nat);
            assert forall|j: int| 0 <= j < rels.len() implies match #[trigger] pairs@[j] {
                Some(p) => relationship_pair(strs(graph.relationships@)[j]) == Some((p.0@, p.1@)),
                None => relationship_pair(strs(graph.relationships@)[j]) is None,
            } by {}
        }
        let c = infer_one(&subs[i], &pairs, graph.version, Ghost(rels));
        let ghost o = stable_order(ids, i as nat);
        let ghost key = ids[i as int];
        assert(c.subsystem@ == key);
        assert forall|k: int| 0 <= k < i implies #[trigger] contract_names(v@)[k] == ids[o[k]] by {
            assert(contract_inferred(v@[k], subs@[o[k]], rels, graph.version));
        }
        let mut p: usize = 0;
        assert(o.skip(0) =~= o);
        while p < v.len() && !str_lt(c.subsystem.as_str(), v[p].subsystem.as_str())
            invariant
                p <= v.len(),
                v@.len() == o.len(),
                c.subsystem@ == key,
                forall|k: int| 0 <= k < v@.len() ==> #[trigger] contract_names(v@)[k] == ids[o[k]],
                insert_pos(o, ids, key) == p + insert_pos(o.skip(p as int), ids, key),
                forall|q: int| 0 <= q < p ==> !seq_lt(key, #[trigger] contract_names(v@)[q]),
            decreases v.len() - p,
        {
            let ghost rest = o.skip(p as int);
            assert(rest[0] == o[p as int]);
            assert(contract_names(v@)[p as int] == v@[p as int].subsystem@);
            assert(rest.drop_first() =~= o.skip(p + 1));
            p += 1;
        }
        proof {
            if p < v.len() {
                assert(contract_names(v@)[p as int] == v@[p as int].subsystem@);
                assert(o.skip(p as int)[0] == o[p as int]);
            } else {
                assert(o.skip(p as int) =~= Seq::<int>::empty());
            }
            lemma_insert_keeps_sorted(contract_names(v@), p as int, key);
        }
        let ghost old_v = v@;
        v.insert(p, c);
        proof {
            let n = (i + 1) as nat;
            let o2 = stable_order(ids, n);
            assert(o2 == o.insert(p as int, i as int));
            assert(contract_names(v@) =~= contract_names(old_v).insert(p as int, key));
            assert forall|k: int| 0 <= k < i + 1 implies contract_inferred(
                #[trigger] v@[k],
                subs@[o2[k]],
                rels,
                graph.version,
            ) by {
                if k < p {
                    assert(v@[k] == old_v[k] && o2[k] == o[k]);
                } else if k == p {
                    assert(v@[k] == c && o2[k] == i);
                } else {
                    assert(v@[k] == old_v[k - 1] && o2[k] == o[k - 1]);
                }
            }
        }
        i += 1;
    }
    v
}

} // verus!

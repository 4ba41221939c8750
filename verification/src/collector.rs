//! Collecting the samples of entities from source documents: which entity
//! each array or object of samples belongs to, where it was seen, and the
//! relationships that nested samples reveal.
use vstd::prelude::*;

use crate::data_graph::{rel_view, rels_view, GraphEdgeKind, RelView, Relationship};
use crate::graph::{
    entity_name_of, has_object, item_nested_names, member_names, nested_names, nests, normalize_name, singularize,
    source_entity_names, source_stem, stem_of,
};
use crate::json::{copy_json, entries_of, items_of, jv, lemma_entries_view, lemma_items_view, JsonValue, JsonView};
use crate::strset::{insert_all, insert_sorted, lemma_sorted_strs, sorted_strs};
use crate::table::StrTable;
use crate::text::{cat, owned, strictly_sorted, strs};

verus! {

/// What was collected of one entity: its samples, the sources it was seen
/// in (a sorted set), and the paths its samples were found at.
pub struct EntityAggregate {
    pub samples: Vec<Vec<(String, JsonValue)>>,
    pub sources: Vec<String>,
    pub sample_paths: Vec<String>,
}

#[verifier::ext_equal]
pub struct AggView {
    pub samples: Seq<Seq<(Seq<char>, JsonView)>>,
    pub sources: Seq<Seq<char>>,
    pub sample_paths: Seq<Seq<char>>,
}

pub open spec fn samples_view(s: Seq<Vec<(String, JsonValue)>>) -> Seq<Seq<(Seq<char>, JsonView)>> {
    s.map_values(|v: Vec<(String, JsonValue)>| entries_of(v@))
}

impl View for EntityAggregate {
    type V = AggView;

    open spec fn view(&self) -> AggView {
        AggView {
            samples: samples_view(self.samples@),
            sources: strs(self.sources@),
            sample_paths: strs(self.sample_paths@),
        }
    }
}

/// What has been collected: each entity's aggregate, and the relationships
/// seen, in the order they were seen (a later one of the same key counts).
#[verifier::ext_equal]
pub struct CollView {
    pub aggs: Map<Seq<char>, AggView>,
    pub rels: Seq<RelView>,
}

pub open spec fn empty_agg() -> AggView {
    AggView { samples: Seq::empty(), sources: Seq::empty(), sample_paths: Seq::empty() }
}

/// The aggregate of `k`, empty when nothing was collected for it.
pub open spec fn agg_at(m: Map<Seq<char>, AggView>, k: Seq<char>) -> AggView {
    if m.dom().contains(k) {
        m[k]
    } else {
        empty_agg()
    }
}

/// Every aggregate keeps its sources as a sorted set.
pub open spec fn sources_sorted(m: Map<Seq<char>, AggView>) -> bool {
    forall|k: Seq<char>| #[trigger] m.dom().contains(k) ==> strictly_sorted(m[k].sources)
}

/// The objects among the items, as samples.
pub open spec fn object_items(items: Seq<JsonView>) -> Seq<Seq<(Seq<char>, JsonView)>>
    decreases items.len(),
{
    if items.len() == 0 {
        Seq::empty()
    } else {
        let prev = object_items(items.drop_last());
        match items.last() {
            JsonView::Object(es) => prev.push(es),
            _ => prev,
        }
    }
}

/// What one field of a sample of `parent` adds: an array holding objects
/// makes them samples of the entity the field names, which `parent` has
/// many of (confidence 97); an object makes it a sample of that entity,
/// related to `parent` (confidence 90).
pub open spec fn nested_step(st: CollView, parent: Seq<char>, entry: (Seq<char>, JsonView)) -> CollView {
    let child = entity_name_of(entry.0);
    let a = agg_at(st.aggs, child);
    match entry.1 {
        JsonView::Array(items) => {
            let objs = object_items(items);
            if objs.len() == 0 {
                st
            } else {
                CollView {
                    aggs: st.aggs.insert(child, AggView { samples: a.samples + objs, ..a }),
                    rels: st.rels.push(
                        RelView { from: parent, to: child, kind: GraphEdgeKind::HasMany, confidence: 97 },
                    ),
                }
            }
        },
        JsonView::Object(es) => CollView {
            aggs: st.aggs.insert(child, AggView { samples: a.samples.push(es), ..a }),
            rels: st.rels.push(
                RelView { from: parent, to: child, kind: GraphEdgeKind::Related, confidence: 90 },
            ),
        },
        _ => st,
    }
}

/// What the fields of one sample of `parent` add, field by field.
pub open spec fn inspect(st: CollView, parent: Seq<char>, es: Seq<(Seq<char>, JsonView)>) -> CollView
    decreases es.len(),
{
    if es.len() == 0 {
        st
    } else {
        nested_step(inspect(st, parent, es.drop_last()), parent, es.last())
    }
}

/// What the samples of `parent` add, sample by sample.
pub open spec fn inspect_all(st: CollView, parent: Seq<char>, samples: Seq<Seq<(Seq<char>, JsonView)>>) -> CollView
    decreases samples.len(),
{
    if samples.len() == 0 {
        st
    } else {
        inspect(inspect_all(st, parent, samples.drop_last()), parent, samples.last())
    }
}

/// Adding samples of `name` seen in `source` at `path`: the source joins
/// its sources and the path its paths; then the fields of the samples are
/// inspected; then the samples join its samples.
pub open spec fn added(
    st: CollView,
    name: Seq<char>,
    source: Seq<char>,
    path: Seq<char>,
    samples: Seq<Seq<(Seq<char>, JsonView)>>,
) -> CollView {
    let a = agg_at(st.aggs, name);
    let st1 = CollView {
        aggs: st.aggs.insert(
            name,
            AggView {
                sources: sorted_strs(a.sources.to_set().insert(source)),
                sample_paths: a.sample_paths.push(path),
                ..a
            },
        ),
        ..st
    };
    let st2 = inspect_all(st1, name, samples);
    let b = agg_at(st2.aggs, name);
    CollView { aggs: st2.aggs.insert(name, AggView { samples: b.samples + samples, ..b }), ..st2 }
}

/// What one member of a root object adds, and whether it named an entity.
pub open spec fn member_step(st: (CollView, bool), source: Seq<char>, entry: (Seq<char>, JsonView)) -> (
    CollView,
    bool,
) {
    let name = entity_name_of(entry.0);
    let path = "$."@ + entry.0;
    match entry.1 {
        JsonView::Array(items) => {
            let objs = object_items(items);
            if objs.len() > 0 {
                (added(st.0, name, source, path, objs), true)
            } else {
                st
            }
        },
        JsonView::Object(inner) => (added(st.0, name, source, path, seq![inner]), true),
        _ => st,
    }
}

pub open spec fn members(st: (CollView, bool), source: Seq<char>, es: Seq<(Seq<char>, JsonView)>) -> (
    CollView,
    bool,
)
    decreases es.len(),
{
    if es.len() == 0 {
        st
    } else {
        member_step(members(st, source, es.drop_last()), source, es.last())
    }
}

/// What a source's document adds. An array's objects are samples of the
/// entity named after the source's stem. Each member of an object that
/// holds objects names an entity of its own; an object with no such member
/// is itself a sample of the entity named after the stem. Anything else
/// adds nothing.
pub open spec fn collected(st: CollView, source: Seq<char>, root: JsonView) -> CollView {
    match root {
        JsonView::Array(items) => {
            let objs = object_items(items);
            if objs.len() > 0 {
                added(st, entity_name_of(stem_of(source)), source, "$"@, objs)
            } else {
                st
            }
        },
        JsonView::Object(es) => {
            let m = members((st, false), source, es);
            if m.1 {
                m.0
            } else {
                added(m.0, entity_name_of(stem_of(source)), source, "$"@, seq![es])
            }
        },
        _ => st,
    }
}

fn copy_entries(es: &Vec<(String, JsonValue)>) -> (r: Vec<(String, JsonValue)>)
    ensures
        entries_of(r@) == entries_of(es@),
{
    let mut r: Vec<(String, JsonValue)> = Vec::new();
    let mut i: usize = 0;
    while i < es.len()
        invariant
            i <= es@.len(),
            r@.len() == i,
            forall|j: int| 0 <= j < i ==> (#[trigger] r@[j]).0@ == es@[j].0@ && jv(r@[j].1) == jv(es@[j].1),
        decreases es@.len() - i,
    {
        r.push((es[i].0.clone(), copy_json(&es[i].1)));
        i += 1;
    }
    proof {
        lemma_entries_view(r@, r@.len() as int);
        lemma_entries_view(es@, es@.len() as int);
    }
    assert(entries_of(r@) =~= entries_of(es@));
    r
}

/// The objects among the items, copied (see `object_items`).
fn collect_object_items(items: &Vec<JsonValue>) -> (r: Vec<Vec<(String, JsonValue)>>)
    ensures
        samples_view(r@) == object_items(items_of(items@)),
{
    let ghost iv = items_of(items@);
    proof {
        lemma_items_view(items@, items@.len() as int);
    }
    let mut r: Vec<Vec<(String, JsonValue)>> = Vec::new();
    let mut i: usize = 0;
    assert(iv.subrange(0, 0) =~= Seq::<JsonView>::empty());
    while i < items.len()
        invariant
            i <= items@.len(),
            iv == items_of(items@),
            iv.len() == items@.len(),
            forall|j: int| 0 <= j < items@.len() ==> #[trigger] iv[j] == jv(items@[j]),
            samples_view(r@) == object_items(iv.subrange(0, i as int)),
        decreases items@.len() - i,
    {
        assert(iv.subrange(0, i + 1).drop_last() =~= iv.subrange(0, i as int));
        assert(iv.subrange(0, i + 1).last() == jv(items@[i as int]));
        let ghost before = r@;
        match &items[i] {
            JsonValue::Object(es) => {
                let c = copy_entries(es);
                r.push(c);
                assert(samples_view(r@) =~= samples_view(before).push(entries_of(es@)));
            },
            _ => {},
        }
        i += 1;
    }
    assert(iv.subrange(0, iv.len() as int) =~= iv);
    r
}

fn copy_samples(s: &Vec<Vec<(String, JsonValue)>>) -> (r: Vec<Vec<(String, JsonValue)>>)
    ensures
        samples_view(r@) == samples_view(s@),
{
    let mut r: Vec<Vec<(String, JsonValue)>> = Vec::new();
    let mut i: usize = 0;
    while i < s.len()
        invariant
            i <= s@.len(),
            samples_view(r@) == samples_view(s@.subrange(0, i as int)),
        decreases s@.len() - i,
    {
        let ghost before = r@;
        r.push(copy_entries(&s[i]));
        assert(samples_view(r@) =~= samples_view(before).push(entries_of(s@[i as int]@)));
        assert(samples_view(s@.subrange(0, i + 1)) =~= samples_view(s@.subrange(0, i as int)).push(
            entries_of(s@[i as int]@),
        ));
        i += 1;
    }
    assert(s@.subrange(0, s@.len() as int) =~= s@);
    r
}

/// Collects the samples of entities from source documents.
pub struct EntityCollector {
    entities: StrTable<EntityAggregate>,
    relationships: Vec<Relationship>,
}

impl EntityCollector {
    pub closed spec fn state(self) -> CollView {
        CollView { aggs: self.entities.map(), rels: rels_view(self.relationships@) }
    }

    /// A collector that has seen nothing.
    pub fn new() -> (r: Self)
        ensures
            r.state().aggs == Map::<Seq<char>, AggView>::empty(),
            r.state().rels.len() == 0,
            r.wf(),
    {
        EntityCollector { entities: StrTable::new(), relationships: Vec::new() }
    }

    /// Takes out the aggregate of `name` (an empty one if there is none).
    fn take(&mut self, name: &str) -> (r: EntityAggregate)
        ensures
            r@ == agg_at(old(self).state().aggs, name@),
            final(self).state().aggs == old(self).state().aggs.remove(name@),
            final(self).state().rels == old(self).state().rels,
    {
        match self.entities.remove(name) {
            Some(a) => a,
            None => {
                let a = EntityAggregate { samples: Vec::new(), sources: Vec::new(), sample_paths: Vec::new() };
                assert(a@ =~= empty_agg()) by {
                    assert(samples_view(a.samples@) =~= Seq::<Seq<(Seq<char>, JsonView)>>::empty());
                    assert(strs(a.sources@) =~= Seq::<Seq<char>>::empty());
                    assert(strs(a.sample_paths@) =~= Seq::<Seq<char>>::empty());
                }
                a
            },
        }
    }

    /// Puts an aggregate back under `name`.
    fn put(&mut self, name: &str, a: EntityAggregate)
        ensures
            final(self).state().aggs == old(self).state().aggs.insert(name@, a@),
            final(self).state().rels == old(self).state().rels,
    {
        self.entities.insert(owned(name), a);
    }

    fn relate(&mut self, from: &str, to: &str, kind: GraphEdgeKind, confidence: u8)
        ensures
            final(self).state().aggs == old(self).state().aggs,
            final(self).state().rels == old(self).state().rels.push(
                RelView { from: from@, to: to@, kind, confidence },
            ),
    {
        let ghost before = self.relationships@;
        self.relationships.push(Relationship { from: owned(from), to: owned(to), kind, confidence });
        assert(rels_view(self.relationships@) =~= rels_view(before).push(
            RelView { from: from@, to: to@, kind, confidence },
        ));
    }

    /// What one field of a sample adds (see `nested_step`).
    fn inspect_field(&mut self, parent: &str, field: &str, value: &JsonValue)
        requires
            sources_sorted(old(self).state().aggs),
        ensures
            sources_sorted(final(self).state().aggs),
            final(self).state() == nested_step(old(self).state(), parent@, (field@, jv(*value))),
    {
        let child = singularize(normalize_name(field).as_str());
        assert(child@ == entity_name_of(field@));
        match value {
            JsonValue::Array(items) => {
                let objs = collect_object_items(items);
                if objs.len() == 0 {
                    assert(object_items(items_of(items@)).len() == 0);
                    return;
                }
                self.relate(parent, child.as_str(), GraphEdgeKind::HasMany, 97);
                let mut a = self.take(child.as_str());
                let ghost a0 = a@;
                let mut objs = objs;
                a.samples.append(&mut objs);
                assert(a@ =~= AggView { samples: a0.samples + object_items(items_of(items@)), ..a0 });
                self.put(child.as_str(), a);
            },
            JsonValue::Object(es) => {
                self.relate(parent, child.as_str(), GraphEdgeKind::Related, 90);
                let mut a = self.take(child.as_str());
                let ghost a0 = a@;
                a.samples.push(copy_entries(es));
                assert(a@ =~= AggView { samples: a0.samples.push(entries_of(es@)), ..a0 });
                self.put(child.as_str(), a);
            },
            _ => {},
        }
        assert(self.state() =~= nested_step(old(self).state(), parent@, (field@, jv(*value))));
    }

    /// What the fields of one sample add (see `inspect`).
    fn inspect_nested(&mut self, parent: &str, sample: &Vec<(String, JsonValue)>)
        requires
            sources_sorted(old(self).state().aggs),
        ensures
            sources_sorted(final(self).state().aggs),
            final(self).state() == inspect(old(self).state(), parent@, entries_of(sample@)),
    {
        let ghost es = entries_of(sample@);
        proof {
            lemma_entries_view(sample@, sample@.len() as int);
        }
        let mut i: usize = 0;
        assert(es.subrange(0, 0) =~= Seq::<(Seq<char>, JsonView)>::empty());
        while i < sample.len()
            invariant
                i <= sample@.len(),
                es == entries_of(sample@),
                es.len() == sample@.len(),
                forall|j: int| 0 <= j < sample@.len() ==> #[trigger] es[j] == (sample@[j].0@, jv(sample@[j].1)),
                sources_sorted(self.state().aggs),
                self.state() == inspect(old(self).state(), parent@, es.subrange(0, i as int)),
            decreases sample@.len() - i,
        {
            assert(es.subrange(0, i + 1).drop_last() =~= es.subrange(0, i as int));
            assert(es.subrange(0, i + 1).last() == es[i as int]);
            self.inspect_field(parent, sample[i].0.as_str(), &sample[i].1);
            i += 1;
        }
        assert(es.subrange(0, es.len() as int) =~= es);
    }

    /// Adds samples of `name` seen in `source` at `path` (see `added`).
    fn add_entity_samples(&mut self, name: &str, source: &str, path: &str, samples: Vec<Vec<(String, JsonValue)>>)
        requires
            sources_sorted(old(self).state().aggs),
        ensures
            sources_sorted(final(self).state().aggs),
            final(self).state() == added(old(self).state(), name@, source@, path@, samples_view(samples@)),
    {
        let ghost st0 = self.state();
        let mut a = self.take(name);
        let ghost a0 = a@;
        assert(strictly_sorted(strs(a.sources@))) by {
            if st0.aggs.dom().contains(name@) {
                assert(strictly_sorted(st0.aggs[name@].sources));
            }
        }
        insert_sorted(&mut a.sources, owned(source));
        proof {
            lemma_sorted_strs(strs(a.sources@), a0.sources.to_set().insert(source@));
        }
        a.sample_paths.push(owned(path));
        assert(strs(a.sample_paths@) =~= a0.sample_paths.push(path@));
        self.put(name, a);
        let ghost st1 = self.state();
        assert(st1 =~= CollView {
            aggs: st0.aggs.insert(
                name@,
                AggView {
                    sources: sorted_strs(a0.sources.to_set().insert(source@)),
                    sample_paths: a0.sample_paths.push(path@),
                    ..a0
                },
            ),
            ..st0
        });
        let ghost sv = samples_view(samples@);
        let mut k: usize = 0;
        assert(sv.subrange(0, 0) =~= Seq::<Seq<(Seq<char>, JsonView)>>::empty());
        while k < samples.len()
            invariant
                k <= samples@.len(),
                sv == samples_view(samples@),
                sources_sorted(self.state().aggs),
                self.state() == inspect_all(st1, name@, sv.subrange(0, k as int)),
            decreases samples@.len() - k,
        {
            assert(sv.subrange(0, k + 1).drop_last() =~= sv.subrange(0, k as int));
            assert(sv.subrange(0, k + 1).last() == entries_of(samples@[k as int]@));
            self.inspect_nested(name, &samples[k]);
            k += 1;
        }
        assert(sv.subrange(0, sv.len() as int) =~= sv);
        let ghost st2 = self.state();
        let mut b = self.take(name);
        let ghost b0 = b@;
        let mut samples = samples;
        b.samples.append(&mut samples);
        assert(b@ =~= AggView { samples: b0.samples + sv, ..b0 });
        assert(strictly_sorted(b@.sources)) by {
            if st2.aggs.dom().contains(name@) {
                assert(strictly_sorted(st2.aggs[name@].sources));
            }
        }
        self.put(name, b);
        assert(self.state() =~= CollView { aggs: st2.aggs.insert(name@, AggView { samples: b0.samples + sv, ..b0 }), ..st2 });
    }

    /// Whether every aggregate keeps its sources as a sorted set.
    pub open spec fn wf(self) -> bool {
        sources_sorted(self.state().aggs)
    }

    /// Collects what a source's document holds (see `collected`).
    pub fn collect_source(&mut self, source: &str, root: &JsonValue)
        requires
            old(self).wf(),
        ensures
            final(self).wf(),
            final(self).state() == collected(old(self).state(), source@, jv(*root)),
    {
        let ghost st0 = self.state();
        match root {
            JsonValue::Array(items) => {
                let objs = collect_object_items(items);
                if objs.len() > 0 {
                    let name = singularize(normalize_name(source_stem(source).as_str()).as_str());
                    self.add_entity_samples(name.as_str(), source, "$", objs);
                } else {
                    assert(object_items(items_of(items@)).len() == 0);
                }
            },
            JsonValue::Object(es) => {
                let ghost ev = entries_of(es@);
                proof {
                    lemma_entries_view(es@, es@.len() as int);
                }
                let mut any = false;
                let mut i: usize = 0;
                assert(ev.subrange(0, 0) =~= Seq::<(Seq<char>, JsonView)>::empty());
                while i < es.len()
                    invariant
                        i <= es@.len(),
                        ev == entries_of(es@),
                        ev.len() == es@.len(),
                        forall|j: int| 0 <= j < es@.len() ==> #[trigger] ev[j] == (es@[j].0@, jv(es@[j].1)),
                        self.wf(),
                        (self.state(), any) == members((st0, false), source@, ev.subrange(0, i as int)),
                    decreases es@.len() - i,
                {
                    assert(ev.subrange(0, i + 1).drop_last() =~= ev.subrange(0, i as int));
                    assert(ev.subrange(0, i + 1).last() == ev[i as int]);
                    let key = es[i].0.as_str();
                    match &es[i].1 {
                        JsonValue::Array(items) => {
                            let objs = collect_object_items(items);
                            if objs.len() > 0 {
                                let name = singularize(normalize_name(key).as_str());
                                let path = cat("$.", key);
                                self.add_entity_samples(name.as_str(), source, path.as_str(), objs);
                                any = true;
                            }
                        },
                        JsonValue::Object(inner) => {
                            let name = singularize(normalize_name(key).as_str());
                            let path = cat("$.", key);
                            let mut one: Vec<Vec<(String, JsonValue)>> = Vec::new();
                            one.push(copy_entries(inner));
                            assert(samples_view(one@) =~= seq![entries_of(inner@)]);
                            self.add_entity_samples(name.as_str(), source, path.as_str(), one);
                            any = true;
                        },
                        _ => {},
                    }
                    i += 1;
                }
                assert(ev.subrange(0, ev.len() as int) =~= ev);
                if !any {
                    let name = singularize(normalize_name(source_stem(source).as_str()).as_str());
                    let mut one: Vec<Vec<(String, JsonValue)>> = Vec::new();
                    one.push(copy_entries(es));
                    assert(samples_view(one@) =~= seq![entries_of(es@)]);
                    self.add_entity_samples(name.as_str(), source, "$", one);
                }
            },
            _ => {},
        }
    }

    /// The names of the entities collected, sorted.
    pub fn entity_names(&self) -> (r: Vec<String>)
        ensures
            strictly_sorted(strs(r@)),
            strs(r@).to_set() == self.state().aggs.dom(),
    {
        let n = self.entities.len();
        let mut keys: Vec<String> = Vec::new();
        let mut i: usize = 0;
        while i < n
            invariant
                i <= n,
                n == self.entities.keys().len(),
                forall|k: Seq<char>| #[trigger] self.entities.map().dom().contains(k) <==> self.entities.keys().contains(k),
                strs(keys@) == self.entities.keys().subrange(0, i as int),
            decreases n - i,
        {
            let (key, _a) = self.entities.entry_at(i);
            let ghost before = keys@;
            keys.push(key.clone());
            assert(strs(keys@) =~= strs(before).push(key@));
            assert(strs(keys@) =~= self.entities.keys().subrange(0, i + 1));
            i += 1;
        }
        assert(self.entities.keys().subrange(0, n as int) =~= self.entities.keys());
        let mut names: Vec<String> = Vec::new();
        assert(strs(names@) =~= Seq::<Seq<char>>::empty());
        insert_all(&mut names, &keys);
        assert(strs(names@).to_set() =~= self.state().aggs.dom());
        names
    }

    /// The aggregate collected for `name`, if any.
    pub fn aggregate(&self, name: &str) -> (r: Option<&EntityAggregate>)
        ensures
            match r {
                Some(a) => self.state().aggs.dom().contains(name@) && a@ == self.state().aggs[name@],
                None => !self.state().aggs.dom().contains(name@),
            },
    {
        self.entities.get(name)
    }

    /// The relationships seen, in the order they were seen.
    pub fn relationships(&self) -> (r: &Vec<Relationship>)
        ensures
            rels_view(r@) == self.state().rels,
    {
        &self.relationships
    }
}


// ---------------------------------------------------------------------------
// What collecting keeps and what it adds
// ---------------------------------------------------------------------------

/// `b` holds every entity `a` holds, and `a`'s relationships come first in
/// `b`'s.
pub open spec fn grows(a: CollView, b: CollView) -> bool {
    &&& forall|k: Seq<char>| #[trigger] a.aggs.dom().contains(k) ==> b.aggs.dom().contains(k)
    &&& a.rels.len() <= b.rels.len()
    &&& b.rels.subrange(0, a.rels.len() as int) == a.rels
}

proof fn lemma_grows_trans(a: CollView, b: CollView, c: CollView)
    requires
        grows(a, b),
        grows(b, c),
    ensures
        grows(a, c),
{
    assert(c.rels.subrange(0, a.rels.len() as int) =~= c.rels.subrange(0, b.rels.len() as int).subrange(
        0,
        a.rels.len() as int,
    ));
}

proof fn lemma_grows_refl(a: CollView)
    ensures
        grows(a, a),
{
    assert(a.rels.subrange(0, a.rels.len() as int) =~= a.rels);
}

proof fn lemma_has_object_items(items: Seq<JsonView>)
    ensures
        has_object(items) <==> object_items(items).len() > 0,
    decreases items.len(),
{
    if items.len() > 0 {
        lemma_has_object_items(items.drop_last());
        if has_object(items) {
            let i = choose|i: int| 0 <= i < items.len() && items[i] is Object;
            if i < items.len() - 1 {
                assert(items.drop_last()[i] is Object);
            }
        }
        if has_object(items.drop_last()) {
            let i = choose|i: int| 0 <= i < items.drop_last().len() && items.drop_last()[i] is Object;
            assert(items[i] is Object);
        }
        if items.last() is Object {
            assert(items[items.len() - 1] is Object);
        }
    }
}

/// One field: the state grows, and a field that nests samples names an
/// entity that is then collected.
proof fn lemma_step(st: CollView, parent: Seq<char>, e: (Seq<char>, JsonView))
    ensures
        grows(st, nested_step(st, parent, e)),
        nests(e.1) ==> nested_step(st, parent, e).aggs.dom().contains(entity_name_of(e.0)),
{
    lemma_grows_refl(st);
    let n = nested_step(st, parent, e);
    match e.1 {
        JsonView::Array(items) => {
            lemma_has_object_items(items);
            assert(n.rels.subrange(0, st.rels.len() as int) =~= st.rels);
        },
        JsonView::Object(_) => {
            assert(n.rels.subrange(0, st.rels.len() as int) =~= st.rels);
        },
        _ => {},
    }
}

/// The fields of a sample: the state grows, and every entity the first `n`
/// fields name is collected.
proof fn lemma_inspect(st: CollView, parent: Seq<char>, es: Seq<(Seq<char>, JsonView)>, n: int)
    requires
        0 <= n <= es.len(),
    ensures
        grows(st, inspect(st, parent, es.subrange(0, n))),
        forall|i: int|
            0 <= i < nested_names(es, n).len() ==> inspect(st, parent, es.subrange(0, n)).aggs.dom().contains(
                #[trigger] nested_names(es, n)[i],
            ),
    decreases n,
{
    if n == 0 {
        assert(es.subrange(0, 0) =~= Seq::<(Seq<char>, JsonView)>::empty());
        lemma_grows_refl(st);
    } else {
        lemma_inspect(st, parent, es, n - 1);
        let p = inspect(st, parent, es.subrange(0, n - 1));
        assert(es.subrange(0, n).drop_last() =~= es.subrange(0, n - 1));
        assert(es.subrange(0, n).last() == es[n - 1]);
        lemma_step(p, parent, es[n - 1]);
        let q = inspect(st, parent, es.subrange(0, n));
        lemma_grows_trans(st, p, q);
        let prev = nested_names(es, n - 1);
        assert forall|i: int| 0 <= i < nested_names(es, n).len() implies q.aggs.dom().contains(
            #[trigger] nested_names(es, n)[i],
        ) by {
            if i < prev.len() {
                assert(nested_names(es, n)[i] == prev[i]);
                assert(p.aggs.dom().contains(prev[i]));
            } else {
                assert(nests(es[n - 1].1));
                assert(nested_names(es, n)[i] == entity_name_of(es[n - 1].0));
            }
        }
    }
}

/// The samples: the state grows, and every entity the fields of the first
/// `n` samples name is collected.
proof fn lemma_inspect_all(st: CollView, parent: Seq<char>, samples: Seq<Seq<(Seq<char>, JsonView)>>, n: int)
    requires
        0 <= n <= samples.len(),
    ensures
        grows(st, inspect_all(st, parent, samples.subrange(0, n))),
        forall|j: int, i: int|
            0 <= j < n && 0 <= i < nested_names(samples[j], samples[j].len() as int).len() ==> inspect_all(
                st,
                parent,
                samples.subrange(0, n),
            ).aggs.dom().contains(#[trigger] nested_names(samples[j], samples[j].len() as int)[i]),
    decreases n,
{
    if n == 0 {
        assert(samples.subrange(0, 0) =~= Seq::<Seq<(Seq<char>, JsonView)>>::empty());
        lemma_grows_refl(st);
    } else {
        lemma_inspect_all(st, parent, samples, n - 1);
        let p = inspect_all(st, parent, samples.subrange(0, n - 1));
        assert(samples.subrange(0, n).drop_last() =~= samples.subrange(0, n - 1));
        assert(samples.subrange(0, n).last() == samples[n - 1]);
        let es = samples[n - 1];
        lemma_inspect(p, parent, es, es.len() as int);
        assert(es.subrange(0, es.len() as int) =~= es);
        lemma_grows_trans(st, p, inspect_all(st, parent, samples.subrange(0, n)));
    }
}

/// Adding samples: the state grows, the entity is collected, and so is
/// every entity the fields of the samples name.
proof fn lemma_added(
    st: CollView,
    name: Seq<char>,
    source: Seq<char>,
    path: Seq<char>,
    samples: Seq<Seq<(Seq<char>, JsonView)>>,
)
    ensures
        grows(st, added(st, name, source, path, samples)),
        added(st, name, source, path, samples).aggs.dom().contains(name),
        forall|j: int, i: int|
            0 <= j < samples.len() && 0 <= i < nested_names(samples[j], samples[j].len() as int).len()
                ==> added(st, name, source, path, samples).aggs.dom().contains(
                #[trigger] nested_names(samples[j], samples[j].len() as int)[i],
            ),
{
    let a = agg_at(st.aggs, name);
    let st1 = CollView {
        aggs: st.aggs.insert(
            name,
            AggView {
                sources: sorted_strs(a.sources.to_set().insert(source)),
                sample_paths: a.sample_paths.push(path),
                ..a
            },
        ),
        ..st
    };
    lemma_grows_refl(st);
    assert(grows(st, st1));
    lemma_inspect_all(st1, name, samples, samples.len() as int);
    assert(samples.subrange(0, samples.len() as int) =~= samples);
    let st2 = inspect_all(st1, name, samples);
    lemma_grows_trans(st, st1, st2);
    let r = added(st, name, source, path, samples);
    lemma_grows_refl(st2);
    assert(grows(st2, r));
    lemma_grows_trans(st, st2, r);
}

/// Collecting a source keeps everything collected before.
pub proof fn law_collecting_keeps_what_was_collected(st: CollView, source: Seq<char>, root: JsonView)
    ensures
        grows(st, collected(st, source, root)),
{
    law_collected_names(st, source, root);
}

proof fn lemma_members(st: (CollView, bool), source: Seq<char>, es: Seq<(Seq<char>, JsonView)>, n: int)
    requires
        0 <= n <= es.len(),
    ensures
        grows(st.0, members(st, source, es.subrange(0, n)).0),
        members(st, source, es.subrange(0, n)).1 == (st.1 || exists|i: int| 0 <= i < n && nests(#[trigger] es[i].1)),
        forall|i: int|
            0 <= i < member_names(es, n).len() ==> members(st, source, es.subrange(0, n)).0.aggs.dom().contains(
                #[trigger] member_names(es, n)[i],
            ),
    decreases n,
{
    if n == 0 {
        assert(es.subrange(0, 0) =~= Seq::<(Seq<char>, JsonView)>::empty());
        lemma_grows_refl(st.0);
    } else {
        lemma_members(st, source, es, n - 1);
        let p = members(st, source, es.subrange(0, n - 1));
        assert(es.subrange(0, n).drop_last() =~= es.subrange(0, n - 1));
        assert(es.subrange(0, n).last() == es[n - 1]);
        let e = es[n - 1];
        let q = member_step(p, source, e);
        assert(q == members(st, source, es.subrange(0, n)));
        let prev_names = member_names(es, n - 1);
        match e.1 {
            JsonView::Array(items) => {
                lemma_has_object_items(items);
                if object_items(items).len() > 0 {
                    lemma_added(p.0, entity_name_of(e.0), source, "$."@ + e.0, object_items(items));
                    lemma_item_names(items, items.len() as int);
                } else {
                    lemma_grows_refl(p.0);
                }
            },
            JsonView::Object(inner) => {
                lemma_added(p.0, entity_name_of(e.0), source, "$."@ + e.0, seq![inner]);
                assert(seq![inner][0] == inner);
            },
            _ => {
                lemma_grows_refl(p.0);
            },
        }
        lemma_grows_trans(st.0, p.0, q.0);
        assert((exists|i: int| 0 <= i < n && nests(#[trigger] es[i].1)) == ((exists|i: int|
            0 <= i < n - 1 && nests(#[trigger] es[i].1)) || nests(e.1)));
        assert forall|i: int| 0 <= i < member_names(es, n).len() implies q.0.aggs.dom().contains(
            #[trigger] member_names(es, n)[i],
        ) by {
            if i < prev_names.len() {
                assert(member_names(es, n)[i] == prev_names[i]);
                assert(p.0.aggs.dom().contains(prev_names[i]));
            } else {
                match e.1 {
                    JsonView::Array(items) => {
                        if i == prev_names.len() {
                            assert(member_names(es, n)[i] == entity_name_of(e.0));
                        } else {
                            let t = i - prev_names.len() - 1;
                            assert(member_names(es, n)[i] == item_nested_names(items, items.len() as int)[t]);
                            assert(items.subrange(0, items.len() as int) =~= items);
                            let objs = object_items(items);
                            assert(named_in(objs, item_nested_names(items, items.len() as int)[t]));
                            let (j, k) = choose|j: int, k: int|
                                0 <= j < objs.len() && 0 <= k < nested_names(objs[j], objs[j].len() as int).len()
                                    && nested_names(objs[j], objs[j].len() as int)[k] == item_nested_names(
                                    items,
                                    items.len() as int,
                                )[t];
                            assert(q.0.aggs.dom().contains(nested_names(objs[j], objs[j].len() as int)[k]));
                        }
                    },
                    JsonView::Object(inner) => {
                        if i == prev_names.len() {
                            assert(member_names(es, n)[i] == entity_name_of(e.0));
                        } else {
                            let t = i - prev_names.len() - 1;
                            assert(member_names(es, n)[i] == nested_names(inner, inner.len() as int)[t]);
                            let one = seq![inner];
                            assert(one[0] == inner);
                            assert(q.0.aggs.dom().contains(nested_names(one[0], one[0].len() as int)[t]));
                        }
                    },
                    _ => {},
                }
            }
        }
    }
}

/// Some field of some of the samples names `x` (and nests samples).
pub open spec fn named_in(samples: Seq<Seq<(Seq<char>, JsonView)>>, x: Seq<char>) -> bool {
    exists|j: int, k: int|
        0 <= j < samples.len() && 0 <= k < nested_names(samples[j], samples[j].len() as int).len()
            && nested_names(samples[j], samples[j].len() as int)[k] == x
}

/// The names the objects among the first `n` items nest are those the
/// samples they make nest.
proof fn lemma_item_names(items: Seq<JsonView>, n: int)
    requires
        0 <= n <= items.len(),
    ensures
        forall|i: int|
            0 <= i < item_nested_names(items, n).len() ==> named_in(
                object_items(items.subrange(0, n)),
                #[trigger] item_nested_names(items, n)[i],
            ),
    decreases n,
{
    if n > 0 {
        lemma_item_names(items, n - 1);
        let s0 = items.subrange(0, n - 1);
        let s1 = items.subrange(0, n);
        assert(s1.drop_last() =~= s0);
        assert(s1.last() == items[n - 1]);
        let o0 = object_items(s0);
        let o1 = object_items(s1);
        let prev = item_nested_names(items, n - 1);
        assert forall|i: int| 0 <= i < item_nested_names(items, n).len() implies named_in(
            o1,
            #[trigger] item_nested_names(items, n)[i],
        ) by {
            if i < prev.len() {
                assert(item_nested_names(items, n)[i] == prev[i]);
                assert(named_in(o0, prev[i]));
                let (j, k) = choose|j: int, k: int|
                    0 <= j < o0.len() && 0 <= k < nested_names(o0[j], o0[j].len() as int).len()
                        && nested_names(o0[j], o0[j].len() as int)[k] == prev[i];
                assert(o1[j] == o0[j]);
            } else {
                match items[n - 1] {
                    JsonView::Object(es) => {
                        let j = o0.len() as int;
                        assert(o1[j] == es);
                        let k = i - prev.len();
                        assert(item_nested_names(items, n)[i] == nested_names(es, es.len() as int)[k]);
                    },
                    _ => {},
                }
            }
        }
    }
}

/// Every entity a source's document names (see `source_entity_names`) is
/// collected once the source is, and everything collected before stays.
pub proof fn law_collected_names(st: CollView, source: Seq<char>, root: JsonView)
    ensures
        grows(st, collected(st, source, root)),
        forall|i: int|
            0 <= i < source_entity_names(source, root).len() ==> collected(st, source, root).aggs.dom().contains(
                #[trigger] source_entity_names(source, root)[i],
            ),
{
    lemma_grows_refl(st);
    match root {
        JsonView::Array(items) => {
            lemma_has_object_items(items);
            if object_items(items).len() > 0 {
                let name = entity_name_of(stem_of(source));
                lemma_added(st, name, source, "$"@, object_items(items));
                lemma_item_names(items, items.len() as int);
                assert(items.subrange(0, items.len() as int) =~= items);
            }
        },
        JsonView::Object(es) => {
            lemma_members((st, false), source, es, es.len() as int);
            assert(es.subrange(0, es.len() as int) =~= es);
            let m = members((st, false), source, es);
            if !m.1 {
                let name = entity_name_of(stem_of(source));
                lemma_added(m.0, name, source, "$"@, seq![es]);
                assert(seq![es][0] == es);
                lemma_grows_trans(st, m.0, collected(st, source, root));
            }
        },
        _ => {},
    }
}

} // verus!

//! Assembly of the universal data graph from what was inferred of each
//! entity: entity, field and source nodes, the edges between them, and the
//! relationships between entities, merged by key and ordered.
//!
//! Confidences are in thousandths; relationship confidences in hundredths.
use vstd::prelude::*;

use crate::graph::{infer_relationship_target, relationship_target, ValueKind};
use crate::text::{
    strs, cat, cat3, lemma_lt_asym, lemma_lt_irreflexive, lemma_lt_total, lemma_lt_trans, owned, seq_lt, str_eq,
    str_lt,
};

verus! {

#[derive(Debug, Clone, Copy, PartialEq, Eq, Structural)]
pub enum GraphNodeKind {
    Entity,
    Field,
    Source,
}

/// The kinds of edge, in their order.
#[derive(Debug, Clone, Copy, PartialEq, Eq, Structural)]
pub enum GraphEdgeKind {
    DerivedFrom,
    HasField,
    HasMany,
    BelongsTo,
    Related,
}

/// The position of an edge kind in the order of kinds.
pub open spec fn edge_rank(k: GraphEdgeKind) -> int {
    match k {
        GraphEdgeKind::DerivedFrom => 0,
        GraphEdgeKind::HasField => 1,
        GraphEdgeKind::HasMany => 2,
        GraphEdgeKind::BelongsTo => 3,
        GraphEdgeKind::Related => 4,
    }
}

fn edge_rank_of(k: GraphEdgeKind) -> (r: u8)
    ensures
        r == edge_rank(k),
{
    match k {
        GraphEdgeKind::DerivedFrom => 0,
        GraphEdgeKind::HasField => 1,
        GraphEdgeKind::HasMany => 2,
        GraphEdgeKind::BelongsTo => 3,
        GraphEdgeKind::Related => 4,
    }
}

pub open spec fn label_of(k: GraphEdgeKind) -> Seq<char> {
    match k {
        GraphEdgeKind::DerivedFrom => "derived from"@,
        GraphEdgeKind::HasField => "has field"@,
        GraphEdgeKind::HasMany => "has many"@,
        GraphEdgeKind::BelongsTo => "belongs to"@,
        GraphEdgeKind::Related => "related"@,
    }
}

/// The label of an edge of the given kind.
pub fn relationship_label(kind: GraphEdgeKind) -> (r: String)
    ensures
        r@ == label_of(kind),
{
    match kind {
        GraphEdgeKind::DerivedFrom => owned("derived from"),
        GraphEdgeKind::HasField => owned("has field"),
        GraphEdgeKind::HasMany => owned("has many"),
        GraphEdgeKind::BelongsTo => owned("belongs to"),
        GraphEdgeKind::Related => owned("related"),
    }
}

/// The name of a value kind (its `Debug` form).
pub open spec fn kind_name(k: ValueKind) -> Seq<char> {
    match k {
        ValueKind::String => "String"@,
        ValueKind::Number => "Number"@,
        ValueKind::Boolean => "Boolean"@,
        ValueKind::Timestamp => "Timestamp"@,
        ValueKind::Object => "Object"@,
        ValueKind::Array => "Array"@,
        ValueKind::Null => "Null"@,
        ValueKind::Mixed => "Mixed"@,
    }
}

pub fn value_kind_name(k: ValueKind) -> (r: String)
    ensures
        r@ == kind_name(k),
{
    match k {
        ValueKind::String => owned("String"),
        ValueKind::Number => owned("Number"),
        ValueKind::Boolean => owned("Boolean"),
        ValueKind::Timestamp => owned("Timestamp"),
        ValueKind::Object => owned("Object"),
        ValueKind::Array => owned("Array"),
        ValueKind::Null => owned("Null"),
        ValueKind::Mixed => owned("Mixed"),
    }
}

// ---------------------------------------------------------------------------
// Relationships, merged by key
// ---------------------------------------------------------------------------

/// A relationship between two entities, with its confidence in hundredths.
#[derive(Debug, Clone, PartialEq, Eq)]
pub struct Relationship {
    pub from: String,
    pub to: String,
    pub kind: GraphEdgeKind,
    pub confidence: u8,
}

pub struct RelView {
    pub from: Seq<char>,
    pub to: Seq<char>,
    pub kind: GraphEdgeKind,
    pub confidence: u8,
}

pub open spec fn rel_view(r: Relationship) -> RelView {
    RelView { from: r.from@, to: r.to@, kind: r.kind, confidence: r.confidence }
}

pub open spec fn rels_view(s: Seq<Relationship>) -> Seq<RelView> {
    s.map_values(|r: Relationship| rel_view(r))
}

/// The order of relationship keys: by source entity, then target entity,
/// then kind.
pub open spec fn key_lt(a: RelView, b: RelView) -> bool {
    ||| seq_lt(a.from, b.from)
    ||| a.from == b.from && seq_lt(a.to, b.to)
    ||| a.from == b.from && a.to == b.to && edge_rank(a.kind) < edge_rank(b.kind)
}

pub open spec fn same_key(a: RelView, b: RelView) -> bool {
    a.from == b.from && a.to == b.to && a.kind == b.kind
}

/// The number of leading relationships whose key comes before `r`'s.
pub open spec fn lower_bound(s: Seq<RelView>, r: RelView) -> nat
    decreases s.len(),
{
    if s.len() == 0 || !key_lt(s[0], r) {
        0
    } else {
        1 + lower_bound(s.drop_first(), r)
    }
}

/// `s` with `r` recorded: it replaces the relationship with its key, if
/// there is one where the key order puts it, and goes in there otherwise.
pub open spec fn record_rel(s: Seq<RelView>, r: RelView) -> Seq<RelView> {
    let p = lower_bound(s, r) as int;
    if p < s.len() && same_key(s[p], r) {
        s.update(p, r)
    } else {
        s.insert(p, r)
    }
}

/// `s` with each of `rs` recorded in turn.
pub open spec fn record_all(s: Seq<RelView>, rs: Seq<RelView>) -> Seq<RelView>
    decreases rs.len(),
{
    if rs.len() == 0 {
        s
    } else {
        record_rel(record_all(s, rs.drop_last()), rs.last())
    }
}

/// Relationships in strictly increasing key order: each key once.
pub open spec fn key_sorted(s: Seq<RelView>) -> bool {
    forall|i: int, j: int| 0 <= i < j < s.len() ==> key_lt(#[trigger] s[i], #[trigger] s[j])
}

proof fn lemma_key_order(a: RelView, b: RelView, c: RelView)
    ensures
        !key_lt(a, a),
        key_lt(a, b) ==> !key_lt(b, a) && !same_key(a, b),
        key_lt(a, b) || key_lt(b, a) || same_key(a, b),
        key_lt(a, b) && key_lt(b, c) ==> key_lt(a, c),
        same_key(a, b) ==> (key_lt(a, c) == key_lt(b, c) && key_lt(c, a) == key_lt(c, b)),
{
    lemma_lt_irreflexive(a.from);
    lemma_lt_irreflexive(a.to);
    lemma_lt_asym(a.from, b.from);
    lemma_lt_asym(a.to, b.to);
    lemma_lt_total(a.from, b.from);
    lemma_lt_total(a.to, b.to);
    if seq_lt(a.from, b.from) && seq_lt(b.from, c.from) {
        lemma_lt_trans(a.from, b.from, c.from);
    }
    if seq_lt(a.to, b.to) && seq_lt(b.to, c.to) {
        lemma_lt_trans(a.to, b.to, c.to);
    }
}

proof fn lemma_lower_bound(s: Seq<RelView>, r: RelView)
    ensures
        lower_bound(s, r) <= s.len(),
        forall|i: int| 0 <= i < lower_bound(s, r) ==> key_lt(#[trigger] s[i], r),
        lower_bound(s, r) < s.len() ==> !key_lt(s[lower_bound(s, r) as int], r),
    decreases s.len(),
{
    if s.len() > 0 && key_lt(s[0], r) {
        lemma_lower_bound(s.drop_first(), r);
        assert forall|i: int| 0 <= i < lower_bound(s, r) implies key_lt(#[trigger] s[i], r) by {
            if i > 0 {
                assert(s[i] == s.drop_first()[i - 1]);
            }
        }
        if lower_bound(s, r) < s.len() {
            assert(s[lower_bound(s, r) as int] == s.drop_first()[lower_bound(s.drop_first(), r) as int]);
        }
    }
}

/// Recording a relationship in a key-ordered list keeps it key-ordered, and
/// the relationship is then the list's entry for its key.
pub proof fn law_record_keeps_key_order(s: Seq<RelView>, r: RelView)
    requires
        key_sorted(s),
    ensures
        key_sorted(record_rel(s, r)),
        record_rel(s, r).contains(r),
{
    let p = lower_bound(s, r) as int;
    lemma_lower_bound(s, r);
    let t = record_rel(s, r);
    if p < s.len() && same_key(s[p], r) {
        assert(t[p] == r);
        assert forall|i: int, j: int| 0 <= i < j < t.len() implies key_lt(#[trigger] t[i], #[trigger] t[j]) by {
            assert(key_lt(s[i], s[j]));
            if i == p {
                lemma_key_order(s[p], r, s[j]);
            }
            if j == p {
                lemma_key_order(s[p], r, s[i]);
            }
        }
    } else {
        assert(t[p] == r);
        if p < s.len() {
            lemma_key_order(s[p], r, s[p]);
        }
        assert forall|i: int, j: int| 0 <= i < j < t.len() implies key_lt(#[trigger] t[i], #[trigger] t[j]) by {
            if j < p {
                assert(key_lt(s[i], s[j]));
            } else if i > p {
                assert(key_lt(s[i - 1], s[j - 1]));
            } else if i == p {
                if j - 1 > p {
                    assert(key_lt(s[p], s[j - 1]));
                    lemma_key_order(r, s[p], s[j - 1]);
                }
            } else if j == p {
                assert(key_lt(s[i], r));
            } else {
                assert(i < p && j > p);
                assert(key_lt(s[i], r));
                if j - 1 > p {
                    assert(key_lt(s[p], s[j - 1]));
                    lemma_key_order(r, s[p], s[j - 1]);
                }
                lemma_key_order(s[i], r, s[j - 1]);
            }
        }
    }
}

/// Recording relationships one by one in a key-ordered list keeps it
/// key-ordered.
pub proof fn law_record_all_keeps_key_order(s: Seq<RelView>, rs: Seq<RelView>)
    requires
        key_sorted(s),
    ensures
        key_sorted(record_all(s, rs)),
    decreases rs.len(),
{
    if rs.len() > 0 {
        law_record_all_keeps_key_order(s, rs.drop_last());
        law_record_keeps_key_order(record_all(s, rs.drop_last()), rs.last());
    }
}

proof fn lemma_foreign_keeps_key_order(s: Seq<RelView>, es: Seq<InferredEntity>)
    requires
        key_sorted(s),
    ensures
        key_sorted(with_foreign(s, es)),
    decreases es.len(),
{
    if es.len() > 0 {
        lemma_foreign_keeps_key_order(s, es.drop_last());
        law_record_all_keeps_key_order(with_foreign(s, es.drop_last()), rels_view(es.last().foreign@));
    }
}

/// However the relationships come, the graph holds each key once, in key
/// order.
pub proof fn law_graph_relationships_in_key_order(es: Seq<InferredEntity>, rels: Seq<RelView>)
    ensures
        key_sorted(assembled(es, rels).relationships),
{
    law_record_all_keeps_key_order(Seq::empty(), rels);
    lemma_foreign_keeps_key_order(record_all(Seq::empty(), rels), es);
}

fn key_before(a: &Relationship, b: &Relationship) -> (r: bool)
    ensures
        r == key_lt(rel_view(*a), rel_view(*b)),
{
    if str_lt(a.from.as_str(), b.from.as_str()) {
        return true;
    }
    if !str_eq(a.from.as_str(), b.from.as_str()) {
        return false;
    }
    if str_lt(a.to.as_str(), b.to.as_str()) {
        return true;
    }
    if !str_eq(a.to.as_str(), b.to.as_str()) {
        return false;
    }
    edge_rank_of(a.kind) < edge_rank_of(b.kind)
}

fn key_equal(a: &Relationship, b: &Relationship) -> (r: bool)
    ensures
        r == same_key(rel_view(*a), rel_view(*b)),
{
    str_eq(a.from.as_str(), b.from.as_str()) && str_eq(a.to.as_str(), b.to.as_str()) && a.kind
        == b.kind
}

fn copy_relationship(r: &Relationship) -> (c: Relationship)
    ensures
        rel_view(c) == rel_view(*r),
{
    Relationship { from: r.from.clone(), to: r.to.clone(), kind: r.kind, confidence: r.confidence }
}

/// Records `r` in `v` (see `record_rel`).
fn record(v: &mut Vec<Relationship>, r: Relationship)
    ensures
        rels_view(final(v)@) == record_rel(rels_view(old(v)@), rel_view(r)),
{
    let ghost s = rels_view(v@);
    let ghost rv = rel_view(r);
    let mut i: usize = 0;
    assert(s.skip(0) =~= s);
    loop
        invariant
            i <= v@.len(),
            s == rels_view(v@),
            lower_bound(s, rv) == i + lower_bound(s.skip(i as int), rv),
            rv == rel_view(r),
        ensures
            i <= v@.len(),
            lower_bound(s, rv) == i + lower_bound(s.skip(i as int), rv),
            i == v@.len() || !key_lt(s[i as int], rv),
        decreases v@.len() - i,
    {
        if i == v.len() {
            break;
        }
        assert(s[i as int] == rel_view(v@[i as int]));
        if !key_before(&v[i], &r) {
            break;
        }
        assert(s.skip(i as int)[0] == s[i as int]);
        assert(s.skip(i as int).drop_first() =~= s.skip(i + 1));
        i += 1;
    }
    assert(lower_bound(s, rv) == i) by {
        if i < v@.len() {
            assert(s.skip(i as int)[0] == s[i as int]);
        } else {
            assert(s.skip(i as int).len() == 0);
        }
    }
    if i < v.len() {
        assert(s[i as int] == rel_view(v@[i as int]));
    }
    if i < v.len() && key_equal(&v[i], &r) {
        v.remove(i);
        v.insert(i, r);
        assert(rels_view(v@) =~= s.update(i as int, rv));
    } else {
        v.insert(i, r);
        assert(rels_view(v@) =~= s.insert(i as int, rv));
    }
}

/// Records each of `rs` in `v` in turn.
fn record_each(v: &mut Vec<Relationship>, rs: &Vec<Relationship>)
    ensures
        rels_view(final(v)@) == record_all(rels_view(old(v)@), rels_view(rs@)),
{
    let ghost s0 = rels_view(v@);
    let ghost all = rels_view(rs@);
    let mut i: usize = 0;
    assert(all.subrange(0, 0) =~= Seq::<RelView>::empty());
    while i < rs.len()
        invariant
            i <= rs@.len(),
            all == rels_view(rs@),
            rels_view(v@) == record_all(s0, all.subrange(0, i as int)),
        decreases rs@.len() - i,
    {
        record(v, copy_relationship(&rs[i]));
        assert(all.subrange(0, i + 1).drop_last() =~= all.subrange(0, i as int));
        i += 1;
    }
    assert(all.subrange(0, rs@.len() as int) =~= all);
}

// ---------------------------------------------------------------------------
// Nodes and edges
// ---------------------------------------------------------------------------

/// A node of the graph; `properties` are key-value pairs in key order.
#[derive(Debug, Clone, PartialEq, Eq)]
pub struct GraphNode {
    pub id: String,
    pub label: String,
    pub kind: GraphNodeKind,
    pub properties: Vec<(String, String)>,
}

/// An edge of the graph, with its confidence in thousandths.
#[derive(Debug, Clone, PartialEq, Eq)]
pub struct GraphEdge {
    pub from: String,
    pub to: String,
    pub kind: GraphEdgeKind,
    pub label: String,
    pub confidence: u32,
}

pub struct NodeView {
    pub id: Seq<char>,
    pub label: Seq<char>,
    pub kind: GraphNodeKind,
    pub properties: Seq<(Seq<char>, Seq<char>)>,
}

pub struct EdgeView {
    pub from: Seq<char>,
    pub to: Seq<char>,
    pub kind: GraphEdgeKind,
    pub label: Seq<char>,
    pub confidence: u32,
}

pub open spec fn node_view(n: GraphNode) -> NodeView {
    NodeView {
        id: n.id@,
        label: n.label@,
        kind: n.kind,
        properties: n.properties@.map_values(|p: (String, String)| (p.0@, p.1@)),
    }
}

pub open spec fn nodes_view(s: Seq<GraphNode>) -> Seq<NodeView> {
    s.map_values(|n: GraphNode| node_view(n))
}

pub open spec fn edge_view(e: GraphEdge) -> EdgeView {
    EdgeView { from: e.from@, to: e.to@, kind: e.kind, label: e.label@, confidence: e.confidence }
}

pub open spec fn edges_view(s: Seq<GraphEdge>) -> Seq<EdgeView> {
    s.map_values(|e: GraphEdge| edge_view(e))
}

/// A field as inferred from an entity's samples: its kind, its confidence
/// (in thousandths) and that confidence as the graph prints it (a whole
/// percentage).
#[derive(Debug, Clone, PartialEq, Eq)]
pub struct InferredField {
    pub name: String,
    pub kind: ValueKind,
    pub confidence: u32,
    pub confidence_text: String,
}

/// What was inferred of one entity: its fields, the sources it was seen in
/// (a sorted set), its confidence (in thousandths), and the relationships
/// its fields point along.
#[derive(Debug, Clone, PartialEq, Eq)]
pub struct InferredEntity {
    pub name: String,
    pub fields: Vec<InferredField>,
    pub sources: Vec<String>,
    pub confidence: u32,
    pub foreign: Vec<Relationship>,
}

/// The nodes, the edges, and the merged relationships.
#[derive(Debug, Clone, PartialEq, Eq)]
pub struct DataGraph {
    pub nodes: Vec<GraphNode>,
    pub edges: Vec<GraphEdge>,
    pub relationships: Vec<Relationship>,
}

pub struct GraphView {
    pub nodes: Seq<NodeView>,
    pub edges: Seq<EdgeView>,
    pub relationships: Seq<RelView>,
}

pub open spec fn graph_view(g: DataGraph) -> GraphView {
    GraphView {
        nodes: nodes_view(g.nodes@),
        edges: edges_view(g.edges@),
        relationships: rels_view(g.relationships@),
    }
}

pub open spec fn entity_id(name: Seq<char>) -> Seq<char> {
    "entity:"@ + name
}

pub open spec fn field_id(entity: Seq<char>, field: Seq<char>) -> Seq<char> {
    "field:"@ + entity + ":"@ + field
}

pub open spec fn source_id(source: Seq<char>) -> Seq<char> {
    "source:"@ + source
}

pub open spec fn entity_node(name: Seq<char>) -> NodeView {
    NodeView { id: entity_id(name), label: name, kind: GraphNodeKind::Entity, properties: Seq::empty() }
}

pub open spec fn entity_nodes(es: Seq<InferredEntity>) -> Seq<NodeView> {
    es.map_values(|e: InferredEntity| entity_node(e.name@))
}

/// A field's node: its properties are its confidence and its kind.
pub open spec fn field_node(entity: Seq<char>, f: InferredField) -> NodeView {
    NodeView {
        id: field_id(entity, f.name@),
        label: f.name@,
        kind: GraphNodeKind::Field,
        properties: seq![("confidence"@, f.confidence_text@), ("type"@, kind_name(f.kind))],
    }
}

pub open spec fn field_edge(entity: Seq<char>, f: InferredField) -> EdgeView {
    EdgeView {
        from: entity_id(entity),
        to: field_id(entity, f.name@),
        kind: GraphEdgeKind::HasField,
        label: "has field"@,
        confidence: f.confidence,
    }
}

pub open spec fn source_node(source: Seq<char>) -> NodeView {
    NodeView { id: source_id(source), label: source, kind: GraphNodeKind::Source, properties: Seq::empty() }
}

pub open spec fn source_edge(source: Seq<char>, entity: Seq<char>, confidence: u32) -> EdgeView {
    EdgeView {
        from: source_id(source),
        to: entity_id(entity),
        kind: GraphEdgeKind::DerivedFrom,
        label: "derived from"@,
        confidence,
    }
}

pub open spec fn has_node(nodes: Seq<NodeView>, id: Seq<char>) -> bool {
    exists|i: int| 0 <= i < nodes.len() && (#[trigger] nodes[i]).id == id
}

/// The nodes and edges after adding, for each field in turn, its node and
/// the edge from the entity to it.
pub open spec fn with_fields(
    g: (Seq<NodeView>, Seq<EdgeView>),
    entity: Seq<char>,
    fs: Seq<InferredField>,
) -> (Seq<NodeView>, Seq<EdgeView>)
    decreases fs.len(),
{
    if fs.len() == 0 {
        g
    } else {
        let h = with_fields(g, entity, fs.drop_last());
        (h.0.push(field_node(entity, fs.last())), h.1.push(field_edge(entity, fs.last())))
    }
}

/// The nodes and edges after adding, for each source in turn, its node
/// (unless a node with its id is there already) and the edge from it to the
/// entity.
pub open spec fn with_sources(
    g: (Seq<NodeView>, Seq<EdgeView>),
    entity: Seq<char>,
    ss: Seq<String>,
    confidence: u32,
) -> (Seq<NodeView>, Seq<EdgeView>)
    decreases ss.len(),
{
    if ss.len() == 0 {
        g
    } else {
        let h = with_sources(g, entity, ss.drop_last(), confidence);
        let s = ss.last()@;
        (
            if has_node(h.0, source_id(s)) {
                h.0
            } else {
                h.0.push(source_node(s))
            },
            h.1.push(source_edge(s, entity, confidence)),
        )
    }
}

pub open spec fn with_entity(g: (Seq<NodeView>, Seq<EdgeView>), e: InferredEntity) -> (
    Seq<NodeView>,
    Seq<EdgeView>,
) {
    with_sources(with_fields(g, e.name@, e.fields@), e.name@, e.sources@, e.confidence)
}

pub open spec fn with_entities(g: (Seq<NodeView>, Seq<EdgeView>), es: Seq<InferredEntity>) -> (
    Seq<NodeView>,
    Seq<EdgeView>,
)
    decreases es.len(),
{
    if es.len() == 0 {
        g
    } else {
        with_entity(with_entities(g, es.drop_last()), es.last())
    }
}

/// The relationships `s` with each entity's own relationships recorded, one
/// entity after another.
pub open spec fn with_foreign(s: Seq<RelView>, es: Seq<InferredEntity>) -> Seq<RelView>
    decreases es.len(),
{
    if es.len() == 0 {
        s
    } else {
        record_all(with_foreign(s, es.drop_last()), rels_view(es.last().foreign@))
    }
}

/// The edge that stands for a relationship.
pub open spec fn rel_edge(r: RelView) -> EdgeView {
    EdgeView {
        from: entity_id(r.from),
        to: entity_id(r.to),
        kind: r.kind,
        label: label_of(r.kind),
        confidence: (r.confidence * 10) as u32,
    }
}

pub open spec fn rel_edges(s: Seq<RelView>) -> Seq<EdgeView> {
    s.map_values(|r: RelView| rel_edge(r))
}

/// The graph of the given entities: a node for each entity, in order; then
/// for each entity its field nodes and edges and its source nodes and
/// edges; then an edge for each relationship. The relationships are those
/// given, then each entity's own, merged by key (a later one replaces an
/// earlier one of the same key) and in key order.
pub open spec fn assembled(es: Seq<InferredEntity>, rels: Seq<RelView>) -> GraphView {
    let g = with_entities((entity_nodes(es), Seq::empty()), es);
    let merged = with_foreign(record_all(Seq::empty(), rels), es);
    GraphView {
        nodes: g.0,
        edges: g.1 + rel_edges(merged),
        relationships: merged,
    }
}

fn entity_id_of(name: &str) -> (r: String)
    ensures
        r@ == entity_id(name@),
{
    cat("entity:", name)
}

fn field_id_of(entity: &str, field: &str) -> (r: String)
    ensures
        r@ == field_id(entity@, field@),
{
    cat(cat3("field:", entity, ":").as_str(), field)
}

fn source_id_of(source: &str) -> (r: String)
    ensures
        r@ == source_id(source@),
{
    cat("source:", source)
}

fn holds_node(nodes: &Vec<GraphNode>, id: &str) -> (r: bool)
    ensures
        r == has_node(nodes_view(nodes@), id@),
{
    let ghost nv = nodes_view(nodes@);
    let mut i: usize = 0;
    while i < nodes.len()
        invariant
            i <= nodes@.len(),
            nv == nodes_view(nodes@),
            forall|j: int| 0 <= j < i ==> (#[trigger] nv[j]).id != id@,
        decreases nodes@.len() - i,
    {
        if str_eq(nodes[i].id.as_str(), id) {
            assert(nv[i as int].id == id@);
            return true;
        }
        i += 1;
    }
    false
}

/// Adds the nodes and edges of an entity's fields.
fn add_fields(nodes: &mut Vec<GraphNode>, edges: &mut Vec<GraphEdge>, e: &InferredEntity)
    ensures
        (nodes_view(final(nodes)@), edges_view(final(edges)@)) == with_fields(
            (nodes_view(old(nodes)@), edges_view(old(edges)@)),
            e.name@,
            e.fields@,
        ),
{
    let ghost g0 = (nodes_view(nodes@), edges_view(edges@));
    let mut j: usize = 0;
    assert(e.fields@.subrange(0, 0) =~= Seq::<InferredField>::empty());
    while j < e.fields.len()
        invariant
            j <= e.fields@.len(),
            (nodes_view(nodes@), edges_view(edges@)) == with_fields(
                g0,
                e.name@,
                e.fields@.subrange(0, j as int),
            ),
        decreases e.fields@.len() - j,
    {
        let f = &e.fields[j];
        let mut props: Vec<(String, String)> = Vec::new();
        props.push((owned("confidence"), f.confidence_text.clone()));
        props.push((owned("type"), value_kind_name(f.kind)));
        let node = GraphNode {
            id: field_id_of(e.name.as_str(), f.name.as_str()),
            label: f.name.clone(),
            kind: GraphNodeKind::Field,
            properties: props,
        };
        assert(node_view(node).properties =~= seq![
            ("confidence"@, f.confidence_text@),
            ("type"@, kind_name(f.kind)),
        ]);
        let edge = GraphEdge {
            from: entity_id_of(e.name.as_str()),
            to: field_id_of(e.name.as_str(), f.name.as_str()),
            kind: GraphEdgeKind::HasField,
            label: owned("has field"),
            confidence: f.confidence,
        };
        let ghost before = (nodes_view(nodes@), edges_view(edges@));
        nodes.push(node);
        edges.push(edge);
        assert(nodes_view(nodes@) =~= before.0.push(field_node(e.name@, *f)));
        assert(edges_view(edges@) =~= before.1.push(field_edge(e.name@, *f)));
        assert(e.fields@.subrange(0, j + 1).drop_last() =~= e.fields@.subrange(0, j as int));
        j += 1;
    }
    assert(e.fields@.subrange(0, e.fields@.len() as int) =~= e.fields@);
}

/// Adds the nodes (those not there yet) and edges of an entity's sources.
fn add_sources(nodes: &mut Vec<GraphNode>, edges: &mut Vec<GraphEdge>, e: &InferredEntity)
    ensures
        (nodes_view(final(nodes)@), edges_view(final(edges)@)) == with_sources(
            (nodes_view(old(nodes)@), edges_view(old(edges)@)),
            e.name@,
            e.sources@,
            e.confidence,
        ),
{
    let ghost g0 = (nodes_view(nodes@), edges_view(edges@));
    let mut j: usize = 0;
    assert(e.sources@.subrange(0, 0) =~= Seq::<String>::empty());
    while j < e.sources.len()
        invariant
            j <= e.sources@.len(),
            (nodes_view(nodes@), edges_view(edges@)) == with_sources(
                g0,
                e.name@,
                e.sources@.subrange(0, j as int),
                e.confidence,
            ),
        decreases e.sources@.len() - j,
    {
        let s = &e.sources[j];
        let sid = source_id_of(s.as_str());
        let ghost before = (nodes_view(nodes@), edges_view(edges@));
        if !holds_node(nodes, sid.as_str()) {
            let node = GraphNode {
                id: sid.clone(),
                label: s.clone(),
                kind: GraphNodeKind::Source,
                properties: Vec::new(),
            };
            assert(node_view(node) == source_node(s@)) by {
                assert(node_view(node).properties =~= Seq::<(Seq<char>, Seq<char>)>::empty());
            }
            nodes.push(node);
            assert(nodes_view(nodes@) =~= before.0.push(source_node(s@)));
        }
        edges.push(
            GraphEdge {
                from: sid,
                to: entity_id_of(e.name.as_str()),
                kind: GraphEdgeKind::DerivedFrom,
                label: owned("derived from"),
                confidence: e.confidence,
            },
        );
        assert(edges_view(edges@) =~= before.1.push(source_edge(s@, e.name@, e.confidence)));
        assert(e.sources@.subrange(0, j + 1).drop_last() =~= e.sources@.subrange(0, j as int));
        j += 1;
    }
    assert(e.sources@.subrange(0, e.sources@.len() as int) =~= e.sources@);
}

/// Assembles the graph of the given entities and relationships (see
/// `assembled`).
pub fn assemble_graph(entities: &Vec<InferredEntity>, relationships: &Vec<Relationship>) -> (r:
    DataGraph)
    ensures
        graph_view(r) == assembled(entities@, rels_view(relationships@)),
{
    let ghost es = entities@;
    let mut nodes: Vec<GraphNode> = Vec::new();
    let mut i: usize = 0;
    while i < entities.len()
        invariant
            i <= es.len(),
            es == entities@,
            nodes_view(nodes@) == entity_nodes(es.subrange(0, i as int)),
        decreases es.len() - i,
    {
        let ghost before = nodes_view(nodes@);
        let node = GraphNode {
            id: entity_id_of(entities[i].name.as_str()),
            label: entities[i].name.clone(),
            kind: GraphNodeKind::Entity,
            properties: Vec::new(),
        };
        assert(node_view(node) == entity_node(es[i as int].name@)) by {
            assert(node_view(node).properties =~= Seq::<(Seq<char>, Seq<char>)>::empty());
        }
        nodes.push(node);
        assert(nodes_view(nodes@) =~= before.push(node_view(node)));
        assert(entity_nodes(es.subrange(0, i + 1)) =~= entity_nodes(es.subrange(0, i as int)).push(
            entity_node(es[i as int].name@),
        ));
        i += 1;
    }
    assert(es.subrange(0, es.len() as int) =~= es);
    let mut edges: Vec<GraphEdge> = Vec::new();
    let mut merged: Vec<Relationship> = Vec::new();
    assert(rels_view(merged@) =~= Seq::<RelView>::empty());
    record_each(&mut merged, relationships);
    let ghost g0 = (nodes_view(nodes@), edges_view(edges@));
    let ghost m0 = rels_view(merged@);
    assert(g0 == (entity_nodes(es), Seq::<EdgeView>::empty()));
    let mut k: usize = 0;
    assert(es.subrange(0, 0) =~= Seq::<InferredEntity>::empty());
    while k < entities.len()
        invariant
            k <= es.len(),
            es == entities@,
            (nodes_view(nodes@), edges_view(edges@)) == with_entities(g0, es.subrange(0, k as int)),
            rels_view(merged@) == with_foreign(m0, es.subrange(0, k as int)),
        decreases es.len() - k,
    {
        let e = &entities[k];
        add_fields(&mut nodes, &mut edges, e);
        add_sources(&mut nodes, &mut edges, e);
        record_each(&mut merged, &e.foreign);
        assert(es.subrange(0, k + 1).drop_last() =~= es.subrange(0, k as int));
        k += 1;
    }
    let ghost ge = edges_view(edges@);
    let ghost mv = rels_view(merged@);
    let mut j: usize = 0;
    while j < merged.len()
        invariant
            j <= merged@.len(),
            mv == rels_view(merged@),
            edges_view(edges@) == ge + rel_edges(mv.subrange(0, j as int)),
        decreases merged@.len() - j,
    {
        let r = &merged[j];
        let ghost before = edges_view(edges@);
        let edge = GraphEdge {
            from: entity_id_of(r.from.as_str()),
            to: entity_id_of(r.to.as_str()),
            kind: r.kind,
            label: relationship_label(r.kind),
            confidence: r.confidence as u32 * 10,
        };
        assert(mv[j as int] == rel_view(merged@[j as int]));
        assert(edge_view(edge) == rel_edge(mv[j as int]));
        edges.push(edge);
        assert(edges_view(edges@) =~= before.push(edge_view(edge)));
        assert(rel_edges(mv.subrange(0, j + 1)) =~= rel_edges(mv.subrange(0, j as int)).push(
            rel_edge(mv[j as int]),
        ));
        assert(edges_view(edges@) =~= ge + rel_edges(mv.subrange(0, j + 1)));
        j += 1;
    }
    assert(mv.subrange(0, mv.len() as int) =~= mv);
    assert(es.subrange(0, es.len() as int) =~= es);
    DataGraph { nodes, edges, relationships: merged }
}


/// The relationships an entity's fields point along: for each field, in
/// order, that names another entity (see `relationship_target`), a
/// `BelongsTo` relationship to it with confidence 94.
pub open spec fn belongs_to(entity: Seq<char>, fields: Seq<Seq<char>>, entity_names: Seq<Seq<char>>) -> Seq<
    RelView,
>
    decreases fields.len(),
{
    if fields.len() == 0 {
        Seq::empty()
    } else {
        let prev = belongs_to(entity, fields.drop_last(), entity_names);
        match relationship_target(fields.last(), entity_names, entity) {
            Some(t) => prev.push(
                RelView { from: entity, to: t, kind: GraphEdgeKind::BelongsTo, confidence: 94 },
            ),
            None => prev,
        }
    }
}

/// The relationships an entity's fields point along (see `belongs_to`).
pub fn foreign_relations(entity: &str, fields: &Vec<String>, entity_names: &Vec<String>) -> (r: Vec<
    Relationship,
>)
    ensures
        rels_view(r@) == belongs_to(entity@, strs(fields@), strs(entity_names@)),
{
    let mut r: Vec<Relationship> = Vec::new();
    let mut i: usize = 0;
    while i < fields.len()
        invariant
            i <= fields@.len(),
            rels_view(r@) == belongs_to(entity@, strs(fields@.subrange(0, i as int)), strs(entity_names@)),
        decreases fields@.len() - i,
    {
        assert(strs(fields@.subrange(0, i + 1)).drop_last() =~= strs(fields@.subrange(0, i as int)));
        assert(strs(fields@.subrange(0, i + 1)).last() == fields@[i as int]@);
        let ghost before = r@;
        match infer_relationship_target(fields[i].as_str(), entity_names, entity) {
            Some(t) => {
                r.push(
                    Relationship {
                        from: owned(entity),
                        to: t,
                        kind: GraphEdgeKind::BelongsTo,
                        confidence: 94,
                    },
                );
                assert(rels_view(r@) =~= rels_view(before).push(rel_view(r@.last())));
            },
            None => {},
        }
        i += 1;
    }
    assert(fields@.subrange(0, fields@.len() as int) =~= fields@);
    r
}

} // verus!

use treehouse::collector::EntityCollector;
use treehouse::profile::entity_profile;
use treehouse::field_stats::{field_statistics, infer_identities};
use treehouse::data_graph::{
    assemble_graph, foreign_relations, relationship_label, value_kind_name, GraphEdgeKind, GraphNodeKind, InferredEntity,
    InferredField, Relationship,
};
use treehouse::graph::{
    IdentityKind, classify_kind, entity_names, holds_times, infer_kind, mentions_pii, infer_relationship_target, is_temporal_field,
    looks_like_pii, normalize_name, singularize, source_stem, ValueKind,
};
use treehouse::json::JsonValue;

fn s(v: &str) -> JsonValue {
    JsonValue::Str(v.to_string())
}

fn obj(entries: Vec<(&str, JsonValue)>) -> JsonValue {
    let mut entries: Vec<(String, JsonValue)> =
        entries.into_iter().map(|(k, v)| (k.to_string(), v)).collect();
    entries.sort_by(|a, b| a.0.cmp(&b.0));
    JsonValue::Object(entries)
}

#[test]
fn names_customer_and_nested_order_entities() {
    let doc = obj(vec![(
        "customers",
        JsonValue::Array(vec![obj(vec![
            ("customerId", s("123")),
            ("name", s("Bob")),
            ("email", s("bob@example.com")),
            ("created_at", s("2026-01-01T00:00:00Z")),
            (
                "orders",
                JsonValue::Array(vec![obj(vec![
                    ("orderId", s("abc")),
                    ("total", JsonValue::Number { text: "99".to_string(), float: false }),
                ])]),
            ),
        ])]),
    )]);
    assert_eq!(entity_names("customers.json", &doc), vec!["Customer", "Order"]);
}

#[test]
fn names_array_documents_after_their_source() {
    let doc = JsonValue::Array(vec![obj(vec![("id", s("c1")), ("email", s("a@b.com"))])]);
    assert_eq!(entity_names("data/customers.json", &doc), vec!["Customer"]);
    assert_eq!(entity_names("payments.json", &JsonValue::Array(vec![s("x")])), Vec::<String>::new());
    assert_eq!(entity_names("x.json", &JsonValue::Null), Vec::<String>::new());
}

#[test]
fn plain_objects_are_one_sample_of_the_source_entity() {
    let doc = obj(vec![("id", s("1")), ("tags", JsonValue::Array(vec![s("a")]))]);
    assert_eq!(entity_names("billing-accounts.yaml", &doc), vec!["BillingAccount"]);
    let doc = obj(vec![("profile", obj(vec![("city", s("x"))])), ("categories", JsonValue::Array(vec![]))]);
    assert_eq!(entity_names("people.json", &doc), vec!["Profile"]);
}

#[test]
fn names_are_normalized_and_singular() {
    assert_eq!(normalize_name("__order_items__"), "OrderItems");
    assert_eq!(normalize_name("--"), "Entity");
    assert_eq!(normalize_name("line-ITEM list"), "LineItemList");
    assert_eq!(singularize("Categories"), "Category");
    assert_eq!(singularize("Ies"), "Ie");
    assert_eq!(singularize("S"), "S");
    assert_eq!(source_stem("dir/customers.v1.json"), "customers");
    assert_eq!(source_stem("dir/customers"), "dir/customers");
    assert_eq!(source_stem("orders.json"), "orders");
}

#[test]
fn classifies_values_and_kinds() {
    assert_eq!(classify_kind(&s("x")), ValueKind::String);
    assert_eq!(classify_kind(&JsonValue::Number { text: "1".to_string(), float: false }), ValueKind::Number);
    assert_eq!(classify_kind(&JsonValue::Array(vec![])), ValueKind::Array);
    assert_eq!(classify_kind(&JsonValue::Null), ValueKind::Null);
    assert_eq!(infer_kind(&vec![(ValueKind::Number, 3)], false), ValueKind::Number);
    assert_eq!(infer_kind(&vec![(ValueKind::Number, 3)], true), ValueKind::Timestamp);
    assert_eq!(infer_kind(&vec![(ValueKind::Number, 3), (ValueKind::Null, 1)], false), ValueKind::Mixed);
    assert_eq!(infer_kind(&vec![], false), ValueKind::Mixed);
}

#[test]
fn recognizes_personal_and_temporal_fields() {
    assert!(looks_like_pii("billingEmail"));
    assert!(looks_like_pii("HOME_ADDRESS"));
    assert!(!looks_like_pii("name"));
    assert!(is_temporal_field("created_at", &JsonValue::Null));
    assert!(is_temporal_field("LastUpdated", &JsonValue::Null));
    assert!(is_temporal_field("when", &s("2026-01-01T00:00:00Z")));
    assert!(is_temporal_field("when", &s("2026-01-01 10:00")));
    assert!(!is_temporal_field("when", &s("2026-01-01")));
    assert!(!is_temporal_field("when", &s("20261-01-01T00")));
    assert!(is_temporal_field("when", &s("éé-00-1T")));
    assert!(!is_temporal_field("when", &JsonValue::Bool(true)));
    assert!(holds_times("paid_at", &JsonValue::Null));
    assert!(!holds_times("Paid_At", &JsonValue::Null));
    assert!(mentions_pii("dob"));
    assert!(!mentions_pii("DOB"));
}

#[test]
fn finds_relationship_targets() {
    let names: Vec<String> = vec!["Customer".to_string(), "Order".to_string()];
    assert_eq!(infer_relationship_target("customerId", &names, "Order"), Some("Customer".to_string()));
    assert_eq!(infer_relationship_target("order_id", &names, "Customer"), None);
    assert_eq!(infer_relationship_target("orderid", &names, "Customer"), Some("Order".to_string()));
    assert_eq!(infer_relationship_target("orderId", &names, "Order"), None);
    assert_eq!(infer_relationship_target("IdId", &names, "Order"), None);
    assert_eq!(infer_relationship_target("total", &names, "Order"), None);
}

fn inferred_field(name: &str, kind: ValueKind, confidence: u32, text: &str) -> InferredField {
    InferredField { name: name.to_string(), kind, confidence, confidence_text: text.to_string() }
}

fn relationship(from: &str, to: &str, kind: GraphEdgeKind, confidence: u8) -> Relationship {
    Relationship { from: from.to_string(), to: to.to_string(), kind, confidence }
}

#[test]
fn relationship_labels() {
    assert_eq!(relationship_label(GraphEdgeKind::DerivedFrom), "derived from");
    assert_eq!(relationship_label(GraphEdgeKind::HasField), "has field");
    assert_eq!(relationship_label(GraphEdgeKind::HasMany), "has many");
    assert_eq!(relationship_label(GraphEdgeKind::BelongsTo), "belongs to");
    assert_eq!(relationship_label(GraphEdgeKind::Related), "related");
    assert_eq!(value_kind_name(ValueKind::Timestamp), "Timestamp");
}

#[test]
fn assembles_nodes_edges_and_merged_relationships() {
    let customer = InferredEntity {
        name: "customer".to_string(),
        fields: vec![
            inferred_field("id", ValueKind::String, 1000, "100"),
            inferred_field("name", ValueKind::String, 900, "90"),
        ],
        sources: vec!["crm.json".to_string()],
        confidence: 950,
        foreign: vec![],
    };
    let order = InferredEntity {
        name: "order".to_string(),
        fields: vec![inferred_field("customer_id", ValueKind::String, 1000, "100")],
        sources: vec!["crm.json".to_string(), "shop.json".to_string()],
        confidence: 800,
        foreign: vec![relationship("order", "customer", GraphEdgeKind::BelongsTo, 94)],
    };
    let collected = vec![
        relationship("order", "line_item", GraphEdgeKind::HasMany, 97),
        relationship("customer", "order", GraphEdgeKind::HasMany, 97),
        relationship("order", "customer", GraphEdgeKind::BelongsTo, 50),
    ];
    let graph = assemble_graph(&vec![customer, order], &collected);

    let ids: Vec<&str> = graph.nodes.iter().map(|n| n.id.as_str()).collect();
    assert_eq!(
        ids,
        vec![
            "entity:customer",
            "entity:order",
            "field:customer:id",
            "field:customer:name",
            "source:crm.json",
            "field:order:customer_id",
            "source:shop.json",
        ]
    );
    assert_eq!(
        graph.nodes[3].properties,
        vec![
            ("confidence".to_string(), "90".to_string()),
            ("type".to_string(), "String".to_string()),
        ]
    );
    assert_eq!(graph.nodes[4].kind, GraphNodeKind::Source);

    let rels: Vec<(&str, &str, GraphEdgeKind, u8)> = graph
        .relationships
        .iter()
        .map(|r| (r.from.as_str(), r.to.as_str(), r.kind, r.confidence))
        .collect();
    assert_eq!(
        rels,
        vec![
            ("customer", "order", GraphEdgeKind::HasMany, 97),
            ("order", "customer", GraphEdgeKind::BelongsTo, 94),
            ("order", "line_item", GraphEdgeKind::HasMany, 97),
        ]
    );

    // two field edges and one source edge for customer, one field edge and
    // two source edges for order, then one edge per relationship
    assert_eq!(graph.edges.len(), 3 + 3 + 3);
    assert_eq!(graph.edges[2].from, "source:crm.json");
    assert_eq!(graph.edges[2].to, "entity:customer");
    assert_eq!(graph.edges[2].label, "derived from");
    assert_eq!(graph.edges[2].confidence, 950);
    let last = &graph.edges[7];
    assert_eq!(last.from, "entity:order");
    assert_eq!(last.to, "entity:customer");
    assert_eq!(last.kind, GraphEdgeKind::BelongsTo);
    assert_eq!(last.label, "belongs to");
    assert_eq!(last.confidence, 940);
}

#[test]
fn empty_input_gives_an_empty_graph() {
    let graph = assemble_graph(&vec![], &vec![]);
    assert!(graph.nodes.is_empty());
    assert!(graph.edges.is_empty());
    assert!(graph.relationships.is_empty());
}

#[test]
fn foreign_relations_follow_id_fields() {
    // `customer_id` loses only its trailing `id`, leaving `customer_`
    let fields = vec![
        "customerId".to_string(),
        "customer_id".to_string(),
        "id".to_string(),
        "total".to_string(),
    ];
    let names = vec!["customer".to_string(), "order".to_string()];
    let rels = foreign_relations("order", &fields, &names);
    assert_eq!(rels.len(), 1);
    assert_eq!(rels[0].from, "order");
    assert_eq!(rels[0].to, "customer");
    assert_eq!(rels[0].kind, GraphEdgeKind::BelongsTo);
    assert_eq!(rels[0].confidence, 94);
}

#[test]
fn field_statistics_count_each_field() {
    let samples = vec![
        vec![
            ("email".to_string(), s("a@example.com")),
            ("id".to_string(), JsonValue::Number { text: "1".to_string(), float: false }),
        ],
        vec![
            ("created_at".to_string(), s("2024-01-01T00:00:00Z")),
            ("email".to_string(), JsonValue::Null),
            ("id".to_string(), s("two")),
        ],
    ];
    let stats = field_statistics(&samples);
    let names: Vec<&str> = stats.iter().map(|f| f.name.as_str()).collect();
    assert_eq!(names, vec!["created_at", "email", "id"]);

    let created = &stats[0];
    assert_eq!(created.present, 1);
    assert_eq!(created.timestamp_hits, 1);
    assert_eq!(created.pii_hits, 0);

    let email = &stats[1];
    assert_eq!(email.present, 2);
    assert_eq!(email.nulls, 1);
    assert_eq!(email.pii_hits, 2);
    assert_eq!(email.type_counts, vec![(ValueKind::String, 1), (ValueKind::Null, 1)]);

    let id = &stats[2];
    assert_eq!(id.present, 2);
    assert_eq!(id.nulls, 0);
    assert_eq!(id.type_counts, vec![(ValueKind::String, 1), (ValueKind::Number, 1)]);
    assert_eq!(infer_kind(&id.type_counts, id.timestamp_hits > 0), ValueKind::Mixed);
}

#[test]
fn collects_samples_sources_and_nested_relationships() {
    let doc = JsonValue::Array(vec![
        obj(vec![
            ("id", s("c1")),
            ("orders", JsonValue::Array(vec![obj(vec![("id", s("o1"))]), s("skip")])),
            ("profile", obj(vec![("city", s("x"))])),
        ]),
        obj(vec![("id", s("c2"))]),
    ]);
    let mut collector = EntityCollector::new();
    collector.collect_source("data/customers.json", &doc);
    assert_eq!(collector.entity_names(), vec!["Customer", "Order", "Profile"]);

    let customer = collector.aggregate("Customer").unwrap();
    assert_eq!(customer.samples.len(), 2);
    assert_eq!(customer.sources, vec!["data/customers.json"]);
    assert_eq!(customer.sample_paths, vec!["$"]);
    let order = collector.aggregate("Order").unwrap();
    assert_eq!(order.samples.len(), 1);
    assert!(order.sources.is_empty());

    let rels: Vec<(&str, &str, GraphEdgeKind, u8)> = collector
        .relationships()
        .iter()
        .map(|r| (r.from.as_str(), r.to.as_str(), r.kind, r.confidence))
        .collect();
    assert_eq!(
        rels,
        vec![
            ("Customer", "Order", GraphEdgeKind::HasMany, 97),
            ("Customer", "Profile", GraphEdgeKind::Related, 90),
        ]
    );
}

#[test]
fn collects_members_of_objects_and_plain_objects() {
    let doc = obj(vec![
        ("invoices", JsonValue::Array(vec![obj(vec![("total", s("1"))])])),
        ("owner", obj(vec![("name", s("n"))])),
        ("tags", JsonValue::Array(vec![s("a")])),
    ]);
    let mut collector = EntityCollector::new();
    collector.collect_source("billing.json", &doc);
    collector.collect_source("other/billing.json", &doc);
    assert_eq!(collector.entity_names(), vec!["Invoice", "Owner"]);
    let invoice = collector.aggregate("Invoice").unwrap();
    assert_eq!(invoice.samples.len(), 2);
    assert_eq!(invoice.sources, vec!["billing.json", "other/billing.json"]);
    assert_eq!(invoice.sample_paths, vec!["$.invoices", "$.invoices"]);

    let plain = obj(vec![("id", s("1"))]);
    let mut other = EntityCollector::new();
    other.collect_source("people.json", &plain);
    assert_eq!(other.entity_names(), vec!["People"]);
    assert_eq!(other.aggregate("People").unwrap().sample_paths, vec!["$"]);
}

#[test]
fn infers_primary_foreign_or_synthetic_identities() {
    let primary = infer_identities("Order", &vec!["customer_id".to_string(), "order_id".to_string()]);
    assert_eq!(primary.len(), 1);
    assert_eq!(primary[0].field, "order_id");
    assert_eq!(primary[0].kind, IdentityKind::Primary);
    assert_eq!(primary[0].confidence, 980);

    let foreign = infer_identities("Order", &vec!["customerId".to_string(), "total".to_string()]);
    assert_eq!(foreign.len(), 1);
    assert_eq!(foreign[0].kind, IdentityKind::Foreign);

    let synthetic = infer_identities("Order", &vec!["total".to_string()]);
    assert_eq!(synthetic[0].field, "_synthetic");
    assert_eq!(synthetic[0].kind, IdentityKind::Synthetic);
}

#[test]
fn every_named_entity_is_collected() {
    let doc = obj(vec![
        ("customers", JsonValue::Array(vec![obj(vec![("orders", JsonValue::Array(vec![obj(vec![])]))])])),
        ("settings", obj(vec![("theme", obj(vec![("dark", JsonValue::Bool(true))]))])),
    ]);
    let mut collector = EntityCollector::new();
    collector.collect_source("shop.json", &doc);
    let collected = collector.entity_names();
    for name in entity_names("shop.json", &doc) {
        assert!(collected.contains(&name), "{name} was not collected");
    }
    assert_eq!(collected, vec!["Customer", "Order", "Setting", "Theme"]);
}

#[test]
fn profiles_an_entity() {
    let doc = JsonValue::Array(vec![
        obj(vec![("id", s("o1")), ("customerId", s("c1")), ("email", s("a@b.c")), ("total", s("3"))]),
        obj(vec![("id", s("o2")), ("customerId", s("c2"))]),
    ]);
    let mut collector = EntityCollector::new();
    collector.collect_source("orders.json", &doc);
    let aggregate = collector.aggregate("Order").unwrap();
    let names = vec!["Customer".to_string(), "Order".to_string()];
    let profile = entity_profile("Order", aggregate, &names);
    assert_eq!(profile.name, "Order");
    assert_eq!(profile.instances, 2);
    assert_eq!(profile.fields, 4);
    assert_eq!(profile.primary_identifier, Some("id".to_string()));
    assert_eq!(profile.detected_pii, vec!["email".to_string()]);
    assert_eq!(profile.related, vec!["Customer".to_string()]);
    assert_eq!(profile.sources, vec!["orders.json".to_string()]);
}

#[test]
fn profile_without_an_identifier_or_relations() {
    let doc = JsonValue::Array(vec![obj(vec![("label", s("x"))])]);
    let mut collector = EntityCollector::new();
    collector.collect_source("tags.json", &doc);
    let aggregate = collector.aggregate("Tag").unwrap();
    let profile = entity_profile("Tag", aggregate, &vec!["Tag".to_string()]);
    assert_eq!(profile.primary_identifier, None);
    assert!(profile.related.is_empty());
    assert!(profile.detected_pii.is_empty());
    assert_eq!(profile.fields, 1);
}

use treehouse::application_model::{pluralize, to_snake_case, EntityShape, FieldShape};
use treehouse::convex::{camel_case, compile_convex, convex_type};
use treehouse::evidence::node::EvidenceKind;
use treehouse::evidence::provenance::{Provenance, SourceKind};
use treehouse::evidence::query::EvidenceQuery;

fn field(name: &str, field_type: &str, primary: bool, unique: bool) -> FieldShape {
    FieldShape {
        name: name.to_string(),
        field_type: field_type.to_string(),
        required: true,
        primary,
        unique,
    }
}

#[test]
fn compiles_convex_schema_and_entity_functions() {
    let entities = vec![EntityShape {
        name: "Customer".to_string(),
        fields: vec![field("id", "uuid", true, false), field("email", "email", false, true)],
    }];

    let artifacts = compile_convex(&entities);
    assert!(artifacts
        .files
        .iter()
        .any(|file| file.relative_path == "schema.ts" && file.content.contains("customers")));
    assert!(artifacts
        .files
        .iter()
        .any(|file| file.relative_path == "customer.ts" && file.content.contains("createCustomer")));
}

#[test]
fn convex_schema_text_is_exact() {
    let entities = vec![EntityShape {
        name: "Category".to_string(),
        fields: vec![
            field("ID", "uuid", true, false),
            field("display_name", "string", false, false),
            field("unit-price", "money", false, false),
            field("active", "boolean", false, false),
        ],
    }];
    let artifacts = compile_convex(&entities);
    assert_eq!(artifacts.files.len(), 2);
    assert_eq!(
        artifacts.files[0].content,
        "import { defineSchema, defineTable } from \"convex/server\";\n\
         import { v } from \"convex/values\";\n\n\
         export default defineSchema({\n  categories: defineTable({\n    \
         displayName: v.string(),\n    unitPrice: v.number(),\n    active: v.boolean(),\n  }),\n});\n"
    );
    assert_eq!(artifacts.files[1].relative_path, "category.ts");
    assert!(artifacts.files[1].content.contains("export const listCategory = query({\nargs: {},\n"));
    assert!(artifacts.files[1].content.contains("ctx.db.insert(\"categories\", args)"));
}

#[test]
fn names_convert_between_cases() {
    assert_eq!(camel_case("created_at"), "createdAt");
    assert_eq!(camel_case("Full Name"), "fullName");
    assert_eq!(convex_type("timestamp"), "v.number()");
    assert_eq!(convex_type("array"), "v.array(v.any())");
    assert_eq!(convex_type("uuid"), "v.string()");
    assert_eq!(pluralize("Category"), "categories");
    assert_eq!(pluralize("Address"), "address");
    assert_eq!(pluralize("Y"), "ys");
    assert_eq!(to_snake_case("OrderItem"), "order_item");
    assert_eq!(to_snake_case("customerID"), "customer_i_d");
}

#[test]
fn filters_by_kind_and_since() {
    let kind = EvidenceKind::Entity { name: "Invoice".to_string() };
    let subsystem = Some("Billing".to_string());
    let provenance = Provenance::new(SourceKind::Entity, "x", "observer");
    assert_eq!(provenance.observer, "observer");

    assert!(EvidenceQuery::new().kind("entity").since_unix(19).matches(&kind, 20, &subsystem));
    assert!(!EvidenceQuery::new().kind("api").matches(&kind, 20, &subsystem));
    assert!(!EvidenceQuery::new().since_unix(21).matches(&kind, 20, &subsystem));
}

#[test]
fn kind_filters_ignore_case_and_separators() {
    let kind = EvidenceKind::GitDelta { file: "a".to_string(), status: "M".to_string() };
    assert_eq!(kind.kind_name(), "gitdelta");
    assert!(EvidenceQuery::new().kind("Git_Delta").matches(&kind, 0, &None));
    assert!(EvidenceQuery::new().kind("git-delta").subsystem("Billing").matches(
        &kind,
        0,
        &Some("Billing".to_string())
    ));
    assert!(!EvidenceQuery::new().subsystem("Billing").matches(&kind, 0, &None));
}

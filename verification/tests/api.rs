use treehouse::api::{
    build_request, generate_api_surface, ApiOperation, FieldRequirement, HttpMethod, RequestIntent,
};
use treehouse::json::JsonValue;

fn names(list: &[&str]) -> Vec<String> {
    list.iter().map(|n| n.to_string()).collect()
}

fn fields(list: &[(&str, f32)]) -> Vec<FieldRequirement> {
    list.iter()
        .map(|(name, ratio)| FieldRequirement { name: name.to_string(), required: *ratio >= 0.99 })
        .collect()
}

#[test]
fn generates_expected_endpoints() {
    let surface = generate_api_surface(&names(&["Customer", "Order", "Invoice"]));
    assert!(surface
        .endpoints
        .iter()
        .any(|endpoint| endpoint.path == "/customers" && endpoint.method == HttpMethod::Get));
    assert!(surface
        .endpoints
        .iter()
        .any(|endpoint| endpoint.path == "/customers/{id}" && endpoint.method == HttpMethod::Get));
    assert!(surface
        .endpoints
        .iter()
        .any(|endpoint| endpoint.path == "/customers" && endpoint.method == HttpMethod::Post));
    assert!(surface
        .endpoints
        .iter()
        .any(|endpoint| endpoint.path == "/customers/{id}" && endpoint.method == HttpMethod::Patch));
    assert!(surface
        .endpoints
        .iter()
        .any(|endpoint| endpoint.path == "/orders" && endpoint.method == HttpMethod::Get));
    assert!(surface
        .endpoints
        .iter()
        .any(|endpoint| endpoint.path == "/orders/{id}" && endpoint.method == HttpMethod::Get));
}

#[test]
fn surface_entities_are_sorted_and_distinct() {
    let surface = generate_api_surface(&names(&["Order", "Category", "Order", "Address"]));
    assert_eq!(surface.entities, names(&["Address", "Category", "Order"]));
    assert_eq!(surface.endpoints.len(), 12);
    assert_eq!(surface.endpoints[0].path, "/address");
    assert_eq!(surface.endpoints[0].operation, ApiOperation::List);
    assert_eq!(surface.endpoints[5].path, "/categories/{id}");
    assert_eq!(surface.endpoints[5].operation, ApiOperation::GetById);
    assert_eq!(surface.endpoints[10].method, HttpMethod::Post);
    assert_eq!(surface.endpoints[11].path, "/orders/{id}");
    assert_eq!(surface.endpoints[11].entity, "Order");
}

#[test]
fn builds_model_first_request() {
    let customer = fields(&[("id", 1.0), ("name", 1.0), ("email", 1.0), ("phone", 0.3), ("address", 0.2)]);

    let request = build_request("Customer", &customer, RequestIntent::Create);
    assert_eq!(request.path, "/customers");
    assert_eq!(request.method, HttpMethod::Post);
    assert_eq!(request.required_fields, vec!["name", "email"]);
    assert!(request.optional_fields.iter().any(|field| field == "phone"));
    assert!(request.optional_fields.iter().any(|field| field == "address"));
    let name = match &request.body {
        JsonValue::Object(entries) => entries.iter().find(|(k, _)| k == "name").map(|(_, v)| v),
        _ => None,
    };
    assert_eq!(name, Some(&JsonValue::Str("<name>".to_string())));
}

#[test]
fn patch_requests_skip_identifiers() {
    let list = fields(&[("orderId", 1.0), ("tenant_id", 1.0), ("total", 1.0), ("note", 0.5)]);
    let request = build_request("Entry", &list, RequestIntent::Patch);
    assert_eq!(request.method, HttpMethod::Patch);
    assert_eq!(request.path, "/entries/{id}");
    assert_eq!(request.entity, "Entry");
    assert_eq!(request.required_fields, vec!["total"]);
    assert_eq!(request.optional_fields, vec!["note"]);
    assert_eq!(
        request.headers,
        vec![("content-type".to_string(), "application/json".to_string())]
    );
    assert_eq!(
        request.body,
        JsonValue::Object(vec![("total".to_string(), JsonValue::Str("<total>".to_string()))])
    );
}

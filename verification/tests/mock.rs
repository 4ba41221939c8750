use treehouse::api::HttpMethod;
use treehouse::json::JsonValue;
use treehouse::mock::{
    prepare_mock_runtime, infer_id, merge_object, method_name, parse_route, plural_route, seed_collections, MockMethod,
    MockState,
};

fn s(v: &str) -> JsonValue {
    JsonValue::Str(v.to_string())
}

fn obj(entries: Vec<(&str, JsonValue)>) -> JsonValue {
    let mut entries: Vec<(String, JsonValue)> =
        entries.into_iter().map(|(k, v)| (k.to_string(), v)).collect();
    entries.sort_by(|a, b| a.0.cmp(&b.0));
    JsonValue::Object(entries)
}

fn member<'a>(v: &'a JsonValue, key: &str) -> Option<&'a JsonValue> {
    match v {
        JsonValue::Object(es) => es.iter().find(|(k, _)| k == key).map(|(_, v)| v),
        _ => None,
    }
}

#[test]
fn parses_collection_and_resource_routes() {
    assert_eq!(parse_route("/customers"), Some(("customers".to_string(), None)));
    assert_eq!(
        parse_route("/orders/abc"),
        Some(("orders".to_string(), Some("abc".to_string())))
    );
    assert_eq!(parse_route("/orders/abc/extra"), None);
}

#[test]
fn routes_ignore_queries_and_leading_slashes() {
    assert_eq!(parse_route("//orders?limit=5"), Some(("orders".to_string(), None)));
    assert_eq!(parse_route("/"), None);
    assert_eq!(parse_route("/?x=1"), None);
    assert_eq!(parse_route("/orders/"), Some(("orders".to_string(), Some(String::new()))));
}

#[test]
fn infers_id_variants() {
    assert_eq!(infer_id(&obj(vec![("id", s("1"))])).as_deref(), Some("1"));
    assert_eq!(infer_id(&obj(vec![("orderId", s("x"))])).as_deref(), Some("x"));
    assert_eq!(infer_id(&obj(vec![("name", s("none"))])), None);
}

#[test]
fn numeric_ids_keep_their_text() {
    let n = JsonValue::Number { text: "42".to_string(), float: false };
    assert_eq!(infer_id(&obj(vec![("customer_id", n)])).as_deref(), Some("42"));
    assert_eq!(infer_id(&s("x")), None);
}

#[test]
fn names_and_routes() {
    assert_eq!(plural_route("Category"), "categories");
    assert_eq!(plural_route("Address"), "address");
    assert_eq!(plural_route("Order"), "orders");
    assert_eq!(method_name(HttpMethod::Patch), "PATCH");
}

#[test]
fn merges_patch_members() {
    let mut target = obj(vec![("id", s("1")), ("name", s("a"))]);
    merge_object(&mut target, &obj(vec![("name", s("b")), ("age", s("3"))]));
    assert_eq!(target, obj(vec![("age", s("3")), ("id", s("1")), ("name", s("b"))]));
}

#[test]
fn serves_crud_requests() {
    let mut state = MockState::new();
    seed_collections(&obj(vec![("Orders", JsonValue::Array(vec![obj(vec![("id", s("a"))])]))]), &mut state);

    let (status, body) = state.handle(MockMethod::Get, "/orders/a", Ok(JsonValue::Null));
    assert_eq!(status, 200);
    assert_eq!(member(&body, "id"), Some(&s("a")));

    let (status, created) = state.handle(MockMethod::Post, "/orders", Ok(obj(vec![("total", s("9"))])));
    assert_eq!(status, 201);
    assert_eq!(member(&created, "id"), Some(&s("2")));

    let (status, patched) = state.handle(MockMethod::Patch, "/orders/2", Ok(obj(vec![("total", s("10"))])));
    assert_eq!(status, 200);
    assert_eq!(member(&patched, "total"), Some(&s("10")));

    let (status, listed) = state.handle(MockMethod::Get, "/orders", Ok(JsonValue::Null));
    assert_eq!(status, 200);
    match listed {
        JsonValue::Array(items) => assert_eq!(items.len(), 2),
        _ => panic!("expected an array"),
    }

    let (status, missing) = state.handle(MockMethod::Get, "/orders/zzz", Ok(JsonValue::Null));
    assert_eq!(status, 404);
    assert_eq!(member(&missing, "error"), Some(&s("resource not found")));

    let (status, _) = state.handle(MockMethod::Get, "/a/b/c", Ok(JsonValue::Null));
    assert_eq!(status, 404);
    let (status, _) = state.handle(MockMethod::Other, "/orders", Ok(JsonValue::Null));
    assert_eq!(status, 405);
    let (status, bad) = state.handle(MockMethod::Post, "/orders", Err("request body is not valid JSON".to_string()));
    assert_eq!(status, 400);
    assert_eq!(member(&bad, "error"), Some(&s("request body is not valid JSON")));
}

#[test]
fn prepares_runtime_from_model_document() {
    let doc = obj(vec![
        ("customers", JsonValue::Array(vec![obj(vec![("id", s("1"))])])),
        ("meta", obj(vec![("v", s("1"))])),
    ]);
    let (surface, mut state) = prepare_mock_runtime("model.json", &doc).unwrap();
    assert_eq!(surface.entities, vec!["Customer".to_string(), "Meta".to_string()]);
    assert_eq!(surface.endpoints.len(), 8);
    assert_eq!(surface.endpoints[4].path, "/metas");

    let (status, listed) = state.handle(MockMethod::Get, "/metas", Ok(JsonValue::Null));
    assert_eq!(status, 200);
    assert_eq!(listed, JsonValue::Array(vec![]));
    let (status, listed) = state.handle(MockMethod::Get, "/customers", Ok(JsonValue::Null));
    assert_eq!(status, 200);
    assert_eq!(listed, JsonValue::Array(vec![obj(vec![("id", s("1"))])]));
}

#[test]
fn refuses_documents_without_entities() {
    let err = prepare_mock_runtime("model.json", &JsonValue::Array(vec![s("x")])).err();
    assert_eq!(
        err,
        Some("no entities discovered in model; could not generate API surface".to_string())
    );
}

#[test]
fn fetches_what_was_created_and_patched() {
    let mut state = MockState::new();
    let (status, created) = state.handle(MockMethod::Post, "/orders", Ok(obj(vec![("total", s("9"))])));
    assert_eq!(status, 201);
    let (status, fetched) = state.handle(MockMethod::Get, "/orders/1", Ok(JsonValue::Null));
    assert_eq!(status, 200);
    assert_eq!(fetched, created);

    let (status, patched) = state.handle(MockMethod::Patch, "/orders/1", Ok(obj(vec![("total", s("12"))])));
    assert_eq!(status, 200);
    let (status, fetched) = state.handle(MockMethod::Get, "/orders/1", Ok(JsonValue::Null));
    assert_eq!(status, 200);
    assert_eq!(fetched, patched);
    assert_eq!(member(&fetched, "total"), Some(&s("12")));

    let (status, err) = state.handle(MockMethod::Post, "/orders", Err("request body is not valid JSON".to_string()));
    assert_eq!(status, 400);
    assert_eq!(member(&err, "error"), Some(&s("request body is not valid JSON")));
}

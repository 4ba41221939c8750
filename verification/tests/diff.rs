use treehouse::diff::{diff_documents, DiffKind};
use treehouse::document::{node_meta, node_type, Document, NodeType};
use treehouse::json::{insert_entry, JsonValue};

fn s(v: &str) -> JsonValue {
    JsonValue::Str(v.to_string())
}

fn num(n: i64) -> JsonValue {
    JsonValue::Number { text: n.to_string(), float: false }
}

fn obj(entries: Vec<(&str, JsonValue)>) -> JsonValue {
    let mut entries: Vec<(String, JsonValue)> =
        entries.into_iter().map(|(k, v)| (k.to_string(), v)).collect();
    entries.sort_by(|a, b| a.0.cmp(&b.0));
    JsonValue::Object(entries)
}

#[test]
fn reports_added_removed_and_changed_fields() {
    let left = Document::new(
        obj(vec![
            ("id", num(1)),
            ("name", s("Alice")),
            ("tags", JsonValue::Array(vec![s("a"), s("b")])),
            ("legacy", JsonValue::Bool(true)),
        ]),
        0,
    );
    let right = Document::new(
        obj(vec![
            ("id", num(1)),
            ("name", s("Alicia")),
            ("tags", JsonValue::Array(vec![s("a"), s("c"), s("d")])),
            ("status", s("active")),
        ]),
        0,
    );

    let diff = diff_documents(&left, &right);
    assert!(diff.iter().any(|entry| entry.path == "$.name" && entry.kind == DiffKind::Changed));
    assert!(diff.iter().any(|entry| entry.path == "$.legacy" && entry.kind == DiffKind::Removed));
    assert!(diff.iter().any(|entry| entry.path == "$.status" && entry.kind == DiffKind::Added));
    assert!(diff.iter().any(|entry| entry.path == "$.tags[1]" && entry.kind == DiffKind::Changed));
    assert!(diff.iter().any(|entry| entry.path == "$.tags[2]" && entry.kind == DiffKind::Added));
}

#[test]
fn reports_type_changes() {
    let left = Document::new(obj(vec![("count", num(10))]), 0);
    let right = Document::new(obj(vec![("count", obj(vec![("value", num(10))]))]), 0);

    let diff = diff_documents(&left, &right);
    assert!(diff.iter().any(|entry| entry.path == "$.count" && entry.kind == DiffKind::TypeChanged));
}

#[test]
fn equal_documents_have_no_differences() {
    let doc = obj(vec![("a", JsonValue::Array(vec![num(1), JsonValue::Null]))]);
    let left = Document::new(doc, 3);
    let right = Document::new(obj(vec![("a", JsonValue::Array(vec![num(1), JsonValue::Null]))]), 9);
    assert!(diff_documents(&left, &right).is_empty());
    assert_eq!(left.source_len(), 3);
}

#[test]
fn diff_entries_come_in_key_order_with_values() {
    let left = Document::new(obj(vec![("b", num(1)), ("a", s("x"))]), 0);
    let right = Document::new(obj(vec![("c", JsonValue::Bool(false)), ("a", s("y"))]), 0);
    let diff = diff_documents(&left, &right);
    let paths: Vec<&str> = diff.iter().map(|e| e.path.as_str()).collect();
    assert_eq!(paths, vec!["$.a", "$.b", "$.c"]);
    assert_eq!(diff[0].left, Some(s("x")));
    assert_eq!(diff[0].right, Some(s("y")));
    assert_eq!(diff[1].kind, DiffKind::Removed);
    assert_eq!(diff[1].right, None);
    assert_eq!(diff[2].kind, DiffKind::Added);
    assert_eq!(diff[2].left, None);
}

#[test]
fn root_type_change_is_one_entry() {
    let left = Document::new(JsonValue::Array(vec![]), 0);
    let right = Document::new(s("x"), 0);
    let diff = diff_documents(&left, &right);
    assert_eq!(diff.len(), 1);
    assert_eq!(diff[0].path, "$");
    assert_eq!(diff[0].kind, DiffKind::TypeChanged);
    assert_eq!(node_type(right.root()), NodeType::String);
}

#[test]
fn node_meta_measures_strings_in_bytes() {
    let meta = node_meta(&JsonValue::Str("héllo".to_string()), 7, 99);
    assert_eq!(meta.offset, 7);
    assert_eq!(meta.length, 6);
    assert_eq!(meta.node_type, NodeType::String);
    assert_eq!(meta.child_count, 0);
}

#[test]
fn root_meta_counts_children_and_takes_the_text_length() {
    let root = JsonValue::Array(vec![JsonValue::Null, JsonValue::Bool(true)]);
    let doc = Document::new(root, 12);
    let meta = doc.root_meta(11);
    assert_eq!(meta.offset, 0);
    assert_eq!(meta.length, 11);
    assert_eq!(meta.node_type, NodeType::Array);
    assert_eq!(meta.child_count, 2);
}

fn float(t: &str) -> JsonValue {
    JsonValue::Number { text: t.to_string(), float: true }
}

#[test]
fn minus_zero_is_the_same_number_as_zero() {
    let left = Document::new(obj(vec![("x", float("0.0"))]), 0);
    let right = Document::new(obj(vec![("x", float("-0.0"))]), 0);
    assert!(diff_documents(&left, &right).is_empty());
}

#[test]
fn integer_zero_differs_from_float_zero() {
    let left = Document::new(obj(vec![("x", num(0))]), 0);
    let right = Document::new(obj(vec![("x", float("0.0"))]), 0);
    let diff = diff_documents(&left, &right);
    assert_eq!(diff.len(), 1);
    assert_eq!(diff[0].kind, DiffKind::Changed);
    assert_eq!(diff[0].path, "$.x");
}

#[test]
fn different_floats_are_changed() {
    let left = Document::new(obj(vec![("x", float("1.5"))]), 0);
    let right = Document::new(obj(vec![("x", float("-1.5"))]), 0);
    let diff = diff_documents(&left, &right);
    assert_eq!(diff.len(), 1);
    assert_eq!(diff[0].kind, DiffKind::Changed);
}

#[test]
fn inserting_keeps_keys_in_order() {
    let mut entries: Vec<(String, JsonValue)> = vec![("a".to_string(), num(1)), ("c".to_string(), num(3))];
    insert_entry(&mut entries, "b".to_string(), num(2));
    insert_entry(&mut entries, "a".to_string(), num(10));
    let keys: Vec<&str> = entries.iter().map(|(k, _)| k.as_str()).collect();
    assert_eq!(keys, vec!["a", "b", "c"]);
    assert_eq!(entries[0].1, num(10));
}

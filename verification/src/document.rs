//! A parsed JSON document.
use vstd::prelude::*;

use vstd::utf8::encode_utf8;

use crate::json::{canonical, jv, JsonValue, JsonView};

verus! {

#[derive(Debug, Clone, Copy, PartialEq, Eq, Structural)]
pub enum NodeType {
    Object,
    Array,
    String,
    Number,
    Bool,
    Null,
}

#[derive(Debug, Clone, PartialEq, Eq)]
pub struct NodeMeta {
    pub offset: usize,
    pub length: usize,
    pub node_type: NodeType,
    pub child_count: usize,
}

/// A document's root value and the length of its source text. The root is
/// canonical (see `canonical`): every object's keys strictly increase.
#[derive(Debug)]
pub struct Document {
    root: JsonValue,
    source_len: usize,
}

pub open spec fn type_of(v: JsonView) -> NodeType {
    match v {
        JsonView::Object(_) => NodeType::Object,
        JsonView::Array(_) => NodeType::Array,
        JsonView::Str(_) => NodeType::String,
        JsonView::Number(..) => NodeType::Number,
        JsonView::Bool(_) => NodeType::Bool,
        JsonView::Null => NodeType::Null,
    }
}

/// The type of a value.
pub fn node_type(value: &JsonValue) -> (r: NodeType)
    ensures
        r == type_of(jv(*value)),
{
    match value {
        JsonValue::Object(_) => NodeType::Object,
        JsonValue::Array(_) => NodeType::Array,
        JsonValue::Str(_) => NodeType::String,
        JsonValue::Number { .. } => NodeType::Number,
        JsonValue::Bool(_) => NodeType::Bool,
        JsonValue::Null => NodeType::Null,
    }
}

/// The number of children of a value: an object's entries, an array's
/// items, none for anything else.
pub open spec fn child_count_of(v: JsonValue) -> nat {
    match v {
        JsonValue::Object(es) => es@.len(),
        JsonValue::Array(items) => items@.len(),
        _ => 0,
    }
}

/// What is recorded of a value found at `offset`: its type, its number of
/// children, and its length, which for a string is its length in UTF-8
/// bytes and for any other value `text_len`, the length of the value's
/// compact JSON text as the caller measured it.
pub fn node_meta(value: &JsonValue, offset: usize, text_len: usize) -> (r: NodeMeta)
    ensures
        r.offset == offset,
        r.node_type == type_of(jv(*value)),
        r.child_count == child_count_of(*value),
        r.length == match *value {
            JsonValue::Str(s) => encode_utf8(s@).len() as usize,
            _ => text_len,
        },
{
    let child_count = match value {
        JsonValue::Object(es) => es.len(),
        JsonValue::Array(items) => items.len(),
        _ => 0,
    };
    let length = match value {
        JsonValue::Str(s) => s.as_str().len(),
        _ => text_len,
    };
    NodeMeta { offset, length, node_type: node_type(value), child_count }
}

impl Document {
    #[verifier::type_invariant]
    spec fn wf(self) -> bool {
        canonical(jv(self.root))
    }

    pub closed spec fn root_view(self) -> JsonView {
        jv(self.root)
    }

    /// The root value itself.
    pub closed spec fn root_value(self) -> JsonValue {
        self.root
    }

    pub closed spec fn len_spec(self) -> usize {
        self.source_len
    }

    pub fn new(root: JsonValue, source_len: usize) -> (r: Self)
        requires
            canonical(jv(root)),
        ensures
            r.root_view() == jv(root),
            r.len_spec() == source_len,
    {
        Document { root, source_len }
    }

    pub fn root(&self) -> (r: &JsonValue)
        ensures
            jv(*r) == self.root_view(),
            canonical(jv(*r)),
    {
        proof {
            use_type_invariant(self);
        }
        &self.root
    }

    /// What is recorded of the root (see `node_meta`), at offset 0.
    pub fn root_meta(&self, text_len: usize) -> (r: NodeMeta)
        ensures
            r.offset == 0,
            r.node_type == type_of(self.root_view()),
            r.child_count == child_count_of(self.root_value()),
            r.length == match self.root_value() {
                JsonValue::Str(s) => encode_utf8(s@).len() as usize,
                _ => text_len,
            },
    {
        node_meta(&self.root, 0, text_len)
    }

    pub fn source_len(&self) -> (r: usize)
        ensures
            r == self.len_spec(),
    {
        self.source_len
    }
}

} // verus!

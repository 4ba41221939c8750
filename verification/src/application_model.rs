//! The application model: entities, workflows, permissions and endpoints of
//! an application, and the naming rules its generators share.
use vstd::prelude::*;

use crate::text::{
    all_ascii, cat, chars_of, lower_c, lower_seq, push_char, string_of_range, to_lowercase, unicode_lower,
};

verus! {

#[derive(Debug, Clone, PartialEq, Eq)]
pub struct ApplicationInfo {
    pub name: String,
    pub version: String,
}

#[derive(Debug, Clone, Copy, PartialEq, Eq, Structural)]
pub enum RelationshipType {
    OneToOne,
    OneToMany,
    ManyToOne,
    ManyToMany,
}

#[derive(Debug, Clone, PartialEq, Eq)]
pub struct Constraint {
    pub name: String,
    pub constraint_type: String,
    pub fields: Vec<String>,
    pub expression: Option<String>,
}

#[derive(Debug, Clone, PartialEq, Eq)]
pub struct WorkflowTransition {
    pub from: String,
    pub allowed: Vec<String>,
}

#[derive(Debug, Clone, PartialEq, Eq)]
pub struct Workflow {
    pub entity: String,
    pub states: Vec<String>,
    pub transitions: Vec<WorkflowTransition>,
}

#[derive(Debug, Clone, Copy, PartialEq, Eq, Structural)]
pub enum CrudOperation {
    List,
    Get,
    Create,
    Update,
}

#[derive(Debug, Clone, PartialEq, Eq)]
pub struct ApiEndpoint {
    pub method: String,
    pub path: String,
    pub operation: CrudOperation,
    pub entity: String,
}

#[derive(Debug, Clone, PartialEq, Eq)]
pub struct PermissionPolicy {
    pub entity: String,
    pub list: bool,
    pub get: bool,
    pub create: bool,
    pub update: bool,
}

#[derive(Debug, Clone, PartialEq, Eq)]
pub struct GenerationMetadata {
    pub generated_by: String,
    pub generated_at_unix: u64,
    pub source_count: usize,
}

/// A field of an entity as the generators read it (the inferred confidence
/// score is left out).
#[derive(Debug, Clone, PartialEq, Eq)]
pub struct FieldShape {
    pub name: String,
    pub field_type: String,
    pub required: bool,
    pub primary: bool,
    pub unique: bool,
}

/// An entity as the generators read it: its name and fields.
#[derive(Debug, Clone, PartialEq, Eq)]
pub struct EntityShape {
    pub name: String,
    pub fields: Vec<FieldShape>,
}

/// The plural of a lowercase name: unchanged when it ends in `s`; `y`
/// becomes `ies` after at least one other character; else `s` is added.
pub open spec fn plural_of(lower: Seq<char>) -> Seq<char> {
    if lower.len() > 0 && lower.last() == 's' {
        lower
    } else if lower.len() > 1 && lower.last() == 'y' {
        lower.drop_last() + "ies"@
    } else {
        lower + "s"@
    }
}

/// The plural of an already lowercased name (see `plural_of`).
pub fn plural_of_lower(lower: &str) -> (r: String)
    ensures
        r@ == plural_of(lower@),
{
    let cs = chars_of(lower);
    let n = cs.len();
    if n > 0 && cs[n - 1] == 's' {
        return string_of_range(cs.as_slice(), 0, n);
    }
    if n > 1 && cs[n - 1] == 'y' {
        let stem = string_of_range(cs.as_slice(), 0, n - 1);
        return cat(stem.as_str(), "ies");
    }
    cat(lower, "s")
}

/// The plural of a name, after Unicode lowercasing (`Category` gives
/// `categories`).
pub fn pluralize(name: &str) -> (r: String)
    ensures
        r@ == plural_of(unicode_lower(name@)),
        all_ascii(name@) ==> r@ == plural_of(lower_seq(name@)),
{
    let lower = to_lowercase(name);
    plural_of_lower(lower.as_str())
}

/// `snake_case` of a name: an `_` before every ASCII capital but the first
/// character, and every character in ASCII lowercase.
pub open spec fn snake_of(name: Seq<char>) -> Seq<char>
    decreases name.len(),
{
    if name.len() == 0 {
        Seq::empty()
    } else {
        let c = name.last();
        snake_of(name.drop_last()) + if 'A' <= c && c <= 'Z' && name.len() > 1 {
            seq!['_', lower_c(c)]
        } else {
            seq![lower_c(c)]
        }
    }
}

pub fn to_snake_case(name: &str) -> (r: String)
    ensures
        r@ == snake_of(name@),
{
    let n = name.unicode_len();
    let mut out = String::new();
    let mut i: usize = 0;
    while i < n
        invariant
            i <= n,
            n == name@.len(),
            out@ == snake_of(name@.subrange(0, i as int)),
        decreases n - i,
    {
        let c = name.get_char(i);
        let ghost t = name@.subrange(0, i + 1);
        assert(t.drop_last() =~= name@.subrange(0, i as int));
        if 'A' <= c && c <= 'Z' && i > 0 {
            push_char(&mut out, '_');
        }
        push_char(&mut out, crate::text::lower_char(c));
        assert(out@ =~= snake_of(t));
        i += 1;
    }
    assert(name@.subrange(0, n as int) =~= name@);
    out
}

} // verus!

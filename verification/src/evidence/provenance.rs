//! Where a piece of evidence came from.
use vstd::prelude::*;

use crate::text::owned;

verus! {

#[derive(Debug, Clone, Copy, PartialEq, Eq, Structural)]
pub enum SourceKind {
    Git,
    Ast,
    Migration,
    Api,
    Workflow,
    Entity,
    Test,
    Runtime,
    Database,
    SystemDiff,
    Other,
}

#[derive(Debug, Clone, PartialEq, Eq)]
pub struct Provenance {
    pub source: SourceKind,
    pub location: String,
    pub observer: String,
}

impl Provenance {
    pub fn new(source: SourceKind, location: &str, observer: &str) -> (r: Self)
        ensures
            r.source == source,
            r.location@ == location@,
            r.observer@ == observer@,
    {
        Provenance { source, location: owned(location), observer: owned(observer) }
    }
}

} // verus!

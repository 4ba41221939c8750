//! Where model lineages are kept on disk.
use vstd::prelude::*;

use crate::text::owned;

verus! {

/// Versions, deltas and the lineage of a model, kept as JSON files under a
/// base directory.
#[derive(Debug, Clone)]
pub struct FileModelLineageStore {
    base_path: String,
}

impl FileModelLineageStore {
    pub closed spec fn base(self) -> Seq<char> {
        self.base_path@
    }

    pub fn new(base_path: &str) -> (r: Self)
        ensures
            r.base() == base_path@,
    {
        FileModelLineageStore { base_path: owned(base_path) }
    }

    /// The base directory.
    pub fn base_path(&self) -> (r: &str)
        ensures
            r@ == self.base(),
    {
        self.base_path.as_str()
    }
}

} // verus!

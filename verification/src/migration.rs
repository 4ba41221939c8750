//! Plans for moving a schema from one version to another.
use vstd::prelude::*;

use crate::text::owned;

verus! {

#[derive(Debug, Clone, PartialEq, Eq)]
pub struct MigrationPlan {
    pub current: String,
    pub target: String,
    pub steps: Vec<String>,
}

impl MigrationPlan {
    pub fn new(current: &str, target: &str, steps: Vec<String>) -> (r: Self)
        ensures
            r.current@ == current@,
            r.target@ == target@,
            r.steps@ == steps@,
    {
        MigrationPlan { current: owned(current), target: owned(target), steps }
    }
}

} // verus!

//! Where flows are executed.
use vstd::prelude::*;

use crate::text::owned;

verus! {

#[derive(Debug, Clone, PartialEq, Eq)]
pub struct ExecutionEnvironment {
    pub base_url: String,
}

impl Default for ExecutionEnvironment {
    /// The local development server.
    fn default() -> (r: Self)
        ensures
            r.base_url@ == "http://localhost:4000"@,
    {
        ExecutionEnvironment { base_url: owned("http://localhost:4000") }
    }
}

} // verus!

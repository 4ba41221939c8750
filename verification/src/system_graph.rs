//! A versioned snapshot of the system's architecture: its subsystems (what
//! each owns and exposes) and the relationships between them.
use vstd::prelude::*;

verus! {

/// One subsystem of the architecture.
#[derive(Debug, Clone, PartialEq, Eq)]
pub struct Subsystem {
    pub id: String,
    pub entities: Vec<String>,
    pub apis: Vec<String>,
    pub events: Vec<String>,
    pub workflows: Vec<String>,
}

/// The architecture at one version. Each relationship is written
/// `"Source -> Target"`.
#[derive(Debug, Clone, PartialEq, Eq)]
pub struct SystemGraphVersion {
    pub version: u64,
    pub subsystems: Vec<Subsystem>,
    pub relationships: Vec<String>,
}

impl Default for Subsystem {
    fn default() -> (r: Self)
        ensures
            r.id@.len() == 0,
            r.entities@.len() == 0,
            r.apis@.len() == 0,
            r.events@.len() == 0,
            r.workflows@.len() == 0,
    {
        Subsystem {
            id: String::new(),
            entities: Vec::new(),
            apis: Vec::new(),
            events: Vec::new(),
            workflows: Vec::new(),
        }
    }
}

} // verus!

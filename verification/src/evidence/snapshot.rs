//! Evidence gathered up to a point in time.
use vstd::prelude::*;

use crate::evidence::edge::EvidenceEdge;
use crate::evidence::node::EvidenceNode;

verus! {

/// The evidence observed up to `observed_through_unix`, in the order it
/// was observed.
#[derive(Debug)]
pub struct EvidenceSnapshot {
    pub observed_through_unix: u64,
    pub nodes: Vec<EvidenceNode>,
    pub edges: Vec<EvidenceEdge>,
}

impl EvidenceSnapshot {
    /// The last node observed, if any.
    pub fn newest_node(&self) -> (r: Option<&EvidenceNode>)
        ensures
            match r {
                Some(n) => self.nodes@.len() > 0 && *n == self.nodes@.last(),
                None => self.nodes@.len() == 0,
            },
    {
        if self.nodes.len() == 0 {
            None
        } else {
            Some(&self.nodes[self.nodes.len() - 1])
        }
    }
}

} // verus!

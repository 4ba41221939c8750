//! Where evidence is kept on disk.
use vstd::prelude::*;

use crate::evidence::edge::{copy_edge, EdgeView, EvidenceEdge, RelationKind};
use crate::evidence::node::EvidenceNode;
use crate::evidence::snapshot::EvidenceSnapshot;
use crate::text::{owned, str_eq};

verus! {

/// Some node with this id is held with a confidence of at least 800
/// thousandths.
pub open spec fn confident_node(nodes: Seq<EvidenceNode>, id: Seq<char>) -> bool {
    exists|i: int| 0 <= i < nodes.len() && #[trigger] nodes[i].id@ == id && nodes[i].confidence >= 800
}

/// An edge is a conflict: a contradiction held with a confidence of at
/// least 800 thousandths between two nodes both held so.
pub open spec fn is_conflict(nodes: Seq<EvidenceNode>, e: EdgeView) -> bool {
    &&& e.relation == RelationKind::Contradicts
    &&& e.confidence >= 800
    &&& confident_node(nodes, e.from)
    &&& confident_node(nodes, e.to)
}

/// The conflicts among `edges`, in order.
pub open spec fn conflicts_of(nodes: Seq<EvidenceNode>, edges: Seq<EvidenceEdge>) -> Seq<EdgeView>
    decreases edges.len(),
{
    if edges.len() == 0 {
        Seq::empty()
    } else {
        let prev = conflicts_of(nodes, edges.drop_last());
        if is_conflict(nodes, edges.last()@) {
            prev.push(edges.last()@)
        } else {
            prev
        }
    }
}

fn has_confident_node(nodes: &Vec<EvidenceNode>, id: &str) -> (r: bool)
    ensures
        r == confident_node(nodes@, id@),
{
    let mut i: usize = 0;
    while i < nodes.len()
        invariant
            i <= nodes@.len(),
            forall|j: int| 0 <= j < i ==> !(#[trigger] nodes@[j].id@ == id@ && nodes@[j].confidence >= 800),
        decreases nodes@.len() - i,
    {
        if str_eq(nodes[i].id.as_str(), id) && nodes[i].confidence >= 800 {
            return true;
        }
        i += 1;
    }
    false
}

/// Evidence kept as JSON lines under a base directory.
#[derive(Debug, Clone)]
pub struct FileEvidenceStore {
    base_path: String,
}

impl FileEvidenceStore {
    pub closed spec fn base(self) -> Seq<char> {
        self.base_path@
    }

    pub fn new(base_path: &str) -> (r: Self)
        ensures
            r.base() == base_path@,
    {
        FileEvidenceStore { base_path: owned(base_path) }
    }

    /// The conflicts of a snapshot, in order (see `is_conflict`).
    pub fn detect_conflicts(snapshot: &EvidenceSnapshot) -> (r: Vec<EvidenceEdge>)
        ensures
            r@.map_values(|e: EvidenceEdge| e@) == conflicts_of(snapshot.nodes@, snapshot.edges@),
    {
        let edges = &snapshot.edges;
        let mut r: Vec<EvidenceEdge> = Vec::new();
        let mut i: usize = 0;
        while i < edges.len()
            invariant
                i <= edges@.len(),
                edges == &snapshot.edges,
                r@.map_values(|e: EvidenceEdge| e@) == conflicts_of(snapshot.nodes@, edges@.subrange(0, i as int)),
            decreases edges@.len() - i,
        {
            let ghost sub = edges@.subrange(0, i + 1);
            assert(sub.drop_last() =~= edges@.subrange(0, i as int));
            assert(sub.last() == edges@[i as int]);
            let e = &edges[i];
            let ghost before = r@;
            if e.relation == RelationKind::Contradicts && e.confidence >= 800 && has_confident_node(
                &snapshot.nodes,
                e.from.as_str(),
            ) && has_confident_node(&snapshot.nodes, e.to.as_str()) {
                r.push(copy_edge(e));
                assert(r@.map_values(|x: EvidenceEdge| x@) =~= before.map_values(|x: EvidenceEdge| x@).push(e@));
            }
            i += 1;
        }
        assert(edges@.subrange(0, edges@.len() as int) =~= edges@);
        r
    }

    /// The base directory.
    pub fn base_path(&self) -> (r: &str)
        ensures
            r@ == self.base(),
    {
        self.base_path.as_str()
    }
}

} // verus!

use treehouse::evidence::edge::{EvidenceEdge, RelationKind};
use treehouse::evidence::node::{EvidenceKind, EvidenceNode};
use treehouse::evidence::provenance::{Provenance, SourceKind};
use treehouse::evidence::snapshot::EvidenceSnapshot;
use treehouse::evidence::store::FileEvidenceStore;
use treehouse::json::JsonValue;

fn node(id: &str, observed_at_unix: u64, confidence: u32, location: &str) -> EvidenceNode {
    EvidenceNode {
        id: id.to_string(),
        kind: EvidenceKind::Entity { name: "Invoice".to_string() },
        observed_at_unix,
        confidence,
        provenance: Provenance::new(SourceKind::Entity, location, "observer"),
        subsystem: None,
        attributes: JsonValue::Null,
    }
}

fn edge(from: &str, to: &str, relation: RelationKind, confidence: u32) -> EvidenceEdge {
    EvidenceEdge { from: from.to_string(), to: to.to_string(), relation, confidence, observed_at_unix: 2 }
}

#[test]
fn detects_high_confidence_conflicts() {
    let left = node("left", 1, 950, "left");
    let right = node("right", 2, 900, "right");
    let snapshot = EvidenceSnapshot {
        observed_through_unix: 2,
        nodes: vec![left, right],
        edges: vec![edge("left", "right", RelationKind::Contradicts, 910)],
    };
    let conflicts = FileEvidenceStore::detect_conflicts(&snapshot);
    assert_eq!(conflicts.len(), 1);
}

#[test]
fn weak_or_supporting_edges_are_no_conflicts() {
    let snapshot = EvidenceSnapshot {
        observed_through_unix: 3,
        nodes: vec![node("a", 1, 950, "a"), node("b", 2, 799, "b"), node("c", 3, 800, "c")],
        edges: vec![
            edge("a", "b", RelationKind::Contradicts, 900),
            edge("a", "c", RelationKind::Supports, 900),
            edge("a", "c", RelationKind::Contradicts, 799),
            edge("a", "missing", RelationKind::Contradicts, 900),
            edge("c", "a", RelationKind::Contradicts, 800),
        ],
    };
    let conflicts = FileEvidenceStore::detect_conflicts(&snapshot);
    assert_eq!(conflicts, vec![edge("c", "a", RelationKind::Contradicts, 800)]);
}

#[test]
fn newest_node_is_the_last_observed() {
    let mut snapshot = EvidenceSnapshot { observed_through_unix: 0, nodes: vec![], edges: vec![] };
    assert!(snapshot.newest_node().is_none());
    snapshot.nodes.push(node("a", 1, 950, "a"));
    snapshot.nodes.push(node("b", 2, 950, "b"));
    assert_eq!(snapshot.newest_node().unwrap().id, "b");
}

use treehouse::drift::{detect_drift, DriftType, OwnershipPolicy};
use treehouse::system_graph::{Subsystem, SystemGraphVersion};

fn subsystem(id: &str, entities: &[&str]) -> Subsystem {
    Subsystem {
        id: id.to_string(),
        entities: entities.iter().map(|e| e.to_string()).collect(),
        ..Subsystem::default()
    }
}

#[test]
fn detects_multiple_drift_types() {
    let previous = SystemGraphVersion {
        version: 1,
        subsystems: vec![subsystem("Billing", &["Invoice", "Payment"])],
        relationships: vec![],
    };
    let current = SystemGraphVersion {
        version: 2,
        subsystems: vec![
            subsystem("Billing", &["Invoice", "Payment", "Customer", "Account"]),
            subsystem("Checkout", &["Invoice", "Payment"]),
        ],
        relationships: vec![],
    };

    let events = detect_drift(
        Some(&previous),
        &current,
        &vec![OwnershipPolicy {
            subsystem: "Billing".to_string(),
            owns: vec!["Invoice".to_string(), "Payment".to_string()],
        }],
    );

    assert!(events
        .iter()
        .any(|event| event.drift_type == DriftType::DuplicateCapability));
    assert!(events
        .iter()
        .any(|event| event.drift_type == DriftType::SubsystemOverlap));
    assert!(events
        .iter()
        .any(|event| event.drift_type == DriftType::ArchitectureDrift));
    assert!(events
        .iter()
        .any(|event| event.drift_type == DriftType::ModelFragmentation));
    assert!(events
        .iter()
        .any(|event| event.drift_type == DriftType::OwnershipViolation));
}

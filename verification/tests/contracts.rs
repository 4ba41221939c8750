use treehouse::contracts::definition::{
    generate_contract_tests, ApiContract, ConsumerDependency, ContractTestKind, DataContract,
    EventContract, FieldContract, OwnershipContract, OwnershipDeclaration, ProcessContract,
    ProvidedInterfaces, SchemaContract, SubsystemContract,
};
use treehouse::contracts::migration::build_migration_plan;
use treehouse::contracts::observer::{
    detect_subsystem_contract_drift, ContractDrift, ContractDriftKind, ContractDriftReport,
    ObservedContractReality, OwnershipWriteObservation,
};
use treehouse::contracts::registry::{CompatibilityRecord, ContractRegistry};

fn field(name: &str, field_type: &str) -> FieldContract {
    FieldContract {
        name: name.to_string(),
        field_type: field_type.to_string(),
        required: true,
    }
}

#[test]
fn creates_actionable_steps_for_drift_types() {
    let previous = SubsystemContract {
        subsystem: "Billing".to_string(),
        version: "2".to_string(),
        ..SubsystemContract::default()
    };
    let next = SubsystemContract {
        subsystem: "Billing".to_string(),
        version: "3".to_string(),
        ..SubsystemContract::default()
    };
    let report = ContractDriftReport {
        subsystem: "Billing".to_string(),
        drifts: vec![
            ContractDrift {
                kind: ContractDriftKind::Data,
                message: "removed field".to_string(),
                expected: "tenant_id".to_string(),
                actual: "organization_id".to_string(),
                affected_consumers: vec![],
                impacted_areas: vec![],
            },
            ContractDrift {
                kind: ContractDriftKind::Ownership,
                message: "ownership violation".to_string(),
                expected: "Billing".to_string(),
                actual: "Orders".to_string(),
                affected_consumers: vec![],
                impacted_areas: vec![],
            },
        ],
    };

    let plan = build_migration_plan(&previous, &next, &report);
    assert_eq!(plan.subsystem, "Billing");
    assert!(plan.steps.iter().any(|step| step.title == "Run impact analysis"));
    assert!(plan
        .steps
        .iter()
        .any(|step| step.title == "Introduce compatibility fields"));
    assert!(plan
        .steps
        .iter()
        .any(|step| step.title == "Restore ownership boundaries"));
}

#[test]
fn detects_contract_drift_with_consumer_impact() {
    let declared = SubsystemContract {
        subsystem: "Billing".to_string(),
        version: "3".to_string(),
        owns: OwnershipDeclaration {
            entities: vec!["Invoice".to_string()],
            workflows: vec!["Collect Payment".to_string()],
        },
        provides: ProvidedInterfaces {
            apis: vec![ApiContract {
                method: "POST".to_string(),
                path: "/invoice".to_string(),
                request: SchemaContract {
                    fields: vec![field("customer_id", "string")],
                },
                response: SchemaContract {
                    fields: vec![field("status", "string")],
                },
                authorization: Some("tenant-context".to_string()),
                lifecycle: vec!["invoice-created".to_string()],
            }],
            events: vec![EventContract {
                name: "PaymentCompleted".to_string(),
                payload: SchemaContract {
                    fields: vec![field("amount", "number")],
                },
                ordering_key: Some("payment_id".to_string()),
            }],
        },
        guarantees: vec!["Invoice has immutable total".to_string()],
        data_contracts: vec![DataContract {
            entity: "User".to_string(),
            fields: vec![field("tenant_id", "string")],
        }],
        process_contracts: vec![ProcessContract {
            trigger_event: "OrderCreated".to_string(),
            must_eventually_emit: "PaymentRequested".to_string(),
        }],
        ownership_contracts: vec![OwnershipContract {
            entity_field: "Invoice.status".to_string(),
            owner_subsystem: "Billing".to_string(),
        }],
        consumer_dependencies: vec![
            ConsumerDependency {
                consumer: "Orders".to_string(),
                dependency: "invoice.status:string".to_string(),
                expected_type: Some("string".to_string()),
            },
            ConsumerDependency {
                consumer: "Reporting".to_string(),
                dependency: "user.tenant_id".to_string(),
                expected_type: Some("string".to_string()),
            },
        ],
        ..SubsystemContract::default()
    };

    let observed = ObservedContractReality {
        data_contracts: vec![DataContract {
            entity: "User".to_string(),
            fields: vec![field("organization_id", "string")],
        }],
        apis: vec![ApiContract {
            method: "POST".to_string(),
            path: "/invoice".to_string(),
            request: SchemaContract {
                fields: vec![field("customer_id", "string")],
            },
            response: SchemaContract {
                fields: vec![field("status", "object")],
            },
            authorization: Some("organization-context".to_string()),
            lifecycle: vec![],
        }],
        events: vec![EventContract {
            name: "PaymentCompleted".to_string(),
            payload: SchemaContract {
                fields: vec![field("amount", "number")],
            },
            ordering_key: Some("invoice_id".to_string()),
        }],
        process_emissions: vec![],
        ownership_writes: vec![OwnershipWriteObservation {
            actor_subsystem: "Orders".to_string(),
            entity_field: "Invoice.status".to_string(),
        }],
        violated_guarantees: vec!["Invoice has immutable total".to_string()],
    };

    let report = detect_subsystem_contract_drift(&declared, &observed);

    assert!(!report.drifts.is_empty());
    assert!(report
        .drifts
        .iter()
        .any(|drift| drift.message.contains("removed field User.tenant_id")));
    assert!(report
        .drifts
        .iter()
        .any(|drift| drift.message.contains("field type changed POST /invoice response.status")));
    assert!(report
        .drifts
        .iter()
        .any(|drift| drift.message.contains("authorization drift")));
    assert!(report
        .drifts
        .iter()
        .any(|drift| drift.message.contains("process guarantee missing")));
    assert!(report
        .drifts
        .iter()
        .any(|drift| drift.message.contains("ownership violation")));
    assert!(report
        .drifts
        .iter()
        .any(|drift| drift.message.contains("guarantee violated")));
    assert!(report.drifts.iter().any(|drift| {
        drift
            .affected_consumers
            .iter()
            .any(|consumer| consumer == "Orders")
    }));
}

#[test]
fn tracks_publications_and_change_impact() {
    let previous = SubsystemContract {
        subsystem: "Billing".to_string(),
        version: "2".to_string(),
        owns: OwnershipDeclaration {
            entities: vec!["Invoice".to_string()],
            workflows: vec![],
        },
        provides: ProvidedInterfaces {
            apis: vec![ApiContract {
                method: "POST".to_string(),
                path: "/invoice".to_string(),
                request: SchemaContract::default(),
                response: SchemaContract {
                    fields: vec![field("status", "string")],
                },
                authorization: None,
                lifecycle: vec![],
            }],
            events: vec![],
        },
        data_contracts: vec![DataContract {
            entity: "User".to_string(),
            fields: vec![field("tenant_id", "string")],
        }],
        consumer_dependencies: vec![ConsumerDependency {
            consumer: "Orders".to_string(),
            dependency: "invoice.status".to_string(),
            expected_type: Some("string".to_string()),
        }],
        ..SubsystemContract::default()
    };

    let next = SubsystemContract {
        version: "3".to_string(),
        ..previous.clone()
    };

    let observed = ObservedContractReality {
        data_contracts: vec![DataContract {
            entity: "User".to_string(),
            fields: vec![field("organization_id", "string")],
        }],
        apis: vec![ApiContract {
            method: "POST".to_string(),
            path: "/invoice".to_string(),
            request: SchemaContract::default(),
            response: SchemaContract {
                fields: vec![field("status", "object")],
            },
            authorization: None,
            lifecycle: vec![],
        }],
        ..ObservedContractReality::default()
    };

    let mut registry = ContractRegistry::default();
    registry.publish(
        previous.clone(),
        vec!["Orders".to_string()],
        vec![CompatibilityRecord {
            from_version: "1".to_string(),
            to_version: "2".to_string(),
            breaking: false,
        }],
    );
    registry.publish(
        next.clone(),
        vec!["Orders".to_string(), "Reporting".to_string()],
        vec![CompatibilityRecord {
            from_version: "2".to_string(),
            to_version: "3".to_string(),
            breaking: true,
        }],
    );

    let latest = registry.latest("Billing").unwrap();
    assert_eq!(latest.contract.version, "3");

    let impact = registry.analyze_proposed_change(&previous, &next, &observed);
    assert!(impact.breaking);
    assert!(impact
        .drift_report
        .drifts
        .iter()
        .any(|drift| drift.message.contains("removed field User.tenant_id")));
    assert!(impact
        .impacted_consumers
        .iter()
        .any(|consumer| consumer == "Orders"));
    assert!(!impact.migration_plan.steps.is_empty());
}

#[test]
fn generates_four_contract_tests_per_endpoint() {
    let contract = SubsystemContract {
        subsystem: "Billing".to_string(),
        provides: ProvidedInterfaces {
            apis: vec![ApiContract {
                method: "GET".to_string(),
                path: "/invoices".to_string(),
                request: SchemaContract::default(),
                response: SchemaContract::default(),
                authorization: None,
                lifecycle: vec![],
            }],
            events: vec![],
        },
        ..SubsystemContract::default()
    };
    let tests = generate_contract_tests(&contract);
    assert_eq!(tests.len(), 4);
    assert_eq!(tests[0].name, "GET /invoices request schema");
    assert_eq!(tests[0].kind, ContractTestKind::RequestSchema);
    assert_eq!(tests[3].name, "GET /invoices lifecycle behavior");
    assert_eq!(tests[3].target, "GET /invoices");
    assert_eq!(tests[2].subsystem, "Billing");
}

#[test]
fn latest_publication_follows_the_greatest_version() {
    let version = |subsystem: &str, v: &str| SubsystemContract {
        subsystem: subsystem.to_string(),
        version: v.to_string(),
        ..SubsystemContract::default()
    };
    let mut registry = ContractRegistry::default();
    assert!(registry.latest("Billing").is_none());
    registry.publish(version("Billing", "2"), vec![], vec![]);
    assert_eq!(registry.latest("Billing").unwrap().contract.version, "2");
    registry.publish(version("Billing", "3"), vec![], vec![]);
    assert_eq!(registry.latest("Billing").unwrap().contract.version, "3");
    // Versions compare as text: "10" sorts before "3".
    registry.publish(version("Billing", "10"), vec![], vec![]);
    assert_eq!(registry.latest("Billing").unwrap().contract.version, "3");
    registry.publish(version("Orders", "9"), vec![], vec![]);
    assert_eq!(registry.latest("Billing").unwrap().contract.version, "3");
    registry.publish(version("Billing", "3"), vec!["Reporting".to_string()], vec![]);
    assert_eq!(registry.latest("Billing").unwrap().consumers, vec!["Reporting".to_string()]);
    assert_eq!(registry.publications("Billing").len(), 4);
}

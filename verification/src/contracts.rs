//! Subsystem contracts: definitions, drift observation, migration planning,
//! the publication registry, and JSON schema compatibility and validation.
pub mod definition;
pub mod keys;
pub mod observer;
pub mod migration;
pub mod registry;
pub mod compatibility;
pub mod validation;
pub mod schema_drift;
pub mod validator;

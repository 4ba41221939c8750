pub mod edge;
pub mod node;
pub mod provenance;
pub mod query;
pub mod snapshot;
pub mod store;

pub mod version;
pub mod conflict;
pub mod delta;
pub mod lineage;
pub mod identity;
pub mod store;
pub mod model;
pub mod engine;
pub mod semantic_diff;
pub mod surface_diff;
pub mod evolution;
pub mod renames;

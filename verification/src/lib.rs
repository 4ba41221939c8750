//! Verified core of the Treehouse architecture tooling.
pub mod text;
pub mod strset;
pub mod sorting;
pub mod table;
pub mod contracts;
pub mod system_graph;
pub mod drift;
pub mod agent;
pub mod api_engine;
pub mod evidence;
pub mod execution;
pub mod model_evolution;
pub mod application_model;
pub mod migration;
pub mod access;
pub mod experience;
pub mod convex;
pub mod graph;
pub mod data_graph;
pub mod field_stats;
pub mod collector;
pub mod profile;
pub mod json;
pub mod document;
pub mod diff;
pub mod api;
pub mod mock;
pub mod viewer;

pub mod paths;
pub mod files;
pub mod infer;
pub mod report;
pub mod change;

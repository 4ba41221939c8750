pub mod assertions;
pub mod environment;
pub mod fixtures;
pub mod runner;

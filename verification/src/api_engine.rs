pub mod openapi;
pub mod requests;
pub mod responses;
pub mod scenarios;
pub mod schemas;
pub mod state_machine;
pub mod transactions;

//! Roles and the permissions they grant.
use vstd::prelude::*;

verus! {

#[derive(Debug, Clone, PartialEq, Eq)]
pub struct Permission {
    pub resource: String,
    pub action: String,
    pub roles: Vec<String>,
}

#[derive(Debug, Clone, PartialEq, Eq)]
pub struct Role {
    pub name: String,
    pub actions: Vec<String>,
}

} // verus!

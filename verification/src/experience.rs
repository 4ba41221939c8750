//! Screens and forms of a generated user experience.
use vstd::prelude::*;

verus! {

#[derive(Debug, Clone, PartialEq, Eq)]
pub struct FormDefinition {
    pub name: String,
    pub entity: String,
    pub fields: Vec<String>,
}

#[derive(Debug, Clone, PartialEq, Eq)]
pub struct Screen {
    pub name: String,
    pub route: String,
    pub entities: Vec<String>,
}

#[derive(Debug, Clone, PartialEq, Eq)]
pub struct ScreenMap {
    pub domain: String,
    pub screens: Vec<Screen>,
}

} // verus!

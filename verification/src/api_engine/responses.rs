//! The responses a generated scenario expects.
use vstd::prelude::*;

verus! {

#[derive(Debug, Clone, Copy, PartialEq, Eq, Structural)]
pub enum ExpectedResponse {
    Success,
    ValidationError,
}

impl ExpectedResponse {
    pub open spec fn code(self) -> u16 {
        match self {
            ExpectedResponse::Success => 200,
            ExpectedResponse::ValidationError => 400,
        }
    }

    /// The HTTP status of the expected response: 200 for success, 400 for a
    /// validation error.
    pub fn status_code(self) -> (r: u16)
        ensures
            r == self.code(),
    {
        match self {
            ExpectedResponse::Success => 200,
            ExpectedResponse::ValidationError => 400,
        }
    }
}

} // verus!

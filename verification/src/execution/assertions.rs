//! Expectations on the status of a response.
use vstd::prelude::*;

verus! {

#[derive(Debug, Clone, Copy, PartialEq, Eq, Structural)]
pub enum StatusExpectation {
    Exact(u16),
}

/// Whether `actual` meets the expectation.
pub fn assert_status(expectation: StatusExpectation, actual: u16) -> (r: bool)
    ensures
        r == match expectation {
            StatusExpectation::Exact(expected) => expected == actual,
        },
{
    match expectation {
        StatusExpectation::Exact(expected) => expected == actual,
    }
}

} // verus!

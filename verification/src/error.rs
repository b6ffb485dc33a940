//! Errors the planner reports to its caller.  The engine itself never
//! fails: these arise while fetching or decoding holiday data, or from
//! planner preconditions.

use vstd::prelude::*;

verus! {

/// What went wrong while building or mutating a planner.
#[derive(Clone, Copy, PartialEq, Eq, Structural, Debug)]
pub enum Error {
    /// The holiday service could not be reached.
    Http,
    /// The holiday service's response was not valid JSON.
    JsonParse,
    /// A holiday's date string could not be parsed.
    DateParse,
    /// A province identifier was not recognized.
    ProvinceParse,
    /// A fixed vacation day cannot be added: the budget is exhausted.
    InsertionFail,
}

impl Error {
    /// A human-readable description of the error.
    pub open spec fn spec_message(self) -> Seq<char> {
        match self {
            Error::Http => "Http request failed"@,
            Error::JsonParse => "Deserializing failed"@,
            Error::DateParse => "Parsing date failed"@,
            Error::ProvinceParse => "Failed to parse province ID"@,
            Error::InsertionFail => "Insertion failed"@,
        }
    }

    /// A human-readable description of the error.
    pub fn message(&self) -> (r: &'static str)
        ensures
            r@ == self.spec_message(),
    {
        match self {
            Error::Http => "Http request failed",
            Error::JsonParse => "Deserializing failed",
            Error::DateParse => "Parsing date failed",
            Error::ProvinceParse => "Failed to parse province ID",
            Error::InsertionFail => "Insertion failed",
        }
    }
}

} // verus!

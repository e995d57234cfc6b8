use vstd::prelude::*;
use crate::table::TableFault;

verus! {

/// A load error with a single human-readable reason.
#[derive(Debug)]
pub struct Error {
    pub reason: String,
}

impl Error {
    /// Builds an error from its reason.
    pub fn from_reason(reason: &str) -> (r: Self)
        ensures
            r.reason@ == reason@,
    {
        Error { reason: reason.to_string() }
    }

    /// The error for a refused table layout.
    pub fn from_fault(fault: TableFault) -> (r: Self)
        ensures
            r.reason@ == fault.spec_reason(),
    {
        Error::from_reason(fault.reason())
    }
}

} // verus!

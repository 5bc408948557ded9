//! The error type of the command-line front end: a message carried up
//! to the user.

use vstd::prelude::*;

verus! {

/// An error with a human-readable description.
pub struct ReclaimPathError {
    pub details: String,
}

impl ReclaimPathError {
    /// Wraps a message.
    pub fn new(msg: &str) -> (r: ReclaimPathError)
        ensures
            r.details@ == msg@,
    {
        ReclaimPathError { details: msg.to_string() }
    }

    /// The carried message.
    pub fn description(&self) -> (r: &str)
        ensures
            r@ == self.details@,
    {
        self.details.as_str()
    }
}

} // verus!

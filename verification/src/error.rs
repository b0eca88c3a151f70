//! A simple error value carrying a human-readable message.

use vstd::prelude::*;

verus! {

/// An error described by a message, for callers that report failures as text.
#[derive(Debug)]
pub struct ArithError {
    message: String,
}

impl ArithError {
    /// The message this error carries.
    pub closed spec fn spec_message(&self) -> Seq<char> {
        self.message@
    }

    pub fn new(message: String) -> (e: ArithError)
        ensures
            e.spec_message() == message@,
    {
        ArithError { message }
    }

    /// The message text, for display by the caller.
    pub fn message(&self) -> (m: &str)
        ensures
            m@ == self.spec_message(),
    {
        self.message.as_str()
    }
}

} // verus!

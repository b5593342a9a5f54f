//! Error value carried by every fallible operation of the library.

use vstd::prelude::*;

verus! {

/// A single error type with a human-readable message; the library never
/// panics on user input, it returns one of these instead.
#[derive(Debug, Clone)]
pub struct PrimeclueErr {
    err: String,
}

impl PrimeclueErr {
    /// Wraps a message into an `Err` result.
    pub fn result<T>(err: String) -> (r: Result<T, PrimeclueErr>)
        ensures
            r matches Err(e) && e.message() == err@,
    {
        Err(PrimeclueErr { err })
    }

    /// Builds an error from its message.
    pub fn from_string(err: String) -> (r: PrimeclueErr)
        ensures
            r.message() == err@,
    {
        PrimeclueErr { err }
    }

    /// The message as a mathematical sequence of characters.
    pub closed spec fn message(&self) -> Seq<char> {
        self.err@
    }

    /// Read access to the message.
    pub fn message_str(&self) -> (r: &str)
        ensures
            r@ == self.message(),
    {
        self.err.as_str()
    }
}

} // verus!

//! The error of every operation that can fail.
use vstd::prelude::*;

verus! {

/// A failure, with the text that is shown for it.
#[derive(Debug, PartialEq, Eq)]
pub struct NalaError {
    pub message: String,
}

impl NalaError {
    /// The error that shows `message`.
    pub fn new(message: &str) -> (r: Self)
        ensures
            r.message@ == message@,
    {
        NalaError { message: message.to_owned() }
    }

    /// The error that shows `message`.
    pub fn from_string(message: String) -> (r: Self)
        ensures
            r.message == message,
    {
        NalaError { message }
    }
}

/// The result fails and shows `message`.
pub open spec fn fails_with<T>(r: Result<T, NalaError>, message: Seq<char>) -> bool {
    r is Err && r->Err_0.message@ == message
}

} // verus!

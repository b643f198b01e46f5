//! The error that every fallible operation reports.

use vstd::prelude::*;

verus! {

/// A failure, described by the sentence that is shown for it.
#[derive(Debug, PartialEq, Eq)]
pub struct AppError {
    message: String,
}

/// The outcome of an operation that can fail.
pub type AppResult<T> = Result<T, AppError>;

impl View for AppError {
    type V = Seq<char>;

    closed spec fn view(&self) -> Seq<char> {
        self.message@
    }
}

impl AppError {
    /// An error with the given message.
    pub fn new(message: String) -> (error: AppError)
        ensures
            error@ == message@,
    {
        AppError { message }
    }

    /// An error with a fixed message.
    pub fn fixed(message: &str) -> (error: AppError)
        ensures
            error@ == message@,
    {
        AppError { message: message.to_owned() }
    }

    /// The sentence that describes the failure.
    pub fn message(&self) -> (message: &str)
        ensures
            message@ == self@,
    {
        self.message.as_str()
    }
}

/// `outcome` is a failure with the message `message`.
pub open spec fn fails<T>(outcome: AppResult<T>, message: Seq<char>) -> bool {
    outcome is Err && outcome->Err_0@ == message
}

/// `outcome` succeeds with a value seen as `expected`, or fails with its message.
pub open spec fn agrees<T: View>(
    outcome: AppResult<T>,
    expected: Result<T::V, Seq<char>>,
) -> bool {
    match expected {
        Ok(value) => outcome is Ok && outcome->Ok_0@ == value,
        Err(message) => fails(outcome, message),
    }
}

} // verus!

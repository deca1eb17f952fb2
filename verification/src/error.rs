//! The errors that the library reports, by the kind of HTTP answer they call for.
use vstd::prelude::*;

verus! {

/// An error with the message shown to the user.
#[derive(Debug, Clone, PartialEq, Eq)]
pub enum AppError {
    /// The request is malformed (400).
    BadRequest(String),
    /// The requested item does not exist (404).
    NotFound(String),
    /// The request is too large (413).
    PayloadTooLarge(String),
    /// Processing failed (500).
    Internal(String),
}

/// The kind of an error, without its message.
#[derive(Debug, Clone, PartialEq, Eq)]
pub enum ErrorKind {
    BadRequest,
    NotFound,
    PayloadTooLarge,
    Internal,
}

impl AppError {
    /// The kind of this error.
    pub open spec fn kind(&self) -> ErrorKind {
        match self {
            AppError::BadRequest(_) => ErrorKind::BadRequest,
            AppError::NotFound(_) => ErrorKind::NotFound,
            AppError::PayloadTooLarge(_) => ErrorKind::PayloadTooLarge,
            AppError::Internal(_) => ErrorKind::Internal,
        }
    }

    /// The message of this error.
    pub open spec fn message(&self) -> Seq<char> {
        match self {
            AppError::BadRequest(m) => m@,
            AppError::NotFound(m) => m@,
            AppError::PayloadTooLarge(m) => m@,
            AppError::Internal(m) => m@,
        }
    }

    /// Whether this error is of kind `k` with message `m`.
    pub open spec fn is(&self, k: ErrorKind, m: Seq<char>) -> bool {
        self.kind() == k && self.message() == m
    }
}

/// A string with the characters of a literal.
pub fn owned(s: &str) -> (r: String)
    ensures
        r@ == s@,
{
    s.to_owned()
}

} // verus!

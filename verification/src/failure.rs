//! Failures to read a list from a file: what kind of failure it was and its
//! message.
use std::io::ErrorKind;
use vstd::prelude::*;

verus! {

/// std's `io::ErrorKind`, carried through as it was reported.
#[verifier::external_type_specification]
#[verifier::external_body]
pub struct ExErrorKind(ErrorKind);

/// What kind of failure: one that reading reported, with its I/O kind, or
/// a line that does not hold what the list holds (invalid data).
#[derive(Clone, Copy, Debug, PartialEq, Eq)]
pub enum FailureKind {
    Io(ErrorKind),
    InvalidData,
}

/// A failure to read a list: its kind and its message.
#[derive(Debug, PartialEq, Eq)]
pub struct ReadError {
    pub kind: FailureKind,
    pub message: String,
}

/// Lines read from a file: each is the text of a line or the failure that
/// reading it gave (a file that cannot be opened gives its failure first).
pub type LineSource = Vec<Result<String, ReadError>>;

/// A failure as values: its kind and its message.
pub open spec fn failure(e: ReadError) -> (FailureKind, Seq<char>) {
    (e.kind, e.message@)
}

impl ReadError {
    /// The same failure.
    pub fn copy(&self) -> (r: ReadError)
        ensures
            failure(r) == failure(*self),
    {
        ReadError { kind: self.kind, message: self.message.clone() }
    }

    /// A failure of kind invalid data with `message`.
    pub fn invalid_data(message: String) -> (r: ReadError)
        ensures
            failure(r) == (FailureKind::InvalidData, message@),
    {
        ReadError { kind: FailureKind::InvalidData, message }
    }
}

} // verus!

use vstd::prelude::*;

verus! {

/// The kind of a failed bit-level operation.
#[derive(Clone, Copy, Debug, PartialEq, Eq, Structural)]
pub enum ErrorKind {
    /// An index exceeds the buffer's bit or byte capacity, or a range is
    /// inverted (`start > end`) at the buffer level.
    OutOfRange,
    /// A range is wider than the primitive supports.
    InvParam,
    /// A bit position is invalid within a single-byte operation.
    InvRange,
}

/// An error carrying a kind, a human-readable context message and an
/// optional chained lower-level cause.
#[derive(Debug)]
pub struct Error {
    pub kind: ErrorKind,
    pub message: &'static str,
    pub cause: Option<Box<Error>>,
}

impl Error {
    /// An error with a kind and a context message, without a cause.
    pub fn with_context(kind: ErrorKind, message: &'static str) -> (r: Error)
        ensures
            r.kind == kind,
            r.message == message,
            r.cause is None,
    {
        Error { kind, message, cause: None }
    }

    /// An error with a kind and a context message, chaining the lower-level
    /// error that caused it.
    pub fn with_all(kind: ErrorKind, message: &'static str, cause: Box<Error>) -> (r: Error)
        ensures
            r.kind == kind,
            r.message == message,
            r.cause == Some(cause),
    {
        Error { kind, message, cause: Some(cause) }
    }

    /// The kind of this error.
    pub fn kind(&self) -> (k: ErrorKind)
        ensures
            k == self.kind,
    {
        self.kind
    }

    /// The context message of this error.
    pub fn message(&self) -> (m: &'static str)
        ensures
            m == self.message,
    {
        self.message
    }
}

} // verus!

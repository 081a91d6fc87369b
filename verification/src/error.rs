//! The error type for bridge operations.

use vstd::prelude::*;

verus! {

/// A list specifying general categories of bridge error.
#[derive(Debug, Clone, Copy, PartialEq, Eq, Structural)]
#[non_exhaustive]
pub enum ErrorKind {
    /// A host-supplied argument was malformed before it reached the machine
    /// (for example, a name containing an embedded NUL byte).
    InvalidInput,
    /// The machine reported a runtime error, or a conversion failed.
    InvalidData,
    /// A converter-internal error with a free-form message (unsupported
    /// type, stack-space exhaustion, numeric cast overflow).
    Custom,
    /// An operation would exceed the machine's stack capacity.
    StackOverflow,
    /// An error not in this list was encountered.
    Other,
}

impl ErrorKind {
    /// A short human-readable name for the category.
    pub fn as_str(&self) -> (r: &'static str) {
        match *self {
            ErrorKind::InvalidInput => "invalid input",
            ErrorKind::InvalidData => "invalid data",
            ErrorKind::Custom => "custom error",
            ErrorKind::StackOverflow => "stack overflow",
            ErrorKind::Other => "other error",
        }
    }
}

/// The error type for bridge operations.
#[derive(Debug, Clone)]
pub struct Error {
    /// The general category of the error.
    pub kind: ErrorKind,
    /// A free-form description of what went wrong.
    pub msg: String,
}

impl Error {
    /// Creates a new error from a known kind as well as a message.
    pub fn new(kind: ErrorKind, msg: &str) -> (r: Error)
        ensures
            r.kind == kind,
    {
        Error { kind, msg: msg.to_string() }
    }

    /// Returns the general category of this error.
    pub fn kind(&self) -> (r: ErrorKind)
        ensures
            r == self.kind,
    {
        self.kind
    }

    /// Returns a reference to the error's description.
    pub fn message(&self) -> &str {
        self.msg.as_str()
    }
}

/// A specialized result type for bridge operations.
pub type Result<T> = core::result::Result<T, Error>;

} // verus!

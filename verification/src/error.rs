//! Error type of the templating engine.
//!
//! Three recoverable kinds cover everything the engine can refuse: malformed
//! template text, reading a template back while names are still unresolved,
//! and format specifications the engine declines to implement.

use vstd::prelude::*;

verus! {

/// Enum of different kinds of errors.
#[derive(Debug, Clone, Copy, PartialEq, Eq, Structural)]
pub enum ErrorKind {
    Parse,
    MissingValues,
    UnsupportedFormatSpec,
}

/// An error: its message and its kind.
#[derive(Debug, Clone)]
pub struct Error {
    message: String,
    kind: ErrorKind,
}

/// The mathematical content of an error.
pub ghost struct SpecErr {
    pub kind: ErrorKind,
    pub message: Seq<char>,
}

/// A parse error with the given message.
pub open spec fn parse_err(message: Seq<char>) -> SpecErr {
    SpecErr { kind: ErrorKind::Parse, message }
}

/// A missing-values error with the given message.
pub open spec fn values_err(message: Seq<char>) -> SpecErr {
    SpecErr { kind: ErrorKind::MissingValues, message }
}

/// An unsupported-format-spec error with the given message.
pub open spec fn ufs_err(message: Seq<char>) -> SpecErr {
    SpecErr { kind: ErrorKind::UnsupportedFormatSpec, message }
}

impl View for Error {
    type V = SpecErr;

    closed spec fn view(&self) -> SpecErr {
        SpecErr { kind: self.kind, message: self.message@ }
    }
}

impl Error {
    /// The message text, for specifications.
    pub open spec fn spec_message(&self) -> Seq<char> {
        self@.message
    }

    /// The kind, for specifications.
    pub open spec fn spec_kind(&self) -> ErrorKind {
        self@.kind
    }

    /// Create a new parse error.
    pub(crate) fn new_parse(message: String) -> (e: Error)
        ensures
            e.spec_message() == message@,
            e.spec_kind() == ErrorKind::Parse,
    {
        Error { message, kind: ErrorKind::Parse }
    }

    /// Create a new missing values error.
    pub(crate) fn new_values(message: String) -> (e: Error)
        ensures
            e.spec_message() == message@,
            e.spec_kind() == ErrorKind::MissingValues,
    {
        Error { message, kind: ErrorKind::MissingValues }
    }

    /// Create a new unsupported format spec error.
    pub(crate) fn new_ufs(message: String) -> (e: Error)
        ensures
            e.spec_message() == message@,
            e.spec_kind() == ErrorKind::UnsupportedFormatSpec,
    {
        Error { message, kind: ErrorKind::UnsupportedFormatSpec }
    }

    /// Returns the error message.
    pub fn message(&self) -> (r: String)
        ensures
            r@ == self.spec_message(),
    {
        self.message.clone()
    }

    /// Returns the `ErrorKind`.
    pub fn kind(&self) -> (r: ErrorKind)
        ensures
            r == self.spec_kind(),
    {
        self.kind
    }
}

} // verus!

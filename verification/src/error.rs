//! The library's error type.
//!
//! Every failing core operation reports one of three kinds: a listing that
//! came back empty (`NotFound`), a failed remote call (`RemoteError`), or a
//! configuration problem raised by the surrounding shell (`ConfigError`).

use vstd::prelude::*;

verus! {

/// The kind of a core error.
#[derive(Clone, Copy, Debug, PartialEq, Eq, Structural)]
pub enum ErrorKind {
    /// A listing returned no items where at least one was expected.
    NotFound,
    /// The underlying remote call failed.
    RemoteError,
    /// Credential or region handling failed in the surrounding shell.
    ConfigError,
}

/// An error of the core: a kind plus a user-visible message.
#[derive(Clone, Debug, PartialEq, Eq)]
pub struct Error {
    pub kind: ErrorKind,
    pub message: String,
}

/// The mathematical model of an [`Error`]: its kind and the characters of
/// its message.
pub ghost struct ErrorModel {
    pub kind: ErrorKind,
    pub message: Seq<char>,
}

impl View for Error {
    type V = ErrorModel;

    open spec fn view(&self) -> ErrorModel {
        ErrorModel { kind: self.kind, message: self.message@ }
    }
}

impl Error {
    /// Builds an error of the given kind from an already-composed message.
    pub fn new(kind: ErrorKind, message: String) -> (e: Error)
        ensures
            e@ == (ErrorModel { kind, message: message@ }),
    {
        Error { kind, message }
    }

    /// The kind of this error.
    pub fn kind(&self) -> (k: ErrorKind)
        ensures
            k == self@.kind,
    {
        self.kind
    }

    /// The user-visible message of this error.
    pub fn message(&self) -> (m: &str)
        ensures
            m@ == self@.message,
    {
        self.message.as_str()
    }
}

} // verus!

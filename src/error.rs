//! The error surface shared by every sketch family.
use vstd::prelude::*;

verus! {

/// The kind of a failure.
#[derive(Debug, Clone, Copy, PartialEq, Eq, Structural)]
pub enum ErrorKind {
    /// An argument lies outside its documented domain.
    InvalidArgument,
    /// A byte image is inconsistent with the declared format.
    InvalidData,
    /// A byte image is shorter than a read requires.
    InsufficientData,
}

/// A failure, with its kind and a short tag naming the field or rule involved.
#[derive(Debug, Clone, Copy)]
pub struct Error {
    pub kind: ErrorKind,
    pub tag: &'static str,
}

impl Error {
    /// A byte image ended before the field named by `tag` could be read.
    pub fn insufficient_data(tag: &'static str) -> (r: Error)
        ensures
            r.kind == ErrorKind::InsufficientData,
            r.tag == tag,
    {
        Error { kind: ErrorKind::InsufficientData, tag }
    }

    /// A byte image breaks the format rule named by `tag`.
    pub fn deserial(tag: &'static str) -> (r: Error)
        ensures
            r.kind == ErrorKind::InvalidData,
            r.tag == tag,
    {
        Error { kind: ErrorKind::InvalidData, tag }
    }

    /// An argument lies outside its domain.
    pub fn invalid_argument(tag: &'static str) -> (r: Error)
        ensures
            r.kind == ErrorKind::InvalidArgument,
            r.tag == tag,
    {
        Error { kind: ErrorKind::InvalidArgument, tag }
    }

    /// Returns the kind of this error.
    pub fn kind(&self) -> (r: ErrorKind)
        ensures
            r == self.kind,
    {
        self.kind
    }

    /// Returns the tag naming the field or rule involved.
    pub fn message(&self) -> (r: &'static str)
        ensures
            r == self.tag,
    {
        self.tag
    }
}

} // verus!

//! Errors of input and output.

use vstd::prelude::*;

verus! {

/// The kinds of errors that are told apart.
#[derive(Clone, Copy, Debug, PartialEq, Eq, Structural)]
pub enum ErrorKind {
    NotFound,
    PermissionDenied,
    NotADirectory,
    Interrupted,
    WouldBlock,
    TimedOut,
    WriteZero,
    UnexpectedEof,
    BrokenPipe,
    InvalidInput,
    Other,
}

/// An error of input or output: its kind, the number that the operating system gave it, if it comes
/// from there, and its description.
#[derive(Debug)]
pub struct IoError {
    pub kind: ErrorKind,
    pub code: Option<i32>,
    pub message: String,
}

/// What an [`IoError`] holds.
pub struct IoErrorModel {
    pub kind: ErrorKind,
    pub code: Option<i32>,
    pub message: Seq<char>,
}

impl View for IoError {
    type V = IoErrorModel;

    open spec fn view(&self) -> IoErrorModel {
        IoErrorModel { kind: self.kind, code: self.code, message: self.message@ }
    }
}

/// An error that does not come from the operating system.
pub open spec fn own_error(kind: ErrorKind, message: Seq<char>) -> IoErrorModel {
    IoErrorModel { kind, code: None, message }
}

impl IoError {
    /// An error that does not come from the operating system.
    pub fn new(kind: ErrorKind, message: &str) -> (error: IoError)
        ensures
            error@ == own_error(kind, message@),
    {
        IoError { kind, code: None, message: String::from_str(message) }
    }
}

} // verus!

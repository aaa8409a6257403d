//! The ways in which an operation of the editor core can fail.

use vstd::prelude::*;

verus! {

/// Why an operation did not take place. An operation that fails leaves
/// the document, the line index and the cursor as they were.
#[derive(Clone, Copy, Debug, PartialEq, Eq, Structural)]
pub enum Error {
    /// A position lies outside the document, or a range to delete is
    /// empty or inverted.
    OutOfRange,
    /// No action is left to undo.
    NothingToUndo,
    /// No action is left to redo.
    NothingToRedo,
    /// The path names a directory.
    UnsupportedTarget,
    /// Reading the file failed.
    IoFailure,
}

impl Error {
    /// Whether the editor can go on after the error: true of the two
    /// that only say that the history is at one of its ends.
    pub fn is_recoverable(&self) -> (recoverable: bool)
        ensures
            recoverable == (*self == Error::NothingToUndo || *self == Error::NothingToRedo),
    {
        match self {
            Error::NothingToUndo => true,
            Error::NothingToRedo => true,
            _ => false,
        }
    }

    /// A short description of the error.
    pub fn message(&self) -> (text: &'static str)
        ensures
            text@ == match *self {
                Error::OutOfRange => "position out of range"@,
                Error::NothingToUndo => "nothing to undo"@,
                Error::NothingToRedo => "nothing to redo"@,
                Error::UnsupportedTarget => "cannot edit a directory"@,
                Error::IoFailure => "reading the file failed"@,
            },
    {
        match self {
            Error::OutOfRange => "position out of range",
            Error::NothingToUndo => "nothing to undo",
            Error::NothingToRedo => "nothing to redo",
            Error::UnsupportedTarget => "cannot edit a directory",
            Error::IoFailure => "reading the file failed",
        }
    }
}

} // verus!

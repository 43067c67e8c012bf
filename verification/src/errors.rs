//! The failures a tracker operation can report.

use vstd::prelude::*;

verus! {

/// Everything that can go wrong in the tracker.
///
/// The first five variants are validation conflicts: the operation aborts
/// without changing the store and the caller reports them to the user.
/// `CorruptData` means persisted text did not parse as the expected format;
/// `IOError` is reserved for the surrounding layer's filesystem failures.
#[derive(Clone, Copy, Debug, PartialEq, Eq, Structural)]
pub enum TrackerError {
    TaskAlreadyExists,
    TaskNotFound,
    TaskIsActive,
    SessionAlreadyActive,
    NoActiveSession,
    CorruptData,
    IOError,
}

impl TrackerError {
    /// The fixed wording for each failure.
    pub open spec fn text(self) -> Seq<char> {
        match self {
            TrackerError::TaskAlreadyExists => "task already exists"@,
            TrackerError::TaskNotFound => "task not found"@,
            TrackerError::TaskIsActive => "cannot delete an ongoing task"@,
            TrackerError::SessionAlreadyActive => "there is an ongoing task"@,
            TrackerError::NoActiveSession => "there is no ongoing task"@,
            TrackerError::CorruptData => "stored data is corrupt"@,
            TrackerError::IOError => "could not access stored data"@,
        }
    }

    /// A short message describing the failure.
    pub fn message(&self) -> (r: &'static str)
        ensures
            r@ == self.text(),
    {
        match self {
            TrackerError::TaskAlreadyExists => "task already exists",
            TrackerError::TaskNotFound => "task not found",
            TrackerError::TaskIsActive => "cannot delete an ongoing task",
            TrackerError::SessionAlreadyActive => "there is an ongoing task",
            TrackerError::NoActiveSession => "there is no ongoing task",
            TrackerError::CorruptData => "stored data is corrupt",
            TrackerError::IOError => "could not access stored data",
        }
    }
}

} // verus!

//! The error taxonomy of the survey core.

use vstd::prelude::*;

verus! {

/// Everything that can go wrong while serving or maintaining the survey.
///
/// `NotFound` and `InvalidInput` are request-scoped rejections; `InvalidState`
/// marks an internally inconsistent document; `IoFailure` and `LockFailure`
/// are raised by the surrounding process (snapshot I/O, exclusive access) and
/// never by the core itself.
#[derive(Clone, Copy, Debug, PartialEq, Eq, Structural)]
pub enum DataError {
    /// Unknown token, unknown respondent, or a statement id out of range.
    NotFound,
    /// A malformed submitted stance code or a non-numeric field id.
    InvalidInput,
    /// The stored document is internally inconsistent.
    InvalidState,
    /// A snapshot read or write failed.
    IoFailure,
    /// Exclusive access to the document could not be obtained.
    LockFailure,
}

/// What `DataError::message` returns for each variant.
pub open spec fn message_of(e: DataError) -> Seq<char> {
    match e {
        DataError::NotFound => "not found"@,
        DataError::InvalidInput => "invalid input"@,
        DataError::InvalidState => "invalid document state"@,
        DataError::IoFailure => "snapshot i/o failed"@,
        DataError::LockFailure => "exclusive access failed"@,
    }
}

impl DataError {
    /// A short human-readable description of the error.
    pub fn message(&self) -> (r: &'static str)
        ensures
            r@ == message_of(*self),
    {
        match self {
            DataError::NotFound => "not found",
            DataError::InvalidInput => "invalid input",
            DataError::InvalidState => "invalid document state",
            DataError::IoFailure => "snapshot i/o failed",
            DataError::LockFailure => "exclusive access failed",
        }
    }
}

} // verus!

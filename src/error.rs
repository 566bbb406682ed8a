//! Errors of the funding system and the kinds they fall into.

use vstd::prelude::*;

verus! {

/// The broad class of an error.
#[derive(Clone, Copy, Debug, PartialEq, Eq, Structural)]
pub enum ErrorKind {
    /// The caller may not perform an administrative operation.
    Authorization,
    /// A referenced project or round does not exist.
    NotFound,
    /// An input is malformed or out of the accepted range.
    Validation,
    /// The round is not in a state that permits the operation.
    State,
    /// An exact amount does not fit the integer width.
    Arithmetic,
    /// Moving funds failed.
    Transfer,
}

/// An error of an operation of the funding system.
#[derive(Clone, Copy, Debug, PartialEq, Eq, Structural)]
pub enum QfError {
    NotAdmin,
    RoundNotFound,
    ProjectNotFound,
    DuplicateProject,
    BelowMinimum,
    AboveCeiling,
    WrongPoolAmount,
    RoundInactive,
    OutsideWindow,
    NotEligible,
    AlreadyFinalized,
    NotFinalized,
    AlreadyDistributed,
    Overflow,
    TransferFailed,
}

/// The kind each error belongs to.
pub open spec fn kind_of(e: QfError) -> ErrorKind {
    match e {
        QfError::NotAdmin => ErrorKind::Authorization,
        QfError::RoundNotFound | QfError::ProjectNotFound => ErrorKind::NotFound,
        QfError::DuplicateProject | QfError::BelowMinimum | QfError::AboveCeiling
        | QfError::WrongPoolAmount => ErrorKind::Validation,
        QfError::RoundInactive | QfError::OutsideWindow | QfError::NotEligible
        | QfError::AlreadyFinalized | QfError::NotFinalized
        | QfError::AlreadyDistributed => ErrorKind::State,
        QfError::Overflow => ErrorKind::Arithmetic,
        QfError::TransferFailed => ErrorKind::Transfer,
    }
}

impl QfError {
    /// The kind of this error.
    pub fn kind(&self) -> (k: ErrorKind)
        ensures
            k == kind_of(*self),
    {
        match self {
            QfError::NotAdmin => ErrorKind::Authorization,
            QfError::RoundNotFound | QfError::ProjectNotFound => ErrorKind::NotFound,
            QfError::DuplicateProject | QfError::BelowMinimum | QfError::AboveCeiling
            | QfError::WrongPoolAmount => ErrorKind::Validation,
            QfError::RoundInactive | QfError::OutsideWindow | QfError::NotEligible
            | QfError::AlreadyFinalized | QfError::NotFinalized
            | QfError::AlreadyDistributed => ErrorKind::State,
            QfError::Overflow => ErrorKind::Arithmetic,
            QfError::TransferFailed => ErrorKind::Transfer,
        }
    }
}

} // verus!

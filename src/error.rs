//! The errors of the object store and of the snapshot engine.

use vstd::prelude::*;

use crate::object::ObjectType;

verus! {

/// Why an operation failed.
#[derive(Debug)]
pub enum CliError {
    /// The store's backing location has not been prepared.
    NotInitialized,
    /// No record is stored under this key.
    NotFound { object: Vec<u8> },
    /// The record under this key is not a well-formed object.
    Corrupt { object: Vec<u8> },
    /// The record's tag is not one of those the caller accepts.
    InvalidType { expected: Vec<ObjectType>, found: ObjectType },
    /// A directory holds something that is neither a file nor a directory.
    UnsupportedFileType { path: Vec<u8> },
    /// The backing storage refused a record.
    StorageWrite { object: Vec<u8> },
    /// A file or directory could not be written while restoring.
    RestoreWrite { path: Vec<u8> },
}

/// The kind of an error, without its details.
#[derive(Clone, Copy, Debug, PartialEq, Eq, Structural)]
pub enum ErrorKind {
    NotInitialized,
    NotFound,
    Corrupt,
    InvalidType,
    UnsupportedFileType,
    StorageWrite,
    RestoreWrite,
}

/// An error with its details, as contracts speak of it.
pub enum Failure {
    NotInitialized,
    /// The key under which nothing is stored.
    NotFound(Seq<u8>),
    /// The key of the record that is no well-formed object.
    Corrupt(Seq<u8>),
    /// The kinds accepted, and the kind found.
    InvalidType(Seq<ObjectType>, ObjectType),
    /// The path of the offending entry.
    UnsupportedFileType(Seq<u8>),
    /// The key of the record that could not be stored.
    StorageWrite(Seq<u8>),
    /// The path that could not be written.
    RestoreWrite(Seq<u8>),
}

impl View for CliError {
    type V = Failure;

    open spec fn view(&self) -> Failure {
        match self {
            CliError::NotInitialized => Failure::NotInitialized,
            CliError::NotFound { object } => Failure::NotFound(object@),
            CliError::Corrupt { object } => Failure::Corrupt(object@),
            CliError::InvalidType { expected, found } => Failure::InvalidType(expected@, *found),
            CliError::UnsupportedFileType { path } => Failure::UnsupportedFileType(path@),
            CliError::StorageWrite { object } => Failure::StorageWrite(object@),
            CliError::RestoreWrite { path } => Failure::RestoreWrite(path@),
        }
    }
}

impl CliError {
    /// The kind of this error.
    pub open spec fn kind(&self) -> ErrorKind {
        match self {
            CliError::NotInitialized => ErrorKind::NotInitialized,
            CliError::NotFound { .. } => ErrorKind::NotFound,
            CliError::Corrupt { .. } => ErrorKind::Corrupt,
            CliError::InvalidType { .. } => ErrorKind::InvalidType,
            CliError::UnsupportedFileType { .. } => ErrorKind::UnsupportedFileType,
            CliError::StorageWrite { .. } => ErrorKind::StorageWrite,
            CliError::RestoreWrite { .. } => ErrorKind::RestoreWrite,
        }
    }

    /// The kind of this error.
    pub fn error_kind(&self) -> (r: ErrorKind)
        ensures
            r == self.kind(),
    {
        match self {
            CliError::NotInitialized => ErrorKind::NotInitialized,
            CliError::NotFound { .. } => ErrorKind::NotFound,
            CliError::Corrupt { .. } => ErrorKind::Corrupt,
            CliError::InvalidType { .. } => ErrorKind::InvalidType,
            CliError::UnsupportedFileType { .. } => ErrorKind::UnsupportedFileType,
            CliError::StorageWrite { .. } => ErrorKind::StorageWrite,
            CliError::RestoreWrite { .. } => ErrorKind::RestoreWrite,
        }
    }
}

} // verus!

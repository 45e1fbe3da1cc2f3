//! Storage-specific error types.
//!
//! These complement the shared [`crate::types::Error`] with storage-layer detail.

use crate::text::join2;
use crate::types::Error;
use vstd::prelude::*;

verus! {

/// Errors specific to the storage engine.  Each carries what it is about.
#[derive(Clone, Debug, PartialEq, Eq)]
pub enum StorageError {
    DiskNotFound(String),
    DuplicateDisk(String),
    XfsValidation(String),
    DiskIdentity(String),
    InvalidTransition(String),
    AllocationDenied(String),
    ExtentNotFound(String),
    ExtentExists(String),
    ImmutabilityViolation(String),
    ChecksumMismatch(String),
    StagingError(String),
    Io(String),
    StaleEpoch(String),
    DuplicateOperation(String),
}

impl StorageError {
    /// What the error is about.
    pub open spec fn detail(self) -> Seq<char> {
        match self {
            StorageError::DiskNotFound(msg) => msg@,
            StorageError::DuplicateDisk(msg) => msg@,
            StorageError::XfsValidation(msg) => msg@,
            StorageError::DiskIdentity(msg) => msg@,
            StorageError::InvalidTransition(msg) => msg@,
            StorageError::AllocationDenied(msg) => msg@,
            StorageError::ExtentNotFound(msg) => msg@,
            StorageError::ExtentExists(msg) => msg@,
            StorageError::ImmutabilityViolation(msg) => msg@,
            StorageError::ChecksumMismatch(msg) => msg@,
            StorageError::StagingError(msg) => msg@,
            StorageError::Io(msg) => msg@,
            StorageError::StaleEpoch(msg) => msg@,
            StorageError::DuplicateOperation(msg) => msg@,
        }
    }

    /// What kind of error it is, in words.
    pub open spec fn kind(self) -> Seq<char> {
        match self {
            StorageError::DiskNotFound(_) => "disk not found: "@,
            StorageError::DuplicateDisk(_) => "duplicate disk: "@,
            StorageError::XfsValidation(_) => "XFS validation failed: "@,
            StorageError::DiskIdentity(_) => "disk identity error: "@,
            StorageError::InvalidTransition(_) => "invalid state transition: "@,
            StorageError::AllocationDenied(_) => "allocation denied: "@,
            StorageError::ExtentNotFound(_) => "extent not found: "@,
            StorageError::ExtentExists(_) => "extent already exists: "@,
            StorageError::ImmutabilityViolation(_) => "immutability violation: "@,
            StorageError::ChecksumMismatch(_) => "checksum mismatch: "@,
            StorageError::StagingError(_) => "staging error: "@,
            StorageError::Io(_) => "io error: "@,
            StorageError::StaleEpoch(_) => "stale epoch: "@,
            StorageError::DuplicateOperation(_) => "duplicate operation: "@,
        }
    }

    /// What the error says.
    pub open spec fn text(self) -> Seq<char> {
        self.kind() + self.detail()
    }

    /// What the error says.
    pub fn to_text(&self) -> (s: String)
        ensures
            s@ == self.text(),
    {
        match self {
            StorageError::DiskNotFound(msg) => join2("disk not found: ", msg.as_str()),
            StorageError::DuplicateDisk(msg) => join2("duplicate disk: ", msg.as_str()),
            StorageError::XfsValidation(msg) => join2("XFS validation failed: ", msg.as_str()),
            StorageError::DiskIdentity(msg) => join2("disk identity error: ", msg.as_str()),
            StorageError::InvalidTransition(msg) => join2("invalid state transition: ", msg.as_str()),
            StorageError::AllocationDenied(msg) => join2("allocation denied: ", msg.as_str()),
            StorageError::ExtentNotFound(msg) => join2("extent not found: ", msg.as_str()),
            StorageError::ExtentExists(msg) => join2("extent already exists: ", msg.as_str()),
            StorageError::ImmutabilityViolation(msg) => join2("immutability violation: ", msg.as_str()),
            StorageError::ChecksumMismatch(msg) => join2("checksum mismatch: ", msg.as_str()),
            StorageError::StagingError(msg) => join2("staging error: ", msg.as_str()),
            StorageError::Io(msg) => join2("io error: ", msg.as_str()),
            StorageError::StaleEpoch(msg) => join2("stale epoch: ", msg.as_str()),
            StorageError::DuplicateOperation(msg) => join2("duplicate operation: ", msg.as_str()),
        }
    }

    /// The error as callers outside the storage engine see it.
    pub fn into_error(self) -> (e: Error)
        ensures
            e is Storage,
            e->Storage_0@ == self.text(),
    {
        Error::Storage(self.to_text())
    }
}

/// What an error says contains what it is about.
pub proof fn errors_tell_their_detail(e: StorageError)
    ensures
        crate::text::contains_text(e.text(), e.detail()),
        match e {
            StorageError::DiskNotFound(msg) => e.detail() == msg@,
            StorageError::DuplicateDisk(msg) => e.detail() == msg@,
            StorageError::XfsValidation(msg) => e.detail() == msg@,
            StorageError::DiskIdentity(msg) => e.detail() == msg@,
            StorageError::InvalidTransition(msg) => e.detail() == msg@,
            StorageError::AllocationDenied(msg) => e.detail() == msg@,
            StorageError::ExtentNotFound(msg) => e.detail() == msg@,
            StorageError::ExtentExists(msg) => e.detail() == msg@,
            StorageError::ImmutabilityViolation(msg) => e.detail() == msg@,
            StorageError::ChecksumMismatch(msg) => e.detail() == msg@,
            StorageError::StagingError(msg) => e.detail() == msg@,
            StorageError::Io(msg) => e.detail() == msg@,
            StorageError::StaleEpoch(msg) => e.detail() == msg@,
            StorageError::DuplicateOperation(msg) => e.detail() == msg@,
        },
{
    crate::text::joined_text_contains_its_parts(e.kind(), e.detail(), Seq::empty());
}

} // verus!

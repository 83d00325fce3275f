//! Error types for the thunder database engine.

use vstd::prelude::*;

verus! {

/// Result type alias for thunder operations.
pub type ThunderResult<T> = core::result::Result<T, Error>;

/// Errors reported by thunder database operations.
#[derive(Debug)]
pub enum Error {
    /// I/O error from filesystem operations.
    Io(String),
    /// Database file is corrupted or invalid.
    Corrupted(String),
    /// Invalid page encountered.
    InvalidPage(String),
    /// One meta page failed validation.
    InvalidMetaPage(String),
    /// Neither meta slot validates; the database is unrecoverable.
    BothMetaPagesInvalid,
    /// A WAL record failed validation at the given LSN.
    WalRecordInvalid { lsn: u64, reason: String },
    /// Transaction is no longer valid.
    TxClosed,
    /// Key not found in the database.
    KeyNotFound,
    /// Database is already open.
    DatabaseAlreadyOpen,
    /// Database file could not be opened.
    DatabaseOpen(String),
    /// A commit failed while persisting.
    TxCommitFailed { reason: String },
    /// A batched group commit failed to sync.
    GroupCommitFailed { reason: String },
    /// The named bucket does not exist.
    BucketNotFound { name: Vec<u8> },
    /// A bucket with that name already exists.
    BucketAlreadyExists { name: Vec<u8> },
    /// The bucket name is not acceptable.
    InvalidBucketName { reason: String },
}

} // verus!

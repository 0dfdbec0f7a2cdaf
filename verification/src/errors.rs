//! Error taxonomy of the store and its mapping to HTTP statuses.
//!
//! Every failure the engine can surface is one kind of `StorageError`.
//! The mapping to an HTTP status is a pure function of the kind, so the
//! process boundary never pattern-matches on prose.

use vstd::prelude::*;
use vstd::string::StringExecFns;

verus! {

/// Why a bucket name was rejected.
#[derive(Clone, Copy, Debug, PartialEq, Eq)]
pub enum BucketNameViolation {
    /// Leading or trailing whitespace.
    Whitespace,
    /// Fewer than 3 or more than 63 bytes.
    LengthOutOfRange,
    /// A character outside lowercase letters, digits, `.` and `-`.
    ForbiddenCharacter,
    /// First or last character is `.` or `-`.
    EdgeNotAlphanumeric,
    /// Contains `..`, `.-` or `-.`.
    AdjacentDotPattern,
    /// Parses as a dotted-quad IPv4 address.
    Ipv4Shaped,
}

/// One kind per failure the engine surfaces.
#[derive(Debug, PartialEq, Eq)]
pub enum StorageError {
    /// No bucket row for the given name.
    BucketNotFound(Vec<u8>),
    /// Unique violation when creating a bucket.
    BucketAlreadyExists(Vec<u8>),
    /// The bucket naming rules were violated.
    InvalidBucketName { name: Vec<u8>, reason: BucketNameViolation },
    /// The region is not in the allow-list.
    UnsupportedRegion(Vec<u8>),
    /// No live object row, or the payload is missing.
    ObjectNotFound { bucket: Vec<u8>, key: Vec<u8> },
    /// The object key rules were violated.
    InvalidObjectKey,
    /// Any other failure of the metadata store.
    MetadataStoreFailure(String),
    /// Any other filesystem failure.
    FilesystemFailure(String),
}

impl StorageError {
    /// The HTTP status each kind maps to.
    pub open spec fn status_spec(&self) -> u16 {
        match self {
            StorageError::BucketNotFound(_) => 404,
            StorageError::BucketAlreadyExists(_) => 409,
            StorageError::InvalidBucketName { .. } => 400,
            StorageError::UnsupportedRegion(_) => 400,
            StorageError::ObjectNotFound { .. } => 404,
            StorageError::InvalidObjectKey => 400,
            StorageError::MetadataStoreFailure(_) => 500,
            StorageError::FilesystemFailure(_) => 500,
        }
    }

    /// A short description of each kind.
    pub open spec fn message_spec(&self) -> Seq<char> {
        match self {
            StorageError::BucketNotFound(_) => "bucket not found"@,
            StorageError::BucketAlreadyExists(_) => "bucket already exists"@,
            StorageError::InvalidBucketName { .. } => "invalid bucket name"@,
            StorageError::UnsupportedRegion(_) => "region is not supported"@,
            StorageError::ObjectNotFound { .. } => "object not found"@,
            StorageError::InvalidObjectKey => "invalid object key"@,
            StorageError::MetadataStoreFailure(_) => "metadata store failure"@,
            StorageError::FilesystemFailure(_) => "filesystem failure"@,
        }
    }

    /// Map the error kind to its HTTP status code.
    pub fn status_code(&self) -> (status: u16)
        ensures
            status == self.status_spec(),
    {
        match self {
            StorageError::BucketNotFound(_) => 404,
            StorageError::BucketAlreadyExists(_) => 409,
            StorageError::InvalidBucketName { .. } => 400,
            StorageError::UnsupportedRegion(_) => 400,
            StorageError::ObjectNotFound { .. } => 404,
            StorageError::InvalidObjectKey => 400,
            StorageError::MetadataStoreFailure(_) => 500,
            StorageError::FilesystemFailure(_) => 500,
        }
    }

    /// Render the short description of the kind.
    pub fn message(&self) -> (msg: String)
        ensures
            msg@ == self.message_spec(),
    {
        match self {
            StorageError::BucketNotFound(_) => String::from_str("bucket not found"),
            StorageError::BucketAlreadyExists(_) => String::from_str("bucket already exists"),
            StorageError::InvalidBucketName { .. } => String::from_str("invalid bucket name"),
            StorageError::UnsupportedRegion(_) => String::from_str("region is not supported"),
            StorageError::ObjectNotFound { .. } => String::from_str("object not found"),
            StorageError::InvalidObjectKey => String::from_str("invalid object key"),
            StorageError::MetadataStoreFailure(_) => String::from_str("metadata store failure"),
            StorageError::FilesystemFailure(_) => String::from_str("filesystem failure"),
        }
    }
}

/// An HTTP-level error: a status plus a message for the response body.
#[derive(Debug)]
pub struct AppError {
    pub status: u16,
    pub message: String,
}

impl AppError {
    /// Build an error with a specific status and message.
    pub fn new(status: u16, msg: String) -> (e: AppError)
        ensures
            e.status == status,
            e.message == msg,
    {
        AppError { status, message: msg }
    }

    /// Shortcut for a 500 Internal Server Error.
    pub fn internal(msg: String) -> (e: AppError)
        ensures
            e.status == 500,
            e.message == msg,
    {
        AppError { status: 500, message: msg }
    }

    /// Shortcut for a 404 Not Found.
    pub fn not_found(msg: String) -> (e: AppError)
        ensures
            e.status == 404,
            e.message == msg,
    {
        AppError { status: 404, message: msg }
    }

    /// Map a storage error to the HTTP-level error for the boundary.
    pub fn from_storage(err: &StorageError) -> (e: AppError)
        ensures
            e.status == err.status_spec(),
            e.message@ == err.message_spec(),
    {
        AppError { status: err.status_code(), message: err.message() }
    }
}

} // verus!

//! Core of an S3-compatible object store.
//!
//! The library holds the verified storage logic: naming rules for buckets,
//! keys and regions, the sharded on-disk path planner, payload digests and
//! entity tags, ListObjectsV2 page assembly, continuation-token encoding,
//! the error taxonomy with its HTTP status mapping, and an engine over
//! in-memory state that realizes the bucket and object operations against
//! a metadata table model.
//!
//! Bucket names, object keys, payloads and paths are byte strings
//! (`Vec<u8>`): the store orders keys by their bytes, key limits are byte
//! counts, and payloads are opaque bytes. The process boundary converts
//! between UTF-8 text and these byte strings.

pub mod bytes;
pub mod config;
pub mod digest;
pub mod health;
pub mod errors;
pub mod laws;
pub mod listing;
pub mod naming;
pub mod paths;
pub mod records;
pub mod store;
pub mod token;

pub use errors::AppError;
pub use errors::BucketNameViolation;
pub use errors::StorageError;

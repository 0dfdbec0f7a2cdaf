//! The metadata records: buckets and objects.
//!
//! Identifiers are 16-byte values carried as `u128`; timestamps are UTC
//! milliseconds carried as `i64`. The process boundary converts its own
//! identifier and time types to these plain values. Each record has a
//! mathematical view (`BucketV`, `ObjectV`) over which every contract
//! speaks.

use vstd::prelude::*;
use crate::bytes::ascii_bytes;
use crate::bytes::ascii_lit;
use crate::bytes::copy_bytes;
use crate::naming::valid_bucket_name;
use crate::naming::valid_key;
use crate::naming::region_allowed;
use crate::paths::last_segment;
use crate::paths::last_segment_of;

verus! {

/// The mathematical view of a bucket row.
pub ghost struct BucketV {
    pub id: u128,
    pub name: Seq<u8>,
    pub owner_id: u128,
    pub region: Seq<u8>,
    pub created_at_ms: i64,
    pub versioning_enabled: bool,
}

impl BucketV {
    /// A well-formed bucket row.
    pub open spec fn wf(&self) -> bool {
        &&& valid_bucket_name(self.name)
        &&& region_allowed(self.region)
        &&& !self.versioning_enabled
    }
}

/// A bucket row: a named container for objects.
#[derive(Debug)]
pub struct Bucket {
    /// Unique 16-byte identifier.
    pub id: u128,
    /// Globally unique DNS-compatible name.
    pub name: Vec<u8>,
    /// The owning principal's identifier.
    pub owner_id: u128,
    /// The lowercase region tag, from the allow-list.
    pub region: Vec<u8>,
    /// Creation time, UTC milliseconds.
    pub created_at_ms: i64,
    /// Always false in this store: versioning is out of scope.
    pub versioning_enabled: bool,
}

impl View for Bucket {
    type V = BucketV;

    open spec fn view(&self) -> BucketV {
        BucketV {
            id: self.id,
            name: self.name@,
            owner_id: self.owner_id,
            region: self.region@,
            created_at_ms: self.created_at_ms,
            versioning_enabled: self.versioning_enabled,
        }
    }
}

/// Copy a bucket row.
pub fn clone_bucket(b: &Bucket) -> (r: Bucket)
    ensures
        r@ == b@,
{
    Bucket {
        id: b.id,
        name: copy_bytes(b.name.as_slice()),
        owner_id: b.owner_id,
        region: copy_bytes(b.region.as_slice()),
        created_at_ms: b.created_at_ms,
        versioning_enabled: b.versioning_enabled,
    }
}

/// The mathematical view of an object row.
pub ghost struct ObjectV {
    pub id: u128,
    pub bucket_id: u128,
    pub key: Seq<u8>,
    pub filename: Seq<u8>,
    pub content_type: Option<Seq<u8>>,
    pub size_bytes: u64,
    pub etag: Seq<u8>,
    pub storage_class: Seq<u8>,
    pub last_modified_ms: i64,
    pub version_id: Option<Seq<u8>>,
    pub is_deleted: bool,
}

impl ObjectV {
    /// A well-formed object row, up to its digest fields.
    pub open spec fn wf(&self) -> bool {
        &&& valid_key(self.key)
        &&& self.filename == last_segment_of(self.key)
        &&& self.storage_class == ascii_bytes("STANDARD"@)
        &&& self.version_id is None
    }
}

/// An object row: the metadata of one stored payload.
#[derive(Debug)]
pub struct Object {
    /// Unique 16-byte identifier of the row.
    pub id: u128,
    /// The owning bucket's identifier.
    pub bucket_id: u128,
    /// The in-bucket key.
    pub key: Vec<u8>,
    /// The last `/`-separated segment of the key.
    pub filename: Vec<u8>,
    /// Optional MIME type, carried through unchanged.
    pub content_type: Option<Vec<u8>>,
    /// Payload length in bytes.
    pub size_bytes: u64,
    /// Lowercase hex MD5 of the payload bytes.
    pub etag: Vec<u8>,
    /// Always `STANDARD` in this store.
    pub storage_class: Vec<u8>,
    /// Last modification time, UTC milliseconds.
    pub last_modified_ms: i64,
    /// Always absent: versioning is out of scope.
    pub version_id: Option<Vec<u8>>,
    /// The soft-delete flag; reads filter deleted rows out.
    pub is_deleted: bool,
}

impl View for Object {
    type V = ObjectV;

    open spec fn view(&self) -> ObjectV {
        ObjectV {
            id: self.id,
            bucket_id: self.bucket_id,
            key: self.key@,
            filename: self.filename@,
            content_type: match self.content_type {
                Some(v) => Some(v@),
                None => None,
            },
            size_bytes: self.size_bytes,
            etag: self.etag@,
            storage_class: self.storage_class@,
            last_modified_ms: self.last_modified_ms,
            version_id: match self.version_id {
                Some(v) => Some(v@),
                None => None,
            },
            is_deleted: self.is_deleted,
        }
    }
}

/// Copy an object row.
pub fn clone_object(o: &Object) -> (r: Object)
    ensures
        r@ == o@,
{
    Object {
        id: o.id,
        bucket_id: o.bucket_id,
        key: copy_bytes(o.key.as_slice()),
        filename: copy_bytes(o.filename.as_slice()),
        content_type: match &o.content_type {
            Some(v) => Some(copy_bytes(v.as_slice())),
            None => None,
        },
        size_bytes: o.size_bytes,
        etag: copy_bytes(o.etag.as_slice()),
        storage_class: copy_bytes(o.storage_class.as_slice()),
        last_modified_ms: o.last_modified_ms,
        version_id: match &o.version_id {
            Some(v) => Some(copy_bytes(v.as_slice())),
            None => None,
        },
        is_deleted: o.is_deleted,
    }
}

/// The views of a row sequence.
pub open spec fn object_views(rows: Seq<Object>) -> Seq<ObjectV> {
    rows.map_values(|o: Object| o@)
}

/// Build the object row an upload commits: the filename is derived from
/// the key, the storage class is fixed, and the row starts live.
pub fn build_object_record(
    id: u128,
    bucket_id: u128,
    key: &[u8],
    content_type: Option<Vec<u8>>,
    size_bytes: u64,
    etag: Vec<u8>,
    last_modified_ms: i64,
) -> (r: Object)
    requires
        valid_key(key@),
    ensures
        r@.id == id,
        r@.bucket_id == bucket_id,
        r@.key == key@,
        r@.content_type == match content_type {
            Some(v) => Some(v@),
            None => None::<Seq<u8>>,
        },
        r@.size_bytes == size_bytes,
        r@.etag == etag@,
        r@.last_modified_ms == last_modified_ms,
        !r@.is_deleted,
        r@.wf(),
{
    proof {
        reveal_strlit("STANDARD");
    }
    Object {
        id,
        bucket_id,
        key: copy_bytes(key),
        filename: last_segment(key),
        content_type,
        size_bytes,
        etag,
        storage_class: ascii_lit("STANDARD"),
        last_modified_ms,
        version_id: None,
        is_deleted: false,
    }
}

/// Build the bucket row a create commits: versioning is off and the
/// region is already normalized.
pub fn build_bucket_record(
    id: u128,
    name: &[u8],
    owner_id: u128,
    region: Vec<u8>,
    created_at_ms: i64,
) -> (r: Bucket)
    requires
        valid_bucket_name(name@),
        region_allowed(region@),
    ensures
        r@.id == id,
        r@.name == name@,
        r@.owner_id == owner_id,
        r@.region == region@,
        r@.created_at_ms == created_at_ms,
        !r@.versioning_enabled,
        r@.wf(),
{
    Bucket { id, name: copy_bytes(name), owner_id, region, created_at_ms, versioning_enabled: false }
}

} // verus!

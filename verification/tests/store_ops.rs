use object_store::errors::StorageError;
use object_store::store::Store;

fn bucket_with(name: &[u8], region: Option<&[u8]>) -> Store {
    let mut s = Store::new();
    s.create_bucket(name, region, 1, 100, 1_000).unwrap();
    s
}

#[test]
fn create_bucket_records_the_region() {
    let mut s = Store::new();
    let b = s.create_bucket(b"bkt1", Some(b"us-west-2"), 1, 100, 1_000).unwrap();
    assert_eq!(b.name, b"bkt1".to_vec());
    assert_eq!(b.region, b"us-west-2".to_vec());
    assert_eq!(b.id, 1);
    assert!(!b.versioning_enabled);
}

#[test]
fn create_bucket_defaults_to_local() {
    let mut s = Store::new();
    let b = s.create_bucket(b"bkt1", None, 1, 100, 1_000).unwrap();
    assert_eq!(b.region, b"local".to_vec());
}

#[test]
fn create_bucket_normalizes_region_case() {
    let mut s = Store::new();
    let b = s.create_bucket(b"bkt1", Some(b"US-WEST-2"), 1, 100, 1_000).unwrap();
    assert_eq!(b.region, b"us-west-2".to_vec());
}

#[test]
fn second_create_of_same_name_conflicts() {
    let mut s = bucket_with(b"bkt1", None);
    let e = s.create_bucket(b"bkt1", None, 2, 100, 2_000).unwrap_err();
    assert!(matches!(e, StorageError::BucketAlreadyExists(_)));
    assert_eq!(e.status_code(), 409);
}

#[test]
fn create_bucket_rejects_bad_name_and_region() {
    let mut s = Store::new();
    let e = s.create_bucket(b"ab", None, 1, 100, 0).unwrap_err();
    assert!(matches!(e, StorageError::InvalidBucketName { .. }));
    assert_eq!(e.status_code(), 400);
    let e = s.create_bucket(b"bkt1", Some(b"nowhere-1"), 1, 100, 0).unwrap_err();
    assert!(matches!(e, StorageError::UnsupportedRegion(_)));
}

#[test]
fn upload_computes_etag_and_size() {
    let mut s = bucket_with(b"bkt1", Some(b"us-west-2"));
    let o = s.upload_object(b"bkt1", b"a/b.txt", None, b"hello".to_vec(), 7, 2_000).unwrap();
    assert_eq!(o.etag, b"5d41402abc4b2a76b9719d911017c592".to_vec());
    assert_eq!(o.size_bytes, 5);
    assert_eq!(o.key, b"a/b.txt".to_vec());
    assert_eq!(o.filename, b"b.txt".to_vec());
    assert_eq!(o.storage_class, b"STANDARD".to_vec());
    assert_eq!(o.last_modified_ms, 2_000);
    assert!(o.version_id.is_none());
    assert!(!o.is_deleted);
}

#[test]
fn get_returns_what_was_uploaded() {
    let mut s = bucket_with(b"bkt1", None);
    s.upload_object(b"bkt1", b"k", None, b"payload".to_vec(), 7, 2_000).unwrap();
    let (o, bytes) = s.get_object(b"bkt1", b"k").unwrap();
    assert_eq!(bytes, b"payload".to_vec());
    assert_eq!(o.etag, object_store::digest::md5_hex(b"payload"));
}

#[test]
fn overwrite_replaces_payload_and_tag() {
    let mut s = bucket_with(b"bkt1", None);
    let first = s.upload_object(b"bkt1", b"a/b.txt", None, b"hello".to_vec(), 7, 2_000).unwrap();
    let second = s.upload_object(b"bkt1", b"a/b.txt", None, b"world".to_vec(), 8, 3_000).unwrap();
    // the row keeps its identifier across the overwrite
    assert_eq!(second.id, first.id);
    assert_eq!(second.etag, b"7d793037a0760186574b0282f2f435e7".to_vec());
    let (o, bytes) = s.get_object(b"bkt1", b"a/b.txt").unwrap();
    assert_eq!(bytes, b"world".to_vec());
    assert_eq!(o.etag, b"7d793037a0760186574b0282f2f435e7".to_vec());
    assert!(o.last_modified_ms >= first.last_modified_ms);
}

#[test]
fn repeated_upload_of_same_payload_keeps_it() {
    let mut s = bucket_with(b"bkt1", None);
    s.upload_object(b"bkt1", b"k", None, b"data".to_vec(), 7, 1_000).unwrap();
    s.upload_object(b"bkt1", b"k", None, b"data".to_vec(), 8, 2_000).unwrap();
    let (o, bytes) = s.get_object(b"bkt1", b"k").unwrap();
    assert_eq!(bytes, b"data".to_vec());
    assert_eq!(o.last_modified_ms, 2_000);
    let page = s
        .list_objects_v2(b"bkt1", object_store::listing::ListObjectsParams {
            prefix: None,
            delimiter: None,
            continuation_token: None,
            start_after: None,
            max_keys: 1000,
        })
        .unwrap();
    assert_eq!(page.objects.len(), 1);
}

#[test]
fn upload_to_missing_bucket_fails() {
    let mut s = Store::new();
    let e = s.upload_object(b"nope", b"k", None, b"x".to_vec(), 7, 0).unwrap_err();
    assert!(matches!(e, StorageError::BucketNotFound(_)));
    assert_eq!(e.status_code(), 404);
}

#[test]
fn upload_with_bad_key_fails() {
    let mut s = bucket_with(b"bkt1", None);
    let e = s.upload_object(b"bkt1", b"/k", None, b"x".to_vec(), 7, 0).unwrap_err();
    assert_eq!(e, StorageError::InvalidObjectKey);
    assert_eq!(e.status_code(), 400);
}

#[test]
fn metadata_of_missing_object_fails() {
    let s = bucket_with(b"bkt1", None);
    let e = s.get_object_metadata(b"bkt1", b"nope").unwrap_err();
    assert!(matches!(e, StorageError::ObjectNotFound { .. }));
    assert_eq!(e.status_code(), 404);
}

#[test]
fn delete_returns_row_and_second_delete_fails() {
    let mut s = bucket_with(b"bkt1", None);
    s.upload_object(b"bkt1", b"a/b.txt", None, b"hello".to_vec(), 7, 2_000).unwrap();
    let gone = s.delete_object(b"bkt1", b"a/b.txt").unwrap();
    assert!(!gone.is_deleted);
    assert_eq!(gone.key, b"a/b.txt".to_vec());
    // the tombstone hides the row from reads
    assert!(matches!(
        s.get_object(b"bkt1", b"a/b.txt"),
        Err(StorageError::ObjectNotFound { .. })
    ));
    // a second delete finds nothing live
    let e = s.delete_object(b"bkt1", b"a/b.txt").unwrap_err();
    assert!(matches!(e, StorageError::ObjectNotFound { .. }));
}

#[test]
fn upload_after_delete_revives_the_key() {
    let mut s = bucket_with(b"bkt1", None);
    s.upload_object(b"bkt1", b"k", None, b"one".to_vec(), 7, 1_000).unwrap();
    s.delete_object(b"bkt1", b"k").unwrap();
    s.upload_object(b"bkt1", b"k", None, b"two".to_vec(), 8, 3_000).unwrap();
    let (o, bytes) = s.get_object(b"bkt1", b"k").unwrap();
    assert_eq!(bytes, b"two".to_vec());
    assert!(!o.is_deleted);
}

#[test]
fn delete_bucket_then_lookups_fail() {
    let mut s = bucket_with(b"bkt1", None);
    s.delete_bucket(b"bkt1").unwrap();
    assert!(matches!(s.get_object(b"bkt1", b"k"), Err(StorageError::BucketNotFound(_))));
    let e = s.delete_bucket(b"bkt1").unwrap_err();
    assert!(matches!(e, StorageError::BucketNotFound(_)));
}

#[test]
fn content_type_is_carried_through() {
    let mut s = bucket_with(b"bkt1", None);
    s.upload_object(b"bkt1", b"k", Some(b"text/plain".to_vec()), b"x".to_vec(), 7, 0).unwrap();
    let o = s.get_object_metadata(b"bkt1", b"k").unwrap();
    assert_eq!(o.content_type, Some(b"text/plain".to_vec()));
}

use object_store::errors::BucketNameViolation;
use object_store::errors::StorageError;
use object_store::naming::ensure_bucket_name_safe;
use object_store::naming::ensure_key_safe;
use object_store::naming::ensure_region_valid;
use object_store::naming::canonical_region;
use object_store::naming::is_ipv4_like;

#[test]
fn empty_key_rejected() {
    assert_eq!(ensure_key_safe(b""), Err(StorageError::InvalidObjectKey));
}

#[test]
fn key_of_1024_bytes_accepted() {
    let key = vec![b'a'; 1024];
    assert!(ensure_key_safe(&key).is_ok());
}

#[test]
fn key_of_1025_bytes_rejected() {
    let key = vec![b'a'; 1025];
    assert_eq!(ensure_key_safe(&key), Err(StorageError::InvalidObjectKey));
}

#[test]
fn key_with_dot_dot_rejected() {
    assert_eq!(ensure_key_safe(b"a/../b"), Err(StorageError::InvalidObjectKey));
    assert_eq!(ensure_key_safe(b".."), Err(StorageError::InvalidObjectKey));
}

#[test]
fn key_with_leading_slash_rejected() {
    assert_eq!(ensure_key_safe(b"/abc"), Err(StorageError::InvalidObjectKey));
}

#[test]
fn key_with_nul_rejected() {
    assert_eq!(ensure_key_safe(b"a\0b"), Err(StorageError::InvalidObjectKey));
}

#[test]
fn key_with_backslash_rejected() {
    assert_eq!(ensure_key_safe(b"a\\b"), Err(StorageError::InvalidObjectKey));
}

#[test]
fn key_with_control_byte_rejected() {
    assert_eq!(ensure_key_safe(b"a\x01b"), Err(StorageError::InvalidObjectKey));
    assert_eq!(ensure_key_safe(b"a\x7fb"), Err(StorageError::InvalidObjectKey));
}

#[test]
fn ordinary_keys_accepted() {
    assert!(ensure_key_safe(b"a/b.txt").is_ok());
    assert!(ensure_key_safe(b"photos/2025/img.jpg").is_ok());
    assert!(ensure_key_safe(b"a.b").is_ok());
    assert!(ensure_key_safe(b"trailing/slash/").is_ok());
}

#[test]
fn bucket_name_too_short_rejected() {
    let e = ensure_bucket_name_safe(b"ab").unwrap_err();
    assert!(matches!(
        e,
        StorageError::InvalidBucketName { reason: BucketNameViolation::LengthOutOfRange, .. }
    ));
}

#[test]
fn bucket_name_of_64_bytes_rejected() {
    let name = vec![b'a'; 64];
    assert!(ensure_bucket_name_safe(&name).is_err());
}

#[test]
fn bucket_name_of_63_bytes_accepted() {
    let name = vec![b'a'; 63];
    assert!(ensure_bucket_name_safe(&name).is_ok());
}

#[test]
fn bucket_name_with_leading_hyphen_rejected() {
    assert!(ensure_bucket_name_safe(b"-foo").is_err());
}

#[test]
fn bucket_name_with_trailing_hyphen_rejected() {
    assert!(ensure_bucket_name_safe(b"foo-").is_err());
}

#[test]
fn bucket_name_shaped_like_ip_rejected() {
    let e = ensure_bucket_name_safe(b"10.0.0.1").unwrap_err();
    assert!(matches!(
        e,
        StorageError::InvalidBucketName { reason: BucketNameViolation::Ipv4Shaped, .. }
    ));
}

#[test]
fn bucket_name_with_double_dot_rejected() {
    assert!(ensure_bucket_name_safe(b"foo..bar").is_err());
    assert!(ensure_bucket_name_safe(b"foo.-bar").is_err());
    assert!(ensure_bucket_name_safe(b"foo-.bar").is_err());
}

#[test]
fn bucket_name_with_whitespace_rejected() {
    assert!(ensure_bucket_name_safe(b" foo").is_err());
    assert!(ensure_bucket_name_safe(b"foo ").is_err());
}

#[test]
fn bucket_name_with_uppercase_rejected() {
    assert!(ensure_bucket_name_safe(b"Foo").is_err());
}

#[test]
fn dotted_hyphenated_bucket_name_accepted() {
    assert!(ensure_bucket_name_safe(b"foo.bar-baz").is_ok());
}

#[test]
fn ipv4_like_shapes() {
    assert!(is_ipv4_like(b"10.0.0.1"));
    assert!(is_ipv4_like(b"255.255.255.255"));
    assert!(is_ipv4_like(b"010.0.0.1"));
    assert!(!is_ipv4_like(b"256.0.0.1"));
    assert!(!is_ipv4_like(b"1.2.3"));
    assert!(!is_ipv4_like(b"1.2.3.4.5"));
    assert!(!is_ipv4_like(b"1.2.3.a"));
    assert!(!is_ipv4_like(b"1..2.3"));
    assert!(!is_ipv4_like(b"1234.1.2.3"));
    assert!(!is_ipv4_like(b"foo.bar"));
}

#[test]
fn regions_match_case_insensitively() {
    assert!(ensure_region_valid(b"local").is_ok());
    assert!(ensure_region_valid(b"us-west-2").is_ok());
    assert!(ensure_region_valid(b"US-WEST-2").is_ok());
    assert!(ensure_region_valid(b"Eu-West-1").is_ok());
    assert!(ensure_region_valid(b"ap-southeast-4").is_ok());
}

#[test]
fn unsupported_region_rejected() {
    let e = ensure_region_valid(b"mars-north-1").unwrap_err();
    assert!(matches!(e, StorageError::UnsupportedRegion(r) if r == b"mars-north-1".to_vec()));
}

#[test]
fn canonical_region_lowercases() {
    assert_eq!(canonical_region(b"US-WEST-2").unwrap(), b"us-west-2".to_vec());
    assert_eq!(canonical_region(b"local").unwrap(), b"local".to_vec());
    assert!(canonical_region(b"us-west-9").is_err());
}

#[test]
fn three_byte_bucket_name_accepted() {
    assert!(ensure_bucket_name_safe(b"abc").is_ok());
    assert!(ensure_bucket_name_safe(b"a1b").is_ok());
}

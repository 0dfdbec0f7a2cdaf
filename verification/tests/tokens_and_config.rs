use object_store::config::AppConfig;
use object_store::config::Args;
use object_store::config::parse_port;
use object_store::config::u16_dec;
use object_store::errors::AppError;
use object_store::errors::StorageError;
use object_store::health::build_check_status;
use object_store::health::readiness_verdict;
use object_store::token::decode_token;
use object_store::token::encode_token;

#[test]
fn tokens_encode_as_standard_base64() {
    assert_eq!(encode_token(b"k2"), b"azI=".to_vec());
    assert_eq!(encode_token(b""), b"".to_vec());
    assert_eq!(encode_token(b"a"), b"YQ==".to_vec());
    assert_eq!(encode_token(b"ab"), b"YWI=".to_vec());
    assert_eq!(encode_token(b"abc"), b"YWJj".to_vec());
    assert_eq!(encode_token(b"abcd"), b"YWJjZA==".to_vec());
}

#[test]
fn tokens_round_trip() {
    for cursor in [&b"k2"[..], b"", b"a", b"ab", b"abc", b"abcd", b"photos/2025/img.jpg"] {
        assert_eq!(decode_token(&encode_token(cursor)), cursor.to_vec());
    }
}

#[test]
fn decoding_tolerates_plaintext() {
    // not base64: handed back unchanged
    assert_eq!(decode_token(b"k2"), b"k2".to_vec());
    assert_eq!(decode_token(b"not base64!"), b"not base64!".to_vec());
    assert_eq!(decode_token(b"===="), b"====".to_vec());
}

#[test]
fn valid_base64_is_decoded() {
    assert_eq!(decode_token(b"azI="), b"k2".to_vec());
    assert_eq!(decode_token(b"YWJjZA=="), b"abcd".to_vec());
}

#[test]
fn config_prefers_flags_over_environment() {
    let args = Args {
        host: Some("127.0.0.1".to_string()),
        port: None,
        storage_dir: None,
        database_url: None,
        migrate: false,
    };
    let (cfg, migrate) = AppConfig::resolve(
        args,
        Some("10.0.0.1".to_string()),
        Some(8080),
        None,
        None,
    );
    assert_eq!(cfg.host, "127.0.0.1");
    assert_eq!(cfg.port, 8080);
    assert_eq!(cfg.storage_dir, "./data/objects");
    assert_eq!(cfg.database_url, "sqlite://./data/meta/object_store.db");
    assert!(!migrate);
}

#[test]
fn config_defaults_apply() {
    let args = Args { host: None, port: None, storage_dir: None, database_url: None, migrate: true };
    let (cfg, migrate) = AppConfig::resolve(args, None, None, None, None);
    assert_eq!(cfg.host, "0.0.0.0");
    assert_eq!(cfg.port, 3000);
    assert!(migrate);
    assert_eq!(cfg.addr(), "0.0.0.0:3000");
}

#[test]
fn addr_joins_host_and_port() {
    let cfg = AppConfig {
        host: "localhost".to_string(),
        port: 65535,
        storage_dir: String::new(),
        database_url: String::new(),
    };
    assert_eq!(cfg.addr(), "localhost:65535");
    assert_eq!(u16_dec(0), "0");
    assert_eq!(u16_dec(305), "305");
}

#[test]
fn port_parsing_mirrors_the_integer_grammar() {
    assert_eq!(parse_port(b"3000"), Some(3000));
    assert_eq!(parse_port(b"+80"), Some(80));
    assert_eq!(parse_port(b"0"), Some(0));
    assert_eq!(parse_port(b"65535"), Some(65535));
    assert_eq!(parse_port(b"65536"), None);
    assert_eq!(parse_port(b"999999999"), None);
    assert_eq!(parse_port(b""), None);
    assert_eq!(parse_port(b"+"), None);
    assert_eq!(parse_port(b"80a"), None);
    assert_eq!(parse_port(b" 80"), None);
}

#[test]
fn error_kinds_map_to_statuses() {
    assert_eq!(StorageError::BucketNotFound(b"b".to_vec()).status_code(), 404);
    assert_eq!(StorageError::BucketAlreadyExists(b"b".to_vec()).status_code(), 409);
    assert_eq!(StorageError::UnsupportedRegion(b"r".to_vec()).status_code(), 400);
    assert_eq!(StorageError::InvalidObjectKey.status_code(), 400);
    assert_eq!(
        StorageError::ObjectNotFound { bucket: b"b".to_vec(), key: b"k".to_vec() }.status_code(),
        404
    );
    assert_eq!(StorageError::MetadataStoreFailure("db".to_string()).status_code(), 500);
    assert_eq!(StorageError::FilesystemFailure("io".to_string()).status_code(), 500);
}

#[test]
fn app_error_carries_status_and_message() {
    let e = AppError::from_storage(&StorageError::InvalidObjectKey);
    assert_eq!(e.status, 400);
    assert_eq!(e.message, "invalid object key");
    assert_eq!(AppError::internal("boom".to_string()).status, 500);
    assert_eq!(AppError::not_found("gone".to_string()).status, 404);
    assert_eq!(AppError::new(204, "ok".to_string()).status, 204);
}

#[test]
fn readiness_requires_every_check() {
    let status = build_check_status(true, None, Some("SELECT 1".to_string()), 3);
    assert!(status.ok);
    assert_eq!(status.duration_ms, 3);
    assert_eq!(readiness_verdict(true, true, true), (true, 200));
    assert_eq!(readiness_verdict(true, false, true), (false, 503));
    assert_eq!(readiness_verdict(false, true, true), (false, 503));
    assert_eq!(readiness_verdict(true, true, false), (false, 503));
}

#[test]
fn negative_port_rejected() {
    assert_eq!(parse_port(b"-1"), None);
}

#[test]
fn token_with_bad_middle_block_is_plaintext() {
    // eight bytes, but the first block holds a byte outside the alphabet
    assert_eq!(decode_token(b"Y!JjZA=="), b"Y!JjZA==".to_vec());
}

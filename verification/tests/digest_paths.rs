use object_store::digest::PayloadDigest;
use object_store::digest::md5_hex;
use object_store::digest::to_hex;
use object_store::paths::bucket_root;
use object_store::paths::join_components;
use object_store::paths::last_segment;
use object_store::paths::may_prune;
use object_store::paths::object_path;
use object_store::paths::object_shards;
use object_store::paths::parent_dir;
use object_store::paths::temp_file_name;

#[test]
fn md5_of_hello() {
    assert_eq!(md5_hex(b"hello"), b"5d41402abc4b2a76b9719d911017c592".to_vec());
}

#[test]
fn md5_of_world() {
    assert_eq!(md5_hex(b"world"), b"7d793037a0760186574b0282f2f435e7".to_vec());
}

#[test]
fn md5_of_empty() {
    assert_eq!(md5_hex(b""), b"d41d8cd98f00b204e9800998ecf8427e".to_vec());
}

#[test]
fn hex_rendering() {
    assert_eq!(to_hex(&[0x00, 0xff, 0x1a]), b"00ff1a".to_vec());
    assert_eq!(to_hex(&[]), b"".to_vec());
}

#[test]
fn streaming_digest_matches_one_shot() {
    let mut d = PayloadDigest::new();
    d.push_chunk(b"he");
    d.push_chunk(b"llo");
    assert_eq!(d.size(), 5);
    let (etag, size) = d.finish();
    assert_eq!(etag, b"5d41402abc4b2a76b9719d911017c592".to_vec());
    assert_eq!(size, 5);
}

#[test]
fn streaming_digest_of_nothing() {
    let d = PayloadDigest::new();
    let (etag, size) = d.finish();
    assert_eq!(etag, b"d41d8cd98f00b204e9800998ecf8427e".to_vec());
    assert_eq!(size, 0);
}

#[test]
fn shards_come_from_the_digest() {
    // MD5("b1/a/b.txt") begins bf3e...
    let (a, b) = object_shards(b"b1", b"a/b.txt");
    assert_eq!(a, b"bf".to_vec());
    assert_eq!(b, b"3e".to_vec());
}

#[test]
fn object_path_layout() {
    let p = object_path(b"data", b"b1", b"a/b.txt");
    assert_eq!(p, b"data/b1/bf/3e/a/b.txt".to_vec());
}

#[test]
fn bucket_root_is_base_plus_name() {
    assert_eq!(bucket_root(b"data", b"b1"), b"data/b1".to_vec());
    assert_eq!(join_components(b"a", b"b"), b"a/b".to_vec());
}

#[test]
fn filename_is_last_segment() {
    assert_eq!(last_segment(b"a/b.txt"), b"b.txt".to_vec());
    assert_eq!(last_segment(b"plain"), b"plain".to_vec());
    assert_eq!(last_segment(b"x/y/"), b"".to_vec());
}

#[test]
fn parent_walks_up_one_level() {
    assert_eq!(parent_dir(b"data/b1/bf/3e/a/b.txt"), Some(b"data/b1/bf/3e/a".to_vec()));
    assert_eq!(parent_dir(b"plain"), None);
}

#[test]
fn pruning_stays_below_the_stop() {
    assert!(may_prune(b"data/b1/bf/3e", b"data/b1"));
    assert!(may_prune(b"data/b1/bf", b"data/b1"));
    assert!(!may_prune(b"data/b1", b"data/b1"));
    assert!(!may_prune(b"data/b2/bf", b"data/b1"));
    assert!(!may_prune(b"data/b12", b"data/b1"));
}

#[test]
fn temp_name_carries_the_suffix() {
    assert_eq!(temp_file_name(b"1234"), b".tmp-1234".to_vec());
}

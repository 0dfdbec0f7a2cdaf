use object_store::listing::ListObjectsParams;
use object_store::listing::clamp_max_keys;
use object_store::listing::compute_common_prefix;
use object_store::store::Store;

fn params() -> ListObjectsParams {
    ListObjectsParams {
        prefix: None,
        delimiter: None,
        continuation_token: None,
        start_after: None,
        max_keys: 1000,
    }
}

fn store_with_keys(keys: &[&[u8]]) -> Store {
    let mut s = Store::new();
    s.create_bucket(b"bkt1", None, 1, 100, 0).unwrap();
    for (i, k) in keys.iter().enumerate() {
        s.upload_object(b"bkt1", k, None, b"x".to_vec(), 10 + i as u128, 1_000).unwrap();
    }
    s
}

#[test]
fn common_prefix_groups_past_the_delimiter() {
    assert_eq!(compute_common_prefix(b"b/1", None, b"/"), Some(b"b/".to_vec()));
    assert_eq!(compute_common_prefix(b"a", None, b"/"), None);
    assert_eq!(compute_common_prefix(b"x/y/z", None, b"/"), Some(b"x/".to_vec()));
    assert_eq!(compute_common_prefix(b"photos/2025/a.jpg", Some(b"photos/"), b"/"), Some(b"photos/2025/".to_vec()));
    assert_eq!(compute_common_prefix(b"photos/a.jpg", Some(b"photos/"), b"/"), None);
    assert_eq!(compute_common_prefix(b"other/a.jpg", Some(b"photos/"), b"/"), None);
}

#[test]
fn clamping_bounds_the_page_size() {
    assert_eq!(clamp_max_keys(0), 1);
    assert_eq!(clamp_max_keys(5), 5);
    assert_eq!(clamp_max_keys(1000), 1000);
    assert_eq!(clamp_max_keys(5000), 1000);
}

#[test]
fn unfiltered_listing_is_sorted_and_complete() {
    let s = store_with_keys(&[b"c", b"a", b"b"]);
    let page = s.list_objects_v2(b"bkt1", params()).unwrap();
    let keys: Vec<Vec<u8>> = page.objects.iter().map(|o| o.key.clone()).collect();
    assert_eq!(keys, vec![b"a".to_vec(), b"b".to_vec(), b"c".to_vec()]);
    assert!(!page.is_truncated);
    assert!(page.next_continuation_token.is_none());
    assert_eq!(page.key_count, 3);
}

#[test]
fn deleted_rows_stay_out_of_listings() {
    let mut s = store_with_keys(&[b"a", b"b"]);
    s.delete_object(b"bkt1", b"a").unwrap();
    let page = s.list_objects_v2(b"bkt1", params()).unwrap();
    let keys: Vec<Vec<u8>> = page.objects.iter().map(|o| o.key.clone()).collect();
    assert_eq!(keys, vec![b"b".to_vec()]);
}

#[test]
fn delimiter_groups_and_counts() {
    // keys [a, b/1, b/2, c] with delimiter "/": contents [a, c], prefix [b/]
    let s = store_with_keys(&[b"a", b"b/1", b"b/2", b"c"]);
    let mut p = params();
    p.delimiter = Some(b"/".to_vec());
    let page = s.list_objects_v2(b"bkt1", p).unwrap();
    let keys: Vec<Vec<u8>> = page.objects.iter().map(|o| o.key.clone()).collect();
    assert_eq!(keys, vec![b"a".to_vec(), b"c".to_vec()]);
    assert_eq!(page.common_prefixes, vec![b"b/".to_vec()]);
    assert_eq!(page.key_count, 3);
}

#[test]
fn prefix_narrows_and_delimiter_groups_below_it() {
    let s = store_with_keys(&[b"photos/2024/a.jpg", b"photos/2025/a.jpg", b"photos/top.jpg", b"other.txt"]);
    let mut p = params();
    p.prefix = Some(b"photos/".to_vec());
    p.delimiter = Some(b"/".to_vec());
    let page = s.list_objects_v2(b"bkt1", p).unwrap();
    let keys: Vec<Vec<u8>> = page.objects.iter().map(|o| o.key.clone()).collect();
    assert_eq!(keys, vec![b"photos/top.jpg".to_vec()]);
    assert_eq!(page.common_prefixes, vec![b"photos/2024/".to_vec(), b"photos/2025/".to_vec()]);
    assert_eq!(page.key_count, 3);
}

#[test]
fn truncation_hands_out_the_last_delivered_key() {
    // keys [k1,k2,k3], max-keys 2: [k1,k2], truncated, token "k2"
    let s = store_with_keys(&[b"k1", b"k2", b"k3"]);
    let mut p = params();
    p.max_keys = 2;
    let page = s.list_objects_v2(b"bkt1", p).unwrap();
    let keys: Vec<Vec<u8>> = page.objects.iter().map(|o| o.key.clone()).collect();
    assert_eq!(keys, vec![b"k1".to_vec(), b"k2".to_vec()]);
    assert!(page.is_truncated);
    assert_eq!(page.next_continuation_token, Some(b"k2".to_vec()));

    let mut p2 = params();
    p2.max_keys = 2;
    p2.continuation_token = page.next_continuation_token.clone();
    let page2 = s.list_objects_v2(b"bkt1", p2).unwrap();
    let keys2: Vec<Vec<u8>> = page2.objects.iter().map(|o| o.key.clone()).collect();
    assert_eq!(keys2, vec![b"k3".to_vec()]);
    assert!(!page2.is_truncated);
    assert!(page2.next_continuation_token.is_none());
}

#[test]
fn pages_concatenate_to_the_full_listing() {
    let all: Vec<Vec<u8>> = (0..25u8).map(|i| vec![b'k', b'0' + i / 10, b'0' + i % 10]).collect();
    let refs: Vec<&[u8]> = all.iter().map(|k| k.as_slice()).collect();
    let s = store_with_keys(&refs);
    let mut collected: Vec<Vec<u8>> = Vec::new();
    let mut token: Option<Vec<u8>> = None;
    loop {
        let mut p = params();
        p.max_keys = 4;
        p.continuation_token = token.clone();
        let page = s.list_objects_v2(b"bkt1", p).unwrap();
        collected.extend(page.objects.iter().map(|o| o.key.clone()));
        if !page.is_truncated {
            break;
        }
        token = page.next_continuation_token.clone();
    }
    assert_eq!(collected, all);
}

#[test]
fn start_after_skips_and_token_wins_over_it() {
    let s = store_with_keys(&[b"a", b"b", b"c", b"d"]);
    let mut p = params();
    p.start_after = Some(b"b".to_vec());
    let page = s.list_objects_v2(b"bkt1", p).unwrap();
    let keys: Vec<Vec<u8>> = page.objects.iter().map(|o| o.key.clone()).collect();
    assert_eq!(keys, vec![b"c".to_vec(), b"d".to_vec()]);

    let mut p2 = params();
    p2.start_after = Some(b"a".to_vec());
    p2.continuation_token = Some(b"c".to_vec());
    let page2 = s.list_objects_v2(b"bkt1", p2).unwrap();
    let keys2: Vec<Vec<u8>> = page2.objects.iter().map(|o| o.key.clone()).collect();
    assert_eq!(keys2, vec![b"d".to_vec()]);
}

#[test]
fn listing_missing_bucket_fails() {
    let s = Store::new();
    assert!(s.list_objects_v2(b"bkt1", params()).is_err());
}

#[test]
fn empty_delimiter_groups_everything_under_the_prefix() {
    // an empty delimiter occurs at position zero of every remainder
    let s = store_with_keys(&[b"a", b"b"]);
    let mut p = params();
    p.delimiter = Some(b"".to_vec());
    let page = s.list_objects_v2(b"bkt1", p).unwrap();
    assert!(page.objects.is_empty());
    assert_eq!(page.common_prefixes, vec![b"".to_vec()]);
    assert_eq!(page.key_count, 1);
}

#[test]
fn prefix_filter_narrows_without_delimiter() {
    let s = store_with_keys(&[b"a/x", b"a/y", b"b/z"]);
    let mut p = params();
    p.prefix = Some(b"a/".to_vec());
    let page = s.list_objects_v2(b"bkt1", p).unwrap();
    let keys: Vec<Vec<u8>> = page.objects.iter().map(|o| o.key.clone()).collect();
    assert_eq!(keys, vec![b"a/x".to_vec(), b"a/y".to_vec()]);
    assert!(!page.is_truncated);
    assert_eq!(page.key_count, 2);
}

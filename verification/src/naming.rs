//! Naming rules for object keys, bucket names and regions.
//!
//! Each validator states exactly which byte strings it accepts. Keys are
//! limited in byte length and must be free of traversal and control bytes;
//! bucket names follow the DNS-compatible rules, including the refusal of
//! dotted-quad IPv4 shapes; regions are matched case-insensitively against
//! the allow-list.

use vstd::prelude::*;
use crate::bytes::ascii_bytes;
use crate::bytes::ascii_lit;
use crate::bytes::contains_seq;
use crate::bytes::contains_sub;
use crate::bytes::copy_bytes;
use crate::bytes::eq_ignore_ascii;
use crate::bytes::lower_byte;
use crate::bytes::lower_bytes;
use crate::bytes::to_lower_bytes;
use crate::errors::BucketNameViolation;
use crate::errors::StorageError;

verus! {

/// Longest accepted object key, in bytes.
pub const MAX_OBJECT_KEY_LEN: usize = 1024;

/// Shortest accepted bucket name, in bytes.
pub const BUCKET_NAME_MIN_LEN: usize = 3;

/// Longest accepted bucket name, in bytes.
pub const BUCKET_NAME_MAX_LEN: usize = 63;

/// An ASCII control byte (including DEL).
pub open spec fn is_control_byte(b: u8) -> bool {
    b < 0x20 || b == 0x7f
}

/// A byte an object key may hold: not a control byte and not a backslash.
pub open spec fn key_byte_ok(b: u8) -> bool {
    !is_control_byte(b) && b != 0x5c
}

/// The object key rules: non-empty, at most 1024 bytes, no leading slash,
/// no `..`, and every byte admissible.
pub open spec fn valid_key(k: Seq<u8>) -> bool {
    &&& k.len() > 0
    &&& k.len() <= MAX_OBJECT_KEY_LEN
    &&& k[0] != 0x2f
    &&& !contains_seq(k, seq![0x2e, 0x2e])
    &&& forall|i: int| 0 <= i < k.len() ==> key_byte_ok(#[trigger] k[i])
}

/// Reject keys that would escape the bucket tree or embed control bytes.
pub fn ensure_key_safe(key: &[u8]) -> (r: Result<(), StorageError>)
    ensures
        r is Ok <==> valid_key(key@),
        r is Err ==> r->Err_0 == StorageError::InvalidObjectKey,
{
    if key.len() == 0 {
        return Err(StorageError::InvalidObjectKey);
    }
    if key.len() > MAX_OBJECT_KEY_LEN {
        return Err(StorageError::InvalidObjectKey);
    }
    if key[0] == 0x2f {
        return Err(StorageError::InvalidObjectKey);
    }
    let mut dots: Vec<u8> = Vec::new();
    dots.push(0x2e);
    dots.push(0x2e);
    proof {
        assert(dots@ =~= seq![0x2eu8, 0x2eu8]);
    }
    if contains_sub(key, dots.as_slice()) {
        return Err(StorageError::InvalidObjectKey);
    }
    let mut i: usize = 0;
    while i < key.len()
        invariant
            i <= key@.len(),
            forall|j: int| 0 <= j < i ==> key_byte_ok(#[trigger] key@[j]),
        decreases key@.len() - i,
    {
        let b = key[i];
        if b < 0x20 || b == 0x7f || b == 0x5c {
            return Err(StorageError::InvalidObjectKey);
        }
        i = i + 1;
    }
    Ok(())
}

/// A byte a bucket name may hold: lowercase letter, digit, dot or hyphen.
pub open spec fn bucket_byte_ok(b: u8) -> bool {
    (0x61 <= b <= 0x7a) || (0x30 <= b <= 0x39) || b == 0x2e || b == 0x2d
}

/// A lowercase letter or digit.
pub open spec fn is_lower_alnum(b: u8) -> bool {
    (0x61 <= b <= 0x7a) || (0x30 <= b <= 0x39)
}

/// A decimal digit byte.
pub open spec fn is_digit(b: u8) -> bool {
    0x30 <= b <= 0x39
}

/// Every byte of the segment is a decimal digit, and there is at least one.
pub open spec fn all_digits(s: Seq<u8>) -> bool {
    s.len() > 0 && forall|i: int| 0 <= i < s.len() ==> is_digit(#[trigger] s[i])
}

/// The decimal value of a digit string.
pub open spec fn dec_value(s: Seq<u8>) -> int
    decreases s.len(),
{
    if s.len() == 0 {
        0
    } else {
        dec_value(s.drop_last()) * 10 + (s.last() - 0x30)
    }
}

/// A segment of a dotted-quad address: one to three digits valuing at most
/// 255.
pub open spec fn ipv4_segment(s: Seq<u8>) -> bool {
    1 <= s.len() <= 3 && all_digits(s) && dec_value(s) <= 255
}

/// The name splits on dots into exactly four IPv4 segments.
pub open spec fn is_ipv4_shaped(n: Seq<u8>) -> bool {
    exists|p1: int, p2: int, p3: int|
        {
            &&& 0 <= p1 < p2 < p3 < n.len()
            &&& n[p1] == 0x2e && n[p2] == 0x2e && n[p3] == 0x2e
            &&& forall|i: int| 0 <= i < n.len() && n[i] == 0x2e ==> i == p1 || i == p2 || i == p3
            &&& ipv4_segment(n.subrange(0, p1))
            &&& ipv4_segment(n.subrange(p1 + 1, p2))
            &&& ipv4_segment(n.subrange(p2 + 1, p3))
            &&& ipv4_segment(n.subrange(p3 + 1, n.len() as int))
        }
}

/// The bucket naming rules: 3 to 63 bytes, only lowercase letters, digits,
/// dots and hyphens, alphanumeric at both ends, no `..`, `.-` or `-.`, and
/// not shaped like an IPv4 address.
pub open spec fn valid_bucket_name(n: Seq<u8>) -> bool {
    &&& BUCKET_NAME_MIN_LEN <= n.len() <= BUCKET_NAME_MAX_LEN
    &&& forall|i: int| 0 <= i < n.len() ==> bucket_byte_ok(#[trigger] n[i])
    &&& is_lower_alnum(n[0])
    &&& is_lower_alnum(n[n.len() - 1])
    &&& !contains_seq(n, seq![0x2e, 0x2e])
    &&& !contains_seq(n, seq![0x2e, 0x2d])
    &&& !contains_seq(n, seq![0x2d, 0x2e])
    &&& !is_ipv4_shaped(n)
}

/// Find the first occurrence of byte `b` in `s` at or after `from`.
fn find_byte_from(s: &[u8], from: usize, b: u8) -> (r: Option<usize>)
    requires
        from <= s@.len(),
    ensures
        match r {
            Some(i) => from <= i < s@.len() && s@[i as int] == b && forall|j: int|
                from <= j < i ==> s@[j] != b,
            None => forall|j: int| from <= j < s@.len() ==> s@[j] != b,
        },
{
    let mut i: usize = from;
    while i < s.len()
        invariant
            from <= i <= s@.len(),
            forall|j: int| from <= j < i ==> s@[j] != b,
        decreases s@.len() - i,
    {
        if s[i] == b {
            return Some(i);
        }
        i = i + 1;
    }
    None
}

/// Check one candidate dotted-quad segment `s[from..to]`.
fn ipv4_seg_ok(s: &[u8], from: usize, to: usize) -> (r: bool)
    requires
        from <= to <= s@.len(),
    ensures
        r == ipv4_segment(s@.subrange(from as int, to as int)),
{
    let len = to - from;
    if len < 1 || len > 3 {
        return false;
    }
    let mut v: u32 = 0;
    let mut i: usize = from;
    while i < to
        invariant
            from <= i <= to <= s@.len(),
            to - from <= 3,
            v <= 999,
            v == dec_value(s@.subrange(from as int, i as int)),
            v < 100 || i - from >= 3,
            v < 10 || i - from >= 2,
            forall|j: int| from <= j < i ==> is_digit(#[trigger] s@[j]),
        decreases to - i,
    {
        let b = s[i];
        if b < 0x30 || b > 0x39 {
            proof {
                assert(s@.subrange(from as int, to as int)[i - from] == s@[i as int]);
                assert(!all_digits(s@.subrange(from as int, to as int)));
            }
            return false;
        }
        proof {
            assert(s@.subrange(from as int, i + 1).drop_last() =~= s@.subrange(
                from as int,
                i as int,
            ));
            assert(s@.subrange(from as int, i + 1).last() == s@[i as int]);
        }
        v = v * 10 + (b - 0x30) as u32;
        i = i + 1;
    }
    proof {
        assert(all_digits(s@.subrange(from as int, to as int))) by {
            assert(forall|j: int|
                0 <= j < to - from ==> s@.subrange(from as int, to as int)[j] == s@[from + j]);
        }
    }
    v <= 255
}

/// When the dots of `n` are exactly `d1 < d2 < d3`, any dot triple
/// witnessing the IPv4 shape is that one.
proof fn lemma_dot_triple_unique(n: Seq<u8>, d1: int, d2: int, d3: int, p1: int, p2: int, p3: int)
    requires
        0 <= d1 < d2 < d3 < n.len(),
        n[d1] == 0x2e && n[d2] == 0x2e && n[d3] == 0x2e,
        forall|i: int| 0 <= i < n.len() && n[i] == 0x2e ==> i == d1 || i == d2 || i == d3,
        0 <= p1 < p2 < p3 < n.len(),
        n[p1] == 0x2e && n[p2] == 0x2e && n[p3] == 0x2e,
    ensures
        p1 == d1 && p2 == d2 && p3 == d3,
{
}

/// Decide whether a name is shaped like a dotted-quad IPv4 address.
pub fn is_ipv4_like(name: &[u8]) -> (r: bool)
    ensures
        r == is_ipv4_shaped(name@),
{
    let n = name.len();
    let d1 = match find_byte_from(name, 0, 0x2e) {
        Some(i) => i,
        None => {
            return false;
        },
    };
    let d2 = match find_byte_from(name, d1 + 1, 0x2e) {
        Some(i) => i,
        None => {
            return false;
        },
    };
    let d3 = match find_byte_from(name, d2 + 1, 0x2e) {
        Some(i) => i,
        None => {
            return false;
        },
    };
    match find_byte_from(name, d3 + 1, 0x2e) {
        Some(d4) => {
            proof {
                assert(!is_ipv4_shaped(name@)) by {
                    assert forall|p1: int, p2: int, p3: int|
                        !(0 <= p1 < p2 < p3 < name@.len() && name@[p1] == 0x2e && name@[p2] == 0x2e
                            && name@[p3] == 0x2e && (forall|i: int|
                            0 <= i < name@.len() && name@[i] == 0x2e ==> i == p1 || i == p2 || i
                                == p3)) by {
                        if 0 <= p1 < p2 < p3 < name@.len() && name@[p1] == 0x2e && name@[p2] == 0x2e
                            && name@[p3] == 0x2e && (forall|i: int|
                            0 <= i < name@.len() && name@[i] == 0x2e ==> i == p1 || i == p2 || i
                                == p3) {
                            assert(d1 == p1 || d1 == p2 || d1 == p3);
                            assert(d2 == p1 || d2 == p2 || d2 == p3);
                            assert(d3 == p1 || d3 == p2 || d3 == p3);
                            assert(d4 == p1 || d4 == p2 || d4 == p3);
                            assert(false);
                        }
                    }
                }
            }
            return false;
        },
        None => {},
    }
    let seg_ok = {
        let a = ipv4_seg_ok(name, 0, d1);
        let b = ipv4_seg_ok(name, d1 + 1, d2);
        let c = ipv4_seg_ok(name, d2 + 1, d3);
        let d = ipv4_seg_ok(name, d3 + 1, name.len());
        a && b && c && d
    };
    proof {
        if seg_ok {
            assert(is_ipv4_shaped(name@)) by {
                assert(0 <= d1 < d2 < d3 < name@.len());
                assert(forall|i: int|
                    0 <= i < name@.len() && name@[i] == 0x2e ==> i == d1 || i == d2 || i == d3);
            }
        } else {
            if is_ipv4_shaped(name@) {
                let (p1, p2, p3) = choose|p1: int, p2: int, p3: int|
                    {
                        &&& 0 <= p1 < p2 < p3 < name@.len()
                        &&& name@[p1] == 0x2e && name@[p2] == 0x2e && name@[p3] == 0x2e
                        &&& forall|i: int|
                            0 <= i < name@.len() && name@[i] == 0x2e ==> i == p1 || i == p2 || i
                                == p3
                        &&& ipv4_segment(name@.subrange(0, p1))
                        &&& ipv4_segment(name@.subrange(p1 + 1, p2))
                        &&& ipv4_segment(name@.subrange(p2 + 1, p3))
                        &&& ipv4_segment(name@.subrange(p3 + 1, name@.len() as int))
                    };
                lemma_dot_triple_unique(name@, d1 as int, d2 as int, d3 as int, p1, p2, p3);
                assert(false);
            }
        }
    }
    seg_ok
}

/// The names of the supported regions, lowercase.
pub open spec fn region_names() -> Seq<Seq<char>> {
    seq![
        "local"@,
        "us-east-1"@,
        "us-east-2"@,
        "us-west-1"@,
        "us-west-2"@,
        "eu-west-1"@,
        "ap-southeast-1"@,
        "ap-northeast-1"@,
        "ap-south-1"@,
        "ap-south-2"@,
        "ap-southeast-2"@,
        "ap-southeast-3"@,
        "ap-southeast-4"@,
        "ap-northeast-2"@,
        "ap-northeast-3"@,
        "me-south-1"@,
    ]
}

/// The region matches an allow-list entry up to ASCII case.
pub open spec fn region_allowed(r: Seq<u8>) -> bool {
    exists|i: int|
        0 <= i < region_names().len() && lower_bytes(r) == lower_bytes(
            ascii_bytes(#[trigger] region_names()[i]),
        )
}

/// Compare a region to one allow-list entry, ignoring ASCII case.
fn region_matches(region: &[u8], lit: &str) -> (b: bool)
    requires
        vstd::string::is_ascii(lit),
    ensures
        b == (lower_bytes(region@) == lower_bytes(ascii_bytes(lit@))),
{
    let l = ascii_lit(lit);
    eq_ignore_ascii(region, l.as_slice())
}

/// Reject regions outside the allow-list; matching ignores ASCII case.
pub fn ensure_region_valid(region: &[u8]) -> (r: Result<(), StorageError>)
    ensures
        r is Ok <==> region_allowed(region@),
        r is Err ==> (r->Err_0 matches StorageError::UnsupportedRegion(n) && n@ == region@),
{
    proof {
        reveal_strlit("local");
        reveal_strlit("us-east-1");
        reveal_strlit("us-east-2");
        reveal_strlit("us-west-1");
        reveal_strlit("us-west-2");
        reveal_strlit("eu-west-1");
        reveal_strlit("ap-southeast-1");
        reveal_strlit("ap-northeast-1");
        reveal_strlit("ap-south-1");
        reveal_strlit("ap-south-2");
        reveal_strlit("ap-southeast-2");
        reveal_strlit("ap-southeast-3");
        reveal_strlit("ap-southeast-4");
        reveal_strlit("ap-northeast-2");
        reveal_strlit("ap-northeast-3");
        reveal_strlit("me-south-1");
    }
    let ok = region_matches(region, "local") || region_matches(region, "us-east-1")
        || region_matches(region, "us-east-2") || region_matches(region, "us-west-1")
        || region_matches(region, "us-west-2") || region_matches(region, "eu-west-1")
        || region_matches(region, "ap-southeast-1") || region_matches(region, "ap-northeast-1")
        || region_matches(region, "ap-south-1") || region_matches(region, "ap-south-2")
        || region_matches(region, "ap-southeast-2") || region_matches(region, "ap-southeast-3")
        || region_matches(region, "ap-southeast-4") || region_matches(region, "ap-northeast-2")
        || region_matches(region, "ap-northeast-3") || region_matches(region, "me-south-1");
    proof {
        assert(region_names()[0] == "local"@);
        assert(region_names()[1] == "us-east-1"@);
        assert(region_names()[2] == "us-east-2"@);
        assert(region_names()[3] == "us-west-1"@);
        assert(region_names()[4] == "us-west-2"@);
        assert(region_names()[5] == "eu-west-1"@);
        assert(region_names()[6] == "ap-southeast-1"@);
        assert(region_names()[7] == "ap-northeast-1"@);
        assert(region_names()[8] == "ap-south-1"@);
        assert(region_names()[9] == "ap-south-2"@);
        assert(region_names()[10] == "ap-southeast-2"@);
        assert(region_names()[11] == "ap-southeast-3"@);
        assert(region_names()[12] == "ap-southeast-4"@);
        assert(region_names()[13] == "ap-northeast-2"@);
        assert(region_names()[14] == "ap-northeast-3"@);
        assert(region_names()[15] == "me-south-1"@);
    }
    if ok {
        Ok(())
    } else {
        Err(StorageError::UnsupportedRegion(copy_bytes(region)))
    }
}

/// The ASCII fold does not change an already folded string.
pub proof fn lemma_lower_idempotent(s: Seq<u8>)
    ensures
        lower_bytes(lower_bytes(s)) == lower_bytes(s),
{
    assert(lower_bytes(lower_bytes(s)) =~= lower_bytes(s));
}

/// Normalize a region to lowercase and check it against the allow-list;
/// the normalized form is what the bucket row stores.
pub fn canonical_region(region: &[u8]) -> (r: Result<Vec<u8>, StorageError>)
    ensures
        r is Ok <==> region_allowed(region@),
        r is Ok ==> r->Ok_0@ == lower_bytes(region@),
        r is Err ==> (r->Err_0 matches StorageError::UnsupportedRegion(n) && n@ == region@),
{
    let low = to_lower_bytes(region);
    proof {
        lemma_lower_idempotent(region@);
    }
    match ensure_region_valid(low.as_slice()) {
        Ok(()) => Ok(low),
        Err(_) => Err(StorageError::UnsupportedRegion(copy_bytes(region))),
    }
}

/// Reject bucket names that break the DNS-compatible rules.
pub fn ensure_bucket_name_safe(name: &[u8]) -> (r: Result<(), StorageError>)
    ensures
        r is Ok <==> valid_bucket_name(name@),
        r is Err ==> (r->Err_0 matches StorageError::InvalidBucketName { name: n, reason: _ }
            && n@ == name@),
{
    if name.len() < BUCKET_NAME_MIN_LEN || name.len() > BUCKET_NAME_MAX_LEN {
        return Err(
            StorageError::InvalidBucketName {
                name: copy_bytes(name),
                reason: BucketNameViolation::LengthOutOfRange,
            },
        );
    }
    let mut i: usize = 0;
    while i < name.len()
        invariant
            i <= name@.len(),
            forall|j: int| 0 <= j < i ==> bucket_byte_ok(#[trigger] name@[j]),
        decreases name@.len() - i,
    {
        let b = name[i];
        let ok = (0x61 <= b && b <= 0x7a) || (0x30 <= b && b <= 0x39) || b == 0x2e || b == 0x2d;
        if !ok {
            let reason = if b == 0x20 || (0x09 <= b && b <= 0x0d) {
                BucketNameViolation::Whitespace
            } else {
                BucketNameViolation::ForbiddenCharacter
            };
            return Err(StorageError::InvalidBucketName { name: copy_bytes(name), reason });
        }
        i = i + 1;
    }
    let first = name[0];
    let last = name[name.len() - 1];
    if !((0x61 <= first && first <= 0x7a) || (0x30 <= first && first <= 0x39)) || !((0x61 <= last
        && last <= 0x7a) || (0x30 <= last && last <= 0x39)) {
        return Err(
            StorageError::InvalidBucketName {
                name: copy_bytes(name),
                reason: BucketNameViolation::EdgeNotAlphanumeric,
            },
        );
    }
    let mut pat: Vec<u8> = Vec::new();
    pat.push(0x2e);
    pat.push(0x2e);
    proof {
        assert(pat@ =~= seq![0x2eu8, 0x2eu8]);
    }
    if contains_sub(name, pat.as_slice()) {
        return Err(
            StorageError::InvalidBucketName {
                name: copy_bytes(name),
                reason: BucketNameViolation::AdjacentDotPattern,
            },
        );
    }
    let mut pat2: Vec<u8> = Vec::new();
    pat2.push(0x2e);
    pat2.push(0x2d);
    proof {
        assert(pat2@ =~= seq![0x2eu8, 0x2du8]);
    }
    if contains_sub(name, pat2.as_slice()) {
        return Err(
            StorageError::InvalidBucketName {
                name: copy_bytes(name),
                reason: BucketNameViolation::AdjacentDotPattern,
            },
        );
    }
    let mut pat3: Vec<u8> = Vec::new();
    pat3.push(0x2d);
    pat3.push(0x2e);
    proof {
        assert(pat3@ =~= seq![0x2du8, 0x2eu8]);
    }
    if contains_sub(name, pat3.as_slice()) {
        return Err(
            StorageError::InvalidBucketName {
                name: copy_bytes(name),
                reason: BucketNameViolation::AdjacentDotPattern,
            },
        );
    }
    if is_ipv4_like(name) {
        return Err(
            StorageError::InvalidBucketName {
                name: copy_bytes(name),
                reason: BucketNameViolation::Ipv4Shaped,
            },
        );
    }
    Ok(())
}

} // verus!

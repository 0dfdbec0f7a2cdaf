//! The path planner: the two-level sharded on-disk layout.
//!
//! A payload lives at `base/bucket/shard-a/shard-b/key`, where the two
//! shards are the first two bytes of `MD5(bucket || "/" || key)` rendered
//! as lowercase two-digit hex. The planner is pure: it computes paths as
//! byte strings and never touches the filesystem.

use vstd::prelude::*;
use crate::bytes::append_bytes;
use crate::bytes::ascii_bytes;
use crate::bytes::ascii_lit;
use crate::bytes::copy_bytes;
use crate::bytes::copy_range;
use crate::bytes::is_prefix;
use crate::bytes::starts_with_bytes;
use crate::digest::hex_of;
use crate::digest::md5_bytes;
use crate::digest::md5_of;

verus! {

/// Two path components joined with a slash.
pub open spec fn join_path(a: Seq<u8>, b: Seq<u8>) -> Seq<u8> {
    a + seq![0x2fu8] + b
}

/// The bytes the shards are derived from: `bucket/key`.
pub open spec fn shard_source(bucket: Seq<u8>, key: Seq<u8>) -> Seq<u8> {
    join_path(bucket, key)
}

/// The first shard: hex of byte 0 of the digest.
pub open spec fn shard_a(bucket: Seq<u8>, key: Seq<u8>) -> Seq<u8> {
    hex_of(seq![md5_of(shard_source(bucket, key))[0]])
}

/// The second shard: hex of byte 1 of the digest.
pub open spec fn shard_b(bucket: Seq<u8>, key: Seq<u8>) -> Seq<u8> {
    hex_of(seq![md5_of(shard_source(bucket, key))[1]])
}

/// The directory a bucket's payloads live under.
pub open spec fn bucket_root_path(base: Seq<u8>, bucket: Seq<u8>) -> Seq<u8> {
    join_path(base, bucket)
}

/// The full payload path of an object.
pub open spec fn object_path_of(base: Seq<u8>, bucket: Seq<u8>, key: Seq<u8>) -> Seq<u8> {
    join_path(
        join_path(join_path(bucket_root_path(base, bucket), shard_a(bucket, key)), shard_b(bucket, key)),
        key,
    )
}

/// Join two path components with a slash.
pub fn join_components(a: &[u8], b: &[u8]) -> (r: Vec<u8>)
    ensures
        r@ == join_path(a@, b@),
{
    let mut out = copy_bytes(a);
    out.push(0x2f);
    proof {
        assert(out@ =~= a@ + seq![0x2fu8]);
    }
    append_bytes(&mut out, b);
    out
}

/// Compute the two shard components for an object.
pub fn object_shards(bucket: &[u8], key: &[u8]) -> (r: (Vec<u8>, Vec<u8>))
    ensures
        r.0@ == shard_a(bucket@, key@),
        r.1@ == shard_b(bucket@, key@),
{
    let source = join_components(bucket, key);
    let digest = md5_bytes(source.as_slice());
    let first = copy_range(digest.as_slice(), 0, 1);
    let second = copy_range(digest.as_slice(), 1, 2);
    proof {
        assert(first@ =~= seq![md5_of(shard_source(bucket@, key@))[0]]);
        assert(second@ =~= seq![md5_of(shard_source(bucket@, key@))[1]]);
    }
    let a = crate::digest::to_hex(first.as_slice());
    let b = crate::digest::to_hex(second.as_slice());
    (a, b)
}

/// Compute the physical base folder of a bucket.
pub fn bucket_root(base: &[u8], bucket: &[u8]) -> (r: Vec<u8>)
    ensures
        r@ == bucket_root_path(base@, bucket@),
{
    join_components(base, bucket)
}

/// Compute the full payload path of an object.
pub fn object_path(base: &[u8], bucket: &[u8], key: &[u8]) -> (r: Vec<u8>)
    ensures
        r@ == object_path_of(base@, bucket@, key@),
{
    let (a, b) = object_shards(bucket, key);
    let root = bucket_root(base, bucket);
    let with_a = join_components(root.as_slice(), a.as_slice());
    let with_b = join_components(with_a.as_slice(), b.as_slice());
    join_components(with_b.as_slice(), key)
}

/// A path holds a slash somewhere.
pub open spec fn has_slash(p: Seq<u8>) -> bool {
    exists|i: int| 0 <= i < p.len() && p[i] == 0x2f
}

/// The position of the last slash of a path.
pub open spec fn last_slash(p: Seq<u8>) -> int {
    choose|i: int|
        0 <= i < p.len() && p[i] == 0x2f && forall|j: int| i < j < p.len() ==> p[j] != 0x2f
}

/// The parent directory of a path: everything before the last slash, or
/// nothing when the path has no slash.
pub open spec fn parent_of(p: Seq<u8>) -> Option<Seq<u8>> {
    if has_slash(p) {
        Some(p.subrange(0, last_slash(p)))
    } else {
        None
    }
}

/// The final path segment: everything after the last slash, or the whole
/// path when it has none.
pub open spec fn last_segment_of(p: Seq<u8>) -> Seq<u8> {
    if has_slash(p) {
        p.subrange(last_slash(p) + 1, p.len() as int)
    } else {
        p
    }
}

/// Scan a path backwards for its last slash.
fn rfind_slash(p: &[u8]) -> (r: Option<usize>)
    ensures
        match r {
            Some(i) => i < p@.len() && has_slash(p@) && i == last_slash(p@),
            None => !has_slash(p@),
        },
{
    let mut i: usize = p.len();
    while i > 0
        invariant
            i <= p@.len(),
            forall|j: int| i <= j < p@.len() ==> p@[j] != 0x2f,
        decreases i,
    {
        i = i - 1;
        if p[i] == 0x2f {
            proof {
                assert(0 <= i < p@.len() && p@[i as int] == 0x2f && forall|j: int|
                    i < j < p@.len() ==> p@[j] != 0x2f);
                let c = last_slash(p@);
                assert(0 <= c < p@.len() && p@[c] == 0x2f && forall|j: int|
                    c < j < p@.len() ==> p@[j] != 0x2f);
                if c < i {
                    assert(p@[i as int] == 0x2f);
                    assert(false);
                }
                if c > i {
                    assert(p@[c] == 0x2f);
                    assert(false);
                }
            }
            return Some(i);
        }
    }
    None
}

/// The parent directory of a path, if it has one.
pub fn parent_dir(p: &[u8]) -> (r: Option<Vec<u8>>)
    ensures
        match r {
            Some(d) => parent_of(p@) == Some(d@),
            None => parent_of(p@) is None,
        },
{
    match rfind_slash(p) {
        Some(i) => Some(copy_range(p, 0, i)),
        None => None,
    }
}

/// The final segment of an object key, used as the stored filename.
pub fn last_segment(p: &[u8]) -> (r: Vec<u8>)
    ensures
        r@ == last_segment_of(p@),
{
    let n = p.len();
    match rfind_slash(p) {
        Some(i) => copy_range(p, i + 1, n),
        None => copy_bytes(p),
    }
}

/// `current` lies strictly below `stop` in the directory tree.
pub open spec fn strictly_under(current: Seq<u8>, stop: Seq<u8>) -> bool {
    is_prefix(stop + seq![0x2fu8], current)
}

/// Decide whether directory pruning may touch `current`: it must lie
/// strictly below the stop directory.
pub fn may_prune(current: &[u8], stop: &[u8]) -> (r: bool)
    ensures
        r == strictly_under(current@, stop@),
{
    let mut bound = copy_bytes(stop);
    bound.push(0x2f);
    proof {
        assert(bound@ =~= stop@ + seq![0x2fu8]);
    }
    starts_with_bytes(current, bound.as_slice())
}

/// The name of the temporary sibling a streamed upload writes into,
/// from a caller-supplied random suffix.
pub fn temp_file_name(rand: &[u8]) -> (r: Vec<u8>)
    ensures
        r@ == ascii_bytes(".tmp-"@) + rand@,
{
    proof {
        reveal_strlit(".tmp-");
    }
    let mut out = ascii_lit(".tmp-");
    append_bytes(&mut out, rand);
    out
}

} // verus!

//! The storage engine over in-memory state.
//!
//! `Store` realizes the engine's eight operations against a model of the
//! two metadata tables and the payload tree: a sequence of buckets, each
//! holding its object rows in strictly ascending key order, each live row
//! paired with its payload bytes. The operational process keeps the same
//! state in its relational store and on disk; this model is where the
//! store's invariants are stated and proved:
//!
//! - every live row's entity tag is the hex MD5 of its payload, and its
//!   size is the payload's length;
//! - bucket names are unique, and each bucket holds at most one row per
//!   key — so at most one live row per `(bucket, key)`.

use vstd::prelude::*;
use crate::bytes::ascii_lit;
use crate::bytes::bytes_eq;
use crate::bytes::bytes_lt;
use crate::bytes::copy_bytes;
use crate::bytes::lemma_lex_asymmetric;
use crate::bytes::lemma_lex_trichotomy;
use crate::bytes::lemma_lex_transitive;
use crate::bytes::lex_lt;
use crate::digest::etag_of;
use crate::digest::md5_hex;
use crate::errors::StorageError;
use crate::naming::ensure_bucket_name_safe;
use crate::naming::ensure_key_safe;
use crate::naming::canonical_region;
use crate::naming::region_allowed;
use crate::naming::valid_bucket_name;
use crate::naming::valid_key;
use crate::bytes::lower_bytes;
use crate::bytes::ascii_bytes;
use crate::listing::ListObjectsParams;
use crate::listing::ListObjectsResult;
use crate::listing::clamp_max_keys;
use crate::listing::clamped;
use crate::listing::delivered_rows;
use crate::listing::grouped_exists;
use crate::listing::has_elem;
use crate::listing::kept;
use crate::listing::sorted_strict;
use crate::records::Bucket;
use crate::records::BucketV;
use crate::records::Object;
use crate::records::ObjectV;
use crate::records::object_views;
use crate::records::build_bucket_record;
use crate::records::build_object_record;
use crate::records::clone_bucket;
use crate::records::clone_object;

verus! {

/// One object row together with its payload bytes.
pub struct StoredObject {
    /// The metadata row.
    pub rec: Object,
    /// The payload; empty once the row is soft-deleted.
    pub payload: Vec<u8>,
}

/// The mathematical view of a stored object.
pub ghost struct StoredObjectV {
    pub rec: ObjectV,
    pub payload: Seq<u8>,
}

impl View for StoredObject {
    type V = StoredObjectV;

    open spec fn view(&self) -> StoredObjectV {
        StoredObjectV { rec: self.rec@, payload: self.payload@ }
    }
}

/// One bucket together with its object rows.
pub struct BucketEntry {
    /// The bucket row.
    pub rec: Bucket,
    /// The bucket's object rows, strictly ascending by key.
    pub objects: Vec<StoredObject>,
}

/// The mathematical view of a bucket entry.
pub ghost struct BucketEntryV {
    pub rec: BucketV,
    pub objects: Seq<StoredObjectV>,
}

impl View for BucketEntry {
    type V = BucketEntryV;

    open spec fn view(&self) -> BucketEntryV {
        BucketEntryV { rec: self.rec@, objects: self.objects@.map_values(|o: StoredObject| o@) }
    }
}

/// The views of a row sequence.
pub open spec fn stored_views(rows: Seq<StoredObject>) -> Seq<StoredObjectV> {
    rows.map_values(|o: StoredObject| o@)
}

/// A live row agrees with its payload: the tag is the payload's hex MD5
/// and the size its length; a deleted row keeps no payload.
pub open spec fn row_consistent(o: StoredObjectV) -> bool {
    if o.rec.is_deleted {
        o.payload.len() == 0
    } else {
        o.rec.etag == etag_of(o.payload) && o.rec.size_bytes == o.payload.len()
    }
}

/// The rows of one bucket are well-formed: each row belongs to the
/// bucket, rows ascend strictly by key, and each agrees with its payload.
pub open spec fn entry_wf(e: BucketEntryV) -> bool {
    &&& e.rec.wf()
    &&& forall|i: int|
        0 <= i < e.objects.len() ==> (#[trigger] e.objects[i]).rec.wf()
            && e.objects[i].rec.bucket_id == e.rec.id && row_consistent(e.objects[i])
    &&& forall|i: int, j: int|
        0 <= i < j < e.objects.len() ==> lex_lt(
            (#[trigger] e.objects[i]).rec.key,
            (#[trigger] e.objects[j]).rec.key,
        )
}

/// The whole store is well-formed: bucket names and identifiers are
/// unique and every bucket is well-formed.
pub open spec fn store_wf(s: Seq<BucketEntryV>) -> bool {
    &&& forall|i: int, j: int|
        0 <= i < j < s.len() ==> (#[trigger] s[i]).rec.name != (#[trigger] s[j]).rec.name
    &&& forall|i: int, j: int|
        0 <= i < j < s.len() ==> (#[trigger] s[i]).rec.id != (#[trigger] s[j]).rec.id
    &&& forall|i: int| 0 <= i < s.len() ==> entry_wf(#[trigger] s[i])
}

/// The store holds a bucket of this name.
pub open spec fn has_bucket(s: Seq<BucketEntryV>, name: Seq<u8>) -> bool {
    exists|i: int| 0 <= i < s.len() && (#[trigger] s[i]).rec.name == name
}

/// The index of the bucket of this name.
pub open spec fn bucket_idx(s: Seq<BucketEntryV>, name: Seq<u8>) -> int {
    choose|i: int| 0 <= i < s.len() && (#[trigger] s[i]).rec.name == name
}

/// The rows hold this key.
pub open spec fn has_key(objs: Seq<StoredObjectV>, key: Seq<u8>) -> bool {
    exists|i: int| 0 <= i < objs.len() && (#[trigger] objs[i]).rec.key == key
}

/// The index of the row of this key.
pub open spec fn key_idx(objs: Seq<StoredObjectV>, key: Seq<u8>) -> int {
    choose|i: int| 0 <= i < objs.len() && (#[trigger] objs[i]).rec.key == key
}

/// The rows hold a live row of this key.
pub open spec fn has_live_key(objs: Seq<StoredObjectV>, key: Seq<u8>) -> bool {
    has_key(objs, key) && !objs[key_idx(objs, key)].rec.is_deleted
}

/// The live row of a key in a bucket, with its payload.
pub open spec fn live_lookup(s: Seq<BucketEntryV>, bucket: Seq<u8>, key: Seq<u8>) -> Option<
    StoredObjectV,
> {
    if has_bucket(s, bucket) {
        let objs = s[bucket_idx(s, bucket)].objects;
        if has_live_key(objs, key) {
            Some(objs[key_idx(objs, key)])
        } else {
            None
        }
    } else {
        None
    }
}

/// Rows in strictly ascending key order.
pub open spec fn sorted_rows(objs: Seq<StoredObjectV>) -> bool {
    forall|i: int, j: int|
        0 <= i < j < objs.len() ==> lex_lt(
            (#[trigger] objs[i]).rec.key,
            (#[trigger] objs[j]).rec.key,
        )
}

/// A row survives the listing filters: live, under the prefix, past the
/// cursor.
pub open spec fn row_matches(o: StoredObjectV, prefix: Option<Seq<u8>>, cursor: Option<
    Seq<u8>,
>) -> bool {
    &&& !o.rec.is_deleted
    &&& match prefix {
        Some(p) => crate::bytes::is_prefix(p, o.rec.key),
        None => true,
    }
    &&& match cursor {
        Some(c) => lex_lt(c, o.rec.key),
        None => true,
    }
}

/// The rows a listing draws from: the live rows under the prefix and past
/// the cursor, in their stored (ascending) order.
pub open spec fn matching_rows(
    objs: Seq<StoredObjectV>,
    prefix: Option<Seq<u8>>,
    cursor: Option<Seq<u8>>,
) -> Seq<ObjectV> {
    objs.filter(|o: StoredObjectV| row_matches(o, prefix, cursor)).map_values(
        |o: StoredObjectV| o.rec,
    )
}

/// Object rows in strictly ascending key order.
pub open spec fn recs_sorted(m: Seq<ObjectV>) -> bool {
    forall|i: int, j: int|
        0 <= i < j < m.len() ==> lex_lt((#[trigger] m[i]).key, (#[trigger] m[j]).key)
}

/// What a listing draws from sorted rows is sorted, and each drawn row is
/// one of the stored rows and passes the filters.
pub proof fn lemma_matching_rows(
    objs: Seq<StoredObjectV>,
    prefix: Option<Seq<u8>>,
    cursor: Option<Seq<u8>>,
)
    requires
        sorted_rows(objs),
    ensures
        recs_sorted(matching_rows(objs, prefix, cursor)),
        forall|k: int|
            0 <= k < matching_rows(objs, prefix, cursor).len() ==> exists|j: int|
                0 <= j < objs.len() && #[trigger] matching_rows(objs, prefix, cursor)[k] == (
                #[trigger] objs[j]).rec && row_matches(objs[j], prefix, cursor),
    decreases objs.len(),
{
    reveal(Seq::filter);
    let m = matching_rows(objs, prefix, cursor);
    if objs.len() == 0 {
    } else {
        let head = objs.drop_last();
        let last = objs.last();
        lemma_matching_rows(head, prefix, cursor);
        let mh = matching_rows(head, prefix, cursor);
        assert(forall|i: int, j: int|
            0 <= i < j < head.len() ==> lex_lt(
                (#[trigger] head[i]).rec.key,
                (#[trigger] head[j]).rec.key,
            ));
        if row_matches(last, prefix, cursor) {
            assert(objs.filter(|o: StoredObjectV| row_matches(o, prefix, cursor)) == head.filter(
                |o: StoredObjectV| row_matches(o, prefix, cursor),
            ).push(last));
            assert(m =~= mh.push(last.rec));
            assert forall|k: int| 0 <= k < m.len() implies exists|j: int|
                0 <= j < objs.len() && #[trigger] m[k] == (#[trigger] objs[j]).rec && row_matches(
                    objs[j],
                    prefix,
                    cursor,
                ) by {
                if k < mh.len() {
                    assert(m[k] == mh[k]);
                    let j = choose|j: int|
                        0 <= j < head.len() && #[trigger] mh[k] == (#[trigger] head[j]).rec
                            && row_matches(head[j], prefix, cursor);
                    assert(objs[j] == head[j]);
                } else {
                    assert(m[k] == last.rec);
                    assert(objs[objs.len() - 1] == last);
                }
            }
            assert forall|i: int, j: int| 0 <= i < j < m.len() implies lex_lt(
                (#[trigger] m[i]).key,
                (#[trigger] m[j]).key,
            ) by {
                if j < mh.len() {
                } else {
                    assert(m[j] == last.rec);
                    let ji = choose|x: int|
                        0 <= x < head.len() && #[trigger] mh[i] == (#[trigger] head[x]).rec
                            && row_matches(head[x], prefix, cursor);
                    assert(lex_lt(head[ji].rec.key, last.rec.key));
                }
            }
        } else {
            assert(m =~= mh);
            assert forall|k: int| 0 <= k < m.len() implies exists|j: int|
                0 <= j < objs.len() && #[trigger] m[k] == (#[trigger] objs[j]).rec && row_matches(
                    objs[j],
                    prefix,
                    cursor,
                ) by {
                let j = choose|j: int|
                    0 <= j < head.len() && #[trigger] mh[k] == (#[trigger] head[j]).rec
                        && row_matches(head[j], prefix, cursor);
                assert(objs[j] == head[j]);
            }
        }
    }
}

/// Every row of `f` is one of the rows of `m` and passes the filter.
pub open spec fn drawn_from(f: Seq<ObjectV>, m: Seq<ObjectV>, pred: spec_fn(ObjectV) -> bool) -> bool {
    forall|k: int| 0 <= k < f.len() ==> m.contains(#[trigger] f[k]) && pred(f[k])
}

/// Filtering keeps a sorted listing sorted, and every kept row is one of
/// the given rows and passes the filter.
pub proof fn lemma_filter_recs(m: Seq<ObjectV>, pred: spec_fn(ObjectV) -> bool)
    requires
        recs_sorted(m),
    ensures
        recs_sorted(m.filter(pred)),
        drawn_from(m.filter(pred), m, pred),
    decreases m.len(),
{
    reveal(Seq::filter);
    if m.len() > 0 {
        let head = m.drop_last();
        let last = m.last();
        assert(forall|i: int, j: int|
            0 <= i < j < head.len() ==> lex_lt((#[trigger] head[i]).key, (#[trigger] head[j]).key));
        lemma_filter_recs(head, pred);
        let fh = head.filter(pred);
        let f = m.filter(pred);
        if pred(last) {
            assert(f == fh.push(last));
            assert forall|k: int| 0 <= k < f.len() implies m.contains(#[trigger] f[k]) && pred(
                f[k],
            ) by {
                assert(drawn_from(fh, head, pred));
                if k < fh.len() {
                    assert(f[k] == fh[k]);
                    assert(head.contains(fh[k]));
                    let j = choose|j: int| 0 <= j < head.len() && head[j] == fh[k];
                    assert(m[j] == head[j]);
                } else {
                    assert(f[k] == last);
                    assert(m[m.len() - 1] == last);
                }
            }
            assert forall|i: int, j: int| 0 <= i < j < f.len() implies lex_lt(
                (#[trigger] f[i]).key,
                (#[trigger] f[j]).key,
            ) by {
                if j < fh.len() {
                } else {
                    assert(f[j] == last);
                    assert(drawn_from(fh, head, pred));
                    assert(head.contains(fh[i]));
                    let ji = choose|x: int| 0 <= x < head.len() && head[x] == fh[i];
                    assert(lex_lt(head[ji].key, last.key));
                }
            }
        } else {
            assert(f == fh);
            assert forall|k: int| 0 <= k < f.len() implies m.contains(#[trigger] f[k]) && pred(
                f[k],
            ) by {
                assert(drawn_from(fh, head, pred));
                assert(head.contains(fh[k]));
                let j = choose|j: int| 0 <= j < head.len() && head[j] == fh[k];
                assert(m[j] == head[j]);
            }
        }
        assert(drawn_from(f, m, pred));
    }
}

/// A filter that keeps every row changes nothing.
pub proof fn lemma_filter_recs_all(m: Seq<ObjectV>, pred: spec_fn(ObjectV) -> bool)
    requires
        forall|i: int| 0 <= i < m.len() ==> pred(#[trigger] m[i]),
    ensures
        m.filter(pred) == m,
    decreases m.len(),
{
    reveal(Seq::filter);
    if m.len() > 0 {
        let head = m.drop_last();
        assert(forall|i: int| 0 <= i < head.len() ==> pred(#[trigger] head[i]));
        lemma_filter_recs_all(head, pred);
        assert(m.filter(pred) =~= m);
    } else {
        assert(m.filter(pred) =~= m);
    }
}

/// The rows after an upsert: the row of that key replaced, or the new row
/// inserted where the order puts it.
pub open spec fn objects_upserted(
    olds: Seq<StoredObjectV>,
    news: Seq<StoredObjectV>,
    row: StoredObjectV,
) -> bool {
    if has_key(olds, row.rec.key) {
        news == olds.update(key_idx(olds, row.rec.key), row)
    } else {
        exists|i: int| 0 <= i <= olds.len() && news == olds.insert(i, row)
    }
}

/// The store: buckets with their rows and payloads.
pub struct Store {
    /// The buckets, in creation order.
    pub buckets: Vec<BucketEntry>,
}

impl View for Store {
    type V = Seq<BucketEntryV>;

    open spec fn view(&self) -> Seq<BucketEntryV> {
        self.buckets@.map_values(|e: BucketEntry| e@)
    }
}

impl Store {
    /// The store's invariant.
    pub open spec fn inv(&self) -> bool {
        store_wf(self@)
    }

    /// An empty store.
    pub fn new() -> (s: Store)
        ensures
            s.inv(),
            s@.len() == 0,
    {
        let s = Store { buckets: Vec::new() };
        proof {
            assert(s@ =~= Seq::<BucketEntryV>::empty());
        }
        s
    }

    /// Find the bucket of a name.
    fn find_bucket(&self, name: &[u8]) -> (r: Option<usize>)
        requires
            self.inv(),
        ensures
            match r {
                Some(i) => i < self@.len() && self@[i as int].rec.name == name@ && has_bucket(
                    self@,
                    name@,
                ) && bucket_idx(self@, name@) == i,
                None => !has_bucket(self@, name@),
            },
    {
        let n = self.buckets.len();
        let mut i: usize = 0;
        while i < n
            invariant
                i <= n,
                n == self@.len(),
                self.inv(),
                self@.len() == self.buckets@.len(),
                forall|j: int| 0 <= j < i ==> (#[trigger] self@[j]).rec.name != name@,
            decreases n - i,
        {
            proof {
                assert(self@[i as int] == self.buckets@[i as int]@);
            }
            if bytes_eq(self.buckets[i].rec.name.as_slice(), name) {
                proof {
                    assert(self@[i as int].rec.name == name@);
                    assert(has_bucket(self@, name@));
                    let c = bucket_idx(self@, name@);
                    assert(0 <= c < self@.len() && self@[c].rec.name == name@);
                    if c < i as int {
                        assert(self@[c].rec.name != self@[i as int].rec.name);
                        assert(false);
                    }
                    if c > i as int {
                        assert(self@[i as int].rec.name != self@[c].rec.name);
                        assert(false);
                    }
                }
                return Some(i);
            }
            i = i + 1;
        }
        None
    }

    /// Create a bucket: validate the name and the region (defaulting to
    /// `local`), refuse a duplicate name, and append the new row.
    ///
    /// The caller supplies the fresh identifiers and the clock reading.
    pub fn create_bucket(
        &mut self,
        name: &[u8],
        region: Option<&[u8]>,
        id: u128,
        owner_id: u128,
        now_ms: i64,
    ) -> (r: Result<Bucket, StorageError>)
        requires
            old(self).inv(),
            forall|i: int| 0 <= i < old(self)@.len() ==> (#[trigger] old(self)@[i]).rec.id != id,
        ensures
            final(self).inv(),
            ({
                let reg = match region {
                    Some(v) => v@,
                    None => ascii_bytes("local"@),
                };
                &&& (r is Ok <==> valid_bucket_name(name@) && region_allowed(reg) && !has_bucket(
                    old(self)@,
                    name@,
                ))
                &&& (r matches Err(StorageError::InvalidBucketName { .. }) <==> !valid_bucket_name(
                    name@,
                ))
                &&& (r matches Err(StorageError::UnsupportedRegion(_)) <==> valid_bucket_name(name@)
                    && !region_allowed(reg))
                &&& (r matches Err(StorageError::BucketAlreadyExists(_)) <==> valid_bucket_name(
                    name@,
                ) && region_allowed(reg) && has_bucket(old(self)@, name@))
                &&& (r is Err ==> final(self)@ == old(self)@)
                &&& (r matches Ok(b) ==> {
                    &&& b@.id == id
                    &&& b@.name == name@
                    &&& b@.owner_id == owner_id
                    &&& b@.region == lower_bytes(reg)
                    &&& b@.created_at_ms == now_ms
                    &&& !b@.versioning_enabled
                    &&& final(self)@ == old(self)@.push(
                        BucketEntryV { rec: b@, objects: Seq::empty() },
                    )
                })
            }),
    {
        if let Err(e) = ensure_bucket_name_safe(name) {
            return Err(e);
        }
        let reg_bytes: Vec<u8> = match region {
            Some(v) => copy_bytes(v),
            None => {
                proof {
                    reveal_strlit("local");
                }
                ascii_lit("local")
            },
        };
        let normalized = match canonical_region(reg_bytes.as_slice()) {
            Ok(v) => v,
            Err(_) => {
                return Err(StorageError::UnsupportedRegion(reg_bytes));
            },
        };
        if self.find_bucket(name).is_some() {
            return Err(StorageError::BucketAlreadyExists(copy_bytes(name)));
        }
        proof {
            crate::naming::lemma_lower_idempotent(reg_bytes@);
        }
        let rec = build_bucket_record(id, name, owner_id, normalized, now_ms);
        let ghost b = rec@;
        let entry = BucketEntry { rec, objects: Vec::new() };
        proof {
            assert(entry@.objects =~= Seq::<StoredObjectV>::empty());
        }
        self.buckets.push(entry);
        proof {
            assert(self@ =~= old(self)@.push(BucketEntryV { rec: b, objects: Seq::empty() }));
            assert forall|i: int| 0 <= i < self@.len() implies entry_wf(#[trigger] self@[i]) by {
                if i < old(self)@.len() {
                    assert(self@[i] == old(self)@[i]);
                }
            }
            assert forall|i: int, j: int| 0 <= i < j < self@.len() implies (
            #[trigger] self@[i]).rec.name != (#[trigger] self@[j]).rec.name by {
                if j == self@.len() - 1 {
                    assert(!has_bucket(old(self)@, name@));
                    assert(self@[i] == old(self)@[i]);
                }
            }
            assert forall|i: int, j: int| 0 <= i < j < self@.len() implies (
            #[trigger] self@[i]).rec.id != (#[trigger] self@[j]).rec.id by {
                if j == self@.len() - 1 {
                    assert(self@[i] == old(self)@[i]);
                }
            }
        }
        Ok(clone_bucket(&self.buckets[self.buckets.len() - 1].rec))
    }

    /// Delete a bucket: validate the name, refuse an unknown one, and
    /// remove the row. The bucket's objects and payloads go with it, as
    /// the recursive removal of the bucket directory takes the payload
    /// tree.
    pub fn delete_bucket(&mut self, name: &[u8]) -> (r: Result<(), StorageError>)
        requires
            old(self).inv(),
        ensures
            final(self).inv(),
            r is Ok <==> valid_bucket_name(name@) && has_bucket(old(self)@, name@),
            r matches Err(StorageError::InvalidBucketName { .. }) <==> !valid_bucket_name(name@),
            r matches Err(StorageError::BucketNotFound(_)) <==> valid_bucket_name(name@)
                && !has_bucket(old(self)@, name@),
            r is Err ==> final(self)@ == old(self)@,
            r is Ok ==> final(self)@ == old(self)@.remove(bucket_idx(old(self)@, name@)),
    {
        if let Err(e) = ensure_bucket_name_safe(name) {
            return Err(e);
        }
        let idx = match self.find_bucket(name) {
            Some(i) => i,
            None => {
                return Err(StorageError::BucketNotFound(copy_bytes(name)));
            },
        };
        let ghost before = self@;
        self.buckets.remove(idx);
        proof {
            assert(self@ =~= before.remove(idx as int));
            before.remove_ensures(idx as int);
            assert forall|i: int| 0 <= i < self@.len() implies entry_wf(#[trigger] self@[i]) by {
                if i < idx {
                    assert(self@[i] == before[i]);
                } else {
                    assert(self@[i] == before[i + 1]);
                }
            }
            assert forall|i: int, j: int| 0 <= i < j < self@.len() implies (
            #[trigger] self@[i]).rec.name != (#[trigger] self@[j]).rec.name && self@[i].rec.id
                != self@[j].rec.id by {
                let i0 = if i < idx {
                    i
                } else {
                    i + 1
                };
                let j0 = if j < idx {
                    j
                } else {
                    j + 1
                };
                assert(self@[i] == before[i0]);
                assert(self@[j] == before[j0]);
            }
        }
        Ok(())
    }

    /// Upload an object: validate the key, resolve the bucket, digest the
    /// payload, and upsert the row — a fresh row for a new key, or the
    /// existing row overwritten (keeping its identifier) with the
    /// soft-delete flag cleared.
    ///
    /// The caller supplies the fresh row identifier and the clock reading.
    #[verifier::rlimit(100)]
    pub fn upload_object(
        &mut self,
        bucket: &[u8],
        key: &[u8],
        content_type: Option<Vec<u8>>,
        payload: Vec<u8>,
        id: u128,
        now_ms: i64,
    ) -> (r: Result<Object, StorageError>)
        requires
            old(self).inv(),
        ensures
            final(self).inv(),
            r is Ok <==> valid_key(key@) && valid_bucket_name(bucket@) && has_bucket(
                old(self)@,
                bucket@,
            ),
            r matches Err(StorageError::InvalidObjectKey) <==> !valid_key(key@),
            r matches Err(StorageError::InvalidBucketName { .. }) <==> valid_key(key@)
                && !valid_bucket_name(bucket@),
            r matches Err(StorageError::BucketNotFound(_)) <==> valid_key(key@)
                && valid_bucket_name(bucket@) && !has_bucket(old(self)@, bucket@),
            r is Err ==> final(self)@ == old(self)@,
            r matches Ok(rec) ==> ({
                let bi = bucket_idx(old(self)@, bucket@);
                let olds = old(self)@[bi].objects;
                &&& rec@.key == key@
                &&& rec@.bucket_id == old(self)@[bi].rec.id
                &&& rec@.etag == etag_of(payload@)
                &&& rec@.size_bytes == payload@.len()
                &&& rec@.last_modified_ms == now_ms
                &&& rec@.content_type == (match content_type {
                    Some(v) => Some(v@),
                    None => None::<Seq<u8>>,
                })
                &&& !rec@.is_deleted
                &&& rec@.wf()
                &&& rec@.id == (if has_key(olds, key@) {
                    olds[key_idx(olds, key@)].rec.id
                } else {
                    id
                })
                &&& final(self)@.len() == old(self)@.len()
                &&& (forall|j: int|
                    0 <= j < old(self)@.len() && j != bi ==> final(self)@[j] == old(self)@[j])
                &&& final(self)@[bi].rec == old(self)@[bi].rec
                &&& objects_upserted(
                    olds,
                    final(self)@[bi].objects,
                    StoredObjectV { rec: rec@, payload: payload@ },
                )
                &&& live_lookup(final(self)@, bucket@, key@) == Some(
                    StoredObjectV { rec: rec@, payload: payload@ },
                )
            }),
    {
        if let Err(e) = ensure_key_safe(key) {
            return Err(e);
        }
        if let Err(e) = ensure_bucket_name_safe(bucket) {
            return Err(e);
        }
        let bi = match self.find_bucket(bucket) {
            Some(i) => i,
            None => {
                return Err(StorageError::BucketNotFound(copy_bytes(bucket)));
            },
        };
        let etag = md5_hex(payload.as_slice());
        let size = payload.len() as u64;
        let mut entry = self.buckets.remove(bi);
        let ghost olds = entry@.objects;
        let bucket_id = entry.rec.id;
        let idx = lower_bound_key(&entry.objects, key);
        proof {
            lemma_key_position(olds, key@, idx as int);
        }
        let found = idx < entry.objects.len() && bytes_eq(
            entry.objects[idx].rec.key.as_slice(),
            key,
        );
        let row_id = if found {
            proof {
                assert(stored_views(entry.objects@)[idx as int] == entry.objects@[idx as int]@);
            }
            entry.objects[idx].rec.id
        } else {
            id
        };
        let rec = build_object_record(row_id, bucket_id, key, content_type, size, etag, now_ms);
        let result = clone_object(&rec);
        let stored = StoredObject { rec, payload };
        let ghost row = stored@;
        if found {
            entry.objects.remove(idx);
            proof {
                olds.remove_ensures(idx as int);
                olds.remove(idx as int).insert_ensures(idx as int, row);
            }
            entry.objects.insert(idx, stored);
            proof {
                assert(stored_views(entry.objects@) =~= olds.update(idx as int, row));
            }
        } else {
            proof {
                olds.insert_ensures(idx as int, row);
            }
            entry.objects.insert(idx, stored);
            proof {
                assert(stored_views(entry.objects@) =~= olds.insert(idx as int, row));
            }
        }
        let ghost news = stored_views(entry.objects@);
        proof {
            assert(entry@.objects == news);
            assert(objects_upserted(olds, news, row));
            assert forall|i: int, j: int| 0 <= i < j < news.len() implies lex_lt(
                (#[trigger] news[i]).rec.key,
                (#[trigger] news[j]).rec.key,
            ) by {
                if found {
                    assert(olds[idx as int].rec.key == key@);
                    assert(news[i].rec.key == olds[i].rec.key);
                    assert(news[j].rec.key == olds[j].rec.key);
                } else {
                    let i0 = if i < idx {
                        i
                    } else {
                        i - 1
                    };
                    let j0 = if j < idx {
                        j
                    } else {
                        j - 1
                    };
                    if i == idx {
                        assert(news[j].rec.key == olds[j0].rec.key);
                        assert(j0 >= idx);
                        lemma_lex_trichotomy(key@, olds[j0].rec.key);
                        if olds[j0].rec.key == key@ {
                            assert(has_key(olds, key@));
                            assert(false);
                        }
                        if lex_lt(olds[j0].rec.key, key@) {
                            if j0 == idx {
                                assert(false);
                            } else {
                                assert(lex_lt(olds[idx as int].rec.key, olds[j0].rec.key));
                                lemma_lex_transitive(
                                    olds[idx as int].rec.key,
                                    olds[j0].rec.key,
                                    key@,
                                );
                                assert(false);
                            }
                        }
                        assert(lex_lt(key@, olds[j0].rec.key));
                    } else if j == idx {
                        assert(news[i].rec.key == olds[i0].rec.key);
                        assert(lex_lt(olds[i0].rec.key, key@));
                    } else {
                        assert(news[i].rec.key == olds[i0].rec.key);
                        assert(news[j].rec.key == olds[j0].rec.key);
                    }
                }
            }
        }
        self.buckets.insert(bi, entry);
        proof {
            assert(self@ =~= old(self)@.update(bi as int, entry@));
            assert forall|i: int| 0 <= i < self@.len() implies entry_wf(#[trigger] self@[i]) by {
                if i != bi {
                    assert(self@[i] == old(self)@[i]);
                } else {
                    assert(self@[i].rec == old(self)@[i].rec);
                    assert forall|k: int| 0 <= k < news.len() implies (
                    #[trigger] news[k]).rec.wf() && news[k].rec.bucket_id == self@[i].rec.id
                        && row_consistent(news[k]) by {
                        if found {
                            if k != idx {
                                assert(news[k] == olds[k]);
                            }
                        } else {
                            if k < idx {
                                assert(news[k] == olds[k]);
                            } else if k > idx {
                                assert(news[k] == olds[k - 1]);
                            }
                        }
                    }
                }
            }
            assert forall|i: int, j: int| 0 <= i < j < self@.len() implies (
            #[trigger] self@[i]).rec.name != (#[trigger] self@[j]).rec.name && self@[i].rec.id
                != self@[j].rec.id by {
                assert(self@[i].rec == old(self)@[i].rec);
                assert(self@[j].rec == old(self)@[j].rec);
            }
            assert(has_bucket(self@, bucket@) && bucket_idx(self@, bucket@) == bi as int) by {
                assert(self@[bi as int].rec.name == bucket@);
                let c = bucket_idx(self@, bucket@);
                if c != bi as int {
                    assert(self@[c].rec.name == bucket@);
                    assert(false);
                }
            }
            assert(has_key(news, key@) && key_idx(news, key@) == idx as int) by {
                assert(news[idx as int].rec.key == key@);
                let c = key_idx(news, key@);
                if c < idx as int {
                    lemma_lex_asymmetric(key@, key@);
                    assert(false);
                }
                if c > idx as int {
                    lemma_lex_asymmetric(key@, key@);
                    assert(false);
                }
            }
            assert(live_lookup(self@, bucket@, key@) == Some(row));
        }
        Ok(result)
    }

    /// Find the live row of a key in a bucket entry.
    fn find_live(entry: &BucketEntry, key: &[u8]) -> (r: Option<usize>)
        requires
            sorted_rows(entry@.objects),
        ensures
            match r {
                Some(i) => i < entry@.objects.len() && has_live_key(entry@.objects, key@)
                    && key_idx(entry@.objects, key@) == i,
                None => !has_live_key(entry@.objects, key@),
            },
    {
        let idx = lower_bound_key(&entry.objects, key);
        proof {
            lemma_key_position(entry@.objects, key@, idx as int);
            assert(entry@.objects == stored_views(entry.objects@));
        }
        if idx < entry.objects.len() {
            proof {
                assert(entry@.objects[idx as int] == entry.objects@[idx as int]@);
            }
            if bytes_eq(entry.objects[idx].rec.key.as_slice(), key) {
                if !entry.objects[idx].rec.is_deleted {
                    return Some(idx);
                } else {
                    return None;
                }
            }
        }
        None
    }

    /// Fetch the live metadata row of an object, or say why there is
    /// none.
    pub fn get_object_metadata(&self, bucket: &[u8], key: &[u8]) -> (r: Result<
        Object,
        StorageError,
    >)
        requires
            self.inv(),
        ensures
            r is Ok <==> valid_key(key@) && valid_bucket_name(bucket@) && live_lookup(
                self@,
                bucket@,
                key@,
            ) is Some,
            r matches Err(StorageError::InvalidObjectKey) <==> !valid_key(key@),
            r matches Err(StorageError::InvalidBucketName { .. }) <==> valid_key(key@)
                && !valid_bucket_name(bucket@),
            r matches Err(StorageError::BucketNotFound(_)) <==> valid_key(key@)
                && valid_bucket_name(bucket@) && !has_bucket(self@, bucket@),
            r matches Err(StorageError::ObjectNotFound { .. }) <==> valid_key(key@)
                && valid_bucket_name(bucket@) && has_bucket(self@, bucket@) && live_lookup(
                self@,
                bucket@,
                key@,
            ) is None,
            r matches Ok(o) ==> Some(o@) == Some(live_lookup(self@, bucket@, key@)->0.rec),
    {
        if let Err(e) = ensure_key_safe(key) {
            return Err(e);
        }
        if let Err(e) = ensure_bucket_name_safe(bucket) {
            return Err(e);
        }
        let bi = match self.find_bucket(bucket) {
            Some(i) => i,
            None => {
                return Err(StorageError::BucketNotFound(copy_bytes(bucket)));
            },
        };
        proof {
            assert(self@[bi as int] == self.buckets@[bi as int]@);
        }
        let entry = &self.buckets[bi];
        match Self::find_live(entry, key) {
            Some(i) => Ok(clone_object(&entry.objects[i].rec)),
            None => Err(
                StorageError::ObjectNotFound { bucket: copy_bytes(bucket), key: copy_bytes(key) },
            ),
        }
    }

    /// Fetch the live row of an object together with its payload bytes.
    pub fn get_object(&self, bucket: &[u8], key: &[u8]) -> (r: Result<
        (Object, Vec<u8>),
        StorageError,
    >)
        requires
            self.inv(),
        ensures
            r is Ok <==> valid_key(key@) && valid_bucket_name(bucket@) && live_lookup(
                self@,
                bucket@,
                key@,
            ) is Some,
            r matches Err(StorageError::InvalidObjectKey) <==> !valid_key(key@),
            r matches Err(StorageError::InvalidBucketName { .. }) <==> valid_key(key@)
                && !valid_bucket_name(bucket@),
            r matches Err(StorageError::BucketNotFound(_)) <==> valid_key(key@)
                && valid_bucket_name(bucket@) && !has_bucket(self@, bucket@),
            r matches Err(StorageError::ObjectNotFound { .. }) <==> valid_key(key@)
                && valid_bucket_name(bucket@) && has_bucket(self@, bucket@) && live_lookup(
                self@,
                bucket@,
                key@,
            ) is None,
            r matches Ok(p) ==> live_lookup(self@, bucket@, key@) == Some(
                StoredObjectV { rec: p.0@, payload: p.1@ },
            ),
    {
        if let Err(e) = ensure_key_safe(key) {
            return Err(e);
        }
        if let Err(e) = ensure_bucket_name_safe(bucket) {
            return Err(e);
        }
        let bi = match self.find_bucket(bucket) {
            Some(i) => i,
            None => {
                return Err(StorageError::BucketNotFound(copy_bytes(bucket)));
            },
        };
        proof {
            assert(self@[bi as int] == self.buckets@[bi as int]@);
        }
        let entry = &self.buckets[bi];
        match Self::find_live(entry, key) {
            Some(i) => {
                proof {
                    assert(entry@.objects[i as int] == entry.objects@[i as int]@);
                }
                let rec = clone_object(&entry.objects[i].rec);
                let payload = copy_bytes(entry.objects[i].payload.as_slice());
                Ok((rec, payload))
            },
            None => Err(
                StorageError::ObjectNotFound { bucket: copy_bytes(bucket), key: copy_bytes(key) },
            ),
        }
    }

    /// Soft-delete an object: mark its row deleted, drop the payload, and
    /// return the row as it was before the call. A second delete of the
    /// same key finds no live row.
    #[verifier::rlimit(50)]
    pub fn delete_object(&mut self, bucket: &[u8], key: &[u8]) -> (r: Result<Object, StorageError>)
        requires
            old(self).inv(),
        ensures
            final(self).inv(),
            r is Ok <==> valid_key(key@) && valid_bucket_name(bucket@) && live_lookup(
                old(self)@,
                bucket@,
                key@,
            ) is Some,
            r matches Err(StorageError::InvalidObjectKey) <==> !valid_key(key@),
            r matches Err(StorageError::InvalidBucketName { .. }) <==> valid_key(key@)
                && !valid_bucket_name(bucket@),
            r matches Err(StorageError::BucketNotFound(_)) <==> valid_key(key@)
                && valid_bucket_name(bucket@) && !has_bucket(old(self)@, bucket@),
            r matches Err(StorageError::ObjectNotFound { .. }) <==> valid_key(key@)
                && valid_bucket_name(bucket@) && has_bucket(old(self)@, bucket@) && live_lookup(
                old(self)@,
                bucket@,
                key@,
            ) is None,
            r is Err ==> final(self)@ == old(self)@,
            r matches Ok(o) ==> ({
                let bi = bucket_idx(old(self)@, bucket@);
                let olds = old(self)@[bi].objects;
                let i = key_idx(olds, key@);
                &&& Some(o@) == Some(live_lookup(old(self)@, bucket@, key@)->0.rec)
                &&& !o@.is_deleted
                &&& final(self)@.len() == old(self)@.len()
                &&& (forall|j: int|
                    0 <= j < old(self)@.len() && j != bi ==> final(self)@[j] == old(self)@[j])
                &&& final(self)@[bi].rec == old(self)@[bi].rec
                &&& final(self)@[bi].objects == olds.update(
                    i,
                    StoredObjectV {
                        rec: ObjectV { is_deleted: true, ..o@ },
                        payload: Seq::empty(),
                    },
                )
                &&& live_lookup(final(self)@, bucket@, key@) is None
            }),
    {
        if let Err(e) = ensure_key_safe(key) {
            return Err(e);
        }
        if let Err(e) = ensure_bucket_name_safe(bucket) {
            return Err(e);
        }
        let bi = match self.find_bucket(bucket) {
            Some(i) => i,
            None => {
                return Err(StorageError::BucketNotFound(copy_bytes(bucket)));
            },
        };
        let mut entry = self.buckets.remove(bi);
        let ghost olds = entry@.objects;
        let idx = match Self::find_live(&entry, key) {
            Some(i) => i,
            None => {
                self.buckets.insert(bi, entry);
                proof {
                    assert(self@ =~= old(self)@);
                }
                return Err(
                    StorageError::ObjectNotFound {
                        bucket: copy_bytes(bucket),
                        key: copy_bytes(key),
                    },
                );
            },
        };
        let removed = entry.objects.remove(idx);
        let result = removed.rec;
        let mut dead = clone_object(&result);
        dead.is_deleted = true;
        let stored = StoredObject { rec: dead, payload: Vec::new() };
        let ghost row = stored@;
        proof {
            olds.remove_ensures(idx as int);
            olds.remove(idx as int).insert_ensures(idx as int, row);
        }
        entry.objects.insert(idx, stored);
        proof {
            assert(stored_views(entry.objects@) =~= olds.update(idx as int, row));
        }
        let ghost news = stored_views(entry.objects@);
        self.buckets.insert(bi, entry);
        proof {
            assert(self@ =~= old(self)@.update(bi as int, entry@));
            assert(row.rec == ObjectV { is_deleted: true, ..result@ });
            assert forall|i: int, j: int| 0 <= i < j < news.len() implies lex_lt(
                (#[trigger] news[i]).rec.key,
                (#[trigger] news[j]).rec.key,
            ) by {
                assert(news[i].rec.key == olds[i].rec.key);
                assert(news[j].rec.key == olds[j].rec.key);
            }
            assert forall|i: int| 0 <= i < self@.len() implies entry_wf(#[trigger] self@[i]) by {
                if i != bi {
                    assert(self@[i] == old(self)@[i]);
                } else {
                    assert forall|k: int| 0 <= k < news.len() implies (
                    #[trigger] news[k]).rec.wf() && news[k].rec.bucket_id == self@[i].rec.id
                        && row_consistent(news[k]) by {
                        if k != idx {
                            assert(news[k] == olds[k]);
                        }
                    }
                }
            }
            assert forall|i: int, j: int| 0 <= i < j < self@.len() implies (
            #[trigger] self@[i]).rec.name != (#[trigger] self@[j]).rec.name && self@[i].rec.id
                != self@[j].rec.id by {
                assert(self@[i].rec == old(self)@[i].rec);
                assert(self@[j].rec == old(self)@[j].rec);
            }
            assert(has_bucket(self@, bucket@) && bucket_idx(self@, bucket@) == bi as int) by {
                assert(self@[bi as int].rec.name == bucket@);
                let c = bucket_idx(self@, bucket@);
                if c != bi as int {
                    assert(self@[c].rec.name == bucket@);
                    assert(false);
                }
            }
            assert(has_key(news, key@) && key_idx(news, key@) == key_idx(olds, key@)) by {
                let i0 = key_idx(olds, key@);
                assert(news[i0].rec.key == key@);
                let c = key_idx(news, key@);
                assert(news[c].rec.key == key@);
                if c != i0 {
                    if c < i0 {
                        assert(lex_lt(news[c].rec.key, news[i0].rec.key));
                    } else {
                        assert(lex_lt(news[i0].rec.key, news[c].rec.key));
                    }
                    lemma_lex_asymmetric(key@, key@);
                    assert(false);
                }
            }
            assert(live_lookup(self@, bucket@, key@) is None);
        }
        Ok(result)
    }

    /// List one page of a bucket's objects, ListObjectsV2 style: resolve
    /// the bucket, draw up to `max_keys + 1` matching live rows in key
    /// order, and assemble the page — truncation, continuation token,
    /// delimiter grouping and key count.
    pub fn list_objects_v2(&self, bucket: &[u8], params: ListObjectsParams) -> (r: Result<
        ListObjectsResult,
        StorageError,
    >)
        requires
            self.inv(),
        ensures
            r is Ok <==> valid_bucket_name(bucket@) && has_bucket(self@, bucket@),
            r matches Err(StorageError::InvalidBucketName { .. }) <==> !valid_bucket_name(bucket@),
            r matches Err(StorageError::BucketNotFound(_)) <==> valid_bucket_name(bucket@)
                && !has_bucket(self@, bucket@),
            r matches Ok(page) ==> ({
                let objs = self@[bucket_idx(self@, bucket@)].objects;
                let max = clamped(params.max_keys as int);
                let m = matching_rows(
                    objs,
                    ListObjectsParams::opt_view(params.prefix),
                    params.cursor_spec(),
                );
                let delivered = if m.len() > max {
                    m.take(max)
                } else {
                    m
                };
                &&& page.is_truncated == (m.len() > max)
                &&& object_views(page.objects@) == delivered.filter(
                    |o: ObjectV| kept(o, params.prefix_spec(), params.delim_spec()),
                )
                &&& (page.is_truncated ==> match page.next_continuation_token {
                    Some(t) => t@ == delivered.last().key,
                    None => false,
                })
                &&& (!page.is_truncated ==> page.next_continuation_token is None)
                &&& sorted_strict(page.common_prefixes@)
                &&& (forall|c: Seq<u8>|
                    has_elem(page.common_prefixes@, c) <==> grouped_exists(
                        delivered,
                        params.prefix_spec(),
                        params.delim_spec(),
                        c,
                    ))
                &&& page.key_count == page.objects@.len() + page.common_prefixes@.len()
                &&& recs_sorted(object_views(page.objects@))
                &&& (!page.is_truncated && params.prefix is None && params.delimiter is None
                    && params.continuation_token is None && params.start_after is None
                    ==> object_views(page.objects@) == matching_rows(objs, None, None))
            }),
    {
        if let Err(e) = ensure_bucket_name_safe(bucket) {
            return Err(e);
        }
        let bi = match self.find_bucket(bucket) {
            Some(i) => i,
            None => {
                return Err(StorageError::BucketNotFound(copy_bytes(bucket)));
            },
        };
        proof {
            assert(self@[bi as int] == self.buckets@[bi as int]@);
        }
        let max_keys = clamp_max_keys(params.max_keys);
        let limit = max_keys + 1;
        let entry = &self.buckets[bi];
        let ghost objs = entry@.objects;
        let ghost m = matching_rows(
            objs,
            ListObjectsParams::opt_view(params.prefix),
            params.cursor_spec(),
        );
        let prefix_ref: Option<&Vec<u8>> = match &params.prefix {
            Some(p) => Some(p),
            None => None,
        };
        let cursor_ref = params.cursor();
        let mut rows: Vec<Object> = Vec::new();
        proof {
            reveal(Seq::filter);
            assert(objs.take(0) =~= Seq::<StoredObjectV>::empty());
            assert(matching_rows(objs.take(0), ListObjectsParams::opt_view(params.prefix),
                params.cursor_spec()) =~= Seq::<ObjectV>::empty());
            assert(object_views(rows@) =~= Seq::<ObjectV>::empty());
        }
        let n = entry.objects.len();
        let mut i: usize = 0;
        while i < n
            invariant
                i <= n,
                n == entry.objects@.len(),
                objs == entry@.objects,
                objs.len() == entry.objects@.len(),
                prefix_ref == (match &params.prefix {
                    Some(p) => Some(p),
                    None => None::<&Vec<u8>>,
                }),
                (match cursor_ref {
                    Some(c) => params.cursor_spec() == Some(c@),
                    None => params.cursor_spec() is None,
                }),
                object_views(rows@) == matching_rows(
                    objs.take(i as int),
                    ListObjectsParams::opt_view(params.prefix),
                    params.cursor_spec(),
                ),
            decreases n - i,
        {
            let row = &entry.objects[i];
            proof {
                reveal(Seq::filter);
                assert(objs[i as int] == row@);
                assert(objs.take(i + 1).drop_last() =~= objs.take(i as int));
                assert(objs.take(i + 1).last() == row@);
            }
            let live = !row.rec.is_deleted;
            let pfx_ok = match prefix_ref {
                Some(p) => crate::bytes::starts_with_bytes(row.rec.key.as_slice(), p.as_slice()),
                None => true,
            };
            let cur_ok = match cursor_ref {
                Some(c) => bytes_lt(c.as_slice(), row.rec.key.as_slice()),
                None => true,
            };
            if live && pfx_ok && cur_ok {
                proof {
                    assert(row_matches(
                        row@,
                        ListObjectsParams::opt_view(params.prefix),
                        params.cursor_spec(),
                    ));
                }
                let copied = clone_object(&row.rec);
                proof {
                    assert(object_views(rows@.push(copied)) =~= object_views(rows@).push(copied@));
                    assert(matching_rows(objs.take(i + 1), ListObjectsParams::opt_view(
                        params.prefix), params.cursor_spec()) =~= matching_rows(objs.take(i as int),
                        ListObjectsParams::opt_view(params.prefix), params.cursor_spec()).push(
                        row@.rec));
                }
                rows.push(copied);
            } else {
                proof {
                    assert(!row_matches(
                        row@,
                        ListObjectsParams::opt_view(params.prefix),
                        params.cursor_spec(),
                    ));
                    assert(matching_rows(objs.take(i + 1), ListObjectsParams::opt_view(
                        params.prefix), params.cursor_spec()) =~= matching_rows(objs.take(i as int),
                        ListObjectsParams::opt_view(params.prefix), params.cursor_spec()));
                }
            }
            i = i + 1;
        }
        proof {
            assert(objs.take(n as int) =~= objs);
        }
        if rows.len() > limit {
            rows.truncate(limit);
            proof {
                assert(object_views(rows@) =~= m.take(limit as int));
            }
        }
        proof {
            if m.len() > limit as int {
                assert(object_views(rows@) == m.take(limit as int));
            } else {
                assert(m.take(m.len() as int) =~= m);
                assert(object_views(rows@) == m);
            }
            assert(rows@.len() <= limit);
        }
        let page = crate::listing::assemble_page(rows, &params.prefix, &params.delimiter, max_keys);
        proof {
            let delivered_full = delivered_rows(
                (if m.len() > limit as int {
                    m.take(limit as int)
                } else {
                    m
                }),
                max_keys as int,
            );
            let delivered = if m.len() > max_keys as int {
                m.take(max_keys as int)
            } else {
                m
            };
            assert(delivered_full =~= delivered);
            lemma_matching_rows(objs, ListObjectsParams::opt_view(params.prefix),
                params.cursor_spec());
            assert(recs_sorted(delivered)) by {
                assert(forall|i: int, j: int|
                    0 <= i < j < delivered.len() ==> delivered[i] == m[i] && delivered[j] == m[j]);
            }
            lemma_filter_recs(
                delivered,
                |o: ObjectV| kept(o, params.prefix_spec(), params.delim_spec()),
            );
            if !page.is_truncated && params.prefix is None && params.delimiter is None
                && params.continuation_token is None && params.start_after is None {
                assert(delivered == m);
                lemma_filter_recs_all(
                    delivered,
                    |o: ObjectV| kept(o, params.prefix_spec(), params.delim_spec()),
                );
            }
        }
        Ok(page)
    }
}

/// The position a key has, or would get, among sorted rows.
fn lower_bound_key(objs: &Vec<StoredObject>, key: &[u8]) -> (idx: usize)
    requires
        sorted_rows(stored_views(objs@)),
    ensures
        idx <= objs@.len(),
        forall|j: int| 0 <= j < idx ==> lex_lt((#[trigger] stored_views(objs@)[j]).rec.key, key@),
        idx < objs@.len() ==> !lex_lt(stored_views(objs@)[idx as int].rec.key, key@),
{
    let n = objs.len();
    let mut idx: usize = 0;
    while idx < n
        invariant
            idx <= n,
            n == objs@.len(),
            forall|j: int|
                0 <= j < idx ==> lex_lt((#[trigger] stored_views(objs@)[j]).rec.key, key@),
        decreases n - idx,
    {
        proof {
            assert(stored_views(objs@)[idx as int] == objs@[idx as int]@);
        }
        if !bytes_lt(objs[idx].rec.key.as_slice(), key) {
            return idx;
        }
        idx = idx + 1;
    }
    idx
}

/// Where the scan stopped decides whether the key is present, and where.
proof fn lemma_key_position(objs: Seq<StoredObjectV>, key: Seq<u8>, idx: int)
    requires
        sorted_rows(objs),
        0 <= idx <= objs.len(),
        forall|j: int| 0 <= j < idx ==> lex_lt((#[trigger] objs[j]).rec.key, key),
        idx < objs.len() ==> !lex_lt(objs[idx].rec.key, key),
    ensures
        (idx < objs.len() && objs[idx].rec.key == key) ==> (has_key(objs, key) && key_idx(
            objs,
            key,
        ) == idx),
        !(idx < objs.len() && objs[idx].rec.key == key) ==> !has_key(objs, key),
{
    if idx < objs.len() && objs[idx].rec.key == key {
        assert(has_key(objs, key));
        let c = key_idx(objs, key);
        assert(0 <= c < objs.len() && objs[c].rec.key == key);
        if c < idx {
            assert(lex_lt(objs[c].rec.key, key));
            lemma_lex_asymmetric(key, key);
            assert(false);
        }
        if c > idx {
            assert(lex_lt(objs[idx].rec.key, objs[c].rec.key));
            lemma_lex_asymmetric(key, key);
            assert(false);
        }
    } else {
        if has_key(objs, key) {
            let w = choose|i: int| 0 <= i < objs.len() && (#[trigger] objs[i]).rec.key == key;
            if w < idx {
                assert(lex_lt(objs[w].rec.key, key));
                lemma_lex_asymmetric(key, key);
                assert(false);
            } else {
                assert(idx < objs.len());
                if w == idx {
                    assert(false);
                } else {
                    lemma_lex_trichotomy(objs[idx].rec.key, key);
                    assert(lex_lt(key, objs[idx].rec.key));
                    assert(lex_lt(objs[idx].rec.key, objs[w].rec.key));
                    lemma_lex_transitive(key, objs[idx].rec.key, objs[w].rec.key);
                    lemma_lex_asymmetric(key, key);
                    assert(false);
                }
            }
        }
    }
}

} // verus!

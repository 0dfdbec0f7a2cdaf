//! The store's laws: what holds of every state and every operation.
//!
//! Each proof function here states one property of the engine over the
//! views and spec functions its operations' contracts use.

use vstd::prelude::*;
use crate::bytes::is_prefix;
use crate::bytes::lemma_lex_asymmetric;
use crate::bytes::lex_lt;
use crate::bytes::occurs_at;
use crate::bytes::contains_seq;
use crate::digest::etag_of;
use crate::digest::hex_of;
use crate::digest::md5_of;
use crate::listing::common_prefix_of;
use crate::listing::kept;
use crate::records::ObjectV;
use crate::store::BucketEntryV;
use crate::store::StoredObjectV;
use crate::store::has_key;
use crate::store::key_idx;
use crate::store::live_lookup;
use crate::store::matching_rows;
use crate::store::objects_upserted;
use crate::store::recs_sorted;
use crate::store::row_matches;
use crate::store::sorted_rows;
use crate::store::store_wf;

verus! {

/// In a well-formed store, every live row agrees with its payload — the
/// entity tag is the hex MD5 of the payload bytes and the size is their
/// count — and each bucket holds at most one row per key, so at most one
/// live row per `(bucket, key)`.
pub proof fn lemma_store_consistency(s: Seq<BucketEntryV>)
    requires
        store_wf(s),
    ensures
        forall|b: int, i: int|
            0 <= b < s.len() && 0 <= i < s[b].objects.len() && !(#[trigger] s[b].objects[i]).rec.is_deleted
                ==> s[b].objects[i].rec.etag == hex_of(md5_of(s[b].objects[i].payload))
                && s[b].objects[i].rec.size_bytes == s[b].objects[i].payload.len(),
        forall|b: int, i: int, j: int|
            0 <= b < s.len() && 0 <= i < j < s[b].objects.len() ==> (
            #[trigger] s[b].objects[i]).rec.key != (#[trigger] s[b].objects[j]).rec.key,
{
    assert forall|b: int, i: int, j: int|
        0 <= b < s.len() && 0 <= i < j < s[b].objects.len() implies (
    #[trigger] s[b].objects[i]).rec.key != (#[trigger] s[b].objects[j]).rec.key by {
        assert(lex_lt(s[b].objects[i].rec.key, s[b].objects[j].rec.key));
        if s[b].objects[i].rec.key == s[b].objects[j].rec.key {
            lemma_lex_asymmetric(s[b].objects[i].rec.key, s[b].objects[j].rec.key);
        }
    }
}

/// An unfiltered listing draws every live row, each exactly once, in
/// strictly ascending key order.
#[verifier::rlimit(50)]
pub proof fn lemma_full_listing(objs: Seq<StoredObjectV>)
    requires
        sorted_rows(objs),
    ensures
        recs_sorted(matching_rows(objs, None, None)),
        forall|j: int|
            0 <= j < objs.len() && !(#[trigger] objs[j]).rec.is_deleted ==> exists|k: int|
                0 <= k < matching_rows(objs, None, None).len() && matching_rows(objs, None, None)[k]
                    == objs[j].rec,
        forall|k: int|
            0 <= k < matching_rows(objs, None, None).len() ==> exists|j: int|
                0 <= j < objs.len() && #[trigger] matching_rows(objs, None, None)[k] == (
                #[trigger] objs[j]).rec && !objs[j].rec.is_deleted,
    decreases objs.len(),
{
    reveal(Seq::filter);
    crate::store::lemma_matching_rows(objs, None, None);
    let m = matching_rows(objs, None, None);
    assert forall|k: int| 0 <= k < m.len() implies exists|j: int|
        0 <= j < objs.len() && #[trigger] m[k] == (#[trigger] objs[j]).rec
            && !objs[j].rec.is_deleted by {
        let j = choose|j: int|
            0 <= j < objs.len() && #[trigger] m[k] == (#[trigger] objs[j]).rec && row_matches(
                objs[j],
                None,
                None,
            );
        assert(!objs[j].rec.is_deleted);
    }
    if objs.len() > 0 {
        let head = objs.drop_last();
        let last = objs.last();
        assert(forall|i: int, j: int|
            0 <= i < j < head.len() ==> lex_lt(
                (#[trigger] head[i]).rec.key,
                (#[trigger] head[j]).rec.key,
            ));
        lemma_full_listing(head);
        let mh = matching_rows(head, None, None);
        assert forall|j: int|
            0 <= j < objs.len() && !(#[trigger] objs[j]).rec.is_deleted implies exists|k: int|
            0 <= k < m.len() && m[k] == objs[j].rec by {
            if row_matches(last, None, None) {
                assert(m =~= mh.push(last.rec));
            } else {
                assert(m =~= mh);
            }
            if j < objs.len() - 1 {
                assert(head[j] == objs[j]);
                let k = choose|k: int| 0 <= k < mh.len() && mh[k] == head[j].rec;
                assert(m[k] == objs[j].rec);
            } else {
                assert(objs[j] == last);
                assert(row_matches(last, None, None));
                assert(m[m.len() - 1] == last.rec);
            }
        }
    }
}

/// Round trip: the live row an upload installs carries exactly the
/// uploaded payload, under the tag hex(MD5(payload)) and with the
/// payload's length as its size — which is what a get then returns.
pub proof fn lemma_upload_round_trip(
    s: Seq<BucketEntryV>,
    bucket: Seq<u8>,
    key: Seq<u8>,
    payload: Seq<u8>,
    rec: ObjectV,
)
    requires
        live_lookup(s, bucket, key) == Some(StoredObjectV { rec, payload }),
        rec.etag == etag_of(payload),
        rec.size_bytes == payload.len(),
    ensures
        ({
            let found = live_lookup(s, bucket, key);
            &&& found matches Some(o)
            &&& found->0.payload == payload
            &&& found->0.rec.etag == hex_of(md5_of(payload))
            &&& found->0.rec.size_bytes == payload.len()
        }),
{
}

/// A repeated upload of the same key overwrites: the row count does not
/// grow, rows of other keys stay untouched, and the surviving row is the
/// new one — same tag for the same payload, with the later modification
/// time.
pub proof fn lemma_upload_overwrites(
    olds: Seq<StoredObjectV>,
    news: Seq<StoredObjectV>,
    row: StoredObjectV,
)
    requires
        sorted_rows(olds),
        has_key(olds, row.rec.key),
        objects_upserted(olds, news, row),
    ensures
        news.len() == olds.len(),
        news[key_idx(olds, row.rec.key)] == row,
        forall|k: int|
            0 <= k < olds.len() && (#[trigger] olds[k]).rec.key != row.rec.key ==> news[k]
                == olds[k],
{
    let i = key_idx(olds, row.rec.key);
    assert(0 <= i < olds.len() && olds[i].rec.key == row.rec.key);
    assert(news == olds.update(i, row));
    assert forall|k: int|
        0 <= k < olds.len() && (#[trigger] olds[k]).rec.key != row.rec.key implies news[k]
        == olds[k] by {
        assert(k != i);
    }
}

/// The two uploads of an idempotent pair agree on the bytes and the tag,
/// and the later row's modification time is not earlier.
pub proof fn lemma_upload_idempotent(
    rec1: ObjectV,
    rec2: ObjectV,
    payload: Seq<u8>,
    now1: i64,
    now2: i64,
)
    requires
        rec1.etag == etag_of(payload),
        rec2.etag == etag_of(payload),
        rec1.last_modified_ms == now1,
        rec2.last_modified_ms == now2,
        now1 <= now2,
    ensures
        rec2.etag == rec1.etag,
        rec2.last_modified_ms >= rec1.last_modified_ms,
{
}

/// The rows of a listing whose keys lie past `kkey`.
pub open spec fn keys_after(m: Seq<ObjectV>, kkey: Seq<u8>) -> Seq<ObjectV> {
    m.filter(|r: ObjectV| lex_lt(kkey, r.key))
}

/// Nothing survives the key bound when no key lies past it.
proof fn lemma_keys_after_none(m: Seq<ObjectV>, kkey: Seq<u8>)
    requires
        forall|i: int| 0 <= i < m.len() ==> !lex_lt(kkey, (#[trigger] m[i]).key),
    ensures
        keys_after(m, kkey) == Seq::<ObjectV>::empty(),
    decreases m.len(),
{
    reveal(Seq::filter);
    if m.len() > 0 {
        assert(forall|i: int| 0 <= i < m.drop_last().len() ==> m.drop_last()[i] == m[i]);
        lemma_keys_after_none(m.drop_last(), kkey);
        assert(keys_after(m, kkey) =~= Seq::<ObjectV>::empty());
    } else {
        assert(keys_after(m, kkey) =~= Seq::<ObjectV>::empty());
    }
}

/// In a strictly ascending listing, the rows past the key at position
/// `k` are exactly the rows after position `k`.
proof fn lemma_keys_after_skip(m: Seq<ObjectV>, k: int)
    requires
        recs_sorted(m),
        0 <= k < m.len(),
    ensures
        keys_after(m, m[k].key) == m.skip(k + 1),
    decreases m.len(),
{
    reveal(Seq::filter);
    let kkey = m[k].key;
    let mh = m.drop_last();
    let last = m.last();
    assert(forall|i: int, j: int|
        0 <= i < j < mh.len() ==> lex_lt((#[trigger] mh[i]).key, (#[trigger] mh[j]).key));
    if m.len() == k + 1 {
        assert forall|i: int| 0 <= i < mh.len() implies !lex_lt(kkey, (#[trigger] mh[i]).key) by {
            assert(lex_lt(m[i].key, kkey));
            if lex_lt(kkey, m[i].key) {
                lemma_lex_asymmetric(kkey, m[i].key);
            }
        }
        lemma_keys_after_none(mh, kkey);
        assert(!lex_lt(kkey, last.key)) by {
            if lex_lt(kkey, last.key) {
                lemma_lex_asymmetric(kkey, last.key);
            }
        }
        assert(keys_after(m, kkey) =~= Seq::<ObjectV>::empty());
        assert(m.skip(k + 1) =~= Seq::<ObjectV>::empty());
    } else {
        assert(mh[k] == m[k]);
        lemma_keys_after_skip(mh, k);
        assert(lex_lt(kkey, last.key));
        assert(keys_after(m, kkey) =~= keys_after(mh, kkey).push(last));
        assert(m.skip(k + 1) =~= mh.skip(k + 1).push(last));
    }
}

/// Moving the cursor to a later key restricts the listing to the rows
/// past that key.
proof fn lemma_cursor_advance(
    objs: Seq<StoredObjectV>,
    prefix: Option<Seq<u8>>,
    cursor: Option<Seq<u8>>,
    kkey: Seq<u8>,
)
    requires
        match cursor {
            Some(c) => lex_lt(c, kkey),
            None => true,
        },
    ensures
        matching_rows(objs, prefix, Some(kkey)) == keys_after(
            matching_rows(objs, prefix, cursor),
            kkey,
        ),
    decreases objs.len(),
{
    reveal(Seq::filter);
    let m = matching_rows(objs, prefix, cursor);
    let mk = matching_rows(objs, prefix, Some(kkey));
    if objs.len() == 0 {
        assert(mk =~= Seq::<ObjectV>::empty());
        assert(keys_after(m, kkey) =~= Seq::<ObjectV>::empty());
    } else {
        let head = objs.drop_last();
        let last = objs.last();
        lemma_cursor_advance(head, prefix, cursor, kkey);
        let m_h = matching_rows(head, prefix, cursor);
        let mk_h = matching_rows(head, prefix, Some(kkey));
        assert(row_matches(last, prefix, Some(kkey)) == (row_matches(last, prefix, cursor)
            && lex_lt(kkey, last.rec.key))) by {
            if row_matches(last, prefix, Some(kkey)) {
                match cursor {
                    Some(c) => {
                        crate::bytes::lemma_lex_transitive(c, kkey, last.rec.key);
                    },
                    None => {},
                }
            }
        }
        if row_matches(last, prefix, cursor) {
            assert(m =~= m_h.push(last.rec));
            assert(m.drop_last() =~= m_h);
            assert(m.last() == last.rec);
            assert(keys_after(m, kkey) =~= (if lex_lt(kkey, last.rec.key) {
                keys_after(m_h, kkey).push(last.rec)
            } else {
                keys_after(m_h, kkey)
            }));
            if row_matches(last, prefix, Some(kkey)) {
                assert(mk =~= mk_h.push(last.rec));
            } else {
                assert(mk =~= mk_h);
            }
        } else {
            assert(m =~= m_h);
            assert(mk =~= mk_h);
        }
    }
}

/// The concatenation of successive pages of size `n`, each resumed at
/// the previous page's last-delivered key.
pub open spec fn pages_concat(
    objs: Seq<StoredObjectV>,
    prefix: Option<Seq<u8>>,
    cursor: Option<Seq<u8>>,
    n: int,
) -> Seq<ObjectV>
    decreases matching_rows(objs, prefix, cursor).len(),
    when n >= 1 && sorted_rows(objs)
    via pages_concat_dec
{
    let m = matching_rows(objs, prefix, cursor);
    if m.len() <= n {
        m
    } else {
        m.take(n) + pages_concat(objs, prefix, Some(m[n - 1].key), n)
    }
}

#[via_fn]
proof fn pages_concat_dec(
    objs: Seq<StoredObjectV>,
    prefix: Option<Seq<u8>>,
    cursor: Option<Seq<u8>>,
    n: int,
) {
    let m = matching_rows(objs, prefix, cursor);
    if m.len() > n {
        crate::store::lemma_matching_rows(objs, prefix, cursor);
        let j = choose|j: int|
            0 <= j < objs.len() && #[trigger] m[n - 1] == (#[trigger] objs[j]).rec && row_matches(
                objs[j],
                prefix,
                cursor,
            );
        lemma_cursor_advance(objs, prefix, cursor, m[n - 1].key);
        lemma_keys_after_skip(m, n - 1);
    }
}

/// Pagination completeness: walking the listing page by page — each page
/// the first `n` remaining rows, resumed at its last-delivered key —
/// yields exactly the rows one unbounded listing yields, in the same
/// order.
pub proof fn lemma_pagination_complete(
    objs: Seq<StoredObjectV>,
    prefix: Option<Seq<u8>>,
    cursor: Option<Seq<u8>>,
    n: int,
)
    requires
        sorted_rows(objs),
        n >= 1,
    ensures
        pages_concat(objs, prefix, cursor, n) == matching_rows(objs, prefix, cursor),
    decreases matching_rows(objs, prefix, cursor).len(),
{
    let m = matching_rows(objs, prefix, cursor);
    if m.len() <= n {
    } else {
        crate::store::lemma_matching_rows(objs, prefix, cursor);
        let j = choose|j: int|
            0 <= j < objs.len() && #[trigger] m[n - 1] == (#[trigger] objs[j]).rec && row_matches(
                objs[j],
                prefix,
                cursor,
            );
        lemma_cursor_advance(objs, prefix, cursor, m[n - 1].key);
        lemma_keys_after_skip(m, n - 1);
        lemma_pagination_complete(objs, prefix, Some(m[n - 1].key), n);
        assert(pages_concat(objs, prefix, cursor, n) == m.take(n) + m.skip(n));
        assert(m.take(n) + m.skip(n) =~= m);
    }
}

/// A key that stays in a page's contents under a delimiter holds no
/// occurrence of that delimiter at or past the requested prefix's end.
pub proof fn lemma_delimiter_excluded(key: Seq<u8>, prefix: Seq<u8>, delim: Seq<u8>)
    requires
        is_prefix(prefix, key),
        common_prefix_of(key, prefix, delim) is None,
    ensures
        forall|p: int| prefix.len() <= p ==> !occurs_at(key, delim, p),
{
    reveal(common_prefix_of);
    let suffix = key.skip(prefix.len() as int);
    assert(!contains_seq(suffix, delim));
    assert forall|p: int| prefix.len() <= p implies !occurs_at(key, delim, p) by {
        if occurs_at(key, delim, p) {
            assert(suffix.subrange(p - prefix.len(), p - prefix.len() + delim.len() as int) =~= key
                .subrange(p, p + delim.len() as int));
            assert(occurs_at(suffix, delim, p - prefix.len()));
        }
    }
}

/// Over a whole page: every row the assembler keeps in the contents under
/// a delimiter is free of that delimiter at every position at or past the
/// requested prefix's end.
pub proof fn lemma_page_delimiter_excluded(rows: Seq<ObjectV>, prefix: Seq<u8>, delim: Seq<u8>)
    requires
        forall|i: int|
            0 <= i < rows.len() ==> kept(#[trigger] rows[i], prefix, Some(delim)) && is_prefix(
                prefix,
                rows[i].key,
            ),
    ensures
        forall|i: int, p: int|
            0 <= i < rows.len() && prefix.len() <= p ==> !#[trigger] occurs_at(
                rows[i].key,
                delim,
                p,
            ),
{
    assert forall|i: int, p: int|
        0 <= i < rows.len() && prefix.len() <= p implies !#[trigger] occurs_at(
        rows[i].key,
        delim,
        p,
    ) by {
        lemma_delimiter_excluded(rows[i].key, prefix, delim);
    }
}

} // verus!

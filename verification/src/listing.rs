//! ListObjectsV2 page assembly.
//!
//! Given the page of rows the metadata store returns — up to one more row
//! than the caller's `max_keys`, in ascending key order — the assembler
//! decides truncation and the continuation token, groups keys under the
//! requested delimiter into common prefixes, and counts the delivered
//! entries. The continuation token is the last delivered key, so that the
//! next page (fetched with `key > token`) continues seamlessly.

use vstd::prelude::*;
use crate::bytes::append_bytes;
use crate::bytes::bytes_eq;
use crate::bytes::bytes_lt;
use crate::bytes::contains_seq;
use crate::bytes::copy_bytes;
use crate::bytes::copy_range;
use crate::bytes::is_prefix;
use crate::bytes::find_sub;
use crate::bytes::lemma_lex_transitive;
use crate::bytes::lemma_lex_trichotomy;
use crate::bytes::lex_lt;
use crate::bytes::occurs_at;
use crate::bytes::starts_with_bytes;
use crate::records::Object;
use crate::records::ObjectV;
use crate::records::clone_object;
use crate::records::object_views;

verus! {

/// The caller's listing parameters.
#[derive(Debug)]
pub struct ListObjectsParams {
    /// Keep only keys with this prefix.
    pub prefix: Option<Vec<u8>>,
    /// Group keys that continue past this delimiter after the prefix.
    pub delimiter: Option<Vec<u8>>,
    /// Resume after this key; wins over `start_after`.
    pub continuation_token: Option<Vec<u8>>,
    /// Resume after this key.
    pub start_after: Option<Vec<u8>>,
    /// Page size before clamping to `[1, 1000]`.
    pub max_keys: usize,
}

/// One assembled page.
#[derive(Debug)]
pub struct ListObjectsResult {
    /// The delivered rows, ascending by key.
    pub objects: Vec<Object>,
    /// The grouped prefixes, ascending, without duplicates.
    pub common_prefixes: Vec<Vec<u8>>,
    /// Whether a further page exists.
    pub is_truncated: bool,
    /// The cursor of the next page: the last delivered key.
    pub next_continuation_token: Option<Vec<u8>>,
    /// Delivered rows plus grouped prefixes.
    pub key_count: usize,
}

/// `max_keys` clamped to `[1, 1000]`.
pub open spec fn clamped(m: int) -> int {
    if m < 1 {
        1
    } else if m > 1000 {
        1000
    } else {
        m
    }
}

/// Clamp the caller's page size.
pub fn clamp_max_keys(m: usize) -> (r: usize)
    ensures
        r == clamped(m as int),
{
    if m < 1 {
        1
    } else if m > 1000 {
        1000
    } else {
        m
    }
}

/// The effective cursor: the continuation token when present, else
/// `start_after`, else none.
pub open spec fn cursor_view(
    continuation_token: Option<Seq<u8>>,
    start_after: Option<Seq<u8>>,
) -> Option<Seq<u8>> {
    match continuation_token {
        Some(t) => Some(t),
        None => start_after,
    }
}

impl ListObjectsParams {
    /// The view of an optional byte string.
    pub open spec fn opt_view(o: Option<Vec<u8>>) -> Option<Seq<u8>> {
        match o {
            Some(v) => Some(v@),
            None => None,
        }
    }

    /// The effective cursor of these parameters.
    pub open spec fn cursor_spec(&self) -> Option<Seq<u8>> {
        cursor_view(Self::opt_view(self.continuation_token), Self::opt_view(self.start_after))
    }

    /// The prefix as a byte string; no prefix filters like the empty one.
    pub open spec fn prefix_spec(&self) -> Seq<u8> {
        match self.prefix {
            Some(p) => p@,
            None => Seq::<u8>::empty(),
        }
    }

    /// The delimiter, when grouping is requested.
    pub open spec fn delim_spec(&self) -> Option<Seq<u8>> {
        Self::opt_view(self.delimiter)
    }

    /// Pick the effective cursor.
    pub fn cursor(&self) -> (r: Option<&Vec<u8>>)
        ensures
            match r {
                Some(c) => self.cursor_spec() == Some(c@),
                None => self.cursor_spec() is None,
            },
    {
        match &self.continuation_token {
            Some(t) => Some(t),
            None => match &self.start_after {
                Some(s) => Some(s),
                None => None,
            },
        }
    }
}

/// The position of the first occurrence of `sub` in `s`.
pub open spec fn first_occ(s: Seq<u8>, sub: Seq<u8>) -> int {
    choose|i: int| occurs_at(s, sub, i) && forall|j: int| 0 <= j < i ==> !occurs_at(s, sub, j)
}

/// A found minimal occurrence is the first occurrence.
proof fn lemma_first_occ(s: Seq<u8>, sub: Seq<u8>, i: int)
    requires
        occurs_at(s, sub, i),
        forall|j: int| 0 <= j < i ==> !occurs_at(s, sub, j),
    ensures
        first_occ(s, sub) == i,
{
    let c = first_occ(s, sub);
    assert(occurs_at(s, sub, c) && forall|j: int| 0 <= j < c ==> !occurs_at(s, sub, j));
    if c < i {
        assert(occurs_at(s, sub, c));
        assert(false);
    }
    if c > i {
        assert(occurs_at(s, sub, i));
        assert(false);
    }
}

/// The common prefix a key falls under, if any: the requested prefix plus
/// the key's continuation up to and including the first delimiter. A key
/// without the requested prefix, or whose remainder holds no delimiter, is
/// not grouped.
#[verifier::opaque]
pub open spec fn common_prefix_of(key: Seq<u8>, prefix: Seq<u8>, delim: Seq<u8>) -> Option<
    Seq<u8>,
> {
    if !is_prefix(prefix, key) {
        None
    } else {
        let suffix = key.skip(prefix.len() as int);
        if contains_seq(suffix, delim) {
            Some(prefix + suffix.subrange(0, first_occ(suffix, delim) + delim.len()))
        } else {
            None
        }
    }
}

/// Compute the common prefix a key falls under, if any.
pub fn compute_common_prefix(
    key: &[u8],
    requested_prefix: Option<&[u8]>,
    delimiter: &[u8],
) -> (r: Option<Vec<u8>>)
    ensures
        ({
            let p = match requested_prefix {
                Some(p) => p@,
                None => Seq::<u8>::empty(),
            };
            match r {
                Some(c) => common_prefix_of(key@, p, delimiter@) == Some(c@),
                None => common_prefix_of(key@, p, delimiter@) is None,
            }
        }),
{
    proof {
        reveal(common_prefix_of);
    }
    let ghost p: Seq<u8> = match requested_prefix {
        Some(p) => p@,
        None => Seq::<u8>::empty(),
    };
    let pstart: usize = match requested_prefix {
        Some(p) => {
            if !starts_with_bytes(key, p) {
                return None;
            }
            p.len()
        },
        None => 0,
    };
    proof {
        assert(is_prefix(p, key@)) by {
            assert(key@.subrange(0, 0) =~= Seq::<u8>::empty());
        }
    }
    let klen = key.len();
    let suffix = copy_range(key, pstart, klen);
    proof {
        assert(suffix@ =~= key@.skip(p.len() as int));
    }
    let slen = suffix.len();
    match find_sub(suffix.as_slice(), delimiter) {
        Some(pos) => {
            proof {
                lemma_first_occ(suffix@, delimiter@, pos as int);
            }
            let cut = copy_range(suffix.as_slice(), 0, pos + delimiter.len());
            let mut out: Vec<u8> = match requested_prefix {
                Some(p) => copy_bytes(p),
                None => Vec::new(),
            };
            append_bytes(&mut out, cut.as_slice());
            proof {
                assert(out@ =~= p + key@.skip(p.len() as int).subrange(
                    0,
                    first_occ(key@.skip(p.len() as int), delimiter@) + delimiter@.len(),
                ));
            }
            Some(out)
        },
        None => None,
    }
}

/// Whether a row stays in the delivered contents: it does unless grouping
/// is on and the key falls under a common prefix.
pub open spec fn kept(o: ObjectV, prefix: Seq<u8>, delim: Option<Seq<u8>>) -> bool {
    match delim {
        None => true,
        Some(d) => common_prefix_of(o.key, prefix, d) is None,
    }
}

/// The rows of a page that stay in the contents.
pub open spec fn page_objects(rows: Seq<ObjectV>, prefix: Seq<u8>, delim: Option<Seq<u8>>) -> Seq<
    ObjectV,
> {
    rows.filter(|o: ObjectV| kept(o, prefix, delim))
}

/// The rows delivered from a fetched page: all of them, or all but the
/// extra row that only witnesses truncation.
pub open spec fn delivered_rows(rows: Seq<ObjectV>, max_keys: int) -> Seq<ObjectV> {
    if rows.len() == max_keys + 1 {
        rows.take(max_keys)
    } else {
        rows
    }
}

/// Some delivered row falls under the common prefix `c`.
pub open spec fn grouped_exists(
    rows: Seq<ObjectV>,
    prefix: Seq<u8>,
    delim: Option<Seq<u8>>,
    c: Seq<u8>,
) -> bool {
    match delim {
        None => false,
        Some(d) => exists|i: int|
            0 <= i < rows.len() && common_prefix_of(#[trigger] rows[i].key, prefix, d) == Some(c),
    }
}

/// A strictly ascending sequence of byte strings.
pub open spec fn sorted_strict(v: Seq<Vec<u8>>) -> bool {
    forall|i: int, j: int| 0 <= i < j < v.len() ==> lex_lt(#[trigger] v[i]@, #[trigger] v[j]@)
}

/// `v` holds the byte string `c`.
pub open spec fn has_elem(v: Seq<Vec<u8>>, c: Seq<u8>) -> bool {
    exists|i: int| 0 <= i < v.len() && #[trigger] v[i]@ == c
}

/// The index the byte string `x` would be inserted at: everything before
/// it is strictly smaller.
fn lower_bound(v: &Vec<Vec<u8>>, x: &[u8]) -> (idx: usize)
    ensures
        idx <= v@.len(),
        forall|j: int| 0 <= j < idx ==> lex_lt(#[trigger] v@[j]@, x@),
        idx < v@.len() ==> !lex_lt(v@[idx as int]@, x@),
{
    let mut idx: usize = 0;
    while idx < v.len()
        invariant
            idx <= v@.len(),
            forall|j: int| 0 <= j < idx ==> lex_lt(#[trigger] v@[j]@, x@),
        decreases v@.len() - idx,
    {
        if !bytes_lt(v[idx].as_slice(), x) {
            return idx;
        }
        idx = idx + 1;
    }
    idx
}

/// Insert a byte string into a strictly ascending vector, keeping order
/// and dropping a duplicate.
fn insert_sorted_unique(v: &mut Vec<Vec<u8>>, x: Vec<u8>)
    requires
        sorted_strict(old(v)@),
    ensures
        sorted_strict(final(v)@),
        final(v)@.len() <= old(v)@.len() + 1,
        forall|c: Seq<u8>| has_elem(final(v)@, c) <==> (has_elem(old(v)@, c) || c == x@),
{
    let idx = lower_bound(v, x.as_slice());
    if idx < v.len() {
        if bytes_eq(v[idx].as_slice(), x.as_slice()) {
            proof {
                assert(v@[idx as int]@ =~= x@);
                assert forall|c: Seq<u8>| has_elem(v@, c) <==> (has_elem(old(v)@, c) || c == x@) by {
                    if c == x@ {
                        assert(v@[idx as int]@ == c);
                    }
                }
            }
            return ;
        }
    }
    proof {
        if idx < v@.len() {
            lemma_lex_trichotomy(v@[idx as int]@, x@);
        }
        assert forall|j: int| idx <= j < v@.len() implies lex_lt(x@, #[trigger] v@[j]@) by {
            if j > idx {
                lemma_lex_transitive(x@, v@[idx as int]@, v@[j]@);
            }
        }
    }
    let ghost before = v@;
    proof {
        before.insert_ensures(idx as int, x);
    }
    v.insert(idx, x);
    proof {
        assert forall|i: int, j: int| 0 <= i < j < v@.len() implies lex_lt(
            #[trigger] v@[i]@,
            #[trigger] v@[j]@,
        ) by {
            if i < idx && j < idx {
            } else if i < idx && j == idx {
            } else if i == idx && j > idx {
            } else if i < idx && j > idx {
                assert(v@[i]@ == before[i]@);
                assert(v@[j]@ == before[j - 1]@);
            } else if i > idx && j > idx {
                assert(v@[i]@ == before[i - 1]@);
                assert(v@[j]@ == before[j - 1]@);
            }
        }
        assert forall|c: Seq<u8>| has_elem(v@, c) <==> (has_elem(before, c) || c == x@) by {
            if has_elem(v@, c) {
                let i = choose|i: int| 0 <= i < v@.len() && #[trigger] v@[i]@ == c;
                if i < idx {
                    assert(before[i]@ == c);
                } else if i == idx {
                } else {
                    assert(before[i - 1]@ == c);
                }
            }
            if has_elem(before, c) {
                let i = choose|i: int| 0 <= i < before.len() && #[trigger] before[i]@ == c;
                if i < idx {
                    assert(v@[i]@ == c);
                } else {
                    assert(v@[i + 1]@ == c);
                }
            }
            if c == x@ {
                assert(v@[idx as int]@ == c);
            }
        }
    }
}

/// One more row extends the grouped prefixes of a page by exactly that
/// row's group, if it has one.
proof fn lemma_grouped_step(
    rows: Seq<ObjectV>,
    pfx: Seq<u8>,
    delim: Option<Seq<u8>>,
    i: int,
    cc: Seq<u8>,
)
    requires
        0 <= i < rows.len(),
    ensures
        grouped_exists(rows.take(i + 1), pfx, delim, cc) <==> (grouped_exists(
            rows.take(i),
            pfx,
            delim,
            cc,
        ) || (delim is Some && common_prefix_of(rows[i].key, pfx, delim->0) == Some(cc))),
{
    if delim is Some {
        let d = delim->0;
        if grouped_exists(rows.take(i + 1), pfx, delim, cc) {
            let k = choose|k: int|
                0 <= k < rows.take(i + 1).len() && common_prefix_of(
                    #[trigger] rows.take(i + 1)[k].key,
                    pfx,
                    d,
                ) == Some(cc);
            if k < i {
                assert(rows.take(i)[k] == rows.take(i + 1)[k]);
                assert(grouped_exists(rows.take(i), pfx, delim, cc));
            } else {
                assert(rows.take(i + 1)[k] == rows[i]);
            }
        }
        if grouped_exists(rows.take(i), pfx, delim, cc) {
            let k = choose|k: int|
                0 <= k < rows.take(i).len() && common_prefix_of(
                    #[trigger] rows.take(i)[k].key,
                    pfx,
                    d,
                ) == Some(cc);
            assert(rows.take(i + 1)[k] == rows.take(i)[k]);
            assert(grouped_exists(rows.take(i + 1), pfx, delim, cc));
        }
        if common_prefix_of(rows[i].key, pfx, d) == Some(cc) {
            assert(rows.take(i + 1)[i] == rows[i]);
            assert(grouped_exists(rows.take(i + 1), pfx, delim, cc));
        }
    }
}

/// Assemble one page from the fetched rows.
///
/// `rows` is what the metadata store returned: at most `max_keys + 1` live
/// rows in ascending key order. The result delivers at most `max_keys`
/// rows, announces truncation through the extra row, hands the last
/// delivered key out as the continuation token, and groups keys under the
/// delimiter into ascending, duplicate-free common prefixes.
pub fn assemble_page(
    rows: Vec<Object>,
    prefix: &Option<Vec<u8>>,
    delimiter: &Option<Vec<u8>>,
    max_keys: usize,
) -> (r: ListObjectsResult)
    requires
        1 <= max_keys,
        max_keys < usize::MAX,
        rows@.len() <= max_keys + 1,
    ensures
        ({
            let pfx = match *prefix {
                Some(p) => p@,
                None => Seq::<u8>::empty(),
            };
            let delim = match *delimiter {
                Some(d) => Some(d@),
                None => None::<Seq<u8>>,
            };
            let delivered = delivered_rows(object_views(rows@), max_keys as int);
            &&& r.is_truncated == (rows@.len() == max_keys + 1)
            &&& object_views(r.objects@) == page_objects(delivered, pfx, delim)
            &&& (r.is_truncated ==> match r.next_continuation_token {
                Some(t) => t@ == delivered.last().key,
                None => false,
            })
            &&& (!r.is_truncated ==> r.next_continuation_token is None)
            &&& sorted_strict(r.common_prefixes@)
            &&& (forall|c: Seq<u8>|
                has_elem(r.common_prefixes@, c) <==> grouped_exists(delivered, pfx, delim, c))
            &&& r.key_count == r.objects@.len() + r.common_prefixes@.len()
        }),
{
    let ghost pfx: Seq<u8> = match prefix {
        Some(p) => p@,
        None => Seq::<u8>::empty(),
    };
    let ghost delim: Option<Seq<u8>> = match delimiter {
        Some(d) => Some(d@),
        None => None::<Seq<u8>>,
    };
    let mut rows = rows;
    let ghost orig = object_views(rows@);
    let truncated = rows.len() == max_keys + 1;
    let mut next_token: Option<Vec<u8>> = None;
    if truncated {
        rows.pop();
        let last_idx = rows.len() - 1;
        next_token = Some(copy_bytes(rows[last_idx].key.as_slice()));
        proof {
            assert(object_views(rows@) =~= delivered_rows(orig, max_keys as int));
        }
    } else {
        proof {
            assert(object_views(rows@) =~= delivered_rows(orig, max_keys as int));
        }
    }
    let ghost delivered = object_views(rows@);
    let mut contents: Vec<Object> = Vec::new();
    let mut cps: Vec<Vec<u8>> = Vec::new();
    proof {
        reveal(Seq::filter);
        assert(page_objects(delivered.take(0), pfx, delim) =~= Seq::<ObjectV>::empty());
        assert(object_views(contents@) =~= Seq::<ObjectV>::empty());
    }
    let mut i: usize = 0;
    while i < rows.len()
        invariant
            i <= rows@.len(),
            pfx == (match prefix {
                Some(p) => p@,
                None => Seq::<u8>::empty(),
            }),
            delim == (match delimiter {
                Some(d) => Some(d@),
                None => None::<Seq<u8>>,
            }),
            delivered == object_views(rows@),
            delivered.len() == rows@.len(),
            object_views(contents@) == page_objects(delivered.take(i as int), pfx, delim),
            contents@.len() + cps@.len() <= i,
            sorted_strict(cps@),
            forall|c: Seq<u8>|
                has_elem(cps@, c) <==> grouped_exists(delivered.take(i as int), pfx, delim, c),
        decreases rows@.len() - i,
    {
        let row = &rows[i];
        proof {
            reveal(Seq::filter);
            assert(delivered[i as int] == row@);
            assert(delivered.take(i + 1).drop_last() =~= delivered.take(i as int));
            assert(delivered.take(i + 1).last() == row@);
        }
        let mut grouped_as: Option<Vec<u8>> = None;
        match delimiter {
            Some(d) => {
                let rp: Option<&[u8]> = match prefix {
                    Some(p) => Some(p.as_slice()),
                    None => None,
                };
                grouped_as = compute_common_prefix(row.key.as_slice(), rp, d.as_slice());
            },
            None => {},
        }
        match grouped_as {
            Some(c) => {
                proof {
                    reveal(Seq::filter);
                    assert(delim is Some && common_prefix_of(row@.key, pfx, delim->0) == Some(c@));
                    assert(!kept(row@, pfx, delim));
                    assert(page_objects(delivered.take(i + 1), pfx, delim) =~= page_objects(
                        delivered.take(i as int),
                        pfx,
                        delim,
                    ));
                }
                insert_sorted_unique(&mut cps, c);
                proof {
                    assert forall|cc: Seq<u8>| has_elem(cps@, cc) <==> grouped_exists(
                        delivered.take(i + 1),
                        pfx,
                        delim,
                        cc,
                    ) by {
                        lemma_grouped_step(delivered, pfx, delim, i as int, cc);
                    }
                }
            },
            None => {
                proof {
                    reveal(Seq::filter);
                    assert(kept(row@, pfx, delim));
                    assert(page_objects(delivered.take(i + 1), pfx, delim) =~= page_objects(
                        delivered.take(i as int),
                        pfx,
                        delim,
                    ).push(row@));
                }
                let copied = clone_object(row);
                proof {
                    assert(object_views(contents@.push(copied)) =~= object_views(contents@).push(
                        copied@,
                    ));
                }
                contents.push(copied);
                proof {
                    assert forall|cc: Seq<u8>| has_elem(cps@, cc) <==> grouped_exists(
                        delivered.take(i + 1),
                        pfx,
                        delim,
                        cc,
                    ) by {
                        lemma_grouped_step(delivered, pfx, delim, i as int, cc);
                    }
                }
            },
        }
        i = i + 1;
    }
    proof {
        assert(delivered.take(rows@.len() as int) =~= delivered);
    }
    let key_count = contents.len() + cps.len();
    ListObjectsResult {
        objects: contents,
        common_prefixes: cps,
        is_truncated: truncated,
        next_continuation_token: next_token,
        key_count,
    }
}

} // verus!

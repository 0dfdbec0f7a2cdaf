//! Continuation tokens on the wire.
//!
//! Internally a continuation token is the last-delivered key; on the wire
//! it travels as standard base64 (with padding), so callers see an opaque
//! cursor. Decoding is tolerant: anything that is not canonical base64 is
//! taken as an already-plaintext cursor and handed back unchanged.

use vstd::prelude::*;
use crate::bytes::copy_bytes;

verus! {

/// The base64 alphabet, by six-bit value.
pub open spec fn b64_char(v: int) -> u8
    recommends
        0 <= v < 64,
{
    if v < 26 {
        (0x41 + v) as u8
    } else if v < 52 {
        (0x61 + (v - 26)) as u8
    } else if v < 62 {
        (0x30 + (v - 52)) as u8
    } else if v == 62 {
        0x2b
    } else {
        0x2f
    }
}

/// A byte of the base64 alphabet.
pub open spec fn is_b64_char(c: u8) -> bool {
    (0x41 <= c <= 0x5a) || (0x61 <= c <= 0x7a) || (0x30 <= c <= 0x39) || c == 0x2b || c == 0x2f
}

/// The six-bit value of an alphabet byte.
pub open spec fn b64_val(c: u8) -> int
    recommends
        is_b64_char(c),
{
    if 0x41 <= c <= 0x5a {
        c - 0x41
    } else if 0x61 <= c <= 0x7a {
        c - 0x61 + 26
    } else if 0x30 <= c <= 0x39 {
        c - 0x30 + 52
    } else if c == 0x2b {
        62
    } else {
        63
    }
}

/// The first decoded byte of a block.
pub open spec fn b64_byte0(a: u8, b: u8) -> u8 {
    (b64_val(a) * 4 + b64_val(b) / 16) as u8
}

/// The second decoded byte of a block.
pub open spec fn b64_byte1(b: u8, c: u8) -> u8 {
    ((b64_val(b) % 16) * 16 + b64_val(c) / 4) as u8
}

/// The third decoded byte of a block.
pub open spec fn b64_byte2(c: u8, d: u8) -> u8 {
    ((b64_val(c) % 4) * 64 + b64_val(d)) as u8
}

/// Standard base64 with padding, three input bytes to four output bytes.
pub open spec fn b64_encode(s: Seq<u8>) -> Seq<u8>
    decreases s.len(),
{
    if s.len() == 0 {
        Seq::<u8>::empty()
    } else if s.len() == 1 {
        seq![b64_char((s[0] / 4) as int), b64_char(((s[0] % 4) * 16) as int), 0x3d, 0x3d]
    } else if s.len() == 2 {
        seq![
            b64_char((s[0] / 4) as int),
            b64_char(((s[0] % 4) * 16 + s[1] / 16) as int),
            b64_char(((s[1] % 16) * 4) as int),
            0x3d,
        ]
    } else {
        seq![
            b64_char((s[0] / 4) as int),
            b64_char(((s[0] % 4) * 16 + s[1] / 16) as int),
            b64_char(((s[1] % 16) * 4 + s[2] / 64) as int),
            b64_char((s[2] % 64) as int),
        ] + b64_encode(s.skip(3))
    }
}

/// Canonical base64 decoding: four-byte blocks, padding only in the last
/// block, and no stray bits under the padding.
pub open spec fn b64_decode(t: Seq<u8>) -> Option<Seq<u8>>
    decreases t.len(),
{
    if t.len() == 0 {
        Some(Seq::<u8>::empty())
    } else if t.len() % 4 != 0 {
        None
    } else if t.len() == 4 {
        if !is_b64_char(t[0]) || !is_b64_char(t[1]) {
            None
        } else if t[2] == 0x3d && t[3] == 0x3d {
            if b64_val(t[1]) % 16 == 0 {
                Some(seq![b64_byte0(t[0], t[1])])
            } else {
                None
            }
        } else if is_b64_char(t[2]) && t[3] == 0x3d {
            if b64_val(t[2]) % 4 == 0 {
                Some(seq![b64_byte0(t[0], t[1]), b64_byte1(t[1], t[2])])
            } else {
                None
            }
        } else if is_b64_char(t[2]) && is_b64_char(t[3]) {
            Some(seq![b64_byte0(t[0], t[1]), b64_byte1(t[1], t[2]), b64_byte2(t[2], t[3])])
        } else {
            None
        }
    } else {
        if is_b64_char(t[0]) && is_b64_char(t[1]) && is_b64_char(t[2]) && is_b64_char(t[3]) {
            match b64_decode(t.skip(4)) {
                Some(rest) => Some(
                    seq![b64_byte0(t[0], t[1]), b64_byte1(t[1], t[2]), b64_byte2(t[2], t[3])]
                        + rest,
                ),
                None => None,
            }
        } else {
            None
        }
    }
}

/// The alphabet map and its inverse agree.
proof fn lemma_b64_char_val(v: int)
    requires
        0 <= v < 64,
    ensures
        is_b64_char(b64_char(v)),
        b64_val(b64_char(v)) == v,
        b64_char(v) != 0x3d,
{
}

/// Encoded output comes in whole blocks.
proof fn lemma_encode_len(s: Seq<u8>)
    ensures
        b64_encode(s).len() % 4 == 0,
        s.len() > 0 ==> b64_encode(s).len() >= 4,
    decreases s.len(),
{
    if s.len() >= 3 {
        lemma_encode_len(s.skip(3));
        assert(b64_encode(s).len() == 4 + b64_encode(s.skip(3)).len());
    }
}

/// Decoding inverts encoding: every cursor survives the trip to the wire
/// and back.
pub proof fn lemma_token_round_trip(s: Seq<u8>)
    ensures
        b64_decode(b64_encode(s)) == Some(s),
    decreases s.len(),
{
    let t = b64_encode(s);
    if s.len() == 0 {
        assert(b64_decode(t) == Some(Seq::<u8>::empty()));
        assert(Seq::<u8>::empty() =~= s);
    } else if s.len() == 1 {
        lemma_b64_char_val((s[0] / 4) as int);
        lemma_b64_char_val(((s[0] % 4) * 16) as int);
        assert(b64_val(t[1]) % 16 == 0);
        assert(b64_byte0(t[0], t[1]) == s[0]);
        assert(b64_decode(t) == Some(seq![s[0]]));
        assert(seq![s[0]] =~= s);
    } else if s.len() == 2 {
        lemma_b64_char_val((s[0] / 4) as int);
        lemma_b64_char_val(((s[0] % 4) * 16 + s[1] / 16) as int);
        lemma_b64_char_val(((s[1] % 16) * 4) as int);
        assert(b64_val(t[2]) % 4 == 0);
        assert(b64_byte0(t[0], t[1]) == s[0]);
        assert(b64_byte1(t[1], t[2]) == s[1]);
        assert(b64_decode(t) == Some(seq![s[0], s[1]]));
        assert(seq![s[0], s[1]] =~= s);
    } else {
        lemma_b64_char_val((s[0] / 4) as int);
        lemma_b64_char_val(((s[0] % 4) * 16 + s[1] / 16) as int);
        lemma_b64_char_val(((s[1] % 16) * 4 + s[2] / 64) as int);
        lemma_b64_char_val((s[2] % 64) as int);
        lemma_token_round_trip(s.skip(3));
        lemma_encode_len(s.skip(3));
        let rest = b64_encode(s.skip(3));
        assert(t =~= seq![t[0], t[1], t[2], t[3]] + rest);
        assert(t.skip(4) =~= rest);
        assert(b64_byte0(t[0], t[1]) == s[0]);
        assert(b64_byte1(t[1], t[2]) == s[1]);
        assert(b64_byte2(t[2], t[3]) == s[2]);
        if s.len() == 3 {
            assert(t.len() == 4 + rest.len());
            assert(rest.len() == 0);
            assert(t.len() == 4);
            assert(is_b64_char(t[2]) && is_b64_char(t[3]));
            assert(b64_decode(t) == Some(seq![s[0], s[1], s[2]]));
            assert(seq![s[0], s[1], s[2]] =~= s);
        } else {
            assert(t.len() > 4 && t.len() % 4 == 0);
            assert(b64_decode(t.skip(4)) == Some(s.skip(3)));
            assert(b64_decode(t) == Some(seq![s[0], s[1], s[2]] + s.skip(3)));
            assert(seq![s[0], s[1], s[2]] + s.skip(3) =~= s);
        }
    }
}

/// One alphabet byte, by six-bit value.
fn b64_char_of(v: u8) -> (r: u8)
    requires
        v < 64,
    ensures
        r == b64_char(v as int),
{
    if v < 26 {
        0x41 + v
    } else if v < 52 {
        0x61 + (v - 26)
    } else if v < 62 {
        0x30 + (v - 52)
    } else if v == 62 {
        0x2b
    } else {
        0x2f
    }
}

/// Whether a byte is in the alphabet, and its value.
fn b64_val_of(c: u8) -> (r: Option<u8>)
    ensures
        match r {
            Some(v) => is_b64_char(c) && v as int == b64_val(c),
            None => !is_b64_char(c),
        },
{
    if 0x41 <= c && c <= 0x5a {
        Some(c - 0x41)
    } else if 0x61 <= c && c <= 0x7a {
        Some(c - 0x61 + 26)
    } else if 0x30 <= c && c <= 0x39 {
        Some(c - 0x30 + 52)
    } else if c == 0x2b {
        Some(62)
    } else if c == 0x2f {
        Some(63)
    } else {
        None
    }
}

/// Encode a cursor for the wire.
pub fn encode_token(cursor: &[u8]) -> (r: Vec<u8>)
    ensures
        r@ == b64_encode(cursor@),
{
    let n = cursor.len();
    let mut out: Vec<u8> = Vec::new();
    proof {
        assert(cursor@.skip(0) =~= cursor@);
        assert(Seq::<u8>::empty() + b64_encode(cursor@) =~= b64_encode(cursor@));
    }
    let mut i: usize = 0;
    while n - i >= 3
        invariant
            i <= n,
            i % 3 == 0,
            n == cursor@.len(),
            b64_encode(cursor@) == out@ + b64_encode(cursor@.skip(i as int)),
        decreases n - i,
    {
        let s0 = cursor[i];
        let s1 = cursor[i + 1];
        let s2 = cursor[i + 2];
        proof {
            assert(cursor@.skip(i as int)[0] == s0);
            assert(cursor@.skip(i as int)[1] == s1);
            assert(cursor@.skip(i as int)[2] == s2);
            assert(cursor@.skip(i as int).skip(3) =~= cursor@.skip(i + 3));
        }
        out.push(b64_char_of(s0 / 4));
        out.push(b64_char_of((s0 % 4) * 16 + s1 / 16));
        out.push(b64_char_of((s1 % 16) * 4 + s2 / 64));
        out.push(b64_char_of(s2 % 64));
        proof {
            assert(b64_encode(cursor@) =~= out@ + b64_encode(cursor@.skip(i + 3)));
        }
        i = i + 3;
    }
    if n - i == 1 {
        let s0 = cursor[i];
        proof {
            assert(cursor@.skip(i as int).len() == 1);
            assert(cursor@.skip(i as int)[0] == s0);
        }
        out.push(b64_char_of(s0 / 4));
        out.push(b64_char_of((s0 % 4) * 16));
        out.push(0x3d);
        out.push(0x3d);
        proof {
            assert(out@ =~= b64_encode(cursor@));
        }
    } else if n - i == 2 {
        let s0 = cursor[i];
        let s1 = cursor[i + 1];
        proof {
            assert(cursor@.skip(i as int).len() == 2);
            assert(cursor@.skip(i as int)[0] == s0);
            assert(cursor@.skip(i as int)[1] == s1);
        }
        out.push(b64_char_of(s0 / 4));
        out.push(b64_char_of((s0 % 4) * 16 + s1 / 16));
        out.push(b64_char_of((s1 % 16) * 4));
        out.push(0x3d);
        proof {
            assert(out@ =~= b64_encode(cursor@));
        }
    } else {
        proof {
            assert(cursor@.skip(i as int).len() == 0);
            assert(b64_encode(cursor@.skip(i as int)) =~= Seq::<u8>::empty());
            assert(out@ =~= b64_encode(cursor@));
        }
    }
    out
}

/// Decode an inbound token: canonical base64 is decoded, anything else
/// is taken as already-plaintext and returned unchanged.
pub fn decode_token(t: &[u8]) -> (r: Vec<u8>)
    ensures
        match b64_decode(t@) {
            Some(d) => r@ == d,
            None => r@ == t@,
        },
{
    let n = t.len();
    if n == 0 {
        proof {
            assert(b64_decode(t@) == Some(Seq::<u8>::empty()));
        }
        return Vec::new();
    }
    if n % 4 != 0 {
        return copy_bytes(t);
    }
    let mut out: Vec<u8> = Vec::new();
    proof {
        assert(t@.skip(0) =~= t@);
        if b64_decode(t@) is Some {
            assert(Seq::<u8>::empty() + b64_decode(t@)->0 =~= b64_decode(t@)->0);
        }
    }
    let mut i: usize = 0;
    while i < n - 4
        invariant
            i <= n - 4,
            i % 4 == 0,
            n % 4 == 0,
            n == t@.len(),
            n > 0,
            (match b64_decode(t@.skip(i as int)) {
                Some(rest) => b64_decode(t@) == Some(out@ + rest),
                None => b64_decode(t@) is None,
            }),
        decreases n - i,
    {
        let ghost blk = t@.skip(i as int);
        proof {
            assert(blk.len() == n - i);
            assert(blk.len() > 4 && blk.len() % 4 == 0);
            assert(blk[0] == t@[i as int]);
            assert(blk[1] == t@[i + 1]);
            assert(blk[2] == t@[i + 2]);
            assert(blk[3] == t@[i + 3]);
            assert(blk.skip(4) =~= t@.skip(i + 4));
        }
        let v0 = match b64_val_of(t[i]) {
            Some(v) => v,
            None => {
                return copy_bytes(t);
            },
        };
        let v1 = match b64_val_of(t[i + 1]) {
            Some(v) => v,
            None => {
                return copy_bytes(t);
            },
        };
        let v2 = match b64_val_of(t[i + 2]) {
            Some(v) => v,
            None => {
                return copy_bytes(t);
            },
        };
        let v3 = match b64_val_of(t[i + 3]) {
            Some(v) => v,
            None => {
                return copy_bytes(t);
            },
        };
        out.push(v0 * 4 + v1 / 16);
        out.push((v1 % 16) * 16 + v2 / 4);
        out.push((v2 % 4) * 64 + v3);
        proof {
            if b64_decode(t@.skip(i + 4)) is Some {
                assert(b64_decode(blk) == Some(
                    seq![b64_byte0(blk[0], blk[1]), b64_byte1(blk[1], blk[2]), b64_byte2(
                        blk[2],
                        blk[3],
                    )] + b64_decode(t@.skip(i + 4))->0,
                ));
                assert(out@ + b64_decode(t@.skip(i + 4))->0 =~= out@.subrange(0, out@.len() - 3)
                    + b64_decode(blk)->0);
            }
        }
        i = i + 4;
    }
    proof {
        assert(i + 4 == n);
        assert(t@.skip(i as int).len() == 4);
    }
    let ghost blk = t@.skip(i as int);
    proof {
        assert(blk[0] == t@[i as int]);
        assert(blk[1] == t@[i + 1]);
        assert(blk[2] == t@[i + 2]);
        assert(blk[3] == t@[i + 3]);
    }
    let v0 = match b64_val_of(t[i]) {
        Some(v) => v,
        None => {
            return copy_bytes(t);
        },
    };
    let v1 = match b64_val_of(t[i + 1]) {
        Some(v) => v,
        None => {
            return copy_bytes(t);
        },
    };
    let c2 = t[i + 2];
    let c3 = t[i + 3];
    if c2 == 0x3d && c3 == 0x3d {
        if v1 % 16 != 0 {
            return copy_bytes(t);
        }
        out.push(v0 * 4 + v1 / 16);
        proof {
            assert(b64_decode(blk) == Some(seq![b64_byte0(blk[0], blk[1])]));
        }
        return out;
    }
    let v2 = match b64_val_of(c2) {
        Some(v) => v,
        None => {
            proof {
                assert(!(c2 == 0x3d && c3 == 0x3d));
                assert(b64_decode(blk) is None);
            }
            return copy_bytes(t);
        },
    };
    if c3 == 0x3d {
        if v2 % 4 != 0 {
            return copy_bytes(t);
        }
        out.push(v0 * 4 + v1 / 16);
        out.push((v1 % 16) * 16 + v2 / 4);
        proof {
            assert(b64_decode(blk) == Some(
                seq![b64_byte0(blk[0], blk[1]), b64_byte1(blk[1], blk[2])],
            ));
        }
        return out;
    }
    let v3 = match b64_val_of(c3) {
        Some(v) => v,
        None => {
            return copy_bytes(t);
        },
    };
    out.push(v0 * 4 + v1 / 16);
    out.push((v1 % 16) * 16 + v2 / 4);
    out.push((v2 % 4) * 64 + v3);
    proof {
        assert(b64_decode(blk) == Some(
            seq![b64_byte0(blk[0], blk[1]), b64_byte1(blk[1], blk[2]), b64_byte2(blk[2], blk[3])],
        ));
    }
    out
}

} // verus!

//! Payload digests and entity tags.
//!
//! The store addresses payload content by its MD5 digest: the entity tag of
//! an object is the lowercase hex rendering of the MD5 of its payload bytes,
//! and the on-disk shard directories are derived from an MD5 as well. The
//! digest itself comes from the `md5` crate behind trusted wrappers; what it
//! returns is named `md5_of`, and everything downstream (hex rendering, tag
//! assembly, size accounting) is verified against that name.

use vstd::prelude::*;

verus! {

/// The MD5 digest (16 bytes) of a byte sequence, as the `md5` crate
/// computes it. The digest depends on the input bytes alone.
pub uninterp spec fn md5_of(data: Seq<u8>) -> Seq<u8>;

/// The bytes a digest context has consumed so far.
pub uninterp spec fn digest_input(c: md5::Context) -> Seq<u8>;

#[verifier::external_type_specification]
#[verifier::external_body]
pub struct ExMd5Context(md5::Context);

/// Relies on md5::Context::new: a fresh context has consumed nothing.
#[verifier::external_body]
fn md5_context_new() -> (c: md5::Context)
    ensures
        digest_input(c) == Seq::<u8>::empty(),
{
    md5::Context::new()
}

/// Relies on md5::Context::consume: it appends `data` to the bytes the
/// context has consumed.
#[verifier::external_body]
fn md5_context_consume(c: &mut md5::Context, data: &[u8])
    ensures
        digest_input(*final(c)) == digest_input(*old(c)) + data@,
{
    c.consume(data);
}

/// Relies on md5::Context::compute: it finalizes the context and returns
/// the 16-byte MD5 digest of everything consumed.
#[verifier::external_body]
fn md5_context_finish(c: md5::Context) -> (r: Vec<u8>)
    ensures
        r@ == md5_of(digest_input(c)),
        r@.len() == 16,
{
    let digest = c.compute();
    digest.0.to_vec()
}

/// The lowercase hex character (as an ASCII byte) for a value below 16.
pub open spec fn hex_digit(v: u8) -> u8
    recommends
        v < 16,
{
    if v < 10 {
        (0x30 + v) as u8
    } else {
        (0x57 + v) as u8
    }
}

/// The lowercase hex rendering of a byte sequence, two digits per byte.
pub open spec fn hex_of(data: Seq<u8>) -> Seq<u8>
    decreases data.len(),
{
    if data.len() == 0 {
        Seq::<u8>::empty()
    } else {
        seq![hex_digit(data[0] / 16), hex_digit(data[0] % 16)] + hex_of(data.drop_first())
    }
}

/// The entity tag of a payload: lowercase hex of its MD5 digest.
pub open spec fn etag_of(payload: Seq<u8>) -> Seq<u8> {
    hex_of(md5_of(payload))
}

proof fn lemma_hex_of_push(data: Seq<u8>, b: u8)
    ensures
        hex_of(data.push(b)) == hex_of(data) + seq![hex_digit(b / 16), hex_digit(b % 16)],
    decreases data.len(),
{
    if data.len() == 0 {
        assert(data.push(b).drop_first() =~= Seq::<u8>::empty());
        assert(data.push(b)[0] == b);
        assert(hex_of(Seq::<u8>::empty()) == Seq::<u8>::empty());
        assert(hex_of(data.push(b)) == seq![hex_digit(b / 16), hex_digit(b % 16)] + hex_of(
            data.push(b).drop_first(),
        ));
        assert(hex_of(data.push(b)) =~= hex_of(data) + seq![
            hex_digit(b / 16),
            hex_digit(b % 16),
        ]);
    } else {
        assert(data.push(b).drop_first() =~= data.drop_first().push(b));
        assert(data.push(b)[0] == data[0]);
        lemma_hex_of_push(data.drop_first(), b);
        assert(hex_of(data.push(b)) =~= hex_of(data) + seq![
            hex_digit(b / 16),
            hex_digit(b % 16),
        ]);
    }
}

/// Render a byte slice as lowercase hex, two digits per byte.
pub fn to_hex(data: &[u8]) -> (r: Vec<u8>)
    ensures
        r@ == hex_of(data@),
{
    let mut out: Vec<u8> = Vec::new();
    let mut i: usize = 0;
    while i < data.len()
        invariant
            i <= data@.len(),
            out@ == hex_of(data@.take(i as int)),
        decreases data@.len() - i,
    {
        let b = data[i];
        let hi = b / 16;
        let lo = b % 16;
        let hi_ch: u8 = if hi < 10 {
            0x30 + hi
        } else {
            0x57 + hi
        };
        let lo_ch: u8 = if lo < 10 {
            0x30 + lo
        } else {
            0x57 + lo
        };
        out.push(hi_ch);
        out.push(lo_ch);
        proof {
            assert(data@.take(i + 1 as int).drop_last() =~= data@.take(i as int));
            assert(data@.take(i + 1 as int) =~= data@.take(i as int).push(data@[i as int]));
            lemma_hex_of_push(data@.take(i as int), data@[i as int]);
        }
        i = i + 1;
    }
    proof {
        assert(data@.take(data@.len() as int) =~= data@);
    }
    out
}

/// Compute the raw 16-byte MD5 digest of a byte slice.
pub fn md5_bytes(data: &[u8]) -> (r: Vec<u8>)
    ensures
        r@ == md5_of(data@),
        r@.len() == 16,
{
    let mut ctx = md5_context_new();
    md5_context_consume(&mut ctx, data);
    proof {
        assert(digest_input(ctx) =~= data@);
    }
    md5_context_finish(ctx)
}

/// Compute the lowercase hex MD5 of a byte slice in one call.
pub fn md5_hex(data: &[u8]) -> (r: Vec<u8>)
    ensures
        r@ == hex_of(md5_of(data@)),
{
    let digest = md5_bytes(data);
    to_hex(digest.as_slice())
}

/// Streaming digest of an upload: accumulates the running MD5 and the byte
/// count while payload chunks arrive, and yields the entity tag and size at
/// the end.
pub struct PayloadDigest {
    ctx: md5::Context,
    size: u64,
    fed: Ghost<Seq<u8>>,
}

impl PayloadDigest {
    /// The bytes consumed so far.
    pub closed spec fn bytes(&self) -> Seq<u8> {
        self.fed@
    }

    /// The context and the count agree with the bytes consumed.
    pub closed spec fn wf(&self) -> bool {
        &&& digest_input(self.ctx) == self.fed@
        &&& self.size == self.fed@.len()
    }

    /// Start an accumulation with nothing consumed.
    pub fn new() -> (d: PayloadDigest)
        ensures
            d.wf(),
            d.bytes() == Seq::<u8>::empty(),
    {
        PayloadDigest { ctx: md5_context_new(), size: 0, fed: Ghost(Seq::empty()) }
    }

    /// Consume one chunk of the payload stream.
    pub fn push_chunk(&mut self, chunk: &[u8])
        requires
            old(self).wf(),
            old(self).bytes().len() + chunk@.len() <= u64::MAX,
        ensures
            final(self).wf(),
            final(self).bytes() == old(self).bytes() + chunk@,
    {
        md5_context_consume(&mut self.ctx, chunk);
        self.size = self.size + chunk.len() as u64;
        proof {
            self.fed@ = self.fed@ + chunk@;
        }
    }

    /// The number of bytes consumed so far.
    pub fn size(&self) -> (n: u64)
        requires
            self.wf(),
        ensures
            n == self.bytes().len(),
    {
        self.size
    }

    /// Finalize: the entity tag and the size of the whole payload.
    pub fn finish(self) -> (r: (Vec<u8>, u64))
        requires
            self.wf(),
        ensures
            r.0@ == etag_of(self.bytes()),
            r.1 == self.bytes().len(),
    {
        let size = self.size;
        let digest = md5_context_finish(self.ctx);
        let tag = to_hex(digest.as_slice());
        (tag, size)
    }
}

} // verus!

//! Composes the `cipher` module into a CBC-mode streaming cipher: a
//! `Writer` that encrypts bytes on their way to a sink, and a `Reader`
//! that decrypts bytes pulled from a source.
use vstd::prelude::*;

use crate::cipher::{spec_decipher, spec_encipher};
use crate::mem::{lemma_block_bytes_roundtrip, spec_block_from_bytes, spec_block_to_bytes};
use crate::Key;

pub use self::reader::Reader;
pub use self::writer::Writer;

mod reader;
mod writer;

verus! {

/// The errors the streaming cipher reports.
#[derive(Clone, Copy, Debug, PartialEq, Eq, Structural)]
pub enum Error {
    /// `flush` was called while a partial plaintext block was buffered.
    NotBlockAligned,
    /// The sink refused ciphertext that was already computed; the chain
    /// has advanced, so the bytes cannot be recomputed.
    ShortWrite,
    /// The source delivered a non-empty chunk shorter than one block.
    TruncatedCiphertext,
    /// The final block's padding count was not between 1 and 8.
    BadPadding,
    /// An error of the underlying transport.
    Io,
}

/// A byte sink: accepts some prefix of each buffer offered to it.
/// Stands for whatever transport the ciphertext is written to.
pub trait Sink {
    /// All bytes the sink has accepted so far.  A transport that no
    /// proof inspects may leave the default, which models no byte as
    /// ever accepted.
    open spec fn bytes(&self) -> Seq<u8> {
        Seq::empty()
    }

    /// Offers `data`; the sink accepts some prefix of it and reports the
    /// prefix's length.
    fn write(&mut self, data: &[u8]) -> (r: Result<usize, Error>)
        ensures
            match r {
                Ok(n) => n <= data@.len() && final(self).bytes() == old(self).bytes() + data@.take(
                    n as int,
                ),
                Err(_) => final(self).bytes() == old(self).bytes(),
            },
    ;

    /// Pushes buffered bytes onward; accepted bytes are unchanged.
    fn flush(&mut self) -> (r: Result<(), Error>)
        ensures
            final(self).bytes() == old(self).bytes(),
    ;
}

/// A byte source: yields the stream's bytes in chunks of its choosing.
/// Stands for whatever transport the ciphertext is read from.
pub trait Source {
    /// The bytes not yet consumed.  A transport that no proof inspects
    /// may leave the default, which models an exhausted source.
    open spec fn bytes(&self) -> Seq<u8> {
        Seq::empty()
    }

    /// Shows some non-empty prefix of the remaining bytes without
    /// consuming them; an empty chunk means the source is exhausted.
    fn fill(&mut self) -> (r: Result<Vec<u8>, Error>)
        ensures
            final(self).bytes() == old(self).bytes(),
            match r {
                Ok(c) => c@.len() <= old(self).bytes().len() && c@ == old(self).bytes().take(c@.len() as int)
                    && (c@.len() == 0 <==> old(self).bytes().len() == 0),
                Err(_) => true,
            },
    ;

    /// Consumes the first `amt` remaining bytes.
    fn consume(&mut self, amt: usize)
        requires
            amt <= old(self).bytes().len(),
        ensures
            final(self).bytes() == old(self).bytes().skip(amt as int),
    ;
}

/// A sink that collects everything into a vector; it never refuses bytes.
pub struct VecSink {
    data: Vec<u8>,
}

impl VecSink {
    /// An empty sink.
    pub fn new() -> (s: VecSink)
        ensures
            s.bytes() == Seq::<u8>::empty(),
    {
        VecSink { data: Vec::new() }
    }

    /// Hands the collected bytes out.
    pub fn into_vec(self) -> (v: Vec<u8>)
        ensures
            v@ == self.bytes(),
    {
        self.data
    }
}

impl Sink for VecSink {
    closed spec fn bytes(&self) -> Seq<u8> {
        self.data@
    }

    fn write(&mut self, data: &[u8]) -> (r: Result<usize, Error>)
        ensures
            r == Ok::<usize, Error>(data@.len() as usize),
    {
        let mut i: usize = 0;
        while i < data.len()
            invariant
                i <= data@.len(),
                self.data@ == old(self).data@ + data@.take(i as int),
            decreases data@.len() - i,
        {
            proof {
                assert(data@.take(i + 1) =~= data@.take(i as int).push(data@[i as int]));
            }
            self.data.push(data[i]);
            i = i + 1;
        }
        proof {
            assert(data@.take(data@.len() as int) =~= data@);
        }
        Ok(data.len())
    }

    fn flush(&mut self) -> (r: Result<(), Error>) {
        Ok(())
    }
}

/// A source that serves the bytes of a vector.
pub struct VecSource {
    data: Vec<u8>,
}

impl VecSource {
    /// A source holding exactly `data`.
    pub fn new(data: Vec<u8>) -> (s: VecSource)
        ensures
            s.bytes() == data@,
    {
        VecSource { data }
    }
}

impl Source for VecSource {
    closed spec fn bytes(&self) -> Seq<u8> {
        self.data@
    }

    fn fill(&mut self) -> (r: Result<Vec<u8>, Error>) {
        let mut c: Vec<u8> = Vec::new();
        let mut i: usize = 0;
        while i < self.data.len()
            invariant
                i <= self.data@.len(),
                c@ == self.data@.take(i as int),
                self.data@ == old(self).data@,
            decreases self.data@.len() - i,
        {
            proof {
                assert(self.data@.take(i + 1) =~= self.data@.take(i as int).push(
                    self.data@[i as int],
                ));
            }
            c.push(self.data[i]);
            i = i + 1;
        }
        Ok(c)
    }

    fn consume(&mut self, amt: usize) {
        let rest = self.data.split_off(amt);
        self.data = rest;
    }
}

/// Appends the bytes `src[from..to]` to `dst`.
pub(crate) fn push_range(dst: &mut Vec<u8>, src: &[u8], from: usize, to: usize)
    requires
        from <= to <= src@.len(),
    ensures
        final(dst)@ == old(dst)@ + src@.subrange(from as int, to as int),
{
    let ghost base = dst@;
    let mut i: usize = from;
    while i < to
        invariant
            from <= i <= to <= src@.len(),
            dst@ == base + src@.subrange(from as int, i as int),
        decreases to - i,
    {
        proof {
            assert(src@.subrange(from as int, i + 1) =~= src@.subrange(from as int, i as int).push(
                src@[i as int],
            ));
        }
        dst.push(src[i]);
        i = i + 1;
    }
    proof {
        assert(dst@ == base + src@.subrange(from as int, to as int));
    }
}

/// The enciphered block that extends a ciphertext whose chain value is
/// `prev` when the plaintext block `p` arrives.
pub open spec fn spec_encrypt_step(key: Key, prev: (u32, u32), p: (u32, u32)) -> (u32, u32) {
    spec_encipher(key, (p.0 ^ prev.0, p.1 ^ prev.1))
}

/// CBC encryption of a block-aligned plaintext, starting from the chain
/// value `prev`.
pub open spec fn spec_cbc_encrypt(key: Key, prev: (u32, u32), pt: Seq<u8>) -> Seq<u8>
    recommends
        pt.len() % 8 == 0,
    decreases pt.len(),
{
    if pt.len() < 8 {
        Seq::empty()
    } else {
        let c = spec_encrypt_step(key, prev, spec_block_from_bytes(pt.take(8)));
        spec_block_to_bytes(c) + spec_cbc_encrypt(key, c, pt.skip(8))
    }
}

/// The chain value after CBC-encrypting a block-aligned plaintext: the
/// last ciphertext block produced, or `prev` where none was.
pub open spec fn spec_enc_chain(key: Key, prev: (u32, u32), pt: Seq<u8>) -> (u32, u32)
    recommends
        pt.len() % 8 == 0,
    decreases pt.len(),
{
    if pt.len() < 8 {
        prev
    } else {
        let c = spec_encrypt_step(key, prev, spec_block_from_bytes(pt.take(8)));
        spec_enc_chain(key, c, pt.skip(8))
    }
}

/// CBC decryption of a block-aligned ciphertext, starting from the chain
/// value `prev`.
pub open spec fn spec_cbc_decrypt(key: Key, prev: (u32, u32), ct: Seq<u8>) -> Seq<u8>
    recommends
        ct.len() % 8 == 0,
    decreases ct.len(),
{
    if ct.len() < 8 {
        Seq::empty()
    } else {
        let c = spec_block_from_bytes(ct.take(8));
        let d = spec_decipher(key, c);
        spec_block_to_bytes((d.0 ^ prev.0, d.1 ^ prev.1)) + spec_cbc_decrypt(key, c, ct.skip(8))
    }
}

/// The chain value after CBC-decrypting a block-aligned ciphertext: the
/// last ciphertext block received, or `prev` where none was.
pub open spec fn spec_dec_chain(prev: (u32, u32), ct: Seq<u8>) -> (u32, u32)
    recommends
        ct.len() % 8 == 0,
    decreases ct.len(),
{
    if ct.len() < 8 {
        prev
    } else {
        spec_dec_chain(spec_block_from_bytes(ct.take(8)), ct.skip(8))
    }
}

/// How many padding bytes a plaintext of length `n` receives: always
/// between 1 and 8, so the trailer is never empty.
pub open spec fn spec_pad_len(n: nat) -> nat {
    (8 - (n % 8)) as nat
}

/// The plaintext with its self-describing trailer: `pad` copies of the
/// byte value `pad`.
pub open spec fn spec_pad(pt: Seq<u8>) -> Seq<u8> {
    pt + Seq::new(spec_pad_len(pt.len()), |i: int| spec_pad_len(pt.len()) as u8)
}

/// Whether a decrypted stream ends in a well-formed trailer.
pub open spec fn spec_pad_valid(s: Seq<u8>) -> bool {
    &&& s.len() > 0
    &&& s.len() % 8 == 0
    &&& 1 <= s.last() <= 8
}

/// The decrypted stream with its trailer removed: the final byte says how
/// many bytes to drop.
pub open spec fn spec_unpad(s: Seq<u8>) -> Seq<u8>
    recommends
        spec_pad_valid(s),
{
    s.take(s.len() - s.last() as int)
}

/// Padding a plaintext always yields a non-empty block-aligned stream
/// with a valid trailer, and removing the trailer gives the plaintext
/// back.
pub proof fn lemma_pad_roundtrip(pt: Seq<u8>)
    ensures
        spec_pad(pt).len() == pt.len() + spec_pad_len(pt.len()),
        1 <= spec_pad_len(pt.len()) <= 8,
        spec_pad(pt).len() % 8 == 0,
        spec_pad_valid(spec_pad(pt)),
        spec_unpad(spec_pad(pt)) == pt,
{
    let pad = spec_pad_len(pt.len());
    let s = spec_pad(pt);
    assert(s.last() == pad as u8);
    assert(s.take(s.len() - pad) =~= pt);
}

/// The ciphertext of a stream is its plaintext's length plus the pad
/// count, with the pad count between 1 and 8; it is never empty and
/// always a multiple of the block size.
pub proof fn lemma_ciphertext_len(key: Key, iv: (u32, u32), pt: Seq<u8>)
    ensures
        spec_cbc_encrypt(key, iv, spec_pad(pt)).len() == pt.len() + spec_pad_len(pt.len()),
        1 <= spec_pad_len(pt.len()) <= 8,
        spec_cbc_encrypt(key, iv, spec_pad(pt)).len() % 8 == 0,
        spec_cbc_encrypt(key, iv, spec_pad(pt)).len() > 0,
{
    lemma_pad_roundtrip(pt);
    lemma_cbc_encrypt_len(key, iv, spec_pad(pt));
}

/// XOR-ing a word twice with the same word gives it back.
proof fn lemma_xor_cancel(x: u32, y: u32)
    ensures
        (x ^ y) ^ y == x,
{
    assert((x ^ y) ^ y == x) by (bit_vector);
}

/// CBC encryption keeps the stream's length.
pub proof fn lemma_cbc_encrypt_len(key: Key, prev: (u32, u32), pt: Seq<u8>)
    requires
        pt.len() % 8 == 0,
    ensures
        spec_cbc_encrypt(key, prev, pt).len() == pt.len(),
    decreases pt.len(),
{
    lemma_block_bytes_roundtrip();
    if pt.len() >= 8 {
        let c = spec_encrypt_step(key, prev, spec_block_from_bytes(pt.take(8)));
        lemma_cbc_encrypt_len(key, c, pt.skip(8));
    }
}

/// CBC decryption keeps the stream's length.
pub proof fn lemma_cbc_decrypt_len(key: Key, prev: (u32, u32), ct: Seq<u8>)
    requires
        ct.len() % 8 == 0,
    ensures
        spec_cbc_decrypt(key, prev, ct).len() == ct.len(),
    decreases ct.len(),
{
    lemma_block_bytes_roundtrip();
    if ct.len() >= 8 {
        let c = spec_block_from_bytes(ct.take(8));
        lemma_cbc_decrypt_len(key, c, ct.skip(8));
    }
}

/// Extending a block-aligned plaintext by one block appends one
/// enciphered block to the ciphertext and advances the chain to it.
pub proof fn lemma_cbc_encrypt_snoc(key: Key, prev: (u32, u32), pt: Seq<u8>, block: Seq<u8>)
    requires
        pt.len() % 8 == 0,
        block.len() == 8,
    ensures
        spec_cbc_encrypt(key, prev, pt + block) == spec_cbc_encrypt(key, prev, pt)
            + spec_block_to_bytes(
            spec_encrypt_step(key, spec_enc_chain(key, prev, pt), spec_block_from_bytes(block)),
        ),
        spec_enc_chain(key, prev, pt + block) == spec_encrypt_step(
            key,
            spec_enc_chain(key, prev, pt),
            spec_block_from_bytes(block),
        ),
    decreases pt.len(),
{
    if pt.len() < 8 {
        assert(pt + block =~= block);
        assert(block.take(8) =~= block);
        assert(block.skip(8) =~= Seq::<u8>::empty());
        let c = spec_encrypt_step(key, prev, spec_block_from_bytes(block));
        assert(spec_cbc_encrypt(key, c, block.skip(8)) == Seq::<u8>::empty());
        assert(spec_enc_chain(key, c, block.skip(8)) == c);
        assert(spec_cbc_encrypt(key, prev, block) == spec_block_to_bytes(c) + Seq::<u8>::empty());
        assert(spec_enc_chain(key, prev, block) == c);
        assert(spec_block_to_bytes(c) + Seq::<u8>::empty() =~= spec_block_to_bytes(c));
        assert(spec_cbc_encrypt(key, prev, pt) + spec_block_to_bytes(c) =~= spec_block_to_bytes(c));
    } else {
        let c = spec_encrypt_step(key, prev, spec_block_from_bytes(pt.take(8)));
        assert((pt + block).take(8) =~= pt.take(8));
        assert((pt + block).skip(8) =~= pt.skip(8) + block);
        lemma_cbc_encrypt_snoc(key, c, pt.skip(8), block);
        assert(spec_cbc_encrypt(key, prev, pt + block) =~= spec_cbc_encrypt(key, prev, pt)
            + spec_block_to_bytes(
            spec_encrypt_step(key, spec_enc_chain(key, prev, pt), spec_block_from_bytes(block)),
        ));
    }
}

/// Extending a block-aligned ciphertext by one block appends one
/// deciphered block to the plaintext and advances the chain to the new
/// ciphertext block.
pub proof fn lemma_cbc_decrypt_snoc(key: Key, prev: (u32, u32), ct: Seq<u8>, block: Seq<u8>)
    requires
        ct.len() % 8 == 0,
        block.len() == 8,
    ensures
        spec_cbc_decrypt(key, prev, ct + block) == spec_cbc_decrypt(key, prev, ct) + ({
            let d = spec_decipher(key, spec_block_from_bytes(block));
            let ch = spec_dec_chain(prev, ct);
            spec_block_to_bytes((d.0 ^ ch.0, d.1 ^ ch.1))
        }),
        spec_dec_chain(prev, ct + block) == spec_block_from_bytes(block),
    decreases ct.len(),
{
    if ct.len() < 8 {
        assert(ct + block =~= block);
        assert(block.take(8) =~= block);
        assert(block.skip(8) =~= Seq::<u8>::empty());
        let c = spec_block_from_bytes(block);
        let d = spec_decipher(key, c);
        let out = spec_block_to_bytes((d.0 ^ prev.0, d.1 ^ prev.1));
        assert(spec_cbc_decrypt(key, c, block.skip(8)) == Seq::<u8>::empty());
        assert(spec_dec_chain(c, block.skip(8)) == c);
        assert(spec_cbc_decrypt(key, prev, block) == out + Seq::<u8>::empty());
        assert(spec_dec_chain(prev, block) == c);
        assert(out + Seq::<u8>::empty() =~= out);
        assert(spec_cbc_decrypt(key, prev, ct) + out =~= out);
    } else {
        let c = spec_block_from_bytes(ct.take(8));
        assert((ct + block).take(8) =~= ct.take(8));
        assert((ct + block).skip(8) =~= ct.skip(8) + block);
        lemma_cbc_decrypt_snoc(key, c, ct.skip(8), block);
        assert(spec_cbc_decrypt(key, prev, ct + block) =~= spec_cbc_decrypt(key, prev, ct) + ({
            let d = spec_decipher(key, spec_block_from_bytes(block));
            let ch = spec_dec_chain(prev, ct);
            spec_block_to_bytes((d.0 ^ ch.0, d.1 ^ ch.1))
        }));
    }
}

/// CBC decryption undoes CBC encryption, block by block, for every key,
/// chain value and block-aligned plaintext.
pub proof fn lemma_cbc_roundtrip(key: Key, prev: (u32, u32), pt: Seq<u8>)
    requires
        pt.len() % 8 == 0,
    ensures
        spec_cbc_decrypt(key, prev, spec_cbc_encrypt(key, prev, pt)) == pt,
    decreases pt.len(),
{
    lemma_block_bytes_roundtrip();
    if pt.len() < 8 {
        assert(pt =~= Seq::<u8>::empty());
    } else {
        let p = spec_block_from_bytes(pt.take(8));
        let w0 = p.0;
        let w1 = p.1;
        let c = spec_encrypt_step(key, prev, p);
        let cb = spec_block_to_bytes(c);
        let ct = spec_cbc_encrypt(key, prev, pt);
        assert(ct.take(8) =~= cb);
        assert(ct.skip(8) =~= spec_cbc_encrypt(key, c, pt.skip(8)));
        crate::cipher::lemma_decipher_encipher(key, (w0 ^ prev.0, w1 ^ prev.1));
        lemma_xor_cancel(w0, prev.0);
        lemma_xor_cancel(w1, prev.1);
        lemma_cbc_roundtrip(key, c, pt.skip(8));
        assert(ct.len() >= 8);
        assert(spec_cbc_decrypt(key, prev, ct) =~= pt.take(8) + pt.skip(8));
        assert(pt.take(8) + pt.skip(8) =~= pt);
    }
}

/// The round trip of the whole stream: padding, CBC encryption, CBC
/// decryption and trailer removal give the plaintext back, for every
/// key, chain seed and plaintext.
pub proof fn lemma_stream_roundtrip(key: Key, iv: (u32, u32), pt: Seq<u8>)
    ensures
        spec_pad_valid(spec_cbc_decrypt(key, iv, spec_cbc_encrypt(key, iv, spec_pad(pt)))),
        spec_unpad(spec_cbc_decrypt(key, iv, spec_cbc_encrypt(key, iv, spec_pad(pt)))) == pt,
{
    lemma_pad_roundtrip(pt);
    lemma_cbc_roundtrip(key, iv, spec_pad(pt));
}

} // verus!

//! The encrypting half of the streaming cipher: buffers plaintext,
//! enciphers each full block under CBC chaining, forwards the ciphertext
//! to a sink that may accept it only partially, and pads the stream on
//! `close`.
use vstd::prelude::*;

use crate::cipher::encipher;
use crate::io::{
    lemma_cbc_encrypt_snoc, push_range, spec_cbc_encrypt, spec_enc_chain, spec_encrypt_step,
    spec_pad, spec_pad_len, Error, Sink,
};
use crate::mem::{read_block, spec_block_from_bytes, spec_block_to_bytes, write_block};
use crate::{Block, Key};
use vstd::arithmetic::div_mod::{lemma_add_mod_noop, lemma_small_mod};

verus! {

/// Enciphers one full block: XORs it with the chain value, runs the
/// cipher, and advances the chain to the new ciphertext block.
pub(crate) fn encrypt_chunk(key: &Key, prev: &mut Block, chunk: &[u8]) -> (out: Vec<u8>)
    requires
        chunk@.len() == 8,
    ensures
        ({
            let c = spec_encrypt_step(
                *key,
                (old(prev)@[0], old(prev)@[1]),
                spec_block_from_bytes(chunk@),
            );
            &&& out@ == spec_block_to_bytes(c)
            &&& out@.len() == 8
            &&& (final(prev)@[0], final(prev)@[1]) == c
        }),
{
    let b = read_block(chunk);
    let x: Block = [b[0] ^ prev[0], b[1] ^ prev[1]];
    let e = encipher(key, &x);
    *prev = e;
    write_block(prev)
}

/// Wraps a byte sink so that bytes written to the wrapper are encrypted
/// on their way through.  `close` must be called when writing is done, to
/// append the padding block.
pub struct Writer<S: Sink> {
    sink: S,
    key: Key,
    prev: Block,
    buf: Vec<u8>,
    enc_buf: Vec<u8>,
    iv: Ghost<(u32, u32)>,
    accepted: Ghost<Seq<u8>>,
    base: Ghost<Seq<u8>>,
}

impl<S: Sink> Writer<S> {
    /// The key the writer encrypts with.
    pub closed spec fn key_view(self) -> Key {
        self.key
    }

    /// The initialization vector the chain was seeded with.
    pub closed spec fn iv_view(self) -> (u32, u32) {
        self.iv@
    }

    /// All plaintext bytes the writer has accepted so far.
    pub closed spec fn accepted_view(self) -> Seq<u8> {
        self.accepted@
    }

    /// What the sink held when the writer was constructed.
    pub closed spec fn base_view(self) -> Seq<u8> {
        self.base@
    }

    /// The bytes the sink has accepted.
    pub closed spec fn sink_view(self) -> Seq<u8> {
        self.sink.bytes()
    }

    /// The buffered partial plaintext block, not yet enciphered.
    pub closed spec fn buffered_view(self) -> Seq<u8> {
        self.buf@
    }

    /// Ciphertext already computed but not yet accepted by the sink.
    pub closed spec fn pending_view(self) -> Seq<u8> {
        self.enc_buf@
    }

    /// The accepted plaintext that has already been enciphered: all of it
    /// but the buffered partial block.
    pub closed spec fn processed(self) -> Seq<u8> {
        self.accepted@.take(self.accepted@.len() - self.buf@.len())
    }

    /// The writer's invariant: the buffer holds less than one block, it
    /// is exactly the unprocessed tail of the accepted plaintext, the
    /// chain value matches the processed plaintext, and the sink together
    /// with the pending ciphertext holds exactly the CBC encryption of
    /// the processed plaintext.
    pub closed spec fn inv(self) -> bool {
        &&& self.buf@.len() < 8
        &&& self.buf@.len() <= self.accepted@.len()
        &&& (self.accepted@.len() - self.buf@.len()) % 8 == 0
        &&& self.accepted@.skip(self.accepted@.len() - self.buf@.len()) == self.buf@
        &&& (self.prev@[0], self.prev@[1]) == spec_enc_chain(self.key, self.iv@, self.processed())
        &&& self.sink.bytes() + self.enc_buf@ == self.base@ + spec_cbc_encrypt(
            self.key,
            self.iv@,
            self.processed(),
        )
    }

    /// Wraps `sink` in a writer that encrypts with the given `key` and
    /// `iv` (initialization vector).
    pub fn new(sink: S, key: Key, iv: Block) -> (w: Writer<S>)
        ensures
            w.inv(),
            w.key_view() == key,
            w.iv_view() == (iv@[0], iv@[1]),
            w.accepted_view() == Seq::<u8>::empty(),
            w.base_view() == sink.bytes(),
            w.sink_view() == sink.bytes(),
            w.buffered_view() == Seq::<u8>::empty(),
            w.pending_view() == Seq::<u8>::empty(),
    {
        let ghost base = sink.bytes();
        let w = Writer {
            sink,
            key,
            prev: iv,
            buf: Vec::new(),
            enc_buf: Vec::new(),
            iv: Ghost((iv@[0], iv@[1])),
            accepted: Ghost(Seq::empty()),
            base: Ghost(base),
        };
        proof {
            assert(w.processed() =~= Seq::<u8>::empty());
            assert(w.sink.bytes() + w.enc_buf@ =~= w.base@ + spec_cbc_encrypt(
                w.key,
                w.iv@,
                w.processed(),
            ));
        }
        w
    }

    /// Offers the pending ciphertext to the sink.  `Ok(true)` means it
    /// was all accepted, `Ok(false)` that some of it remains pending.
    fn flush_enc_buf(&mut self) -> (r: Result<bool, Error>)
        requires
            old(self).inv(),
        ensures
            final(self).inv(),
            final(self).key_view() == old(self).key_view(),
            final(self).iv_view() == old(self).iv_view(),
            final(self).accepted_view() == old(self).accepted_view(),
            final(self).base_view() == old(self).base_view(),
            final(self).buffered_view() == old(self).buffered_view(),
            match r {
                Ok(true) => final(self).pending_view().len() == 0,
                Ok(false) => final(self).pending_view().len() > 0,
                Err(_) => final(self).pending_view() == old(self).pending_view()
                    && final(self).sink_view() == old(self).sink_view(),
            },
    {
        let n = match self.sink.write(self.enc_buf.as_slice()) {
            Ok(n) => n,
            Err(e) => {
                return Err(e);
            },
        };
        proof {
            assert(self.enc_buf@.take(n as int) + self.enc_buf@.skip(n as int) =~= self.enc_buf@);
            assert((self.sink.bytes() + self.enc_buf@.skip(n as int)) =~= (old(self).sink.bytes()
                + self.enc_buf@));
        }
        if n < self.enc_buf.len() {
            let rest = self.enc_buf.split_off(n);
            self.enc_buf = rest;
            Ok(false)
        } else {
            proof {
                assert(self.enc_buf@.take(n as int) =~= self.enc_buf@);
                assert(self.enc_buf@.skip(n as int) =~= Seq::<u8>::empty());
            }
            self.enc_buf.clear();
            Ok(true)
        }
    }

    /// Encrypts the bytes of `data` and passes them through to the sink.
    /// Bytes short of a block boundary are buffered until more data is
    /// written or the writer is closed.  The count returned says how many
    /// bytes of `data` were accepted; a short count means the sink is
    /// behind, and the caller must re-offer the rest.
    pub fn write(&mut self, data: &[u8]) -> (r: Result<usize, Error>)
        requires
            old(self).inv(),
        ensures
            final(self).inv(),
            final(self).key_view() == old(self).key_view(),
            final(self).iv_view() == old(self).iv_view(),
            final(self).base_view() == old(self).base_view(),
            match r {
                Ok(n) => {
                    &&& n <= data@.len()
                    &&& final(self).accepted_view() == old(self).accepted_view() + data@.take(
                        n as int,
                    )
                    &&& (n < data@.len() ==> final(self).pending_view().len() > 0)
                    &&& (old(self).pending_view().len() == 0 && data@.len() > 0 ==> n > 0)
                },
                Err(_) => final(self).accepted_view() == old(self).accepted_view(),
            },
            old(self).pending_view().len() == 0 && old(self).buffered_view().len() + data@.len()
                < 8 ==> r == Ok::<usize, Error>(data@.len() as usize),
    {
        let ghost acc0 = self.accepted@;
        if self.enc_buf.len() > 0 {
            match self.flush_enc_buf() {
                Ok(true) => {},
                Ok(false) => {
                    proof {
                        assert(acc0 + data@.take(0) =~= acc0);
                    }
                    return Ok(0);
                },
                Err(e) => {
                    return Err(e);
                },
            }
        }
        if data.len() == 0 {
            proof {
                assert(acc0 + data@.take(0) =~= acc0);
            }
            return Ok(0);
        }
        let mut written: usize = 0;

        if self.buf.len() > 0 {
            let need = 8 - self.buf.len();
            let take = if data.len() < need {
                data.len()
            } else {
                need
            };
            let ghost buf0 = self.buf@;
            push_range(&mut self.buf, data, 0, take);
            self.accepted = Ghost(self.accepted@ + data@.subrange(0, take as int));
            written = take;
            proof {
                assert(data@.subrange(0, take as int) =~= data@.take(take as int));
                assert(self.accepted@.len() - self.buf@.len() == acc0.len() - buf0.len());
                assert(self.processed() =~= old(self).processed());
                assert(self.accepted@.skip(self.accepted@.len() - self.buf@.len()) =~= self.buf@);
            }
            if self.buf.len() == 8 {
                let ghost processed0 = self.processed();
                let out = encrypt_chunk(&self.key, &mut self.prev, self.buf.as_slice());
                let ghost full_block = self.buf@;
                self.buf.clear();
                self.enc_buf = out;
                proof {
                    lemma_cbc_encrypt_snoc(self.key, self.iv@, processed0, full_block);
                    assert(self.processed() =~= self.accepted@);
                    assert(self.accepted@ =~= processed0 + full_block);
                    assert(self.accepted@.skip(self.accepted@.len() as int) =~= self.buf@);
                    assert(self.sink.bytes() + self.enc_buf@ =~= self.base@ + (spec_cbc_encrypt(
                        self.key,
                        self.iv@,
                        processed0,
                    ) + self.enc_buf@));
                }
                match self.flush_enc_buf() {
                    Ok(true) => {},
                    Ok(false) => {
                        return Ok(written);
                    },
                    Err(_) => {
                        return Ok(written);
                    },
                }
            } else {
                proof {
                    assert(take == data@.len());
                    assert(data@.take(take as int) =~= data@);
                }
                return Ok(written);
            }
        }
        while data.len() - written >= 8
            invariant
                self.inv(),
                written <= data@.len(),
                self.key == old(self).key,
                self.iv@ == old(self).iv@,
                self.base@ == old(self).base@,
                acc0 == old(self).accepted@,
                self.accepted@ == acc0 + data@.take(written as int),
                self.buf@.len() == 0,
                self.enc_buf@.len() == 0,
            decreases data@.len() - written,
        {
            let chunk = vstd::slice::slice_subrange(data, written, written + 8);
            let ghost processed0 = self.processed();
            let out = encrypt_chunk(&self.key, &mut self.prev, chunk);
            self.enc_buf = out;
            self.accepted = Ghost(self.accepted@ + chunk@);
            proof {
                lemma_cbc_encrypt_snoc(self.key, self.iv@, processed0, chunk@);
                assert(processed0 =~= acc0 + data@.take(written as int));
                assert(self.accepted@ =~= acc0 + data@.take(written + 8));
                assert(self.processed() =~= self.accepted@);
                assert(self.processed() =~= processed0 + chunk@);
                assert(self.accepted@.skip(self.accepted@.len() as int) =~= self.buf@);
                assert(self.sink.bytes() + self.enc_buf@ =~= self.base@ + (spec_cbc_encrypt(
                    self.key,
                    self.iv@,
                    processed0,
                ) + self.enc_buf@));
            }
            written = written + 8;
            match self.flush_enc_buf() {
                Ok(true) => {},
                Ok(false) => {
                    return Ok(written);
                },
                Err(_) => {
                    return Ok(written);
                },
            }
        }
        if written < data.len() {
            let ghost w0 = written as int;
            let ghost processed0 = self.processed();
            let tail = data.len();
            proof {
                assert(processed0 =~= acc0 + data@.take(w0));
            }
            push_range(&mut self.buf, data, written, tail);
            self.accepted = Ghost(self.accepted@ + data@.subrange(w0, tail as int));
            proof {
                assert(acc0 + data@.take(w0) + data@.subrange(w0, tail as int) =~= acc0
                    + data@.take(tail as int));
                assert(self.accepted@.len() - self.buf@.len() == acc0.len() + w0);
                assert(self.processed() =~= processed0);
                assert(self.accepted@.skip(self.accepted@.len() - self.buf@.len()) =~= self.buf@);
            }
            written = tail;
        }
        proof {
            assert(data@.take(data@.len() as int) =~= data@);
        }
        Ok(written)
    }

    /// Forwards a flush to the sink, after offering it any pending
    /// ciphertext.  Flushing while a partial plaintext block is buffered
    /// is an error, and leaves the writer untouched: an incomplete block
    /// cannot be enciphered without the padding that `close` appends.
    pub fn flush(&mut self) -> (r: Result<(), Error>)
        requires
            old(self).inv(),
        ensures
            final(self).inv(),
            final(self).key_view() == old(self).key_view(),
            final(self).iv_view() == old(self).iv_view(),
            final(self).base_view() == old(self).base_view(),
            final(self).accepted_view() == old(self).accepted_view(),
            final(self).buffered_view() == old(self).buffered_view(),
            old(self).buffered_view().len() > 0 ==> r == Err::<(), Error>(Error::NotBlockAligned)
                && final(self).pending_view() == old(self).pending_view()
                && final(self).sink_view() == old(self).sink_view(),
            r matches Ok(_) ==> old(self).buffered_view().len() == 0,
    {
        if self.buf.len() > 0 {
            return Err(Error::NotBlockAligned);
        }
        match self.flush_enc_buf() {
            Ok(_) => {},
            Err(e) => {
                return Err(e);
            },
        }
        self.sink.flush()
    }

    /// Appends the final self-describing padding block, writes it out,
    /// flushes the sink, and returns it.  The sink then holds exactly the
    /// CBC encryption of the padded plaintext, after whatever it held
    /// before.  Failures here are fatal: the chain has already advanced,
    /// so a refused byte cannot be recomputed.
    pub fn close(self) -> (r: Result<S, Error>)
        requires
            self.inv(),
        ensures
            match r {
                Ok(s) => s.bytes() == self.base_view() + spec_cbc_encrypt(
                    self.key_view(),
                    self.iv_view(),
                    spec_pad(self.accepted_view()),
                ),
                Err(_) => true,
            },
    {
        let mut w = self;
        match w.flush_enc_buf() {
            Ok(true) => {},
            Ok(false) => {
                return Err(Error::ShortWrite);
            },
            Err(e) => {
                return Err(e);
            },
        }
        let ghost done_pt = w.processed();
        let ghost buf0 = w.buf@;
        let pad_byte: u8 = 8 - (w.buf.len() as u8);
        proof {
            lemma_add_mod_noop(done_pt.len() as int, buf0.len() as int, 8);
            lemma_small_mod(buf0.len() as nat, 8);
            assert(w.accepted@.len() % 8 == buf0.len());
            assert(spec_pad_len(w.accepted@.len()) == 8 - buf0.len());
        }
        while w.buf.len() < 8
            invariant
                w.key == self.key,
                w.iv@ == self.iv@,
                w.base@ == self.base@,
                w.accepted@ == self.accepted@,
                (w.prev@[0], w.prev@[1]) == spec_enc_chain(w.key, w.iv@, done_pt),
                w.sink.bytes() + w.enc_buf@ == w.base@ + spec_cbc_encrypt(w.key, w.iv@, done_pt),
                w.enc_buf@.len() == 0,
                buf0.len() <= w.buf@.len() <= 8,
                w.buf@ == buf0 + Seq::new((w.buf@.len() - buf0.len()) as nat, |i: int| pad_byte),
            decreases 8 - w.buf@.len(),
        {
            w.buf.push(pad_byte);
            proof {
                assert(w.buf@ =~= buf0 + Seq::new(
                    (w.buf@.len() - buf0.len()) as nat,
                    |i: int| pad_byte,
                ));
            }
        }
        proof {
            assert(done_pt + w.buf@ =~= spec_pad(w.accepted@));
        }
        let out = encrypt_chunk(&w.key, &mut w.prev, w.buf.as_slice());
        let ghost full_block = w.buf@;
        let n = match w.sink.write(out.as_slice()) {
            Ok(n) => n,
            Err(e) => {
                return Err(e);
            },
        };
        if n != 8 {
            return Err(Error::ShortWrite);
        }
        proof {
            lemma_cbc_encrypt_snoc(w.key, w.iv@, done_pt, full_block);
            assert(out@.take(8) =~= out@);
            assert(w.sink.bytes() =~= w.base@ + spec_cbc_encrypt(
                w.key,
                w.iv@,
                spec_pad(w.accepted@),
            ));
        }
        match w.sink.flush() {
            Ok(_) => {},
            Err(e) => {
                return Err(e);
            },
        }
        Ok(w.sink)
    }
}

} // verus!

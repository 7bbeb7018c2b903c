//! The decrypting half of the streaming cipher: pulls ciphertext from a
//! source in whatever chunks it offers, deciphers block by block under
//! CBC chaining, buffers decrypted bytes for partial reads, and strips
//! the padding trailer only once the source is exhausted.
use vstd::prelude::*;

use crate::cipher::decipher;
use crate::io::{
    lemma_cbc_decrypt_len, lemma_cbc_decrypt_snoc, push_range, spec_cbc_decrypt, spec_dec_chain,
    spec_pad_valid, spec_unpad, Error, Source,
};
use crate::mem::{read_block, spec_block_from_bytes, spec_block_to_bytes, write_block};
use crate::{Block, Key};

verus! {

/// Deciphers one full ciphertext block: runs the cipher backwards, XORs
/// the result with the chain value, and advances the chain to the
/// ciphertext block just received.
pub(crate) fn decrypt_chunk(key: &Key, prev: &mut Block, chunk: &[u8]) -> (out: Vec<u8>)
    requires
        chunk@.len() == 8,
    ensures
        ({
            let c = spec_block_from_bytes(chunk@);
            let d = crate::cipher::spec_decipher(*key, c);
            &&& out@ == spec_block_to_bytes((d.0 ^ old(prev)@[0], d.1 ^ old(prev)@[1]))
            &&& out@.len() == 8
            &&& (final(prev)@[0], final(prev)@[1]) == c
        }),
{
    let b = read_block(chunk);
    let d = decipher(key, &b);
    let x: Block = [d[0] ^ prev[0], d[1] ^ prev[1]];
    *prev = b;
    write_block(&x)
}

/// Wraps a byte source so that bytes read through the wrapper are
/// decrypted on the way.  The padding trailer is removed only once the
/// source is exhausted, so no earlier block is ever mistaken for the
/// final one.
pub struct Reader<R: Source> {
    source: R,
    key: Key,
    prev: Block,
    buf: Vec<u8>,
    done: bool,
    iv: Ghost<(u32, u32)>,
    ct: Ghost<Seq<u8>>,
    delivered: Ghost<Seq<u8>>,
}

impl<R: Source> Reader<R> {
    /// The key the reader decrypts with.
    pub closed spec fn key_view(self) -> Key {
        self.key
    }

    /// The initialization vector the chain was seeded with.
    pub closed spec fn iv_view(self) -> (u32, u32) {
        self.iv@
    }

    /// All plaintext bytes handed to the caller so far.
    pub closed spec fn delivered_view(self) -> Seq<u8> {
        self.delivered@
    }

    /// Decrypted bytes not yet handed to the caller.
    pub closed spec fn buffered_view(self) -> Seq<u8> {
        self.buf@
    }

    /// The ciphertext consumed from the source so far.
    pub closed spec fn ct_view(self) -> Seq<u8> {
        self.ct@
    }

    /// The bytes the source still holds.
    pub closed spec fn src_view(self) -> Seq<u8> {
        self.source.bytes()
    }

    /// Whether the source was exhausted and the padding trailer removed.
    pub closed spec fn is_done(self) -> bool {
        self.done
    }

    /// The plaintext of the ciphertext consumed so far: its CBC
    /// decryption with the trailer removed.
    pub open spec fn plaintext_view(self) -> Seq<u8> {
        spec_unpad(spec_cbc_decrypt(self.key_view(), self.iv_view(), self.ct_view()))
    }

    /// The reader's invariant.  The chain value always matches the
    /// consumed ciphertext.  Until the trailer is stripped, what was
    /// delivered plus what is buffered is exactly the CBC decryption of
    /// the consumed ciphertext; a partially drained buffer means more
    /// ciphertext is still available, so the buffer never holds an
    /// unstripped final block that was partly handed out.  Once stripped,
    /// the source is exhausted, the trailer was valid, and delivered plus
    /// buffered is the whole plaintext.
    pub closed spec fn inv(self) -> bool {
        &&& self.ct@.len() % 8 == 0
        &&& (self.prev@[0], self.prev@[1]) == spec_dec_chain(self.iv@, self.ct@)
        &&& !self.done ==> {
            &&& self.delivered@ + self.buf@ == spec_cbc_decrypt(self.key, self.iv@, self.ct@)
            &&& (0 < self.buf@.len() < 8 ==> self.source.bytes().len() > 0)
            &&& (self.buf@.len() == 0 ==> self.ct@.len() == 0 && self.delivered@.len() == 0)
        }
        &&& self.done ==> {
            &&& self.source.bytes().len() == 0
            &&& self.ct@.len() > 0
            &&& spec_pad_valid(spec_cbc_decrypt(self.key, self.iv@, self.ct@))
            &&& self.delivered@ + self.buf@ == spec_unpad(
                spec_cbc_decrypt(self.key, self.iv@, self.ct@),
            )
        }
    }

    /// Wraps `source` in a reader that decrypts with the given `key` and
    /// `iv` (initialization vector).
    pub fn new(source: R, key: Key, iv: Block) -> (r: Reader<R>)
        ensures
            r.inv(),
            r.key_view() == key,
            r.iv_view() == (iv@[0], iv@[1]),
            r.delivered_view() == Seq::<u8>::empty(),
            r.buffered_view() == Seq::<u8>::empty(),
            r.ct_view() == Seq::<u8>::empty(),
            r.src_view() == source.bytes(),
            !r.is_done(),
    {
        let r = Reader {
            source,
            key,
            prev: iv,
            buf: Vec::new(),
            done: false,
            iv: Ghost((iv@[0], iv@[1])),
            ct: Ghost(Seq::empty()),
            delivered: Ghost(Seq::empty()),
        };
        proof {
            assert(r.delivered@ + r.buf@ =~= spec_cbc_decrypt(r.key, r.iv@, r.ct@));
        }
        r
    }

    /// Moves up to `want - out.len()` buffered bytes into `out`.
    fn drain_to(&mut self, out: &mut Vec<u8>, want: usize)
        requires
            old(out)@.len() <= want,
        ensures
            ({
                let space = want - old(out)@.len();
                let k = if old(self).buf@.len() < space {
                    old(self).buf@.len() as int
                } else {
                    space as int
                };
                &&& final(out)@ == old(out)@ + old(self).buf@.take(k)
                &&& final(self).buf@ == old(self).buf@.skip(k)
                &&& final(self).delivered@ == old(self).delivered@ + old(self).buf@.take(k)
                &&& final(out)@.len() <= want
                &&& (final(out)@.len() < want ==> final(self).buf@.len() == 0)
                &&& final(self).source == old(self).source
                &&& final(self).key == old(self).key
                &&& final(self).prev == old(self).prev
                &&& final(self).iv == old(self).iv
                &&& final(self).ct == old(self).ct
                &&& final(self).done == old(self).done
            }),
    {
        let space = want - out.len();
        let avail = self.buf.len();
        let k = if avail < space {
            avail
        } else {
            space
        };
        push_range(out, self.buf.as_slice(), 0, k);
        let rest = self.buf.split_off(k);
        self.buf = rest;
        self.delivered = Ghost(self.delivered@ + old(self).buf@.take(k as int));
    }

    /// Puts bytes drained within a failing call back in front of the
    /// buffer and rolls the delivery record back, so an error hands the
    /// caller nothing and loses nothing.
    fn put_back(&mut self, out: Vec<u8>, Ghost(delivered0): Ghost<Seq<u8>>)
        requires
            old(self).delivered@ == delivered0 + out@,
        ensures
            final(self).delivered@ == delivered0,
            final(self).buf@ == out@ + old(self).buf@,
            final(self).source == old(self).source,
            final(self).key == old(self).key,
            final(self).prev == old(self).prev,
            final(self).iv == old(self).iv,
            final(self).ct == old(self).ct,
            final(self).done == old(self).done,
    {
        let mut merged = out;
        merged.append(&mut self.buf);
        self.buf = merged;
        self.delivered = Ghost(delivered0);
    }

    /// Pulls ciphertext from the source, decrypts it, and returns up to
    /// `want` plaintext bytes.  A result shorter than `want` means the
    /// stream is complete: the source is exhausted and every plaintext
    /// byte before the padding trailer has been delivered.  Errors leave
    /// the delivered plaintext as it was; `TruncatedCiphertext` and
    /// `BadPadding` report a malformed stream, `Io` an error of the
    /// source itself.
    pub fn read(&mut self, want: usize) -> (r: Result<Vec<u8>, Error>)
        requires
            old(self).inv(),
        ensures
            final(self).inv(),
            final(self).key_view() == old(self).key_view(),
            final(self).iv_view() == old(self).iv_view(),
            final(self).ct_view() + final(self).src_view() == old(self).ct_view() + old(self).src_view(),
            match r {
                Ok(out) => {
                    &&& out@.len() <= want
                    &&& final(self).delivered_view() == old(self).delivered_view() + out@
                    &&& (out@.len() < want ==> final(self).src_view().len() == 0 && final(self).buffered_view().len() == 0)
                    &&& (out@.len() < want && final(self).ct_view().len() > 0 ==> final(self).is_done() && final(self).delivered_view() == final(self).plaintext_view())
                    &&& (out@.len() < want && final(self).ct_view().len() == 0 ==> final(self).delivered_view() == Seq::<u8>::empty())
                },
                Err(e) => {
                    &&& final(self).delivered_view() == old(self).delivered_view()
                    &&& !final(self).is_done()
                    &&& (e == Error::BadPadding ==> final(self).src_view().len() == 0 && final(self).ct_view().len() > 0 && !spec_pad_valid(
                        spec_cbc_decrypt(
                            final(self).key_view(),
                            final(self).iv_view(),
                            final(self).ct_view(),
                        ),
                    ))
                    &&& (e == Error::TruncatedCiphertext ==> final(self).src_view().len() > 0)
                },
            },
            old(self).is_done() ==> r is Ok,
    {
        let mut out: Vec<u8> = Vec::new();
        if self.done {
            let ghost s = spec_cbc_decrypt(self.key, self.iv@, self.ct@);
            self.drain_to(&mut out, want);
            proof {
                assert(self.delivered@ =~= old(self).delivered@ + out@);
                assert(self.delivered@ + self.buf@ =~= spec_unpad(s));
            }
            return Ok(out);
        }
        while out.len() < want
            invariant
                self.inv(),
                !self.done,
                !old(self).is_done(),
                out@.len() <= want,
                self.key == old(self).key,
                self.iv@ == old(self).iv@,
                self.delivered@ == old(self).delivered@ + out@,
                self.ct@ + self.source.bytes() == old(self).ct@ + old(self).source.bytes(),
                out@.len() > 0 ==> self.buf@.len() >= 8,
            decreases self.source.bytes().len(),
        {
            let chunk = match self.source.fill() {
                Ok(c) => c,
                Err(_) => {
                    self.put_back(out, Ghost(old(self).delivered@));
                    proof {
                        assert(self.delivered@ + self.buf@ =~= spec_cbc_decrypt(
                            self.key,
                            self.iv@,
                            self.ct@,
                        ));
                    }
                    return Err(Error::Io);
                },
            };
            if chunk.len() == 0 {
                // The source is exhausted: what the buffer holds ends in
                // the padding trailer.
                if self.buf.len() == 0 {
                    return Ok(out);
                }
                let pad = self.buf[self.buf.len() - 1];
                proof {
                    lemma_cbc_decrypt_len(self.key, self.iv@, self.ct@);
                    assert(spec_cbc_decrypt(self.key, self.iv@, self.ct@).last() == self.buf@.last());
                }
                if pad < 1 || pad > 8 {
                    self.put_back(out, Ghost(old(self).delivered@));
                    proof {
                        assert(self.delivered@ + self.buf@ =~= spec_cbc_decrypt(
                            self.key,
                            self.iv@,
                            self.ct@,
                        ));
                    }
                    return Err(Error::BadPadding);
                }
                let keep = self.buf.len() - (pad as usize);
                self.buf.truncate(keep);
                self.done = true;
                proof {
                    let s = spec_cbc_decrypt(self.key, self.iv@, self.ct@);
                    assert(self.delivered@ + self.buf@ =~= s.take(s.len() - pad as int));
                }
                let ghost deliv1 = self.delivered@;
                let ghost buf1 = self.buf@;
                self.drain_to(&mut out, want);
                proof {
                    assert(self.delivered@ + self.buf@ =~= deliv1 + buf1);
                    assert(self.delivered@ =~= old(self).delivered@ + out@);
                }
                return Ok(out);
            }
            if chunk.len() < 8 {
                self.put_back(out, Ghost(old(self).delivered@));
                proof {
                    assert(self.delivered@ + self.buf@ =~= spec_cbc_decrypt(
                        self.key,
                        self.iv@,
                        self.ct@,
                    ));
                }
                return Err(Error::TruncatedCiphertext);
            }
            let ghost deliv1 = self.delivered@;
            let ghost buf1 = self.buf@;
            self.drain_to(&mut out, want);
            proof {
                assert(self.delivered@ + self.buf@ =~= deliv1 + buf1);
                assert(self.delivered@ =~= old(self).delivered@ + out@);
            }
            if self.buf.len() > 0 {
                return Ok(out);
            }
            let ghost ct0 = self.ct@;
            let ghost src0 = self.source.bytes();
            let block_slice = vstd::slice::slice_subrange(chunk.as_slice(), 0, 8);
            let blk = decrypt_chunk(&self.key, &mut self.prev, block_slice);
            self.buf = blk;
            self.ct = Ghost(self.ct@ + block_slice@);
            self.source.consume(8);
            proof {
                assert(block_slice@ =~= src0.take(8));
                lemma_cbc_decrypt_snoc(self.key, self.iv@, ct0, block_slice@);
                assert(self.delivered@ + self.buf@ =~= spec_cbc_decrypt(
                    self.key,
                    self.iv@,
                    self.ct@,
                ));
                assert(self.ct@ + self.source.bytes() =~= ct0 + src0);
                assert(old(self).ct@ + old(self).source.bytes() =~= ct0 + src0);
            }
        }
        Ok(out)
    }
}

} // verus!

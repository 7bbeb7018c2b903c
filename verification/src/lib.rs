//! The XTEA block cipher (64-bit blocks, 128-bit keys), composed into a
//! CBC-mode streaming cipher with self-describing padding.
//!
//! The design makes no claim of cryptographic soundness: there is no
//! authentication, no key derivation, and no resistance to side channels.
use vstd::prelude::*;

pub mod cipher;
pub mod io;
pub mod mem;

verus! {

/// A key is 128 bits, held as four 32-bit words.
pub type Key = [u32; 4];

/// The cipher works on 64-bit blocks, held as two 32-bit words.
pub type Block = [u32; 2];

} // verus!

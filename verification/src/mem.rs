//! Conversion between an 8-byte buffer and the two 32-bit words a block
//! holds.  The byte order is pinned to little-endian words, so ciphertext
//! does not depend on the platform's memory layout.
use vstd::prelude::*;

use crate::Block;
use vstd::bytes::{
    lemma_auto_spec_u32_to_from_le_bytes, spec_u32_from_le_bytes, spec_u32_to_le_bytes,
    u32_from_le_bytes, u32_to_le_bytes,
};
use vstd::slice::slice_subrange;

verus! {

/// The 8-byte form of a block given as two words.
pub open spec fn spec_block_to_bytes(b: (u32, u32)) -> Seq<u8> {
    spec_u32_to_le_bytes(b.0) + spec_u32_to_le_bytes(b.1)
}

/// The two words held by an 8-byte buffer.
pub open spec fn spec_block_from_bytes(s: Seq<u8>) -> (u32, u32)
    recommends
        s.len() == 8,
{
    (spec_u32_from_le_bytes(s.subrange(0, 4)), spec_u32_from_le_bytes(s.subrange(4, 8)))
}

/// The two conversions invert each other.
pub proof fn lemma_block_bytes_roundtrip()
    ensures
        forall|b: (u32, u32)| #[trigger] spec_block_to_bytes(b).len() == 8,
        forall|b: (u32, u32)| spec_block_from_bytes(#[trigger] spec_block_to_bytes(b)) == b,
        forall|s: Seq<u8>|
            s.len() == 8 ==> #[trigger] spec_block_to_bytes(spec_block_from_bytes(s)) == s,
{
    lemma_auto_spec_u32_to_from_le_bytes();
    assert forall|b: (u32, u32)| #[trigger] spec_block_to_bytes(b).len() == 8 by {
        assert(spec_u32_to_le_bytes(b.0).len() == 4);
        assert(spec_u32_to_le_bytes(b.1).len() == 4);
    }
    assert forall|b: (u32, u32)| spec_block_from_bytes(#[trigger] spec_block_to_bytes(b)) == b by {
        let s = spec_block_to_bytes(b);
        assert(s.subrange(0, 4) =~= spec_u32_to_le_bytes(b.0));
        assert(s.subrange(4, 8) =~= spec_u32_to_le_bytes(b.1));
    }
    assert forall|s: Seq<u8>| s.len() == 8 implies #[trigger] spec_block_to_bytes(
        spec_block_from_bytes(s),
    ) =~= s by {
        let lo = s.subrange(0, 4);
        let hi = s.subrange(4, 8);
        assert(spec_u32_to_le_bytes(spec_u32_from_le_bytes(lo)) == lo);
        assert(spec_u32_to_le_bytes(spec_u32_from_le_bytes(hi)) == hi);
    }
}

/// Reads an 8-byte buffer as a block.
pub fn read_block(chunk: &[u8]) -> (b: Block)
    requires
        chunk@.len() == 8,
    ensures
        (b@[0], b@[1]) == spec_block_from_bytes(chunk@),
{
    let lo = u32_from_le_bytes(slice_subrange(chunk, 0, 4));
    let hi = u32_from_le_bytes(slice_subrange(chunk, 4, 8));
    [lo, hi]
}

/// Writes a block out as its 8-byte form.
pub fn write_block(block: &Block) -> (s: Vec<u8>)
    ensures
        s@ == spec_block_to_bytes((block@[0], block@[1])),
        s@.len() == 8,
{
    let mut s = u32_to_le_bytes(block[0]);
    let mut hi = u32_to_le_bytes(block[1]);
    s.append(&mut hi);
    proof {
        lemma_block_bytes_roundtrip();
    }
    s
}

} // verus!

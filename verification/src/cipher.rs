//! The basic XTEA cipher routines: enciphering and deciphering a single
//! 64-bit block under a 128-bit key.  All arithmetic is modulo 2^32
//! (wrapping), so the routines succeed for every bit pattern.
use vstd::prelude::*;

use crate::{Block, Key};

verus! {

/// Number of Feistel rounds.
pub const NUM_ROUNDS: u32 = 32;

/// The round constant by which the running sum advances each round.
pub const DELTA: u32 = 0x9E3779B9;

/// One encryption round: updates the two words and the running sum.
pub open spec fn enc_round(key: Key, st: (u32, u32, u32)) -> (u32, u32, u32) {
    let (v0, v1, sum) = st;
    let v0n = v0.wrapping_add(
        (((v1 << 4u32) ^ (v1 >> 5u32)).wrapping_add(v1)) ^ sum.wrapping_add(
            key@[(sum & 3) as int],
        ),
    );
    let sumn = sum.wrapping_add(DELTA);
    let v1n = v1.wrapping_add(
        (((v0n << 4u32) ^ (v0n >> 5u32)).wrapping_add(v0n)) ^ sumn.wrapping_add(
            key@[((sumn >> 11u32) & 3) as int],
        ),
    );
    (v0n, v1n, sumn)
}

/// One decryption round: the exact inverse of `enc_round`.
pub open spec fn dec_round(key: Key, st: (u32, u32, u32)) -> (u32, u32, u32) {
    let (v0, v1, sum) = st;
    let v1n = v1.wrapping_sub(
        (((v0 << 4u32) ^ (v0 >> 5u32)).wrapping_add(v0)) ^ sum.wrapping_add(
            key@[((sum >> 11u32) & 3) as int],
        ),
    );
    let sumn = sum.wrapping_sub(DELTA);
    let v0n = v0.wrapping_sub(
        (((v1n << 4u32) ^ (v1n >> 5u32)).wrapping_add(v1n)) ^ sumn.wrapping_add(
            key@[(sumn & 3) as int],
        ),
    );
    (v0n, v1n, sumn)
}

/// `n` encryption rounds, the last round applied outermost.
pub open spec fn enc_rounds(key: Key, st: (u32, u32, u32), n: nat) -> (u32, u32, u32)
    decreases n,
{
    if n == 0 {
        st
    } else {
        enc_round(key, enc_rounds(key, st, (n - 1) as nat))
    }
}

/// `n` decryption rounds, the first round applied innermost.
pub open spec fn dec_rounds(key: Key, st: (u32, u32, u32), n: nat) -> (u32, u32, u32)
    decreases n,
{
    if n == 0 {
        st
    } else {
        dec_rounds(key, dec_round(key, st), (n - 1) as nat)
    }
}

/// The running sum after `n` rounds, starting from `sum`.
pub open spec fn sum_after(sum: u32, n: nat) -> u32
    decreases n,
{
    if n == 0 {
        sum
    } else {
        sum_after(sum, (n - 1) as nat).wrapping_add(DELTA)
    }
}

/// What `encipher` computes on a block given as two words.
pub open spec fn spec_encipher(key: Key, b: (u32, u32)) -> (u32, u32) {
    let r = enc_rounds(key, (b.0, b.1, 0u32), NUM_ROUNDS as nat);
    (r.0, r.1)
}

/// What `decipher` computes on a block given as two words.
pub open spec fn spec_decipher(key: Key, b: (u32, u32)) -> (u32, u32) {
    let r = dec_rounds(key, (b.0, b.1, DELTA.wrapping_mul(NUM_ROUNDS)), NUM_ROUNDS as nat);
    (r.0, r.1)
}

/// Adding a word and then subtracting it again gives the first word
/// back, also across the 2^32 wrap.
proof fn lemma_wrap_cancel(x: u32, t: u32)
    ensures
        x.wrapping_add(t).wrapping_sub(t) == x,
        x.wrapping_sub(t).wrapping_add(t) == x,
{
}

/// One decryption round undoes one encryption round.
proof fn lemma_round_inverse(key: Key, st: (u32, u32, u32))
    ensures
        dec_round(key, enc_round(key, st)) == st,
{
    let (v0, v1, sum) = st;
    let (a, b, s) = enc_round(key, st);
    lemma_wrap_cancel(sum, DELTA);
    lemma_wrap_cancel(
        v1,
        (((a << 4u32) ^ (a >> 5u32)).wrapping_add(a)) ^ s.wrapping_add(
            key@[((s >> 11u32) & 3) as int],
        ),
    );
    lemma_wrap_cancel(
        v0,
        (((v1 << 4u32) ^ (v1 >> 5u32)).wrapping_add(v1)) ^ sum.wrapping_add(
            key@[(sum & 3) as int],
        ),
    );
}

/// `n` decryption rounds undo `n` encryption rounds.
proof fn lemma_rounds_inverse(key: Key, st: (u32, u32, u32), n: nat)
    ensures
        dec_rounds(key, enc_rounds(key, st, n), n) == st,
    decreases n,
{
    if n > 0 {
        let prev = enc_rounds(key, st, (n - 1) as nat);
        lemma_round_inverse(key, prev);
        lemma_rounds_inverse(key, st, (n - 1) as nat);
        lemma_dec_rounds_shift(key, enc_rounds(key, st, n), (n - 1) as nat);
    }
}

/// Peeling one round off the front of `dec_rounds`.
proof fn lemma_dec_rounds_shift(key: Key, st: (u32, u32, u32), n: nat)
    ensures
        dec_rounds(key, st, n + 1) == dec_rounds(key, dec_round(key, st), n),
{
}

/// The running sum of the encryption rounds does not depend on the words.
proof fn lemma_enc_rounds_sum(key: Key, st: (u32, u32, u32), n: nat)
    ensures
        enc_rounds(key, st, n).2 == sum_after(st.2, n),
    decreases n,
{
    if n > 0 {
        lemma_enc_rounds_sum(key, st, (n - 1) as nat);
    }
}

/// Deciphering an enciphered block gives the block back, for every key
/// and block.
pub proof fn lemma_decipher_encipher(key: Key, b: (u32, u32))
    ensures
        spec_decipher(key, spec_encipher(key, b)) == b,
{
    let st = (b.0, b.1, 0u32);
    let e = enc_rounds(key, st, NUM_ROUNDS as nat);
    lemma_enc_rounds_sum(key, st, NUM_ROUNDS as nat);
    assert(sum_after(0u32, NUM_ROUNDS as nat) == DELTA.wrapping_mul(NUM_ROUNDS)) by {
        reveal_with_fuel(sum_after, 33);
    }
    lemma_rounds_inverse(key, st, NUM_ROUNDS as nat);
}

/// Encrypts the 64 bits of `input` using the `key`.
pub fn encipher(key: &Key, input: &Block) -> (out: Block)
    ensures
        (out@[0], out@[1]) == spec_encipher(*key, (input@[0], input@[1])),
{
    let mut v0 = input[0];
    let mut v1 = input[1];
    let mut sum: u32 = 0;
    let mut i: u32 = 0;
    while i < NUM_ROUNDS
        invariant
            i <= NUM_ROUNDS,
            (v0, v1, sum) == enc_rounds(*key, (input@[0], input@[1], 0u32), i as nat),
        decreases NUM_ROUNDS - i,
    {
        assert((sum & 3) < 4) by (bit_vector);
        v0 = v0.wrapping_add(
            (((v1 << 4u32) ^ (v1 >> 5u32)).wrapping_add(v1)) ^ sum.wrapping_add(
                key[(sum & 3) as usize],
            ),
        );
        sum = sum.wrapping_add(DELTA);
        assert(((sum >> 11u32) & 3) < 4) by (bit_vector);
        v1 = v1.wrapping_add(
            (((v0 << 4u32) ^ (v0 >> 5u32)).wrapping_add(v0)) ^ sum.wrapping_add(
                key[((sum >> 11u32) & 3) as usize],
            ),
        );
        i = i + 1;
    }
    [v0, v1]
}

/// Decrypts the 64 bits of `input` using the `key`.
pub fn decipher(key: &Key, input: &Block) -> (out: Block)
    ensures
        (out@[0], out@[1]) == spec_decipher(*key, (input@[0], input@[1])),
{
    let mut v0 = input[0];
    let mut v1 = input[1];
    let mut sum: u32 = DELTA.wrapping_mul(NUM_ROUNDS);
    let ghost st0 = (input@[0], input@[1], sum);
    let mut i: u32 = 0;
    while i < NUM_ROUNDS
        invariant
            i <= NUM_ROUNDS,
            dec_rounds(*key, (v0, v1, sum), (NUM_ROUNDS - i) as nat) == dec_rounds(
                *key,
                st0,
                NUM_ROUNDS as nat,
            ),
        decreases NUM_ROUNDS - i,
    {
        assert(((sum >> 11u32) & 3) < 4) by (bit_vector);
        v1 = v1.wrapping_sub(
            (((v0 << 4u32) ^ (v0 >> 5u32)).wrapping_add(v0)) ^ sum.wrapping_add(
                key[((sum >> 11u32) & 3) as usize],
            ),
        );
        sum = sum.wrapping_sub(DELTA);
        assert((sum & 3) < 4) by (bit_vector);
        v0 = v0.wrapping_sub(
            (((v1 << 4u32) ^ (v1 >> 5u32)).wrapping_add(v1)) ^ sum.wrapping_add(
                key[(sum & 3) as usize],
            ),
        );
        i = i + 1;
    }
    [v0, v1]
}

} // verus!

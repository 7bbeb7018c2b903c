use tea::cipher::{decipher, encipher};
use tea::mem::{read_block, write_block};
use tea::{Block, Key};

#[test]
fn cipher_it_works() {
    let key: Key = [10, 20, 30, 42];
    let plaintext: Block = [300, 400];
    let ciphertext = encipher(&key, &plaintext);
    assert!(plaintext != ciphertext);
    assert_eq!(plaintext, decipher(&key, &ciphertext));
}

#[test]
fn encipher_reference_vector() {
    // The well-known XTEA vector: all-zero key and block.
    let key: Key = [0, 0, 0, 0];
    let out = encipher(&key, &[0, 0]);
    assert_eq!(out, [0xDEE9D4D8, 0xF7131ED9]);
    assert_eq!(decipher(&key, &out), [0, 0]);
}

#[test]
fn encipher_exact_words() {
    let key: Key = [10, 20, 30, 42];
    let out = encipher(&key, &[300, 400]);
    assert_eq!(out, [3088688588, 3469370984]);
}

#[test]
fn roundtrip_many_blocks() {
    let key: Key = [0xDEADBEEF, 1, 0xFFFFFFFF, 7];
    for i in 0..64u32 {
        let block: Block = [i.wrapping_mul(0x9E3779B9), !i];
        assert_eq!(decipher(&key, &encipher(&key, &block)), block);
    }
}

#[test]
fn block_bytes_little_endian() {
    let bytes = write_block(&[0x04030201, 0x08070605]);
    assert_eq!(bytes, vec![1, 2, 3, 4, 5, 6, 7, 8]);
    let back = read_block(&bytes);
    assert_eq!(back, [0x04030201, 0x08070605]);
}

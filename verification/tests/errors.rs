use tea::io::{Error, Reader, VecSink, VecSource, Writer};
use tea::{Block, Key};

const KEY: Key = [1, 2, 3, 4];
const IV: Block = [5, 6];

#[test]
fn truncated_ciphertext_is_fatal() {
    // A non-empty stream shorter than one block cannot be decrypted.
    let mut reader = Reader::new(VecSource::new(vec![1, 2, 3, 4, 5]), KEY, IV);
    assert_eq!(reader.read(16), Err(Error::TruncatedCiphertext));
    // The error derives from the stream, so it repeats.
    assert_eq!(reader.read(16), Err(Error::TruncatedCiphertext));
}

#[test]
fn trailing_partial_block_is_fatal() {
    // One whole block followed by a short one.
    let mut writer = Writer::new(VecSink::new(), KEY, IV);
    assert_eq!(writer.write(&[0; 8]).ok().unwrap(), 8);
    let mut crypted = writer.close().ok().unwrap().into_vec();
    crypted.truncate(13);
    let mut reader = Reader::new(VecSource::new(crypted), KEY, IV);
    // The dangling 5 bytes fail before any plaintext is handed out.
    assert_eq!(reader.read(16), Err(Error::TruncatedCiphertext));
    assert_eq!(reader.read(16), Err(Error::TruncatedCiphertext));
}

#[test]
fn bad_padding_is_fatal() {
    // Encrypt the 8 zero bytes and keep only their block: the decryptor
    // then finds a trailer byte of 0, which is not a valid pad count.
    let mut writer = Writer::new(VecSink::new(), KEY, IV);
    assert_eq!(writer.write(&[0; 8]).ok().unwrap(), 8);
    let mut crypted = writer.close().ok().unwrap().into_vec();
    assert_eq!(crypted.len(), 16);
    crypted.truncate(8);
    let mut reader = Reader::new(VecSource::new(crypted), KEY, IV);
    assert_eq!(reader.read(16), Err(Error::BadPadding));
    assert_eq!(reader.read(16), Err(Error::BadPadding));
}

#[test]
fn pad_byte_above_eight_is_fatal() {
    // Encrypt a block whose last byte is 9 and keep only that block: a
    // pad count of 9 cannot be valid.
    let mut writer = Writer::new(VecSink::new(), KEY, IV);
    assert_eq!(writer.write(&[0, 0, 0, 0, 0, 0, 0, 9]).ok().unwrap(), 8);
    let mut crypted = writer.close().ok().unwrap().into_vec();
    crypted.truncate(8);
    let mut reader = Reader::new(VecSource::new(crypted), KEY, IV);
    assert_eq!(reader.read(16), Err(Error::BadPadding));
}

#[test]
fn partial_reads_preserve_order() {
    let input: Vec<u8> = (0u8..32).collect();
    let mut writer = Writer::new(VecSink::new(), KEY, IV);
    assert_eq!(writer.write(&input).ok().unwrap(), 32);
    let crypted = writer.close().ok().unwrap().into_vec();
    let mut reader = Reader::new(VecSource::new(crypted), KEY, IV);
    let mut collected: Vec<u8> = Vec::new();
    loop {
        let v = reader.read(1).ok().unwrap();
        if v.is_empty() {
            break;
        }
        assert_eq!(v.len(), 1);
        collected.extend_from_slice(&v);
    }
    assert_eq!(collected, input);
}

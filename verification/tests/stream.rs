use tea::io::{Error, Reader, VecSink, VecSource, Writer};
use tea::{Block, Key};

const KEY: Key = [1, 2, 3, 4];
const IV: Block = [5, 6];

fn encrypt_all(input: &[u8], chunk_size: usize) -> Vec<u8> {
    let mut writer = Writer::new(VecSink::new(), KEY, IV);
    for chunk in input.chunks(chunk_size.max(1)) {
        assert_eq!(writer.write(chunk).ok().unwrap(), chunk.len());
    }
    writer.close().ok().unwrap().into_vec()
}

fn decrypt_all(crypted: Vec<u8>, want: usize) -> Vec<u8> {
    let mut reader = Reader::new(VecSource::new(crypted), KEY, IV);
    let mut decrypted: Vec<u8> = Vec::new();
    loop {
        let v = reader.read(want.max(1)).ok().unwrap();
        if v.is_empty() {
            break;
        }
        decrypted.extend_from_slice(&v);
    }
    decrypted
}

#[test]
fn writer_it_works() {
    let input: Vec<u8> = (0u8..128).collect();
    let mut writer = Writer::new(VecSink::new(), [1, 2, 3, 4], [5, 6]);
    for chunk in input.chunks(16) {
        assert_eq!(writer.write(chunk).ok().unwrap(), 16);
    }

    let result = writer.close().ok().unwrap().into_vec();
    assert!(result.len() == input.len() + 8);
    assert!(result != input)
}

#[test]
fn reader_it_works() {
    for chunk_size in 1..65 {
        let input: Vec<u8> = (0u8..128).collect();
        let mut writer = Writer::new(VecSink::new(), [1, 2, 3, 4], [5, 6]);
        for chunk in input.chunks(chunk_size) {
            assert_eq!(writer.write(chunk).ok().unwrap(), chunk.len());
        }

        let crypted = writer.close().ok().unwrap().into_vec();
        assert!(crypted.len() == input.len() + 8);
        assert!(crypted != input);

        let mut reader = Reader::new(VecSource::new(crypted), [1, 2, 3, 4], [5, 6]);
        let mut decrypted: Vec<u8> = Vec::new();
        loop {
            let v = reader.read(64).ok().unwrap();
            if v.is_empty() {
                break;
            }
            decrypted.extend_from_slice(&v);
        }
        assert_eq!(decrypted, input);
    }
}

#[test]
fn scenario_128_bytes() {
    // key [1,2,3,4], IV [5,6], plaintext bytes 0..128: 136 ciphertext
    // bytes, different from the plaintext, decrypting back exactly,
    // however the writes were chunked.
    let input: Vec<u8> = (0u8..128).collect();
    let one_shot = encrypt_all(&input, 128);
    assert_eq!(one_shot.len(), 136);
    assert!(one_shot != input);
    assert_eq!(&one_shot[..8], &[127, 174, 51, 178, 67, 43, 143, 37]);
    assert_eq!(&one_shot[128..], &[45, 103, 101, 145, 116, 159, 164, 247]);
    for chunk_size in 1..66 {
        let crypted = encrypt_all(&input, chunk_size);
        assert_eq!(crypted, one_shot);
        assert_eq!(decrypt_all(crypted, 64), input);
    }
}

#[test]
fn roundtrip_all_lengths() {
    for len in 0..48usize {
        let input: Vec<u8> = (0..len).map(|i| (i * 7 + 3) as u8).collect();
        let crypted = encrypt_all(&input, 5);
        assert_eq!(crypted.len(), input.len() + (8 - input.len() % 8));
        assert_eq!(crypted.len() % 8, 0);
        for want in [1usize, 3, 8, 64] {
            assert_eq!(decrypt_all(crypted.clone(), want), input);
        }
    }
}

#[test]
fn empty_stream_is_one_block() {
    // Closing with nothing written produces exactly one padding block.
    let writer = Writer::new(VecSink::new(), KEY, IV);
    let crypted = writer.close().ok().unwrap().into_vec();
    assert_eq!(crypted.len(), 8);
    assert_eq!(crypted, vec![90, 185, 186, 123, 223, 221, 128, 69]);
    assert_eq!(decrypt_all(crypted, 16), Vec::<u8>::new());
}

#[test]
fn misaligned_flush_is_recoverable() {
    let mut writer = Writer::new(VecSink::new(), KEY, IV);
    assert_eq!(writer.write(&[9, 8, 7]).ok().unwrap(), 3);
    assert_eq!(writer.flush(), Err(Error::NotBlockAligned));
    // The buffered bytes are intact: finishing the stream still works.
    assert_eq!(writer.write(&[6, 5]).ok().unwrap(), 2);
    assert_eq!(writer.flush(), Err(Error::NotBlockAligned));
    let crypted = writer.close().ok().unwrap().into_vec();
    assert_eq!(decrypt_all(crypted, 64), vec![9, 8, 7, 6, 5]);
}

#[test]
fn aligned_flush_is_ok() {
    let mut writer = Writer::new(VecSink::new(), KEY, IV);
    assert_eq!(writer.write(&[1, 2, 3, 4, 5, 6, 7, 8]).ok().unwrap(), 8);
    assert_eq!(writer.flush(), Ok(()));
}

#[test]
fn independent_writers_do_not_share_state() {
    let input_a: Vec<u8> = (0u8..40).collect();
    let input_b: Vec<u8> = (0u8..40).map(|b| b ^ 0x5A).collect();
    let mut writer_a = Writer::new(VecSink::new(), KEY, IV);
    let mut writer_b = Writer::new(VecSink::new(), KEY, IV);
    // Interleave the two instances.
    for (ca, cb) in input_a.chunks(7).zip(input_b.chunks(7)) {
        assert_eq!(writer_a.write(ca).ok().unwrap(), ca.len());
        assert_eq!(writer_b.write(cb).ok().unwrap(), cb.len());
    }
    let crypted_a = writer_a.close().ok().unwrap().into_vec();
    let crypted_b = writer_b.close().ok().unwrap().into_vec();
    assert_eq!(crypted_a, encrypt_all(&input_a, 40));
    assert_eq!(crypted_b, encrypt_all(&input_b, 40));
    assert_eq!(decrypt_all(crypted_a, 64), input_a);
    assert_eq!(decrypt_all(crypted_b, 64), input_b);
}

#[test]
fn reading_empty_source_yields_nothing() {
    let mut reader = Reader::new(VecSource::new(Vec::new()), KEY, IV);
    assert_eq!(reader.read(16), Ok(Vec::new()));
    assert_eq!(reader.read(16), Ok(Vec::new()));
}

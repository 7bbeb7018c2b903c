use tea::io::{Error, Reader, Sink, Source, VecSource, Writer};
use tea::{Block, Key};

const KEY: Key = [1, 2, 3, 4];
const IV: Block = [5, 6];

/// A sink that accepts at most a fixed number of bytes per call for its
/// first few calls, then everything: exercises the pending-ciphertext
/// retry paths.
struct ChokySink {
    data: Vec<u8>,
    choked_calls: usize,
    grant: usize,
}

impl Sink for ChokySink {
    fn write(&mut self, data: &[u8]) -> Result<usize, Error> {
        let n = if self.choked_calls > 0 {
            self.choked_calls -= 1;
            data.len().min(self.grant)
        } else {
            data.len()
        };
        self.data.extend_from_slice(&data[..n]);
        Ok(n)
    }

    fn flush(&mut self) -> Result<(), Error> {
        Ok(())
    }
}

/// A sink whose transport always fails.
struct FailSink;

impl Sink for FailSink {
    fn write(&mut self, _data: &[u8]) -> Result<usize, Error> {
        Err(Error::Io)
    }

    fn flush(&mut self) -> Result<(), Error> {
        Err(Error::Io)
    }
}

/// A source whose transport always fails.
struct FailSource;

impl Source for FailSource {
    fn fill(&mut self) -> Result<Vec<u8>, Error> {
        Err(Error::Io)
    }

    fn consume(&mut self, _amt: usize) {}
}

fn reference_ciphertext(input: &[u8]) -> Vec<u8> {
    let mut writer = Writer::new(tea::io::VecSink::new(), KEY, IV);
    assert_eq!(writer.write(input).ok().unwrap(), input.len());
    writer.close().ok().unwrap().into_vec()
}

#[test]
fn short_sink_writes_are_retried_not_recomputed() {
    let input: Vec<u8> = (0u8..16).collect();
    let sink = ChokySink { data: Vec::new(), choked_calls: 2, grant: 3 };
    let mut writer = Writer::new(sink, KEY, IV);

    // The writer accepts the first block's plaintext even though the
    // sink keeps part of the ciphertext pending.
    let mut offered = 0;
    while offered < input.len() {
        offered += writer.write(&input[offered..]).ok().unwrap();
    }
    let sink = writer.close().ok().unwrap();
    // The ciphertext is byte-for-byte what an unchoked sink receives:
    // pending bytes were retried, never recomputed.
    assert_eq!(sink.data, reference_ciphertext(&input));
    let mut reader = Reader::new(VecSource::new(sink.data), KEY, IV);
    let decrypted = reader.read(64).ok().unwrap();
    assert_eq!(decrypted, input);
}

#[test]
fn write_returns_zero_while_sink_is_blocked() {
    let input: Vec<u8> = (0u8..8).collect();
    let sink = ChokySink { data: Vec::new(), choked_calls: 3, grant: 2 };
    let mut writer = Writer::new(sink, KEY, IV);
    // The whole block is consumed; 6 of its ciphertext bytes stay pending.
    assert_eq!(writer.write(&input).ok().unwrap(), 8);
    // While the pending bytes dribble out, no new input is accepted.
    assert_eq!(writer.write(&[99]).ok().unwrap(), 0);
    assert_eq!(writer.write(&[99]).ok().unwrap(), 0);
    // The sink is now unchoked: the byte goes through and close succeeds.
    assert_eq!(writer.write(&[99]).ok().unwrap(), 1);
    let sink = writer.close().ok().unwrap();
    let mut reader = Reader::new(VecSource::new(sink.data), KEY, IV);
    let mut expected = input.clone();
    expected.push(99);
    assert_eq!(reader.read(64).ok().unwrap(), expected);
}

#[test]
fn close_fails_loudly_on_a_sink_that_stays_short() {
    // A sink that never takes a whole block cannot accept the final
    // padding block: the loss is surfaced, not swallowed.
    let sink = ChokySink { data: Vec::new(), choked_calls: usize::MAX, grant: 3 };
    let writer = Writer::new(sink, KEY, IV);
    assert_eq!(writer.close().err().unwrap(), Error::ShortWrite);
}

#[test]
fn sink_errors_propagate() {
    let mut writer = Writer::new(FailSink, KEY, IV);
    // Plain buffering needs no transport, so a short write still works.
    assert_eq!(writer.write(&[1, 2, 3]).ok().unwrap(), 3);
    // Completing the block consumes it; its ciphertext stays pending.
    assert_eq!(writer.write(&[4, 5, 6, 7, 8, 9]).ok().unwrap(), 5);
    // With ciphertext pending on a dead transport, the error surfaces.
    assert_eq!(writer.write(&[10]), Err(Error::Io));
    assert_eq!(writer.flush(), Err(Error::Io));
}

#[test]
fn source_errors_propagate() {
    let mut reader = Reader::new(FailSource, KEY, IV);
    assert_eq!(reader.read(16), Err(Error::Io));
}

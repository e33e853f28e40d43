//! Tests of the read-ahead buffer over a simple in-memory byte source.

use breccia::{Buffer, ReadError, ReadSource, SeekSource};

/// An in-memory byte source: a cursor over a byte vector.
struct SliceReader {
    data: Vec<u8>,
    pos: usize,
}

impl SliceReader {
    fn new(data: Vec<u8>) -> SliceReader {
        SliceReader { data, pos: 0 }
    }
}

impl ReadSource for SliceReader {
    fn read_some(&mut self, max: usize) -> Result<Vec<u8>, ReadError> {
        let n = max.min(self.data.len() - self.pos);
        let out = self.data[self.pos..self.pos + n].to_vec();
        self.pos += n;
        Ok(out)
    }
}

impl SeekSource for SliceReader {
    fn seek_to(&mut self, pos: u64) -> Result<u64, ReadError> {
        self.pos = (pos as usize).min(self.data.len());
        Ok(pos)
    }
}

#[test]
fn empty_buffer() {
    let inner = SliceReader::new(vec![0u8; 0]);
    let mut buffer = Buffer::new(inner);

    assert_eq!(buffer.buffer(), &[]);
    assert_eq!(buffer.offset(), 0);
    assert_eq!(buffer.consume(0), &[]);
    assert_eq!(buffer.offset(), 0);
    assert_eq!(buffer.buffer(), &[]);

    buffer.fill(100).unwrap();
    assert_eq!(buffer.buffer(), &[]);
    assert_eq!(buffer.offset(), 0);
}

#[test]
fn nonempty_buffer() {
    let inner = SliceReader::new(vec![0xde, 0xad, 0xbe, 0xef]);
    let mut buffer = Buffer::new(inner);

    buffer.fill(1).unwrap();

    assert_eq!(buffer.buffer(), &[0xde]);
    assert_eq!(buffer.consume(1), &[0xde]);
    assert_eq!(buffer.offset(), 1);

    buffer.fill(100).unwrap();
    assert_eq!(buffer.buffer(), &[0xad, 0xbe, 0xef]);
    assert_eq!(buffer.consume(2), &[0xad, 0xbe]);
    assert_eq!(buffer.offset(), 3);

    buffer.fill(100).unwrap();
    buffer.fill(100).unwrap();
    buffer.fill(100).unwrap();
    assert_eq!(buffer.buffer(), &[0xef]);
    assert_eq!(buffer.offset(), 3);
}

#[test]
fn buffer_seek() {
    let inner = SliceReader::new(vec![1, 2, 3, 4, 5, 6]);
    let mut buffer = Buffer::new_with_offset(inner, 0);
    buffer.fill(2).unwrap();
    assert_eq!(buffer.buffer(), &[1, 2]);

    assert_eq!(buffer.seek(4), Ok(4));
    assert_eq!(buffer.offset(), 4);
    assert_eq!(buffer.buffer(), &[]);

    buffer.fill(10).unwrap();
    assert_eq!(buffer.buffer(), &[5, 6]);
    assert_eq!(buffer.consume(2), &[5, 6]);
    assert_eq!(buffer.offset(), 6);
}

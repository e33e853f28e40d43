//! A read-ahead byte buffer, used when iterating a store without a memory
//! map (streaming reader).

use vstd::prelude::*;
use vstd::slice::{slice_subrange, slice_to_vec};

verus! {

/// The error returned when a byte source fails.
#[derive(Clone, Copy, Debug, PartialEq, Eq, Structural)]
pub struct ReadError;

/// A source of bytes for a [`Buffer`]. Streaming callers supply an
/// implementation around whatever they read from; one that cannot fail
/// simply never returns an error.
pub trait ReadSource {
    /// Reads up to `max` fresh bytes; an empty result means the input is
    /// exhausted for now. Implementations handle transient interruptions
    /// themselves.
    fn read_some(&mut self, max: usize) -> (r: Result<Vec<u8>, ReadError>)
        ensures
            r matches Ok(v) ==> v@.len() <= max,
    ;
}

/// A byte source that can also seek to an absolute position.
pub trait SeekSource: ReadSource {
    /// Seeks to the absolute byte position `pos`.
    fn seek_to(&mut self, pos: u64) -> (r: Result<u64, ReadError>)
        ensures
            r matches Ok(at) ==> at == pos,
    ;
}

/// A read-ahead byte buffer over a byte source.
pub struct Buffer<R> {
    /// The reader being wrapped.
    pub inner: R,
    /// The seek offset within the reader of the *start* of the buffer.
    pub offset: u64,
    /// How many bytes of `buf` have been consumed at the beginning.
    pub start: usize,
    /// The end of the valid bytes in `buf`.
    pub end: usize,
    /// The backing storage; `buf[start..end]` holds the buffered bytes.
    pub buf: Vec<u8>,
}

impl<R> Buffer<R> {
    /// A well-formed buffer.
    pub open spec fn wf(self) -> bool {
        self.start <= self.end <= self.buf@.len()
    }

    /// The bytes buffered and not yet consumed.
    pub open spec fn spec_buffer(self) -> Seq<u8> {
        self.buf@.subrange(self.start as int, self.end as int)
    }

    /// Wraps a reader positioned at offset 0.
    pub fn new(inner: R) -> (b: Buffer<R>)
        ensures
            b.wf(),
            b.inner == inner,
            b.offset == 0,
            b.spec_buffer() == Seq::<u8>::empty(),
    {
        Self::new_with_offset(inner, 0)
    }

    /// Wraps a reader whose current position is `offset`.
    pub fn new_with_offset(inner: R, offset: u64) -> (b: Buffer<R>)
        ensures
            b.wf(),
            b.inner == inner,
            b.offset == offset,
            b.spec_buffer() == Seq::<u8>::empty(),
    {
        let b = Buffer { inner, offset, start: 0, end: 0, buf: Vec::new() };
        proof {
            assert(b.spec_buffer() =~= Seq::<u8>::empty());
        }
        b
    }

    /// The buffered bytes.
    pub fn buffer(&self) -> (r: &[u8])
        requires
            self.wf(),
        ensures
            r@ == self.spec_buffer(),
    {
        slice_subrange(self.buf.as_slice(), self.start, self.end)
    }

    /// The reader offset of the start of the buffer.
    pub fn offset(&self) -> (r: u64)
        ensures
            r == self.offset,
    {
        self.offset
    }

    /// Consumes the first `amt` buffered bytes and returns them.
    pub fn consume(&mut self, amt: usize) -> (r: &[u8])
        requires
            old(self).wf(),
            old(self).start + amt <= old(self).end,
            old(self).offset + amt <= u64::MAX,
        ensures
            final (self).wf(),
            r@ == old(self).spec_buffer().take(amt as int),
            final (self).spec_buffer() == old(self).spec_buffer().skip(amt as int),
            final (self).offset == old(self).offset + amt,
            final (self).inner == old(self).inner,
    {
        let old_start = self.start;
        self.start = self.start + amt;
        self.offset = self.offset + amt as u64;
        proof {
            assert(self.buf@.subrange(old_start as int, old_start + amt) =~= old(self)
                .spec_buffer().take(amt as int));
            assert(self.spec_buffer() =~= old(self).spec_buffer().skip(amt as int));
        }
        slice_subrange(self.buf.as_slice(), old_start, self.start)
    }
}

impl<R: ReadSource> Buffer<R> {
    /// Fills the buffer with up to `additional` more bytes from the reader,
    /// fewer if the input ends first. The bytes already buffered stay in
    /// place ahead of the fresh ones; the buffer's offset does not move.
    pub fn fill(&mut self, additional: usize) -> (r: Result<(), ReadError>)
        requires
            old(self).wf(),
            old(self).end - old(self).start + additional <= usize::MAX,
        ensures
            final (self).wf(),
            final (self).offset == old(self).offset,
            old(self).spec_buffer().len() <= final (self).spec_buffer().len() <= old(self)
                .spec_buffer().len() + additional,
            final (self).spec_buffer().subrange(0, old(self).spec_buffer().len() as int) == old(self)
                .spec_buffer(),
    {
        let ghost kept = old(self).spec_buffer();
        let mut data = slice_to_vec(slice_subrange(self.buf.as_slice(), self.start, self.end));
        let mut got: usize = 0;
        loop
            invariant_except_break
                self.wf(),
                self.offset == old(self).offset,
                kept == old(self).spec_buffer(),
                got <= additional,
                data@.len() == kept.len() + got,
                data@.subrange(0, kept.len() as int) == kept,
            ensures
                got <= additional,
                data@.len() == kept.len() + got,
                data@.subrange(0, kept.len() as int) == kept,
                self.offset == old(self).offset,
            decreases additional - got,
        {
            if got >= additional {
                break ;
            }
            match self.inner.read_some(additional - got) {
                Ok(chunk) => {
                    if chunk.len() == 0 {
                        break ;
                    }
                    let mut chunk = chunk;
                    got = got + chunk.len();
                    data.append(&mut chunk);
                    proof {
                        assert(data@.subrange(0, kept.len() as int) =~= kept);
                    }
                },
                Err(e) => {
                    // Keep what was read so far; the caller sees the error.
                    let n = data.len();
                    self.buf = data;
                    self.start = 0;
                    self.end = n;
                    proof {
                        assert(self.spec_buffer() =~= self.buf@);
                        assert(self.spec_buffer().subrange(0, kept.len() as int) =~= kept);
                    }
                    return Err(e);
                },
            }
        }
        let n = data.len();
        self.buf = data;
        self.start = 0;
        self.end = n;
        proof {
            assert(self.spec_buffer() =~= self.buf@);
            assert(self.spec_buffer().subrange(0, kept.len() as int) =~= kept);
        }
        Ok(())
    }
}

impl<R: SeekSource> Buffer<R> {
    /// Seeks the reader to the absolute position `pos`, discarding the
    /// buffered bytes; on failure the buffer is left as it was.
    pub fn seek(&mut self, pos: u64) -> (r: Result<u64, ReadError>)
        requires
            old(self).wf(),
        ensures
            final (self).wf(),
            r matches Ok(at) ==> at == pos && final (self).offset == pos && final (self)
                .spec_buffer() == Seq::<u8>::empty(),
            r is Err ==> final (self).offset == old(self).offset && final (self).spec_buffer()
                == old(self).spec_buffer(),
    {
        match self.inner.seek_to(pos) {
            Ok(at) => {
                self.offset = at;
                self.start = 0;
                self.end = 0;
                proof {
                    assert(self.spec_buffer() =~= Seq::<u8>::empty());
                }
                Ok(at)
            },
            Err(e) => Err(e),
        }
    }
}

} // verus!

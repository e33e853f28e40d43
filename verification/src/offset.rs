//! Logical offsets: indices into the body's 8-byte word array.

use vstd::prelude::*;

use crate::header::{frame_size, spec_frame_size, Header};

verus! {

/// An offset to a blob inside of a store: a zero-based index into the body
/// viewed as an array of 8-byte words.
///
/// The value is *not* a file byte offset; see [`Offset::try_from_file_offset`].
#[derive(Clone, Copy, Debug, PartialEq, Eq, Structural, PartialOrd, Ord, Hash)]
pub struct Offset {
    /// The body word index.
    pub raw: u64,
}

/// Error returned when conversion from a raw file byte offset fails.
#[derive(Clone, Copy, Debug, PartialEq, Eq, Structural)]
pub enum TryFromFileOffsetError {
    /// The file byte offset lies within the header frame.
    WithinHeader,
    /// The file byte offset is not on an 8-byte word boundary.
    Unaligned,
}

impl Offset {
    /// Creates a new offset from a body word index.
    pub fn new(raw: u64) -> (o: Offset)
        ensures
            o.raw == raw,
    {
        Offset { raw }
    }

    /// This offset advanced by `n` words.
    pub fn offset(self, n: u64) -> (o: Offset)
        requires
            self.raw + n <= u64::MAX,
        ensures
            o.raw == self.raw + n,
    {
        Offset { raw: self.raw + n }
    }

    /// The midpoint of two offsets, rounded down; never overflows.
    pub fn midpoint(self, rhs: Offset) -> (o: Offset)
        ensures
            o.raw == (self.raw + rhs.raw) as int / 2,
    {
        let a = self.raw;
        let b = rhs.raw;
        proof {
            assert(a / 2 + b / 2 + (a % 2) * (b % 2) == (a + b) as int / 2) by (bit_vector);
        }
        Offset { raw: a / 2 + b / 2 + (a % 2) * (b % 2) }
    }

    /// Converts a raw file byte offset into a body word index.
    ///
    /// Subtracts the header frame size of `H`; fails with `WithinHeader` if
    /// the byte offset lies inside the frame, and with `Unaligned` if it is
    /// not a multiple of 8.
    pub fn try_from_file_offset<H: Header>(file_offset: u64) -> (r: Result<
        Offset,
        TryFromFileOffsetError,
    >)
        requires
            spec_frame_size::<H>() <= usize::MAX,
        ensures
            file_offset < spec_frame_size::<H>() ==> r == Err::<Offset, TryFromFileOffsetError>(
                TryFromFileOffsetError::WithinHeader,
            ),
            file_offset >= spec_frame_size::<H>() && (file_offset - spec_frame_size::<H>()) % 8 != 0
                ==> r == Err::<Offset, TryFromFileOffsetError>(TryFromFileOffsetError::Unaligned),
            file_offset >= spec_frame_size::<H>() && (file_offset - spec_frame_size::<H>()) % 8 == 0
                ==> r == Ok::<Offset, TryFromFileOffsetError>(
                Offset { raw: ((file_offset - spec_frame_size::<H>()) as int / 8) as u64 },
            ),
    {
        let frame = frame_size::<H>() as u64;
        if file_offset < frame {
            return Err(TryFromFileOffsetError::WithinHeader);
        }
        let body_byte = file_offset - frame;
        if body_byte % 8 != 0 {
            return Err(TryFromFileOffsetError::Unaligned);
        }
        Ok(Offset { raw: body_byte / 8 })
    }
}

} // verus!

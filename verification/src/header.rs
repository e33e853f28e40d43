//! The header frame at the start of a store file: fixed magic bytes, a
//! caller-supplied fixed-size header, and zero padding to a word boundary.

use vstd::prelude::*;

verus! {

/// A type that can be used as a store file header.
///
/// Since every store contains its own kind of data, headers identify what a
/// file actually holds. Headers should contain a major version, and an
/// unknown major version should be a deserialization error.
///
/// Good magic bytes have three elements: a leading zero byte (so the file is
/// plainly binary, not text), some human-readable text, and at least six
/// randomly chosen bytes with their high bits set, so the magic is globally
/// unique and not valid ASCII.
pub trait Header: Sized {
    /// The magic bytes at the beginning of the file, as a specification value.
    spec fn spec_magic() -> Seq<u8>;

    /// The serialized size in bytes, *not* including the magic bytes.
    spec fn spec_size() -> nat;

    /// The serialized form of this header, as a specification value.
    spec fn spec_serialized(&self) -> Seq<u8>;

    /// The result of deserializing the given bytes.
    spec fn spec_deserialize(src: Seq<u8>) -> Result<Self, Self::DeserializeError>;

    /// The magic bytes at the beginning of the file.
    fn magic() -> (m: Vec<u8>)
        ensures
            m@ == Self::spec_magic(),
    ;

    /// The serialized size in bytes, *not* including the magic bytes.
    fn serialized_size() -> (n: usize)
        ensures
            n == Self::spec_size(),
    ;

    /// Serializes this header; the result is exactly `spec_size` bytes.
    fn serialize(&self) -> (dst: Vec<u8>)
        ensures
            dst@ == self.spec_serialized(),
            dst@.len() == Self::spec_size(),
    ;

    /// The error returned when deserialization fails.
    type DeserializeError;

    /// Deserializes a header from `src`, which holds exactly `spec_size` bytes.
    fn deserialize(src: &[u8]) -> (r: Result<Self, Self::DeserializeError>)
        requires
            src@.len() == Self::spec_size(),
        ensures
            r == Self::spec_deserialize(src@),
    ;
}

/// The number of zero padding bytes that follow magic and header bytes of
/// combined length `n`: always between 1 and 8, so that the frame ends on a
/// word boundary and is never empty.
pub open spec fn spec_header_pad(n: nat) -> nat {
    (8 - (n % 8)) as nat
}

/// The total size of the header frame of `H`: magic, serialized header, and
/// zero padding up to a word boundary.
pub open spec fn spec_frame_size<H: Header>() -> nat {
    let n = H::spec_magic().len() + H::spec_size();
    n + spec_header_pad(n)
}

/// Computes the header frame size of `H`.
pub fn frame_size<H: Header>() -> (n: usize)
    requires
        spec_frame_size::<H>() <= usize::MAX,
    ensures
        n == spec_frame_size::<H>(),
{
    let magic = H::magic();
    let base = magic.len() + H::serialized_size();
    base + (8 - (base % 8))
}

/// The trivial header: no magic, no header bytes. A store framed with it
/// starts with an 8-byte zero frame followed by the initial terminator.
impl Header for () {
    open spec fn spec_magic() -> Seq<u8> {
        Seq::empty()
    }

    open spec fn spec_size() -> nat {
        0
    }

    open spec fn spec_serialized(&self) -> Seq<u8> {
        Seq::empty()
    }

    open spec fn spec_deserialize(src: Seq<u8>) -> Result<Self, Self::DeserializeError> {
        Ok(())
    }

    fn magic() -> (m: Vec<u8>) {
        Vec::new()
    }

    fn serialized_size() -> (n: usize) {
        0
    }

    fn serialize(&self) -> (dst: Vec<u8>) {
        Vec::new()
    }

    type DeserializeError = ();

    fn deserialize(src: &[u8]) -> (r: Result<Self, Self::DeserializeError>) {
        Ok(())
    }
}

/// A minimal one-byte header with a single zero magic byte, useful for small
/// stores and for exercising the framing.
#[derive(Clone, Copy, Debug, PartialEq, Eq, Structural)]
pub struct ByteHeader(pub u8);

impl Header for ByteHeader {
    open spec fn spec_magic() -> Seq<u8> {
        seq![0u8]
    }

    open spec fn spec_size() -> nat {
        1
    }

    open spec fn spec_serialized(&self) -> Seq<u8> {
        seq![self.0]
    }

    open spec fn spec_deserialize(src: Seq<u8>) -> Result<Self, Self::DeserializeError> {
        Ok(ByteHeader(src[0]))
    }

    fn magic() -> (m: Vec<u8>) {
        let mut m = Vec::new();
        m.push(0u8);
        proof {
            assert(m@ =~= seq![0u8]);
        }
        m
    }

    fn serialized_size() -> (n: usize) {
        1
    }

    fn serialize(&self) -> (dst: Vec<u8>) {
        let mut dst = Vec::new();
        dst.push(self.0);
        proof {
            assert(dst@ =~= seq![self.0]);
        }
        dst
    }

    type DeserializeError = ();

    fn deserialize(src: &[u8]) -> (r: Result<Self, Self::DeserializeError>) {
        Ok(ByteHeader(src[0]))
    }
}

} // verus!

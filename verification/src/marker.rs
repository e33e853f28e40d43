//! The 8-byte marker word that both terminates blobs and encodes positional
//! redundancy, a padding length, and a one-bit commit state.
//!
//! Bit layout of a marker word (little-endian on disk):
//! bits 0..59 hold the body word index ("offset"), bit 60 the state
//! (0 = clean, 1 = dirty), bits 61..63 the padding length (0..7).

use vstd::prelude::*;

use crate::offset::Offset;

verus! {

/// Mask selecting the low 60 bits of a word: the encoded offset.
pub const OFFSET_MASK: u64 = 0x0FFF_FFFF_FFFF_FFFF;

/// Bit 60 of a word: the commit state (set = dirty).
pub const STATE_BIT: u64 = 0x1000_0000_0000_0000;

/// One more than the largest body word index a marker can encode.
pub const MAX_WORDS: u64 = 0x1000_0000_0000_0000;

/// The commit state carried by a marker word.
#[derive(Clone, Copy, Debug, PartialEq, Eq, Structural, PartialOrd, Ord, Hash)]
pub enum State {
    /// The write this marker terminates has been committed.
    Clean,
    /// The write is in flight, or the marker is a padding-only marker.
    Dirty,
}

/// A single 8-byte body word, viewed as a (potential) marker.
///
/// Every word of the body is carried as a `Marker`; whether it really is a
/// marker is decided positionally: the word at body index `i` is a marker
/// exactly when its encoded offset equals `i`.
#[derive(Clone, Copy, Debug, PartialEq, Eq, Structural, PartialOrd, Ord, Hash)]
pub struct Marker(pub u64);

/// The offset encoded in a word: its low 60 bits.
pub open spec fn word_offset(w: u64) -> u64 {
    w & OFFSET_MASK
}

/// The padding length encoded in a word: its top 3 bits.
pub open spec fn word_padding(w: u64) -> u64 {
    w >> 61
}

/// Whether a word's state bit marks it dirty.
pub open spec fn word_dirty(w: u64) -> bool {
    w & STATE_BIT != 0
}

/// Whether a word is a padding-only marker value: dirty with padding length 7.
pub open spec fn word_is_padding(w: u64) -> bool {
    word_dirty(w) && word_padding(w) == 7
}

/// The word value that encodes the given offset, padding length and state.
pub open spec fn encode(offset: u64, padding: u64, dirty: bool) -> u64 {
    offset | (padding << 61) | (if dirty {
        STATE_BIT
    } else {
        0
    })
}

/// Encoding round-trip: the three fields of a well-formed encoding decode
/// to the values they were built from.
pub proof fn lemma_encode_decode(offset: u64, padding: u64, dirty: bool)
    requires
        offset < MAX_WORDS,
        padding <= 7,
    ensures
        word_offset(encode(offset, padding, dirty)) == offset,
        word_padding(encode(offset, padding, dirty)) == padding,
        word_dirty(encode(offset, padding, dirty)) == dirty,
{
    assert(offset < 0x1000_0000_0000_0000 && padding <= 7 ==> {
        let w = offset | (padding << 61) | (if dirty {
            0x1000_0000_0000_0000u64
        } else {
            0
        });
        (w & 0x0FFF_FFFF_FFFF_FFFF) == offset && (w >> 61) == padding && ((w
            & 0x1000_0000_0000_0000u64 != 0) == dirty)
    }) by (bit_vector);
}

impl Marker {
    /// Creates a new marker from an offset, a padding length and a state.
    pub fn new(offset: Offset, padding_len: usize, state: State) -> (m: Marker)
        requires
            offset.raw < MAX_WORDS,
            padding_len <= 7,
        ensures
            m.0 == encode(offset.raw, padding_len as u64, state == State::Dirty),
            word_offset(m.0) == offset.raw,
            word_padding(m.0) == padding_len as u64,
            word_dirty(m.0) == (state == State::Dirty),
    {
        proof {
            lemma_encode_decode(offset.raw, padding_len as u64, state == State::Dirty);
        }
        let state_bits: u64 = match state {
            State::Clean => 0,
            State::Dirty => STATE_BIT,
        };
        Marker(offset.raw | ((padding_len as u64) << 61) | state_bits)
    }

    /// Creates a padding-only marker: dirty, padding length 7.
    pub fn new_padding(offset: Offset) -> (m: Marker)
        requires
            offset.raw < MAX_WORDS,
        ensures
            m.0 == encode(offset.raw, 7, true),
            word_offset(m.0) == offset.raw,
            word_padding(m.0) == 7,
            word_dirty(m.0),
            word_is_padding(m.0),
    {
        Marker::new(offset, 7, State::Dirty)
    }

    /// Whether this word is a padding-only marker value.
    pub fn is_padding(&self) -> (b: bool)
        ensures
            b == word_is_padding(self.0),
    {
        self.padding_len() == 7 && matches!(self.state(), State::Dirty)
    }

    /// The offset encoded in this word.
    pub fn offset(self) -> (o: Offset)
        ensures
            o.raw == word_offset(self.0),
            o.raw < MAX_WORDS,
    {
        proof {
            let w = self.0;
            assert(w & 0x0FFF_FFFF_FFFF_FFFF < 0x1000_0000_0000_0000) by (bit_vector);
        }
        Offset::new(self.0 & OFFSET_MASK)
    }

    /// The state encoded in this word.
    pub fn state(self) -> (s: State)
        ensures
            (s == State::Dirty) == word_dirty(self.0),
            (s == State::Clean) == !word_dirty(self.0),
    {
        if self.0 & STATE_BIT == 0 {
            State::Clean
        } else {
            State::Dirty
        }
    }

    /// Replaces the state bit, leaving offset and padding length unchanged.
    pub fn set_state(&mut self, state: State)
        ensures
            final (self).0 == set_word_state(old(self).0, state == State::Dirty),
            word_offset(final (self).0) == word_offset(old(self).0),
            word_padding(final (self).0) == word_padding(old(self).0),
            word_dirty(final (self).0) == (state == State::Dirty),
    {
        let state_bits: u64 = match state {
            State::Clean => 0,
            State::Dirty => STATE_BIT,
        };
        proof {
            lemma_set_word_state(self.0, state == State::Dirty);
        }
        self.0 = (self.0 & !STATE_BIT) | state_bits;
    }

    /// The padding length encoded in this word.
    pub fn padding_len(self) -> (n: usize)
        ensures
            n as u64 == word_padding(self.0),
            n <= 7,
    {
        proof {
            let w = self.0;
            assert(w >> 61 <= 7) by (bit_vector);
        }
        (self.0 >> 61) as usize
    }

    /// This word in its on-disk form: 8 bytes, little-endian.
    pub fn to_bytes(self) -> (s: Vec<u8>)
        ensures
            s@ == vstd::bytes::spec_u64_to_le_bytes(self.0),
            s@.len() == 8,
    {
        vstd::bytes::u64_to_le_bytes(self.0)
    }

    /// Reads a word back from its on-disk form.
    pub fn from_bytes(bytes: &[u8]) -> (m: Marker)
        requires
            bytes@.len() == 8,
        ensures
            m.0 == vstd::bytes::spec_u64_from_le_bytes(bytes@),
    {
        Marker(vstd::bytes::u64_from_le_bytes(bytes))
    }
}

/// The word value with its state bit replaced.
pub open spec fn set_word_state(w: u64, dirty: bool) -> u64 {
    (w & !STATE_BIT) | (if dirty {
        STATE_BIT
    } else {
        0
    })
}

/// Replacing the state bit leaves the offset and padding fields unchanged.
pub proof fn lemma_set_word_state(w: u64, dirty: bool)
    ensures
        word_offset(set_word_state(w, dirty)) == word_offset(w),
        word_padding(set_word_state(w, dirty)) == word_padding(w),
        word_dirty(set_word_state(w, dirty)) == dirty,
{
    assert({
        let v = (w & !0x1000_0000_0000_0000u64) | (if dirty {
            0x1000_0000_0000_0000u64
        } else {
            0
        });
        (v & 0x0FFF_FFFF_FFFF_FFFF) == (w & 0x0FFF_FFFF_FFFF_FFFF) && (v >> 61) == (w >> 61) && ((v
            & 0x1000_0000_0000_0000u64 != 0) == dirty)
    }) by (bit_vector);
}

} // verus!

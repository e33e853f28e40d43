//! The reader: a store held as its header frame plus its body word array,
//! with validation on open, byte-exact serialization, and point lookup.

use vstd::bytes::spec_u64_from_le_bytes;
use vstd::prelude::*;
use vstd::slice::{slice_subrange, slice_to_vec};

use crate::header::{frame_size, spec_frame_size, Header};
use crate::iter::Blobs;
use crate::marker::{word_dirty, word_is_padding, word_padding, Marker, MAX_WORDS};
use crate::offset::Offset;
use crate::parse::{
    marker_at, parse_resync, parse_scan, record_blob, spec_blobs, words_bytes, words_to_bytes,
};

verus! {

/// Why a byte image could not be opened as a store.
#[derive(Debug, PartialEq, Eq)]
pub enum OpenError<E> {
    /// The file does not belong to this schema.
    BadMagic,
    /// The header deserializer rejected the header bytes.
    HeaderDeserialize(E),
    /// The file is too short to hold the header frame and a terminator.
    Truncated,
    /// The body would hold more words than an offset can encode.
    TooLarge,
    /// The last body word is not a clean terminator: the file was not
    /// cleanly closed, and this implementation refuses it rather than
    /// attempting recovery.
    DirtyTail,
}

/// Why a point lookup failed.
#[derive(Clone, Copy, Debug, PartialEq, Eq, Structural)]
pub enum GetBlobError {
    /// The offset lies at or beyond the end of the body, or no complete
    /// record starts at it.
    OutOfRange,
    /// The word at the offset does not start a blob: it is a padding-only
    /// marker, is followed by padding, or is no marker at all.
    Unaligned,
}

/// A well-formed body: non-empty, within the encodable offset range, with a
/// clean marker as its last word (the terminator).
pub open spec fn wf_body(s: Seq<Marker>) -> bool {
    &&& 1 <= s.len() <= MAX_WORDS
    &&& marker_at(s, 0, s.len() - 1)
    &&& !word_dirty(s[s.len() - 1].0)
}

/// The main read interface to a blob store.
pub struct Breccia<H> {
    /// The deserialized file header.
    pub header: H,
    /// The header frame bytes: magic, serialized header, zero padding.
    pub frame: Vec<u8>,
    /// The body: every 8-byte word after the header frame.
    pub body: Vec<Marker>,
}

/// The words denoted by the bytes of `b` from `frame` on, one word per full
/// 8 bytes; a trailing partial word is ignored.
pub open spec fn spec_body_words(b: Seq<u8>, frame: int) -> Seq<Marker> {
    Seq::new(
        (((b.len() - frame) / 8) as nat),
        |i: int| Marker(spec_u64_from_le_bytes(b.subrange(frame + 8 * i, frame + 8 * i + 8))),
    )
}

/// Whether `bytes` opens successfully as a store framed by `H`.
pub open spec fn spec_open_ok<H: Header>(bytes: Seq<u8>) -> bool {
    let fsz = spec_frame_size::<H>();
    let m = H::spec_magic().len();
    &&& bytes.len() >= fsz
    &&& bytes.take(m as int) == H::spec_magic()
    &&& H::spec_deserialize(bytes.subrange(m as int, (m + H::spec_size()) as int)) is Ok
    &&& (bytes.len() - fsz) / 8 >= 1
    &&& (bytes.len() - fsz) / 8 <= MAX_WORDS
    &&& {
        let body = spec_body_words(bytes, fsz as int);
        marker_at(body, 0, body.len() - 1) && !word_dirty(body[body.len() - 1].0)
    }
}

impl<H: Header> Breccia<H> {
    /// A well-formed store: frame of the right size, well-formed body.
    pub open spec fn wf(self) -> bool {
        &&& self.frame@.len() == spec_frame_size::<H>()
        &&& wf_body(self.body@)
    }

    /// Returns a reference to the header.
    pub fn header(&self) -> (h: &H)
        ensures
            h == &self.header,
    {
        &self.header
    }

    /// Returns the body word array.
    pub fn map(&self) -> (m: &Vec<Marker>)
        ensures
            m == &self.body,
    {
        &self.body
    }

    /// Opens a store from the bytes of a file.
    ///
    /// Validates the magic, deserializes the header, and requires the last
    /// body word to be a clean terminator; a dirty tail is refused.
    ///
    /// Note: a file whose first body word is no marker still opens (the
    /// terminator check looks at the tail only); such a body yields its
    /// blobs from the first marker on.
    pub fn from_file_bytes(bytes: &[u8]) -> (r: Result<Breccia<H>, OpenError<H::DeserializeError>>)
        requires
            spec_frame_size::<H>() <= usize::MAX,
        ensures
            ({
                let fsz = spec_frame_size::<H>() as int;
                let m = H::spec_magic().len() as int;
                let hdr = H::spec_deserialize(bytes@.subrange(m, m + H::spec_size()));
                let count = (bytes@.len() - fsz) / 8;
                let body = spec_body_words(bytes@, fsz);
                &&& (bytes@.len() >= m && bytes@.take(m) != H::spec_magic() <==> r == Err::<
                    Breccia<H>,
                    OpenError<H::DeserializeError>,
                >(OpenError::BadMagic))
                &&& (bytes@.len() < m || (bytes@.take(m) == H::spec_magic() && (bytes@.len() < fsz
                    || (hdr is Ok && count == 0))) <==> r == Err::<Breccia<H>, OpenError<H::DeserializeError>>(
                    OpenError::Truncated,
                ))
                &&& (bytes@.len() >= fsz && bytes@.take(m) == H::spec_magic() && hdr is Err ==> r
                    == Err::<Breccia<H>, OpenError<H::DeserializeError>>(
                    OpenError::HeaderDeserialize(hdr->Err_0),
                ))
                &&& (bytes@.len() >= fsz && bytes@.take(m) == H::spec_magic() && hdr is Ok && count
                    > MAX_WORDS <==> r == Err::<Breccia<H>, OpenError<H::DeserializeError>>(OpenError::TooLarge))
                &&& (bytes@.len() >= fsz && bytes@.take(m) == H::spec_magic() && hdr is Ok && 1
                    <= count <= MAX_WORDS && !(marker_at(body, 0, count - 1) && !word_dirty(
                    body[count - 1].0,
                )) <==> r == Err::<Breccia<H>, OpenError<H::DeserializeError>>(OpenError::DirtyTail))
                &&& (spec_open_ok::<H>(bytes@) <==> r is Ok)
                &&& (r matches Ok(b) ==> {
                    &&& b.wf()
                    &&& b.frame@ == bytes@.take(fsz)
                    &&& b.body@ == body
                    &&& hdr == Ok::<H, H::DeserializeError>(b.header)
                })
            }),
    {
        let magic = H::magic();
        let m = magic.len();
        if bytes.len() < m {
            return Err(OpenError::Truncated);
        }
        let mut i: usize = 0;
        while i < m
            invariant
                0 <= i <= m,
                m <= bytes@.len(),
                m == magic@.len(),
                magic@ == H::spec_magic(),
                forall|k: int| 0 <= k < i ==> bytes@[k] == magic@[k],
            decreases m - i,
        {
            if bytes[i] != magic[i] {
                proof {
                    assert(bytes@.take(m as int)[i as int] != H::spec_magic()[i as int]);
                }
                return Err(OpenError::BadMagic);
            }
            i += 1;
        }
        proof {
            assert(bytes@.take(m as int) =~= H::spec_magic());
        }
        let frame = frame_size::<H>();
        if bytes.len() < frame {
            return Err(OpenError::Truncated);
        }
        let s = H::serialized_size();
        proof {
            assert(m + s < spec_frame_size::<H>());
        }
        let header = match H::deserialize(slice_subrange(bytes, m, m + s)) {
            Ok(h) => h,
            Err(e) => {
                return Err(OpenError::HeaderDeserialize(e));
            },
        };
        let total = bytes.len();
        let count = (total - frame) / 8;
        if count == 0 {
            return Err(OpenError::Truncated);
        }
        if count as u64 > MAX_WORDS {
            return Err(OpenError::TooLarge);
        }
        let ghost body_ghost = spec_body_words(bytes@, frame as int);
        proof {
            let bl = bytes@.len() - frame;
            vstd::arithmetic::div_mod::lemma_fundamental_div_mod(bl as int, 8);
            assert(8 * count <= bl);
        }
        let mut body: Vec<Marker> = Vec::new();
        let mut i: usize = 0;
        while i < count
            invariant
                0 <= i <= count,
                total == bytes@.len(),
                count == (bytes@.len() - spec_frame_size::<H>()) / 8,
                frame == spec_frame_size::<H>(),
                frame + 8 * count <= total,
                body_ghost == spec_body_words(bytes@, frame as int),
                body@ =~= body_ghost.take(i as int),
            decreases count - i,
        {
            let w = Marker::from_bytes(slice_subrange(bytes, frame + 8 * i, frame + 8 * i + 8));
            body.push(w);
            proof {
                assert(body@ =~= body_ghost.take(i + 1));
            }
            i += 1;
        }
        proof {
            assert(body@ =~= body_ghost);
        }
        let last = body[count - 1];
        let last_off = last.offset();
        if matches!(last.state(), crate::marker::State::Dirty) || last_off.raw != (count - 1)
            as u64 {
            return Err(OpenError::DirtyTail);
        }
        let frame_vec = slice_to_vec(slice_subrange(bytes, 0, frame));
        Ok(Breccia { header, frame: frame_vec, body })
    }

    /// The full file image: header frame followed by the body words.
    pub fn file_bytes(&self) -> (r: Vec<u8>)
        ensures
            r@ == self.frame@ + words_bytes(self.body@),
    {
        let mut out = self.frame.clone();
        proof {
            assert(out@ =~= self.frame@ + words_bytes(self.body@.take(0)));
        }
        let mut i: usize = 0;
        while i < self.body.len()
            invariant
                0 <= i <= self.body@.len(),
                out@ == self.frame@ + words_bytes(self.body@.take(i as int)),
            decreases self.body@.len() - i,
        {
            let mut b = self.body[i].to_bytes();
            out.append(&mut b);
            proof {
                let t = self.body@.take(i + 1);
                assert(t.drop_last() =~= self.body@.take(i as int));
                assert(t.last() == self.body@[i as int]);
                assert(out@ =~= self.frame@ + words_bytes(t));
            }
            i += 1;
        }
        proof {
            assert(self.body@.take(self.body@.len() as int) =~= self.body@);
        }
        out
    }

    /// Returns an iterator over all blobs stored.
    pub fn blobs<'a>(&'a self) -> (it: Blobs<'a>)
        requires
            self.wf(),
        ensures
            it.wf(),
            it.map@ == self.body@,
            it.base == 0,
            it.remaining() == spec_blobs(self.body@),
            marker_at(self.body@, 0, 0) ==> it.remaining_back() == crate::parse::spec_blobs_back(
                self.body@,
            ),
    {
        Blobs::new(self.body.as_slice(), Offset::new(0))
    }

    /// Returns the blob whose start marker is at body index `offset`.
    ///
    /// Fails with `OutOfRange` if the offset lies at or beyond the end of
    /// the body, or if no end marker follows before the body ends; with
    /// `Unaligned` if the word there is no marker, is a padding-only marker,
    /// or is itself directly followed by padding.
    pub fn get_blob(&self, offset: Offset) -> (r: Result<Vec<u8>, GetBlobError>)
        requires
            self.wf(),
        ensures
            r is Ok <==> spec_get_blob(self.body@, offset.raw as int) is Ok,
            r matches Ok(b) ==> Ok::<Seq<u8>, GetBlobError>(b@) == spec_get_blob(
                self.body@,
                offset.raw as int,
            ),
            r matches Err(e) ==> Err::<Seq<u8>, GetBlobError>(e) == spec_get_blob(
                self.body@,
                offset.raw as int,
            ),
    {
        let len = self.body.len();
        if offset.raw >= len as u64 {
            return Err(GetBlobError::OutOfRange);
        }
        let oi = offset.raw as usize;
        let w = self.body[oi];
        if w.offset().raw != offset.raw || w.is_padding() {
            return Err(GetBlobError::Unaligned);
        }
        let start = oi + 1;
        let mut cur = start;
        while cur < len
            invariant
                start <= cur <= len,
                1 <= start,
                len == self.body@.len(),
                spec_get_blob(self.body@, offset.raw as int) == spec_get_scan(
                    self.body@,
                    start as int,
                    cur as int,
                ),
            decreases len - cur,
        {
            let w2 = self.body[cur];
            if w2.offset().raw == (cur as u64) {
                let pad = w2.padding_len();
                if cur == start && pad > 0 {
                    return Err(GetBlobError::Unaligned);
                }
                let mut blob = words_to_bytes(self.body.as_slice(), start, cur);
                blob.truncate(blob.len() - pad);
                proof {
                    assert(blob@ =~= record_blob(self.body@, start as int, cur as int, pad as int));
                }
                return Ok(blob);
            }
            cur += 1;
        }
        Err(GetBlobError::OutOfRange)
    }
}

/// The scan of a point lookup: from `start`, the index just after the looked
/// up start marker, to the first marker, which ends the record.
pub open spec fn spec_get_scan(s: Seq<Marker>, start: int, cur: int) -> Result<Seq<u8>, GetBlobError>
    decreases s.len() - cur,
{
    if cur < start || cur >= s.len() || start < 1 {
        Err(GetBlobError::OutOfRange)
    } else if marker_at(s, 0, cur) {
        let pad = word_padding(s[cur].0) as int;
        if cur == start && pad > 0 {
            Err(GetBlobError::Unaligned)
        } else {
            Ok(record_blob(s, start, cur, pad))
        }
    } else {
        spec_get_scan(s, start, cur + 1)
    }
}

/// What a point lookup at body index `o` returns.
pub open spec fn spec_get_blob(s: Seq<Marker>, o: int) -> Result<Seq<u8>, GetBlobError> {
    if !(0 <= o < s.len()) {
        Err(GetBlobError::OutOfRange)
    } else if !marker_at(s, 0, o) || word_is_padding(s[o].0) {
        Err(GetBlobError::Unaligned)
    } else {
        spec_get_scan(s, o + 1, o + 1)
    }
}

/// The point-lookup scan does not depend on where it starts scanning, as
/// long as no marker has been passed.
proof fn lemma_get_scan_advance(s: Seq<Marker>, start: int, cur: int)
    requires
        1 <= start <= cur <= s.len(),
        forall|j: int| start <= j < cur ==> !marker_at(s, 0, j),
    ensures
        spec_get_scan(s, start, start) == spec_get_scan(s, start, cur),
    decreases cur - start,
{
    if start < cur {
        lemma_get_scan_advance(s, start, cur - 1);
    }
}

/// Every blob the iterator yields is returned by a point lookup at its
/// offset, unless its start marker is a padding-only marker — a point
/// lookup refuses those, as they arise when collision padding shifted the
/// blob.
proof fn lemma_scan_get(s: Seq<Marker>, start: int, cur: int, k: int)
    requires
        1 <= start <= cur <= s.len(),
        marker_at(s, 0, start - 1),
        forall|j: int| start <= j < cur ==> !marker_at(s, 0, j),
        0 <= k < parse_scan(s, 0, start, cur).len(),
    ensures
        ({
            let (o, b) = parse_scan(s, 0, start, cur)[k];
            !word_is_padding(s[o].0) ==> spec_get_blob(s, o) == Ok::<Seq<u8>, GetBlobError>(b)
        }),
    decreases s.len() - cur,
{
    if cur >= s.len() {
        // parse_scan is empty: no such k.
    } else if marker_at(s, 0, cur) {
        let pad = word_padding(s[cur].0) as int;
        if cur == start && pad > 0 {
            lemma_scan_get(s, start + 1, cur + 1, k);
        } else {
            if k == 0 {
                lemma_get_scan_advance(s, start, cur);
            } else {
                lemma_scan_get(s, cur + 1, cur + 1, k - 1);
            }
        }
    } else {
        lemma_scan_get(s, start, cur + 1, k);
    }
}

/// Helper for [`lemma_blobs_point_lookup`]: the property holds from any
/// resynchronization point.
proof fn lemma_resync_get(s: Seq<Marker>, i: int, k: int)
    requires
        0 <= i,
        0 <= k < parse_resync(s, 0, i).len(),
    ensures
        ({
            let (o, b) = parse_resync(s, 0, i)[k];
            !word_is_padding(s[o].0) ==> spec_get_blob(s, o) == Ok::<Seq<u8>, GetBlobError>(b)
        }),
    decreases s.len() - i,
{
    if i < s.len() {
        if marker_at(s, 0, i) {
            lemma_scan_get(s, i + 1, i + 1, k);
        } else {
            lemma_resync_get(s, i + 1, k);
        }
    }
}

/// Point lookups agree with iteration: for every `(offset, blob)` pair the
/// iterator yields, `get_blob` at that offset returns that blob — except
/// where the blob's start marker is a padding-only marker, which a point
/// lookup refuses by design.
pub proof fn lemma_blobs_point_lookup(s: Seq<Marker>)
    ensures
        forall|k: int|
            0 <= k < spec_blobs(s).len() ==> {
                let (o, b) = #[trigger] spec_blobs(s)[k];
                !word_is_padding(s[o].0) ==> spec_get_blob(s, o) == Ok::<Seq<u8>, GetBlobError>(b)
            },
{
    assert forall|k: int| 0 <= k < spec_blobs(s).len() implies {
        let (o, b) = #[trigger] spec_blobs(s)[k];
        !word_is_padding(s[o].0) ==> spec_get_blob(s, o) == Ok::<Seq<u8>, GetBlobError>(b)
    } by {
        lemma_resync_get(s, 0, k);
    }
}

} // verus!

//! The writer: appending blobs with collision-avoidance padding, and the
//! batch protocol that publishes several appends with one state flip.

use vstd::bytes::spec_u64_from_le_bytes;
use vstd::prelude::*;
use vstd::set_lib::{lemma_int_range, lemma_len_subset, set_int_range};
use vstd::slice::{slice_subrange, slice_to_vec};

use crate::header::{spec_frame_size, Header};
use crate::marker::{
    encode, word_is_padding, word_offset, word_padding, Marker, State, MAX_WORDS,
};
use crate::offset::Offset;
use crate::parse::{
    lemma_parse_back_prefix, lemma_parse_back_scan_skip, lemma_parse_back_trim,
    lemma_parse_resync_append, marker_at, parse_back, parse_back_scan, parse_scan,
    spec_blobs_back, words_bytes,
};
use crate::store::{wf_body, Breccia};

verus! {

/// The number of 8-byte chunks a blob occupies, the final partial chunk
/// counted in full.
pub open spec fn spec_chunk_count(b: Seq<u8>) -> int {
    (b.len() + 7) as int / 8
}

/// `n` fill bytes, value 0xFE.
pub open spec fn fe_seq(n: int) -> Seq<u8> {
    Seq::new(n as nat, |i: int| 0xFEu8)
}

/// The 8 bytes of chunk `i` of a blob: its bytes, with the final partial
/// chunk filled up with 0xFE.
pub open spec fn chunk_bytes(b: Seq<u8>, i: int) -> Seq<u8> {
    if 8 * i + 8 <= b.len() {
        b.subrange(8 * i, 8 * i + 8)
    } else {
        b.subrange(8 * i, b.len() as int) + fe_seq(8 * i + 8 - b.len())
    }
}

/// A blob as the words its payload occupies on disk.
pub open spec fn chunk_markers(b: Seq<u8>) -> Seq<Marker> {
    Seq::new(
        spec_chunk_count(b) as nat,
        |i: int| Marker(spec_u64_from_le_bytes(chunk_bytes(b, i))),
    )
}

/// The number of 0xFE tail fill bytes after a blob of length `n`.
pub open spec fn spec_tail_fill(n: int) -> int {
    (8 - n % 8) % 8
}

/// Whether placing the chunk words so that the first sits at absolute body
/// index `at` would make some chunk word name its own position — that is,
/// alias a marker.
pub open spec fn spec_collides(chunks: Seq<Marker>, at: int) -> bool {
    exists|i: int| 0 <= i < chunks.len() && word_offset(chunks[i].0) == at + i
}

/// Builds the payload words of a blob.
fn build_chunks(blob: &[u8]) -> (chunks: Vec<Marker>)
    ensures
        chunks@ == chunk_markers(blob@),
        chunks@.len() == spec_chunk_count(blob@),
{
    let n = blob.len();
    let full = n / 8;
    let rem = n % 8;
    proof {
        vstd::arithmetic::div_mod::lemma_fundamental_div_mod(n as int, 8);
    }
    let mut chunks: Vec<Marker> = Vec::new();
    let mut i: usize = 0;
    while i < full
        invariant
            0 <= i <= full,
            n == blob@.len(),
            full == n as int / 8,
            8 * full <= n,
            chunks@.len() == i,
            forall|k: int|
                0 <= k < i ==> chunks@[k] == Marker(spec_u64_from_le_bytes(chunk_bytes(blob@, k))),
        decreases full - i,
    {
        let w = Marker::from_bytes(slice_subrange(blob, 8 * i, 8 * i + 8));
        proof {
            assert(blob@.subrange(8 * i as int, 8 * i as int + 8) == chunk_bytes(blob@, i as int));
        }
        chunks.push(w);
        i += 1;
    }
    if rem > 0 {
        let mut tmp = slice_to_vec(slice_subrange(blob, n - rem, n));
        while tmp.len() < 8
            invariant
                rem <= tmp@.len() <= 8,
                tmp@.subrange(0, rem as int) == blob@.subrange(n - rem, n as int),
                forall|k: int| rem <= k < tmp@.len() ==> tmp@[k] == 0xFEu8,
            decreases 8 - tmp@.len(),
        {
            tmp.push(0xFEu8);
        }
        let w = Marker::from_bytes(tmp.as_slice());
        proof {
            assert(rem == n - 8 * full);
            assert(tmp@ =~= chunk_bytes(blob@, full as int));
        }
        chunks.push(w);
    }
    proof {
        if rem > 0 {
            assert(spec_chunk_count(blob@) == full + 1);
        } else {
            assert(spec_chunk_count(blob@) == full as int);
        }
        assert(chunks@ =~= chunk_markers(blob@));
    }
    chunks
}

/// Looks for a chunk word that would alias a marker if the first chunk sat
/// at absolute body index `at`.
fn collision_index(chunks: &Vec<Marker>, at: u64) -> (r: Option<usize>)
    requires
        at + chunks@.len() <= MAX_WORDS,
    ensures
        r matches Some(i) ==> 0 <= i < chunks@.len() && word_offset(chunks@[i as int].0) == at + i,
        r is None ==> !spec_collides(chunks@, at as int),
{
    let c = chunks.len();
    let mut i: usize = 0;
    while i < c
        invariant
            0 <= i <= c,
            c == chunks@.len(),
            at + c <= MAX_WORDS,
            forall|k: int| 0 <= k < i ==> word_offset(chunks@[k].0) != at + k,
        decreases c - i,
    {
        if chunks[i].offset().raw == at + i as u64 {
            return Some(i);
        }
        i += 1;
    }
    None
}

/// A sequence of collision witnesses is injective, so there are at most as
/// many colliding padding candidates as there are chunks.
proof fn lemma_witness_bound(wit: Seq<int>, chunks: Seq<Marker>, first: int)
    requires
        forall|q: int|
            0 <= q < wit.len() ==> 0 <= #[trigger] wit[q] < chunks.len() && word_offset(
                chunks[wit[q]].0,
            ) == first + q + wit[q],
    ensures
        wit.len() <= chunks.len(),
{
    broadcast use vstd::seq_lib::seq_to_set_is_finite;

    assert forall|a: int, b: int| 0 <= a < wit.len() && 0 <= b < wit.len() && a != b implies wit[a]
        != wit[b] by {
        if wit[a] == wit[b] {
            assert(first + a + wit[a] == first + b + wit[b]);
        }
    }
    assert(wit.no_duplicates());
    wit.unique_seq_to_set();
    assert(wit.to_set().subset_of(set_int_range(0, chunks.len() as int)));
    lemma_int_range(0, chunks.len() as int);
    lemma_len_subset(wit.to_set(), set_int_range(0, chunks.len() as int));
}

/// Probes padding amounts 0, 1, 2, … until no chunk word would alias a
/// marker; at most `chunks.len()` candidates can collide, so the result is
/// at most `chunks.len()`.
fn find_padding(chunks: &Vec<Marker>, first: u64) -> (p: usize)
    requires
        first + 2 * chunks@.len() + 1 <= MAX_WORDS,
    ensures
        p <= chunks@.len(),
        !spec_collides(chunks@, first + p),
        forall|q: int| 0 <= q < p ==> #[trigger] spec_collides(chunks@, first as int + q),
{
    let c = chunks.len();
    let ghost mut wit: Seq<int> = Seq::empty();
    let mut p: usize = 0;
    loop
        invariant
            0 <= p <= c,
            c == chunks@.len(),
            first + 2 * c + 1 <= MAX_WORDS,
            wit.len() == p,
            forall|q: int|
                0 <= q < p ==> 0 <= #[trigger] wit[q] < c && word_offset(chunks@[wit[q]].0)
                    == first + q + wit[q],
            forall|q: int| 0 <= q < p ==> #[trigger] spec_collides(chunks@, first as int + q),
        decreases c - p,
    {
        match collision_index(chunks, first + p as u64) {
            None => {
                return p;
            },
            Some(i) => {
                proof {
                    wit = wit.push(i as int);
                    lemma_witness_bound(wit, chunks@, first as int);
                }
                p += 1;
            },
        }
    }
}

/// The padding-only markers that shift a record: `p` of them, the first at
/// absolute body index `first`.
pub open spec fn pad_markers(first: int, p: int) -> Seq<Marker> {
    Seq::new(p as nat, |i: int| Marker(encode((first + i) as u64, 7, true)))
}

/// The words of one appended record whose first word sits at absolute body
/// index `first`: `p` padding-only markers, the blob's payload words, and
/// the end marker naming the tail fill.
pub open spec fn record_words(first: int, blob: Seq<u8>, p: int, dirty_end: bool) -> Seq<Marker> {
    pad_markers(first, p) + chunk_markers(blob) + seq![
        Marker(
            encode(
                (first + p + spec_chunk_count(blob)) as u64,
                spec_tail_fill(blob.len() as int) as u64,
                dirty_end,
            ),
        ),
    ]
}

/// A blob occupies exactly its own bytes plus its tail fill.
pub proof fn lemma_chunk_sizes(n: int)
    requires
        n >= 0,
    ensures
        0 <= spec_tail_fill(n) <= 7,
        8 * ((n + 7) / 8) == n + spec_tail_fill(n),
{
    vstd::arithmetic::div_mod::lemma_fundamental_div_mod(n, 8);
    vstd::arithmetic::div_mod::lemma_fundamental_div_mod(n + 7, 8);
    vstd::arithmetic::div_mod::lemma_mod_bound(n, 8);
    vstd::arithmetic::div_mod::lemma_mod_bound(n + 7, 8);
}

/// The bytes of a blob's payload words are the blob followed by its 0xFE
/// tail fill.
pub proof fn lemma_chunk_markers_bytes(b: Seq<u8>)
    ensures
        words_bytes(chunk_markers(b)) == b + fe_seq(spec_tail_fill(b.len() as int)),
    decreases b.len(),
{
    vstd::bytes::lemma_auto_spec_u64_to_from_le_bytes();
    lemma_chunk_sizes(b.len() as int);
    let c = spec_chunk_count(b);
    if c == 0 {
        assert(b =~= Seq::<u8>::empty());
        assert(words_bytes(chunk_markers(b)) =~= b + fe_seq(0));
    } else {
        let head = b.take(8 * (c - 1));
        lemma_chunk_sizes(head.len() as int);
        assert(spec_chunk_count(head) == c - 1);
        assert(chunk_markers(b).drop_last() =~= chunk_markers(head)) by {
            assert forall|i: int| 0 <= i < c - 1 implies chunk_bytes(b, i) =~= chunk_bytes(
                head,
                i,
            ) by {}
        }
        lemma_chunk_markers_bytes(head);
        assert(chunk_markers(b).last().0 == spec_u64_from_le_bytes(chunk_bytes(b, c - 1)));
        assert(chunk_bytes(b, c - 1).len() == 8);
        assert(words_bytes(chunk_markers(b)) == words_bytes(chunk_markers(head)) + chunk_bytes(
            b,
            c - 1,
        ));
        assert(head + fe_seq(0) =~= head);
        assert(head + chunk_bytes(b, c - 1) =~= b + fe_seq(spec_tail_fill(b.len() as int)));
    }
}

/// Appends one record to the word array `v`, whose element `i` sits at
/// absolute body index `abs0 + i`: the minimal number of padding-only
/// markers that avoids a marker collision, the blob's payload words, the
/// tail fill, and the end marker. Returns the blob's offset: the absolute
/// index of its start marker, the word just before the record.
fn push_record(v: &mut Vec<Marker>, abs0: u64, blob: &[u8], dirty_end: bool) -> (o: Offset)
    requires
        abs0 + old(v)@.len() >= 1,
        abs0 + old(v)@.len() + 2 * spec_chunk_count(blob@) + 1 <= MAX_WORDS,
        old(v)@.len() + 2 * spec_chunk_count(blob@) + 1 <= usize::MAX,
    ensures
        ({
            let first = abs0 + old(v)@.len();
            let c = spec_chunk_count(blob@);
            let p = o.raw - (first - 1);
            &&& first - 1 <= o.raw <= first - 1 + c
            &&& !spec_collides(chunk_markers(blob@), first + p)
            &&& forall|q: int| 0 <= q < p ==> #[trigger] spec_collides(chunk_markers(blob@), first + q)
            &&& final (v)@ == old(v)@ + record_words(first as int, blob@, p as int, dirty_end)
            &&& final (v)@.len() == old(v)@.len() + p + c + 1
        }),
{
    let ghost first_g = abs0 + old(v)@.len();
    let first = abs0 + v.len() as u64;
    let chunks = build_chunks(blob);
    let c = chunks.len();
    let p = find_padding(&chunks, first);
    let ghost mid = v@;
    let mut i: usize = 0;
    while i < p
        invariant
            0 <= i <= p,
            p <= c,
            first == first_g,
            first + 2 * c + 1 <= MAX_WORDS,
            c == spec_chunk_count(blob@),
            v@ =~= mid + pad_markers(first as int, i as int),
        decreases p - i,
    {
        let m = Marker::new_padding(Offset::new(first + i as u64));
        v.push(m);
        proof {
            assert(v@ =~= mid + pad_markers(first as int, i + 1));
        }
        i += 1;
    }
    let ghost mid2 = v@;
    let mut i: usize = 0;
    while i < c
        invariant
            0 <= i <= c,
            c == chunks@.len(),
            chunks@ == chunk_markers(blob@),
            v@ =~= mid2 + chunks@.take(i as int),
        decreases c - i,
    {
        let w = chunks[i];
        v.push(w);
        proof {
            assert(v@ =~= mid2 + chunks@.take(i + 1));
        }
        i += 1;
    }
    proof {
        assert(chunks@.take(c as int) =~= chunks@);
        lemma_chunk_sizes(blob@.len() as int);
    }
    let rem = blob.len() % 8;
    let fill = if rem == 0 {
        0
    } else {
        8 - rem
    };
    proof {
        assert(fill == spec_tail_fill(blob@.len() as int));
    }
    let end_off = first + p as u64 + c as u64;
    let end = Marker::new(Offset::new(end_off), fill, if dirty_end {
        State::Dirty
    } else {
        State::Clean
    });
    v.push(end);
    proof {
        assert(final (v)@ =~= old(v)@ + record_words(
            first as int,
            blob@,
            p as int,
            dirty_end,
        ));
    }
    Offset::new(first - 1 + p as u64)
}

/// Scanning from a run of padding-only markers skips them all.
proof fn lemma_skip_pads(full: Seq<Marker>, l: int, p: int, i: int)
    requires
        0 <= i <= p,
        1 <= l,
        l + p <= full.len(),
        l + p <= MAX_WORDS,
        forall|k: int| 0 <= k < p ==> #[trigger] full[l + k].0 == encode((l + k) as u64, 7, true),
    ensures
        parse_scan(full, 0, l + i, l + i) == parse_scan(full, 0, l + p, l + p),
    decreases p - i,
{
    if i < p {
        crate::marker::lemma_encode_decode((l + i) as u64, 7, true);
        assert(marker_at(full, 0, l + i));
        assert(word_padding(full[l + i].0) == 7);
        lemma_skip_pads(full, l, p, i + 1);
    }
}

/// Scanning over words that are no markers only advances the cursor.
proof fn lemma_scan_no_markers(full: Seq<Marker>, start: int, cur: int, to: int)
    requires
        1 <= start <= cur <= to <= full.len(),
        forall|k: int| cur <= k < to ==> !marker_at(full, 0, k),
    ensures
        parse_scan(full, 0, start, cur) == parse_scan(full, 0, start, to),
    decreases to - cur,
{
    if cur < to {
        lemma_scan_no_markers(full, start, cur + 1, to);
    }
}

/// One appended record parses to exactly its blob, at the offset of the
/// word before the record.
proof fn lemma_record_region(v: Seq<Marker>, blob: Seq<u8>, p: int, dirty_end: bool)
    requires
        1 <= v.len(),
        0 <= p,
        v.len() + p + spec_chunk_count(blob) + 1 <= MAX_WORDS,
        !spec_collides(chunk_markers(blob), v.len() + p),
    ensures
        parse_scan(v + record_words(v.len() as int, blob, p, dirty_end), 0, v.len() as int, v.len() as int)
            == seq![(v.len() + p - 1, blob)],
{
    let l = v.len() as int;
    let c = spec_chunk_count(blob);
    let fill = spec_tail_fill(blob.len() as int);
    let full = v + record_words(l, blob, p, dirty_end);
    lemma_chunk_sizes(blob.len() as int);
    assert(full.len() == l + p + c + 1);
    assert forall|k: int| 0 <= k < p implies #[trigger] full[l + k].0 == encode(
        (l + k) as u64,
        7,
        true,
    ) by {
        assert(record_words(l, blob, p, dirty_end)[k] == pad_markers(l, p)[k]);
    }
    lemma_skip_pads(full, l, p, 0);
    assert(full.subrange(l + p, l + p + c) =~= chunk_markers(blob));
    assert forall|k: int| l + p <= k < l + p + c implies !marker_at(full, 0, k) by {
        assert(full[k] == chunk_markers(blob)[k - (l + p)]);
        assert(!(word_offset(chunk_markers(blob)[k - (l + p)].0) == (l + p) + (k - (l + p))));
    }
    lemma_scan_no_markers(full, l + p, l + p, l + p + c);
    let end_word = full[l + p + c];
    assert(end_word.0 == encode((l + p + c) as u64, fill as u64, dirty_end));
    crate::marker::lemma_encode_decode((l + p + c) as u64, fill as u64, dirty_end);
    assert(marker_at(full, 0, l + p + c));
    let pair = (l + p - 1, crate::parse::record_blob(full, l + p, l + p + c, fill));
    if c == 0 {
        assert(blob =~= Seq::<u8>::empty());
        assert(fill == 0);
        assert(crate::parse::record_blob(full, l + p, l + p, 0) =~= blob);
    } else {
        lemma_chunk_markers_bytes(blob);
        assert(words_bytes(full.subrange(l + p, l + p + c)) == blob + fe_seq(fill));
        assert((blob + fe_seq(fill)).take(8 * c - fill) =~= blob);
    }
    assert(parse_scan(full, 0, l + p + c + 1, l + p + c + 1) =~= Seq::<(int, Seq<u8>)>::empty());
    assert(parse_scan(full, 0, l + p, l + p + c) == seq![(l + p - 1, blob)] + parse_scan(
        full,
        0,
        l + p + c + 1,
        l + p + c + 1,
    ));
    assert(seq![(l + p - 1, blob)] + Seq::<(int, Seq<u8>)>::empty() =~= seq![(l + p - 1, blob)]);
}

/// One appended record parses backward to exactly its blob, followed by the
/// reverse view of the words before it.
proof fn lemma_record_region_back(v: Seq<Marker>, blob: Seq<u8>, p: int)
    requires
        1 <= v.len(),
        0 <= p,
        marker_at(v, 0, v.len() - 1),
        v.len() + p + spec_chunk_count(blob) + 1 <= MAX_WORDS,
        !spec_collides(chunk_markers(blob), v.len() + p),
    ensures
        parse_back(
            v + record_words(v.len() as int, blob, p, false),
            0,
            1,
            v.len() + p + spec_chunk_count(blob) + 1,
        ) == seq![(v.len() + p - 1, blob)] + parse_back(v, 0, 1, v.len() as int),
{
    let l = v.len() as int;
    let c = spec_chunk_count(blob);
    let fill = spec_tail_fill(blob.len() as int);
    let full = v + record_words(l, blob, p, false);
    let t = l + p + c + 1;
    lemma_chunk_sizes(blob.len() as int);
    let rec = record_words(l, blob, p, false);
    assert(full.len() == t);
    crate::marker::lemma_encode_decode((l + p + c) as u64, fill as u64, false);
    assert(full[t - 1] == rec[rec.len() - 1]);
    assert(marker_at(full, 0, t - 1));
    assert(!crate::marker::word_is_padding(full[t - 1].0));
    assert(full.subrange(l + p, l + p + c) =~= chunk_markers(blob));
    let jstar = l + p - 1;
    if c > 0 {
        assert forall|k: int| jstar < k <= t - 2 implies !marker_at(full, 0, k) by {
            assert(full[k] == chunk_markers(blob)[k - (l + p)]);
            assert(!(word_offset(chunk_markers(blob)[k - (l + p)].0) == (l + p) + (k - (l + p))));
        }
        lemma_parse_back_scan_skip(full, 0, 1, t, t - 2, jstar);
    }
    if p > 0 {
        assert(full[jstar] == pad_markers(l, p)[p - 1]);
        crate::marker::lemma_encode_decode((l + p - 1) as u64, 7, true);
        assert(marker_at(full, 0, jstar));
    } else {
        assert(full[jstar] == v[l - 1]);
        assert(marker_at(full, 0, jstar));
    }
    assert(8 * (t - 2 - jstar) >= fill);
    if c == 0 {
        assert(blob =~= Seq::<u8>::empty());
        assert(crate::parse::record_blob(full, jstar + 1, t - 1, fill) =~= blob);
    } else {
        lemma_chunk_markers_bytes(blob);
        assert(words_bytes(full.subrange(jstar + 1, t - 1)) == blob + fe_seq(fill));
        assert((blob + fe_seq(fill)).take(8 * c - fill) =~= blob);
    }
    assert(parse_back_scan(full, 0, 1, t, jstar) == seq![(jstar, blob)] + parse_back(
        full,
        0,
        1,
        jstar + 1,
    ));
    if p > 0 {
        assert forall|k: int| l <= k < l + p implies marker_at(full, 0, k)
            && crate::marker::word_is_padding(#[trigger] full[k].0) by {
            assert(full[k] == pad_markers(l, p)[k - l]);
            crate::marker::lemma_encode_decode(k as u64, 7, true);
        }
        lemma_parse_back_trim(full, 0, 1, l, l + p);
    }
    lemma_parse_back_prefix(full, v, 0, 1, l);
}

/// `n` zero bytes.
pub open spec fn zero_seq(n: int) -> Seq<u8> {
    Seq::new(n as nat, |i: int| 0u8)
}

/// A mutable store: a reader that can also have blobs appended to it.
pub struct BrecciaMut<H> {
    /// The store being written.
    pub inner: Breccia<H>,
}

impl<H: Header> BrecciaMut<H> {
    /// A well-formed mutable store.
    pub open spec fn wf(self) -> bool {
        self.inner.wf()
    }

    /// Creates a new, empty store: the header frame followed by the initial
    /// clean terminator at body offset 0.
    pub fn create(header: H) -> (r: BrecciaMut<H>)
        requires
            H::spec_magic().len() + H::spec_size() + 8 <= usize::MAX,
        ensures
            r.wf(),
            r.inner.header == header,
            r.inner.frame@ == H::spec_magic() + header.spec_serialized() + zero_seq(
                spec_frame_size::<H>() - H::spec_magic().len() - H::spec_size(),
            ),
            r.inner.body@ == seq![Marker(encode(0, 0, false))],
            crate::parse::spec_blobs(r.inner.body@) == Seq::<(int, Seq<u8>)>::empty(),
            spec_blobs_back(r.inner.body@) == crate::parse::spec_blobs(r.inner.body@).reverse(),
    {
        let mut frame = H::magic();
        let mut hb = header.serialize();
        frame.append(&mut hb);
        let base = frame.len();
        let pad = 8 - (base % 8);
        let ghost mid = frame@;
        let mut k: usize = 0;
        while k < pad
            invariant
                0 <= k <= pad,
                frame@ =~= mid + zero_seq(k as int),
            decreases pad - k,
        {
            frame.push(0u8);
            proof {
                assert(frame@ =~= mid + zero_seq(k + 1));
            }
            k += 1;
        }
        let mut body: Vec<Marker> = Vec::new();
        body.push(Marker::new(Offset::new(0), 0, State::Clean));
        let r = BrecciaMut { inner: Breccia { header, frame, body } };
        proof {
            crate::marker::lemma_encode_decode(0, 0, false);
            assert(r.inner.body@ =~= seq![Marker(encode(0, 0, false))]);
            assert(parse_scan(r.inner.body@, 0, 1, 1) =~= Seq::<(int, Seq<u8>)>::empty());
            assert(crate::parse::spec_blobs(r.inner.body@) =~= Seq::<(int, Seq<u8>)>::empty());
            assert(spec_blobs_back(r.inner.body@) =~= Seq::<(int, Seq<u8>)>::empty());
            assert(crate::parse::spec_blobs(r.inner.body@).reverse() =~= Seq::<
                (int, Seq<u8>),
            >::empty());
        }
        r
    }

    /// Returns the read-only view of this store.
    pub fn reader(&self) -> (r: &Breccia<H>)
        ensures
            r == &self.inner,
    {
        &self.inner
    }

    /// Writes a new blob to the store and returns its offset.
    ///
    /// The record is framed as the padding probe demands: the fewest
    /// padding-only markers under which no payload word aliases a marker,
    /// then the payload, the 0xFE tail fill, and a clean end marker whose
    /// padding length is the tail fill length. The sequence of stored blobs
    /// grows by exactly this blob, at the returned offset.
    pub fn write_blob(&mut self, blob: &[u8]) -> (o: Offset)
        requires
            old(self).wf(),
            old(self).inner.body@.len() + 2 * spec_chunk_count(blob@) + 1 <= MAX_WORDS,
            old(self).inner.body@.len() + 2 * spec_chunk_count(blob@) + 1 <= usize::MAX,
        ensures
            final (self).wf(),
            final (self).inner.header == old(self).inner.header,
            final (self).inner.frame == old(self).inner.frame,
            ({
                let l = old(self).inner.body@.len() as int;
                let c = spec_chunk_count(blob@);
                let p = o.raw - (l - 1);
                let body = final (self).inner.body@;
                &&& l - 1 <= o.raw <= l - 1 + c
                &&& !spec_collides(chunk_markers(blob@), l + p)
                &&& forall|q: int|
                    0 <= q < p ==> #[trigger] spec_collides(chunk_markers(blob@), l + q)
                &&& body == old(self).inner.body@ + record_words(l, blob@, p, false)
                &&& body.len() == l + p + c + 1
                &&& forall|i: int|
                    l <= i < l + p ==> word_is_padding(#[trigger] body[i].0) && marker_at(
                        body,
                        0,
                        i,
                    )
                &&& words_bytes(body.subrange(l + p, l + p + c)) == blob@ + fe_seq(
                    spec_tail_fill(blob@.len() as int),
                )
                &&& word_padding(body[body.len() - 1].0) == spec_tail_fill(blob@.len() as int)
                &&& crate::parse::spec_blobs(body) == crate::parse::spec_blobs(
                    old(self).inner.body@,
                ).push((o.raw as int, blob@))
                &&& spec_blobs_back(body) == seq![(o.raw as int, blob@)] + spec_blobs_back(
                    old(self).inner.body@,
                )
                &&& spec_blobs_back(old(self).inner.body@) == crate::parse::spec_blobs(
                    old(self).inner.body@,
                ).reverse() ==> spec_blobs_back(body) == crate::parse::spec_blobs(body).reverse()
            }),
    {
        let ghost old_body = self.inner.body@;
        let ghost l = old_body.len() as int;
        let ghost c = spec_chunk_count(blob@);
        let o = push_record(&mut self.inner.body, 0, blob, false);
        proof {
            let p = o.raw - (l - 1);
            let rec = record_words(l, blob@, p, false);
            let body = self.inner.body@;
            lemma_chunk_sizes(blob@.len() as int);
            crate::marker::lemma_encode_decode(
                (l + p + c) as u64,
                spec_tail_fill(blob@.len() as int) as u64,
                false,
            );
            assert(body[body.len() - 1] == rec[rec.len() - 1]);
            assert(wf_body(body));
            assert forall|i: int| l <= i < l + p implies word_is_padding(#[trigger] body[i].0)
                && marker_at(body, 0, i) by {
                assert(body[i] == pad_markers(l, p)[i - l]);
                crate::marker::lemma_encode_decode(i as u64, 7, true);
            }
            assert(body.subrange(l + p, l + p + c) =~= chunk_markers(blob@));
            lemma_chunk_markers_bytes(blob@);
            lemma_record_region(old_body, blob@, p, false);
            lemma_parse_resync_append(old_body, rec, 0, 0);
            assert(crate::parse::spec_blobs(body) =~= crate::parse::spec_blobs(old_body).push(
                (o.raw as int, blob@),
            ));
            lemma_record_region_back(old_body, blob@, p);
            if spec_blobs_back(old_body) == crate::parse::spec_blobs(old_body).reverse() {
                let pair = (o.raw as int, blob@);
                assert(crate::parse::spec_blobs(old_body).push(pair).reverse() =~= seq![pair]
                    + crate::parse::spec_blobs(old_body).reverse());
            }
        }
        o
    }
}

/// A writer-side transaction: blobs appended through a batch become visible
/// to readers all at once, when `commit` publishes them by flipping the one
/// state bit of the final end marker to clean.
///
/// The batch buffers its records; every end marker in the buffer stays
/// dirty, so a reader never observes a clean terminator followed by a
/// partial batch. Dropping the batch without committing leaves the store
/// exactly as it was.
pub struct Batch {
    /// The store body at `start_batch`, against which the batch commits.
    pub base_body: Ghost<Seq<Marker>>,
    /// The number of body words at `start_batch`: where the batch's words
    /// will land.
    pub base: usize,
    /// The buffered record words, ending with a dirty end marker when any
    /// blob has been written.
    pub words: Vec<Marker>,
    /// The blobs written in this batch, with their offsets.
    pub blobs: Ghost<Seq<(int, Seq<u8>)>>,
}

impl Batch {
    /// The store body as it will look after `commit`, before the state flip.
    pub open spec fn combined(self) -> Seq<Marker> {
        self.base_body@ + self.words@
    }

    /// A well-formed batch over its base body.
    pub open spec fn wf(self) -> bool {
        &&& self.base == self.base_body@.len()
        &&& wf_body(self.base_body@)
        &&& self.base_body@.len() + self.words@.len() <= MAX_WORDS
        &&& self.words@.len() > 0 ==> marker_at(self.combined(), 0, self.combined().len() - 1)
            && crate::marker::word_dirty(self.combined().last().0)
        &&& crate::parse::spec_blobs(self.combined()) == crate::parse::spec_blobs(self.base_body@)
            + self.blobs@
    }

    /// Writes a blob into the batch and returns the offset it will have
    /// once the batch commits. The record's end marker stays dirty.
    pub fn write_blob(&mut self, blob: &[u8]) -> (o: Offset)
        requires
            old(self).wf(),
            old(self).base + old(self).words@.len() + 2 * spec_chunk_count(blob@) + 1 <= MAX_WORDS,
            old(self).words@.len() + 2 * spec_chunk_count(blob@) + 1 <= usize::MAX,
        ensures
            final (self).wf(),
            final (self).base_body == old(self).base_body,
            final (self).base == old(self).base,
            ({
                let l = old(self).combined().len() as int;
                let c = spec_chunk_count(blob@);
                let p = o.raw - (l - 1);
                &&& l - 1 <= o.raw <= l - 1 + c
                &&& !spec_collides(chunk_markers(blob@), l + p)
                &&& forall|q: int|
                    0 <= q < p ==> #[trigger] spec_collides(chunk_markers(blob@), l + q)
                &&& final (self).words@ == old(self).words@ + record_words(l, blob@, p, true)
                &&& final (self).blobs@ == old(self).blobs@.push((o.raw as int, blob@))
            }),
    {
        let ghost old_combined = self.combined();
        let ghost l = old_combined.len() as int;
        let o = push_record(&mut self.words, self.base as u64, blob, true);
        proof {
            let p = o.raw - (l - 1);
            let c = spec_chunk_count(blob@);
            let rec = record_words(l, blob@, p, true);
            self.blobs@ = self.blobs@.push((o.raw as int, blob@));
            assert(self.combined() =~= old_combined + rec);
            lemma_chunk_sizes(blob@.len() as int);
            crate::marker::lemma_encode_decode(
                (l + p + c) as u64,
                spec_tail_fill(blob@.len() as int) as u64,
                true,
            );
            assert(self.combined().last() == rec[rec.len() - 1]);
            lemma_record_region(old_combined, blob@, p, true);
            lemma_parse_resync_append(old_combined, rec, 0, 0);
            assert(crate::parse::spec_blobs(self.combined()) =~= crate::parse::spec_blobs(
                self.base_body@,
            ) + self.blobs@);
        }
        o
    }

    /// Publishes the batch: flips the final end marker's state bit to clean
    /// and appends the buffered words to the store. The store must be the
    /// one the batch was started on, unchanged since.
    pub fn commit<H: Header>(self, store: &mut BrecciaMut<H>)
        requires
            self.wf(),
            old(store).wf(),
            old(store).inner.body@ == self.base_body@,
        ensures
            final (store).wf(),
            final (store).inner.header == old(store).inner.header,
            final (store).inner.frame == old(store).inner.frame,
            self.words@.len() == 0 ==> final (store).inner.body@ == old(store).inner.body@,
            self.words@.len() > 0 ==> final (store).inner.body@ == self.combined().update(
                self.combined().len() - 1,
                Marker(crate::marker::set_word_state(self.combined().last().0, false)),
            ),
            crate::parse::spec_blobs(final (store).inner.body@) == crate::parse::spec_blobs(
                old(store).inner.body@,
            ) + self.blobs@,
    {
        let ghost orig_combined = self.combined();
        let mut words = self.words;
        if words.len() == 0 {
            proof {
                assert(orig_combined =~= self.base_body@);
                assert(crate::parse::spec_blobs(old(store).inner.body@)
                    + self.blobs@ =~= crate::parse::spec_blobs(old(store).inner.body@));
            }
            return ;
        }
        let mut m = match words.pop() {
            Some(m) => m,
            None => {
                // The buffer was checked non-empty just above.
                proof {
                    assert(false);
                }
                Marker(0)
            },
        };
        m.set_state(State::Clean);
        words.push(m);
        store.inner.body.append(&mut words);
        proof {
            let total = orig_combined.len() as int;
            let published = orig_combined.update(
                total - 1,
                Marker(crate::marker::set_word_state(orig_combined.last().0, false)),
            );
            crate::marker::lemma_set_word_state(orig_combined.last().0, false);
            assert(store.inner.body@ =~= published);
            assert(marker_at(published, 0, total - 1));
            assert(wf_body(published));
            crate::parse::lemma_parse_resync_state(published, orig_combined, 0, 0);
            assert(crate::parse::spec_blobs(store.inner.body@) == crate::parse::spec_blobs(
                old(store).inner.body@,
            ) + self.blobs@);
        }
    }
}

impl<H: Header> BrecciaMut<H> {
    /// Starts a batch of appends over this store, to be published atomically
    /// by `Batch::commit`. The store's terminator is clean by construction,
    /// so the batch always starts from a committed tail.
    pub fn start_batch(&self) -> (b: Batch)
        requires
            self.wf(),
        ensures
            b.wf(),
            b.base_body@ == self.inner.body@,
            b.words@.len() == 0,
            b.blobs@ == Seq::<(int, Seq<u8>)>::empty(),
    {
        let b = Batch {
            base_body: Ghost(self.inner.body@),
            base: self.inner.body.len(),
            words: Vec::new(),
            blobs: Ghost(Seq::empty()),
        };
        proof {
            assert(b.combined() =~= self.inner.body@);
            assert(crate::parse::spec_blobs(b.combined()) =~= crate::parse::spec_blobs(
                b.base_body@,
            ) + b.blobs@);
        }
        b
    }
}

} // verus!

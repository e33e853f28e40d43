//! The specification model of the on-disk framing: what sequence of
//! `(offset, blob)` pairs a body word array denotes.
//!
//! The model mirrors the forward iterator: from a synchronization point it
//! scans for the next word whose encoded offset equals its own body index
//! (a marker), treats the words in between as payload, and strips the tail
//! fill named by the marker's padding length. A marker that directly follows
//! the previous marker and names a non-zero padding length carries no blob
//! and is skipped.

use vstd::bytes::spec_u64_to_le_bytes;
use vstd::prelude::*;

use crate::marker::{word_is_padding, word_offset, word_padding, Marker};

verus! {

/// Whether the word at index `i` of `s` is a marker, given that index 0 of
/// `s` sits at absolute body index `base`: a word is a marker exactly when
/// its encoded offset equals its own absolute body index.
pub open spec fn marker_at(s: Seq<Marker>, base: int, i: int) -> bool {
    word_offset(s[i].0) == base + i
}

/// The bytes of a word sequence, each word in 8-byte little-endian form.
pub open spec fn words_bytes(s: Seq<Marker>) -> Seq<u8>
    decreases s.len(),
{
    if s.len() == 0 {
        Seq::empty()
    } else {
        words_bytes(s.drop_last()) + spec_u64_to_le_bytes(s.last().0)
    }
}

/// The blob carried by the record whose payload words are `s[start..cur]`
/// and whose end marker names `pad` bytes of tail fill.
pub open spec fn record_blob(s: Seq<Marker>, start: int, cur: int, pad: int) -> Seq<u8> {
    words_bytes(s.subrange(start, cur)).take(8 * (cur - start) - pad)
}

/// The `(offset, blob)` pairs denoted by `s` from a scan state: `start` is
/// the index just after the current start marker (at absolute offset
/// `base + start - 1`), and `cur` is the scan cursor, with no marker in
/// `s[start..cur]`.
pub open spec fn parse_scan(s: Seq<Marker>, base: int, start: int, cur: int) -> Seq<
    (int, Seq<u8>),
>
    decreases s.len() - cur,
{
    if cur < start || cur >= s.len() || start < 1 {
        Seq::empty()
    } else if marker_at(s, base, cur) {
        let pad = word_padding(s[cur].0) as int;
        if cur == start && pad > 0 {
            // A marker directly after the previous one, naming tail fill it
            // cannot have: a padding-only slot, carrying no blob.
            parse_scan(s, base, start + 1, cur + 1)
        } else {
            seq![(base + start - 1, record_blob(s, start, cur, pad))] + parse_scan(
                s,
                base,
                cur + 1,
                cur + 1,
            )
        }
    } else {
        parse_scan(s, base, start, cur + 1)
    }
}

/// The `(offset, blob)` pairs denoted by `s` when iteration begins by
/// resynchronizing: indices before the first marker are dropped.
pub open spec fn parse_resync(s: Seq<Marker>, base: int, i: int) -> Seq<(int, Seq<u8>)>
    decreases s.len() - i,
{
    if i < 0 || i >= s.len() {
        Seq::empty()
    } else if marker_at(s, base, i) {
        parse_scan(s, base, i + 1, i + 1)
    } else {
        parse_resync(s, base, i + 1)
    }
}

/// All `(offset, blob)` pairs stored in a body.
pub open spec fn spec_blobs(body: Seq<Marker>) -> Seq<(int, Seq<u8>)> {
    parse_resync(body, 0, 0)
}

/// The `(offset, blob)` pairs denoted by `s[start..end]` in reverse order,
/// as reverse iteration sees them: trailing padding-only markers are
/// trimmed, the last remaining word must be an end marker, and the matching
/// start marker is found by scanning downward. The word at `start - 1` is
/// the current forward start marker and may serve as a start marker here.
pub open spec fn parse_back(s: Seq<Marker>, base: int, start: int, end: int) -> Seq<(int, Seq<u8>)>
    decreases end - start, end - start + 1,
{
    if end <= start || start < 1 || end > s.len() {
        Seq::empty()
    } else if marker_at(s, base, end - 1) && word_is_padding(s[end - 1].0) {
        parse_back(s, base, start, end - 1)
    } else if !marker_at(s, base, end - 1) {
        Seq::empty()
    } else {
        parse_back_scan(s, base, start, end, end - 2)
    }
}

/// The downward scan of reverse iteration: looks for the start marker of the
/// record that ends at `end - 1`, from candidate index `j` downward.
pub open spec fn parse_back_scan(s: Seq<Marker>, base: int, start: int, end: int, j: int) -> Seq<
    (int, Seq<u8>),
>
    decreases end - start, j - start + 2,
{
    if j < start - 1 || j > end - 2 || !(start <= end <= s.len()) || start < 1 {
        Seq::empty()
    } else if marker_at(s, base, j) {
        let pad = word_padding(s[end - 1].0) as int;
        if 8 * (end - 2 - j) >= pad {
            seq![(base + j, record_blob(s, j + 1, end - 1, pad))] + parse_back(s, base, start, j + 1)
        } else {
            Seq::empty()
        }
    } else {
        parse_back_scan(s, base, start, end, j - 1)
    }
}

/// The bytes of a word sequence are 8 bytes per word.
pub proof fn lemma_words_bytes_len(s: Seq<Marker>)
    ensures
        words_bytes(s).len() == 8 * s.len(),
    decreases s.len(),
{
    if s.len() > 0 {
        lemma_words_bytes_len(s.drop_last());
        vstd::bytes::lemma_auto_spec_u64_to_from_le_bytes();
    }
}

/// Appending one word appends its 8 bytes.
pub proof fn lemma_words_bytes_push(s: Seq<Marker>, m: Marker)
    ensures
        words_bytes(s.push(m)) == words_bytes(s) + spec_u64_to_le_bytes(m.0),
{
    assert(s.push(m).drop_last() =~= s);
    assert(s.push(m).last() == m);
}

/// Words appended after a terminator do not disturb the parse of the words
/// before it: a scan state inside the old words proceeds identically, and
/// the appended words parse from the fresh state at the old length.
pub proof fn lemma_parse_scan_append(s: Seq<Marker>, ext: Seq<Marker>, base: int, start: int, cur: int)
    requires
        1 <= start <= cur <= s.len() - 1,
        marker_at(s, base, s.len() - 1),
    ensures
        parse_scan(s + ext, base, start, cur) == parse_scan(s, base, start, cur) + parse_scan(
            s + ext,
            base,
            s.len() as int,
            s.len() as int,
        ),
    decreases s.len() - cur,
{
    let l = s.len() as int;
    let s2 = s + ext;
    let tail = parse_scan(s2, base, l, l);
    assert(s2[cur] == s[cur]);
    if marker_at(s, base, cur) {
        let pad = word_padding(s[cur].0) as int;
        if cur == start && pad > 0 {
            if cur == l - 1 {
                assert(parse_scan(s, base, start, cur) =~= Seq::<(int, Seq<u8>)>::empty());
                assert(parse_scan(s2, base, start, cur) == parse_scan(s2, base, l, l));
                assert(Seq::<(int, Seq<u8>)>::empty() + tail =~= tail);
            } else {
                lemma_parse_scan_append(s, ext, base, start + 1, cur + 1);
            }
        } else {
            assert(s2.subrange(start, cur) =~= s.subrange(start, cur));
            let pair = (base + start - 1, record_blob(s, start, cur, pad));
            if cur == l - 1 {
                assert(parse_scan(s, base, cur + 1, cur + 1) =~= Seq::<(int, Seq<u8>)>::empty());
                assert(parse_scan(s, base, start, cur) =~= seq![pair]);
                assert(parse_scan(s2, base, start, cur) == seq![pair] + tail);
                assert(seq![pair] + tail =~= parse_scan(s, base, start, cur) + tail);
            } else {
                lemma_parse_scan_append(s, ext, base, cur + 1, cur + 1);
                assert(seq![pair] + (parse_scan(s, base, cur + 1, cur + 1) + tail) =~= (seq![pair]
                    + parse_scan(s, base, cur + 1, cur + 1)) + tail);
            }
        }
    } else {
        assert(cur < l - 1);
        lemma_parse_scan_append(s, ext, base, start, cur + 1);
    }
}

/// The resynchronizing entry point enjoys the same append stability.
pub proof fn lemma_parse_resync_append(s: Seq<Marker>, ext: Seq<Marker>, base: int, i: int)
    requires
        0 <= i <= s.len() - 1,
        marker_at(s, base, s.len() - 1),
    ensures
        parse_resync(s + ext, base, i) == parse_resync(s, base, i) + parse_scan(
            s + ext,
            base,
            s.len() as int,
            s.len() as int,
        ),
    decreases s.len() - i,
{
    let l = s.len() as int;
    let s2 = s + ext;
    let tail = parse_scan(s2, base, l, l);
    assert(s2[i] == s[i]);
    if marker_at(s, base, i) {
        if i == l - 1 {
            assert(parse_scan(s, base, i + 1, i + 1) =~= Seq::<(int, Seq<u8>)>::empty());
            assert(Seq::<(int, Seq<u8>)>::empty() + tail =~= tail);
        } else {
            lemma_parse_scan_append(s, ext, base, i + 1, i + 1);
        }
    } else {
        assert(i < l - 1);
        lemma_parse_resync_append(s, ext, base, i + 1);
    }
}

/// From a scan state, every parsed offset is at least the current start
/// marker's offset and below the end of the slice, and offsets come out
/// strictly increasing.
pub proof fn lemma_scan_offsets(s: Seq<Marker>, base: int, start: int, cur: int)
    requires
        1 <= start <= cur <= s.len(),
    ensures
        forall|k: int|
            0 <= k < parse_scan(s, base, start, cur).len() ==> (#[trigger] parse_scan(
                s,
                base,
                start,
                cur,
            )[k]).0 >= base + start - 1,
        forall|k: int|
            0 <= k < parse_scan(s, base, start, cur).len() ==> (#[trigger] parse_scan(
                s,
                base,
                start,
                cur,
            )[k]).0 < base + s.len(),
        forall|k1: int, k2: int|
            0 <= k1 < k2 < parse_scan(s, base, start, cur).len() ==> (#[trigger] parse_scan(
                s,
                base,
                start,
                cur,
            )[k1]).0 < (#[trigger] parse_scan(s, base, start, cur)[k2]).0,
    decreases s.len() - cur,
{
    if cur >= s.len() {
    } else if marker_at(s, base, cur) {
        let pad = word_padding(s[cur].0) as int;
        if cur == start && pad > 0 {
            lemma_scan_offsets(s, base, start + 1, cur + 1);
            let ps = parse_scan(s, base, start, cur);
            let ps2 = parse_scan(s, base, start + 1, cur + 1);
            assert(ps == ps2);
            assert forall|k: int| 0 <= k < ps.len() implies (#[trigger] ps[k]).0 >= base + start
                - 1 && (ps[k]).0 < base + s.len() by {
                assert(ps[k] == ps2[k]);
            }
            assert forall|k1: int, k2: int| 0 <= k1 < k2 < ps.len() implies (#[trigger] ps[k1]).0
                < (#[trigger] ps[k2]).0 by {
                assert(ps[k1] == ps2[k1] && ps[k2] == ps2[k2]);
            }
        } else {
            lemma_scan_offsets(s, base, cur + 1, cur + 1);
            let ps = parse_scan(s, base, start, cur);
            let rest = parse_scan(s, base, cur + 1, cur + 1);
            assert(ps == seq![(base + start - 1, record_blob(s, start, cur, pad))] + rest);
            assert forall|k: int| 0 <= k < ps.len() implies (#[trigger] ps[k]).0 >= base + start
                - 1 && (ps[k]).0 < base + s.len() by {
                if k >= 1 {
                    assert(ps[k] == rest[k - 1]);
                    assert(rest[k - 1].0 >= base + cur);
                    assert(rest[k - 1].0 < base + s.len());
                }
            }
            assert forall|k1: int, k2: int| 0 <= k1 < k2 < ps.len() implies (#[trigger] ps[k1]).0
                < (#[trigger] ps[k2]).0 by {
                assert(ps[k2] == rest[k2 - 1]);
                assert(rest[k2 - 1].0 >= base + cur);
                if k1 >= 1 {
                    assert(ps[k1] == rest[k1 - 1]);
                } else {
                    assert(ps[0].0 == base + start - 1);
                }
            }
        }
    } else {
        lemma_scan_offsets(s, base, start, cur + 1);
        let ps = parse_scan(s, base, start, cur);
        let ps2 = parse_scan(s, base, start, cur + 1);
        assert(ps == ps2);
        assert forall|k: int| 0 <= k < ps.len() implies (#[trigger] ps[k]).0 >= base + start
            - 1 && (ps[k]).0 < base + s.len() by {
            assert(ps[k] == ps2[k]);
        }
        assert forall|k1: int, k2: int| 0 <= k1 < k2 < ps.len() implies (#[trigger] ps[k1]).0 < (
        #[trigger] ps[k2]).0 by {
            assert(ps[k1] == ps2[k1] && ps[k2] == ps2[k2]);
        }
    }
}

/// Helper for [`lemma_blobs_offsets_increasing`], from any
/// resynchronization point; parsed offsets lie between the
/// resynchronization point and the end of the slice.
pub proof fn lemma_resync_offsets(s: Seq<Marker>, base: int, i: int)
    requires
        0 <= i,
    ensures
        forall|k1: int, k2: int|
            0 <= k1 < k2 < parse_resync(s, base, i).len() ==> (#[trigger] parse_resync(
                s,
                base,
                i,
            )[k1]).0 < (#[trigger] parse_resync(s, base, i)[k2]).0,
        forall|k: int|
            0 <= k < parse_resync(s, base, i).len() ==> base + i <= (#[trigger] parse_resync(
                s,
                base,
                i,
            )[k]).0 < base + s.len(),
    decreases s.len() - i,
{
    if i < s.len() {
        let ps = parse_resync(s, base, i);
        if marker_at(s, base, i) {
            lemma_scan_offsets(s, base, i + 1, i + 1);
            let ps2 = parse_scan(s, base, i + 1, i + 1);
            assert(ps == ps2);
            assert forall|k1: int, k2: int| 0 <= k1 < k2 < ps.len() implies (#[trigger] ps[k1]).0
                < (#[trigger] ps[k2]).0 by {
                assert(ps[k1] == ps2[k1] && ps[k2] == ps2[k2]);
            }
            assert forall|k: int| 0 <= k < ps.len() implies base + i <= (#[trigger] ps[k]).0
                < base + s.len() by {
                assert(ps[k] == ps2[k]);
            }
        } else {
            lemma_resync_offsets(s, base, i + 1);
            let ps2 = parse_resync(s, base, i + 1);
            assert(ps == ps2);
            assert forall|k1: int, k2: int| 0 <= k1 < k2 < ps.len() implies (#[trigger] ps[k1]).0
                < (#[trigger] ps[k2]).0 by {
                assert(ps[k1] == ps2[k1] && ps[k2] == ps2[k2]);
            }
            assert forall|k: int| 0 <= k < ps.len() implies base + i <= (#[trigger] ps[k]).0
                < base + s.len() by {
                assert(ps[k] == ps2[k]);
            }
        }
    }
}

/// Every parsed offset names a marker: the word there encodes its own
/// position.
proof fn lemma_scan_offsets_markers(s: Seq<Marker>, base: int, start: int, cur: int)
    requires
        1 <= start <= cur <= s.len(),
        marker_at(s, base, start - 1),
    ensures
        forall|k: int|
            0 <= k < parse_scan(s, base, start, cur).len() ==> marker_at(
                s,
                base,
                (#[trigger] parse_scan(s, base, start, cur)[k]).0 - base,
            ),
    decreases s.len() - cur,
{
    let ps = parse_scan(s, base, start, cur);
    if cur >= s.len() {
    } else if marker_at(s, base, cur) {
        let pad = word_padding(s[cur].0) as int;
        if cur == start && pad > 0 {
            lemma_scan_offsets_markers(s, base, start + 1, cur + 1);
            let ps2 = parse_scan(s, base, start + 1, cur + 1);
            assert forall|k: int| 0 <= k < ps.len() implies marker_at(
                s,
                base,
                (#[trigger] ps[k]).0 - base,
            ) by {
                assert(ps[k] == ps2[k]);
            }
        } else {
            lemma_scan_offsets_markers(s, base, cur + 1, cur + 1);
            let rest = parse_scan(s, base, cur + 1, cur + 1);
            assert forall|k: int| 0 <= k < ps.len() implies marker_at(
                s,
                base,
                (#[trigger] ps[k]).0 - base,
            ) by {
                if k >= 1 {
                    assert(ps[k] == rest[k - 1]);
                } else {
                    assert(ps[0].0 == base + start - 1);
                }
            }
        }
    } else {
        lemma_scan_offsets_markers(s, base, start, cur + 1);
        let ps2 = parse_scan(s, base, start, cur + 1);
        assert forall|k: int| 0 <= k < ps.len() implies marker_at(
            s,
            base,
            (#[trigger] ps[k]).0 - base,
        ) by {
            assert(ps[k] == ps2[k]);
        }
    }
}

/// Every offset a body stores names a marker.
pub proof fn lemma_resync_offsets_markers(s: Seq<Marker>, base: int, i: int)
    requires
        0 <= i,
    ensures
        forall|k: int|
            0 <= k < parse_resync(s, base, i).len() ==> marker_at(
                s,
                base,
                (#[trigger] parse_resync(s, base, i)[k]).0 - base,
            ),
    decreases s.len() - i,
{
    let ps = parse_resync(s, base, i);
    if i < s.len() {
        if marker_at(s, base, i) {
            lemma_scan_offsets_markers(s, base, i + 1, i + 1);
            let ps2 = parse_scan(s, base, i + 1, i + 1);
            assert forall|k: int| 0 <= k < ps.len() implies marker_at(
                s,
                base,
                (#[trigger] ps[k]).0 - base,
            ) by {
                assert(ps[k] == ps2[k]);
            }
        } else {
            lemma_resync_offsets_markers(s, base, i + 1);
            let ps2 = parse_resync(s, base, i + 1);
            assert forall|k: int| 0 <= k < ps.len() implies marker_at(
                s,
                base,
                (#[trigger] ps[k]).0 - base,
            ) by {
                assert(ps[k] == ps2[k]);
            }
        }
    }
}

/// Parsing a suffix of a body equals parsing the body with the cursor moved
/// forward: the base offset keeps absolute positions aligned.
proof fn lemma_scan_shift(s: Seq<Marker>, m: int, base: int, start: int, cur: int)
    requires
        0 <= m <= s.len(),
        1 <= start <= cur,
    ensures
        parse_scan(s.skip(m), base + m, start, cur) == parse_scan(s, base, start + m, cur + m),
    decreases s.len() - m - cur,
{
    let s2 = s.skip(m);
    if cur >= s2.len() {
    } else {
        assert(s2[cur] == s[cur + m]);
        if marker_at(s2, base + m, cur) {
            let pad = word_padding(s2[cur].0) as int;
            if cur == start && pad > 0 {
                lemma_scan_shift(s, m, base, start + 1, cur + 1);
            } else {
                assert(s2.subrange(start, cur) =~= s.subrange(start + m, cur + m));
                lemma_scan_shift(s, m, base, cur + 1, cur + 1);
            }
        } else {
            lemma_scan_shift(s, m, base, start, cur + 1);
        }
    }
}

/// Resynchronizing over a suffix equals resynchronizing over the body from
/// the suffix's position.
pub proof fn lemma_resync_shift(s: Seq<Marker>, m: int, base: int, i: int)
    requires
        0 <= m <= s.len(),
        0 <= i,
    ensures
        parse_resync(s.skip(m), base + m, i) == parse_resync(s, base, i + m),
    decreases s.len() - m - i,
{
    let s2 = s.skip(m);
    if i < s2.len() {
        assert(s2[i] == s[i + m]);
        if marker_at(s2, base + m, i) {
            lemma_scan_shift(s, m, base, i + 1, i + 1);
        } else {
            lemma_resync_shift(s, m, base, i + 1);
        }
    }
}

/// Resynchronization lands just after the first marker at or past its
/// starting point.
proof fn lemma_resync_to_scan(s: Seq<Marker>, base: int, i: int, j: int)
    requires
        0 <= i <= j < s.len(),
        marker_at(s, base, j),
        forall|k: int| i <= k < j ==> !marker_at(s, base, k),
    ensures
        parse_resync(s, base, i) == parse_scan(s, base, j + 1, j + 1),
    decreases j - i,
{
    if i < j {
        lemma_resync_to_scan(s, base, i + 1, j);
    }
}

/// If some marker sits at or past `m`, a first such marker exists.
proof fn lemma_first_marker(s: Seq<Marker>, base: int, m: int, t: int)
    requires
        0 <= m <= t < s.len(),
        marker_at(s, base, t),
    ensures
        exists|j: int|
            m <= j <= t && #[trigger] marker_at(s, base, j) && forall|k: int|
                m <= k < j ==> !marker_at(s, base, k),
    decreases t - m,
{
    if marker_at(s, base, m) {
        let j = m;
        assert(m <= j <= t && marker_at(s, base, j) && forall|k: int|
            m <= k < j ==> !marker_at(s, base, k));
    } else {
        lemma_first_marker(s, base, m + 1, t);
        let j = choose|j: int|
            m + 1 <= j <= t && #[trigger] marker_at(s, base, j) && forall|k: int|
                m + 1 <= k < j ==> !marker_at(s, base, k);
        assert(m <= j <= t && marker_at(s, base, j) && forall|k: int|
            m <= k < j ==> !marker_at(s, base, k));
    }
}

/// A forward scan that has not yet reached the marker at `j` passes through
/// the state just after it: the parse splits into the pairs found before
/// `j`, whose offsets lie below it, and the parse from just past it.
proof fn lemma_scan_cross(s: Seq<Marker>, base: int, start: int, cur: int, j: int)
    requires
        1 <= start <= cur <= j < s.len(),
        marker_at(s, base, j),
    ensures
        exists|n: int|
            0 <= n <= parse_scan(s, base, start, cur).len() && parse_scan(
                s,
                base,
                start,
                cur,
            ).skip(n) == parse_scan(s, base, j + 1, j + 1) && forall|k: int|
                0 <= k < n ==> (#[trigger] parse_scan(s, base, start, cur)[k]).0 < base + j,
    decreases j - cur,
{
    let ps = parse_scan(s, base, start, cur);
    let tail = parse_scan(s, base, j + 1, j + 1);
    if marker_at(s, base, cur) {
        let pad = word_padding(s[cur].0) as int;
        if cur == start && pad > 0 {
            if cur == j {
                assert(ps.skip(0) =~= tail);
            } else {
                lemma_scan_cross(s, base, start + 1, cur + 1, j);
                let n = choose|n: int|
                    #![trigger parse_scan(s, base, start + 1, cur + 1).skip(n)]
                    0 <= n <= parse_scan(s, base, start + 1, cur + 1).len() && parse_scan(
                        s,
                        base,
                        start + 1,
                        cur + 1,
                    ).skip(n) == tail && forall|k: int|
                        0 <= k < n ==> (#[trigger] parse_scan(s, base, start + 1, cur + 1)[k]).0
                            < base + j;
                assert(ps.skip(n) == tail && forall|k: int|
                    0 <= k < n ==> (#[trigger] ps[k]).0 < base + j);
            }
        } else {
            let pair = (base + start - 1, record_blob(s, start, cur, pad));
            let rest = parse_scan(s, base, cur + 1, cur + 1);
            assert(ps == seq![pair] + rest);
            if cur == j {
                assert(ps.skip(1) =~= tail);
                assert(forall|k: int| 0 <= k < 1 ==> (#[trigger] ps[k]).0 < base + j);
            } else {
                lemma_scan_cross(s, base, cur + 1, cur + 1, j);
                let n = choose|n: int|
                    #![trigger rest.skip(n)]
                    0 <= n <= rest.len() && rest.skip(n) == tail && forall|k: int|
                        0 <= k < n ==> (#[trigger] rest[k]).0 < base + j;
                assert(ps.skip(n + 1) =~= rest.skip(n));
                assert forall|k: int| 0 <= k < n + 1 implies (#[trigger] ps[k]).0 < base + j by {
                    if k >= 1 {
                        assert(ps[k] == rest[k - 1]);
                    }
                }
                assert(0 <= n + 1 <= ps.len() && ps.skip(n + 1) == tail);
            }
        }
    } else {
        assert(cur < j);
        lemma_scan_cross(s, base, start, cur + 1, j);
        let n = choose|n: int|
            #![trigger parse_scan(s, base, start, cur + 1).skip(n)]
            0 <= n <= parse_scan(s, base, start, cur + 1).len() && parse_scan(
                s,
                base,
                start,
                cur + 1,
            ).skip(n) == tail && forall|k: int|
                0 <= k < n ==> (#[trigger] parse_scan(s, base, start, cur + 1)[k]).0 < base + j;
        assert(ps.skip(n) == tail && forall|k: int| 0 <= k < n ==> (#[trigger] ps[k]).0 < base + j);
    }
}

/// Resynchronizing at `m` misses nothing: every stored blob whose offset is
/// at or past `m` is also yielded by an iterator seeded at `m`.
pub proof fn lemma_suffix_complete(s: Seq<Marker>, m: int, k: int)
    requires
        0 <= m <= s.len(),
        0 <= k < spec_blobs(s).len(),
        (spec_blobs(s)[k]).0 >= m,
    ensures
        exists|k2: int|
            0 <= k2 < parse_resync(s.skip(m), m, 0).len() && #[trigger] parse_resync(
                s.skip(m),
                m,
                0,
            )[k2] == spec_blobs(s)[k],
{
    let ps = spec_blobs(s);
    let t = ps[k].0;
    lemma_resync_offsets_markers(s, 0, 0);
    lemma_resync_offsets(s, 0, 0);
    assert(marker_at(s, 0, t));
    assert(0 <= t < s.len());
    lemma_first_marker(s, 0, m, t);
    let j = choose|j: int|
        m <= j <= t && #[trigger] marker_at(s, 0, j) && forall|k2: int|
            m <= k2 < j ==> !marker_at(s, 0, k2);
    lemma_resync_shift(s, m, 0, 0);
    lemma_resync_to_scan(s, 0, m, j);
    let suffix = parse_resync(s.skip(m), m, 0);
    assert(suffix == parse_scan(s, 0, j + 1, j + 1));
    lemma_first_marker(s, 0, 0, t);
    let j0 = choose|j0: int|
        0 <= j0 <= t && #[trigger] marker_at(s, 0, j0) && forall|k2: int|
            0 <= k2 < j0 ==> !marker_at(s, 0, k2);
    lemma_resync_to_scan(s, 0, 0, j0);
    assert(ps == parse_scan(s, 0, j0 + 1, j0 + 1));
    if j0 == j {
        assert(parse_resync(s.skip(m), m, 0)[k] == spec_blobs(s)[k]);
    } else {
        assert(j0 < j) by {
            if j0 > j {
                assert(!marker_at(s, 0, j));
            }
        }
        lemma_scan_cross(s, 0, j0 + 1, j0 + 1, j);
        let n = choose|n: int|
            #![trigger ps.skip(n)]
            0 <= n <= ps.len() && ps.skip(n) == parse_scan(s, 0, j + 1, j + 1) && forall|k2: int|
                0 <= k2 < n ==> (#[trigger] ps[k2]).0 < j;
        assert(t >= j);
        assert(k >= n) by {
            if k < n {
                assert(ps[k].0 < j);
            }
        }
        assert(suffix[k - n] == ps.skip(n)[k - n]);
        assert(ps.skip(n)[k - n] == ps[k]);
        assert(parse_resync(s.skip(m), m, 0)[k - n] == spec_blobs(s)[k]);
    }
}

/// The offsets of the stored blobs are strictly increasing, in iteration
/// order.
pub proof fn lemma_blobs_offsets_increasing(s: Seq<Marker>)
    ensures
        forall|k1: int, k2: int|
            0 <= k1 < k2 < spec_blobs(s).len() ==> (#[trigger] spec_blobs(s)[k1]).0 < (
            #[trigger] spec_blobs(s)[k2]).0,
{
    lemma_resync_offsets(s, 0, 0);
}

/// The reverse-iteration view of a whole body whose first word is its first
/// marker: the `(offset, blob)` pairs, last blob first.
pub open spec fn spec_blobs_back(s: Seq<Marker>) -> Seq<(int, Seq<u8>)> {
    parse_back(s, 0, 1, s.len() as int)
}

/// Reverse parsing reads only the words below its end bound: what lies
/// beyond cannot change it.
pub proof fn lemma_parse_back_prefix(s1: Seq<Marker>, s2: Seq<Marker>, base: int, start: int, end: int)
    requires
        end <= s1.len(),
        end <= s2.len(),
        forall|k: int| 0 <= k < end ==> s1[k] == s2[k],
    ensures
        parse_back(s1, base, start, end) == parse_back(s2, base, start, end),
    decreases end - start, end - start + 1,
{
    if end <= start || start < 1 {
    } else {
        assert(s1[end - 1] == s2[end - 1]);
        if marker_at(s1, base, end - 1) && word_is_padding(s1[end - 1].0) {
            lemma_parse_back_prefix(s1, s2, base, start, end - 1);
        } else if !marker_at(s1, base, end - 1) {
        } else {
            lemma_parse_back_scan_prefix(s1, s2, base, start, end, end - 2);
        }
    }
}

/// Helper for [`lemma_parse_back_prefix`]: the downward scan likewise reads
/// only words below the end bound.
proof fn lemma_parse_back_scan_prefix(
    s1: Seq<Marker>,
    s2: Seq<Marker>,
    base: int,
    start: int,
    end: int,
    j: int,
)
    requires
        end <= s1.len(),
        end <= s2.len(),
        forall|k: int| 0 <= k < end ==> s1[k] == s2[k],
    ensures
        parse_back_scan(s1, base, start, end, j) == parse_back_scan(s2, base, start, end, j),
    decreases end - start, j - start + 2,
{
    if j < start - 1 || j > end - 2 || !(start <= end) || start < 1 {
    } else {
        assert(s1[j] == s2[j]);
        assert(s1[end - 1] == s2[end - 1]);
        if marker_at(s1, base, j) {
            let pad = word_padding(s1[end - 1].0) as int;
            if 8 * (end - 2 - j) >= pad {
                assert(s1.subrange(j + 1, end - 1) =~= s2.subrange(j + 1, end - 1));
                lemma_parse_back_prefix(s1, s2, base, start, j + 1);
            }
        } else {
            lemma_parse_back_scan_prefix(s1, s2, base, start, end, j - 1);
        }
    }
}

/// Trailing padding-only markers are trimmed one by one.
pub proof fn lemma_parse_back_trim(s: Seq<Marker>, base: int, start: int, to_end: int, end: int)
    requires
        1 <= start <= to_end <= end <= s.len(),
        forall|k: int|
            to_end <= k < end ==> marker_at(s, base, k) && word_is_padding(#[trigger] s[k].0),
    ensures
        parse_back(s, base, start, end) == parse_back(s, base, start, to_end),
    decreases end - to_end,
{
    if to_end < end {
        lemma_parse_back_trim(s, base, start, to_end, end - 1);
    }
}

/// The downward scan steps over words that are no markers.
pub proof fn lemma_parse_back_scan_skip(s: Seq<Marker>, base: int, start: int, end: int, j: int, to_j: int)
    requires
        start - 1 <= to_j <= j <= end - 2,
        start <= end <= s.len(),
        1 <= start,
        forall|k: int| to_j < k <= j ==> !marker_at(s, base, k),
    ensures
        parse_back_scan(s, base, start, end, j) == parse_back_scan(s, base, start, end, to_j),
    decreases j - to_j,
{
    if to_j < j {
        lemma_parse_back_scan_skip(s, base, start, end, j - 1, to_j);
    }
}

/// Parsing never reads a marker's state bit: two bodies that differ only in
/// the state bit of their last word parse alike.
proof fn lemma_parse_scan_state(s1: Seq<Marker>, s2: Seq<Marker>, base: int, start: int, cur: int)
    requires
        s1.len() == s2.len(),
        s1.len() >= 1,
        forall|k: int| 0 <= k < s1.len() - 1 ==> s1[k] == s2[k],
        word_offset(s1.last().0) == word_offset(s2.last().0),
        word_padding(s1.last().0) == word_padding(s2.last().0),
    ensures
        parse_scan(s1, base, start, cur) == parse_scan(s2, base, start, cur),
    decreases s1.len() - cur,
{
    if cur < start || cur >= s1.len() || start < 1 {
    } else {
        assert(word_offset(s1[cur].0) == word_offset(s2[cur].0));
        assert(word_padding(s1[cur].0) == word_padding(s2[cur].0));
        if marker_at(s1, base, cur) {
            let pad = word_padding(s1[cur].0) as int;
            if cur == start && pad > 0 {
                lemma_parse_scan_state(s1, s2, base, start + 1, cur + 1);
            } else {
                assert(s1.subrange(start, cur) =~= s2.subrange(start, cur));
                lemma_parse_scan_state(s1, s2, base, cur + 1, cur + 1);
            }
        } else {
            lemma_parse_scan_state(s1, s2, base, start, cur + 1);
        }
    }
}

/// The state-blindness of [`lemma_parse_scan_state`], for whole bodies.
pub proof fn lemma_parse_resync_state(s1: Seq<Marker>, s2: Seq<Marker>, base: int, i: int)
    requires
        s1.len() == s2.len(),
        s1.len() >= 1,
        forall|k: int| 0 <= k < s1.len() - 1 ==> s1[k] == s2[k],
        word_offset(s1.last().0) == word_offset(s2.last().0),
        word_padding(s1.last().0) == word_padding(s2.last().0),
    ensures
        parse_resync(s1, base, i) == parse_resync(s2, base, i),
    decreases s1.len() - i,
{
    if 0 <= i < s1.len() {
        assert(word_offset(s1[i].0) == word_offset(s2[i].0));
        if marker_at(s1, base, i) {
            lemma_parse_scan_state(s1, s2, base, i + 1, i + 1);
        } else {
            lemma_parse_resync_state(s1, s2, base, i + 1);
        }
    }
}

/// Collects the bytes of the words `map[from..to]`.
pub fn words_to_bytes(map: &[Marker], from: usize, to: usize) -> (r: Vec<u8>)
    requires
        from <= to <= map@.len(),
    ensures
        r@ == words_bytes(map@.subrange(from as int, to as int)),
        r@.len() == 8 * (to - from),
{
    let mut r: Vec<u8> = Vec::new();
    proof {
        assert(map@.subrange(from as int, from as int) =~= Seq::<Marker>::empty());
        assert(r@ =~= words_bytes(map@.subrange(from as int, from as int)));
    }
    let mut i: usize = from;
    while i < to
        invariant
            from <= i <= to <= map@.len(),
            r@ == words_bytes(map@.subrange(from as int, i as int)),
            r@.len() == 8 * (i - from),
        decreases to - i,
    {
        let mut b = vstd::slice::slice_index_get(map, i).to_bytes();
        r.append(&mut b);
        proof {
            let sub = map@.subrange(from as int, i + 1);
            assert(sub.drop_last() =~= map@.subrange(from as int, i as int));
            assert(sub.last() == map@[i as int]);
        }
        i += 1;
    }
    r
}

} // verus!

//! The forward and reverse blob iterator over a body word slice.

use vstd::prelude::*;
use vstd::slice::slice_index_get;

use crate::marker::{Marker, MAX_WORDS};
use crate::offset::Offset;
use crate::parse::{
    marker_at, parse_back, parse_resync, parse_scan, record_blob, words_to_bytes,
};

verus! {

/// An iterator over the blobs (and their offsets) in a body word slice.
///
/// `map[i]` sits at absolute body offset `base + i`. The words `map[start..end]`
/// are not yet consumed; when `synced` holds, `map[start - 1]` is the current
/// start marker, at absolute offset `base + start - 1`.
pub struct Blobs<'a> {
    /// The word slice being iterated.
    pub map: &'a [Marker],
    /// The absolute body offset of `map[0]`.
    pub base: u64,
    /// The index of the first unconsumed word.
    pub start: usize,
    /// The index just past the last unconsumed word.
    pub end: usize,
    /// Whether a start marker has been found; when false, the iterator is
    /// exhausted.
    pub synced: bool,
}

impl<'a> Blobs<'a> {
    /// A well-formed iterator state.
    pub open spec fn wf(self) -> bool {
        &&& self.base + self.map@.len() <= MAX_WORDS
        &&& self.start <= self.end <= self.map@.len()
        &&& self.synced ==> 1 <= self.start && marker_at(
            self.map@,
            self.base as int,
            self.start - 1,
        )
        &&& !self.synced ==> self.start == self.end
    }

    /// The `(offset, blob)` pairs still ahead of forward iteration.
    pub open spec fn remaining(self) -> Seq<(int, Seq<u8>)> {
        if self.synced {
            parse_scan(
                self.map@.take(self.end as int),
                self.base as int,
                self.start as int,
                self.start as int,
            )
        } else {
            Seq::empty()
        }
    }

    /// The `(offset, blob)` pairs still ahead of reverse iteration, last
    /// blob first.
    pub open spec fn remaining_back(self) -> Seq<(int, Seq<u8>)> {
        if self.synced {
            parse_back(self.map@, self.base as int, self.start as int, self.end as int)
        } else {
            Seq::empty()
        }
    }

    /// Creates an iterator over `map`, whose first word sits at absolute
    /// body offset `offset`; resynchronizes to the first marker.
    pub fn new(map: &'a [Marker], offset: Offset) -> (it: Blobs<'a>)
        requires
            offset.raw + map@.len() <= MAX_WORDS,
        ensures
            it.wf(),
            it.map@ == map@,
            it.base == offset.raw,
            it.end == map@.len(),
            it.remaining() == parse_resync(map@, offset.raw as int, 0),
            map@.len() > 0 && marker_at(map@, offset.raw as int, 0) ==> it.synced && it.start == 1
                && it.remaining_back() == parse_back(
                map@,
                offset.raw as int,
                1,
                map@.len() as int,
            ),
    {
        let len = map.len();
        let mut i: usize = 0;
        while i < len
            invariant
                0 <= i <= len,
                len == map@.len(),
                offset.raw + len <= MAX_WORDS,
                parse_resync(map@, offset.raw as int, i as int) == parse_resync(
                    map@,
                    offset.raw as int,
                    0,
                ),
                forall|k: int| 0 <= k < i ==> !marker_at(map@, offset.raw as int, k),
            decreases len - i,
        {
            let w = *slice_index_get(map, i);
            if w.offset().raw == offset.raw + i as u64 {
                let it = Blobs { map, base: offset.raw, start: i + 1, end: len, synced: true };
                proof {
                    assert(map@.take(len as int) =~= map@);
                }
                return it;
            }
            i += 1;
        }
        Blobs { map, base: offset.raw, start: len, end: len, synced: false }
    }

    /// Yields the next blob and its offset, or `None` when no further
    /// complete record lies ahead. Exhaustion is stable: once `None` is
    /// returned, later calls return `None` as well.
    pub fn next(&mut self) -> (r: Option<(Offset, Vec<u8>)>)
        requires
            old(self).wf(),
        ensures
            final (self).wf(),
            final (self).map@ == old(self).map@,
            final (self).base == old(self).base,
            final (self).end == old(self).end,
            old(self).remaining().len() == 0 ==> r is None && *final (self) == *old(self),
            old(self).remaining().len() > 0 ==> {
                &&& r matches Some((o, b))
                &&& o.raw == old(self).remaining()[0].0
                &&& b@ == old(self).remaining()[0].1
                &&& final (self).remaining() == old(self).remaining().drop_first()
                &&& final (self).synced
            },
    {
        if !self.synced {
            return None;
        }
        let ghost orig = *self;
        let ghost taken = self.map@.take(self.end as int);
        let base = self.base;
        let mut start = self.start;
        let mut cur = self.start;
        while cur < self.end
            invariant
                orig == *old(self),
                *self == orig,
                self.wf(),
                self.synced,
                self.start <= start <= cur <= self.end,
                1 <= start,
                marker_at(self.map@, self.base as int, start - 1),
                base == self.base,
                taken == self.map@.take(self.end as int),
                parse_scan(taken, self.base as int, start as int, cur as int) == orig.remaining(),
                forall|k: int| start <= k < cur ==> !marker_at(self.map@, self.base as int, k),
            decreases self.end - cur,
        {
            let w = *slice_index_get(self.map, cur);
            proof {
                assert(taken[cur as int] == self.map@[cur as int]);
            }
            if w.offset().raw == base + cur as u64 {
                let pad = w.padding_len();
                if cur == start && pad > 0 {
                    // A padding-only slot: skip it and keep scanning.
                    start = start + 1;
                    cur = cur + 1;
                } else {
                    let mut blob = words_to_bytes(self.map, start, cur);
                    blob.truncate(blob.len() - pad);
                    let o = Offset::new(base + (start as u64 - 1));
                    self.start = cur + 1;
                    proof {
                        assert(taken.subrange(start as int, cur as int) =~= self.map@.subrange(
                            start as int,
                            cur as int,
                        ));
                        assert(blob@ =~= record_blob(
                            taken,
                            start as int,
                            cur as int,
                            pad as int,
                        ));
                        assert(orig.remaining() == seq![
                            (self.base as int + start - 1, record_blob(
                                taken,
                                start as int,
                                cur as int,
                                pad as int,
                            )),
                        ] + parse_scan(taken, self.base as int, cur + 1, cur + 1));
                        assert(self.remaining() == orig.remaining().drop_first());
                    }
                    return Some((o, blob));
                }
            } else {
                cur = cur + 1;
            }
        }
        proof {
            assert(parse_scan(taken, self.base as int, start as int, cur as int) =~= Seq::<
                (int, Seq<u8>),
            >::empty());
        }
        None
    }

    /// Yields the last not-yet-consumed blob and its offset, or `None` when
    /// none remains; trailing padding-only markers are skipped over.
    pub fn next_back(&mut self) -> (r: Option<(Offset, Vec<u8>)>)
        requires
            old(self).wf(),
        ensures
            final (self).wf(),
            final (self).map@ == old(self).map@,
            final (self).base == old(self).base,
            final (self).start == old(self).start,
            final (self).synced == old(self).synced,
            old(self).remaining_back().len() == 0 ==> r is None && final (self).remaining_back()
                == old(self).remaining_back(),
            old(self).remaining_back().len() > 0 ==> {
                &&& r matches Some((o, b))
                &&& o.raw == old(self).remaining_back()[0].0
                &&& b@ == old(self).remaining_back()[0].1
                &&& final (self).remaining_back() == old(self).remaining_back().drop_first()
            },
    {
        if !self.synced {
            return None;
        }
        let ghost orig = *self;
        let base = self.base;
        // Trim trailing padding-only markers, stopping at the end marker of
        // the last complete record.
        loop
            invariant_except_break
                orig == *old(self),
                orig.synced,
                self.wf(),
                self.synced,
                self.map@ == orig.map@,
                self.base == orig.base,
                self.start == orig.start,
                self.end <= orig.end,
                base == self.base,
                self.remaining_back() == orig.remaining_back(),
            ensures
                orig == *old(self),
                orig.synced,
                self.wf(),
                self.synced,
                self.map@ == orig.map@,
                self.base == orig.base,
                self.start == orig.start,
                self.end <= orig.end,
                base == self.base,
                self.remaining_back() == orig.remaining_back(),
                self.end > self.start,
                marker_at(self.map@, self.base as int, self.end - 1),
                !crate::marker::word_is_padding(self.map@[self.end - 1].0),
            decreases self.end,
        {
            if self.end <= self.start {
                return None;
            }
            let w = *slice_index_get(self.map, self.end - 1);
            if w.offset().raw != base + (self.end - 1) as u64 {
                return None;
            }
            if w.is_padding() {
                self.end = self.end - 1;
            } else {
                break ;
            }
        }
        let w = *slice_index_get(self.map, self.end - 1);
        let pad = w.padding_len();
        let end = self.end;
        let mut j = end - 2;
        loop
            invariant
                orig == *old(self),
                orig.synced,
                self.wf(),
                self.synced,
                self.map@ == orig.map@,
                self.base == orig.base,
                self.start == orig.start,
                base == self.base,
                end == self.end,
                self.start - 1 <= j <= end - 2,
                pad == crate::marker::word_padding(self.map@[end - 1].0),
                pad <= 7,
                orig.remaining_back() == self.remaining_back(),
                self.remaining_back() == parse_back_scan_view(self, j as int),
            decreases j,
        {
            let w = *slice_index_get(self.map, j);
            if w.offset().raw == base + j as u64 {
                // Found the start marker of the final record.
                let words = end - 1 - (j + 1);
                if words == 0 && pad > 0 {
                    proof {
                        assert(8 * (end - 2 - j) < pad as int);
                    }
                    return None;
                }
                proof {
                    assert(8 * (end - 2 - j) >= pad as int);
                }
                let mut blob = words_to_bytes(self.map, j + 1, end - 1);
                blob.truncate(blob.len() - pad);
                let o = Offset::new(base + j as u64);
                proof {
                    assert(blob@ =~= record_blob(self.map@, j + 1, end - 1, pad as int));
                }
                self.end = j + 1;
                proof {
                    assert(orig.remaining_back() == seq![
                        (self.base as int + j, record_blob(self.map@, j + 1, end - 1, pad as int)),
                    ] + self.remaining_back());
                    assert(self.remaining_back() =~= orig.remaining_back().drop_first());
                }
                return Some((o, blob));
            }
            j = j - 1;
        }
    }
}

/// The reverse view of an iterator whose downward scan has reached `j`.
pub open spec fn parse_back_scan_view(it: &Blobs<'_>, j: int) -> Seq<(int, Seq<u8>)> {
    crate::parse::parse_back_scan(it.map@, it.base as int, it.start as int, it.end as int, j)
}

} // verus!

//! Bisecting search over the stored blobs, driven by a caller-supplied
//! comparator.

use vstd::prelude::*;
use vstd::slice::slice_subrange;

use crate::header::Header;
use crate::iter::Blobs;
use crate::marker::Marker;
use crate::offset::Offset;
use crate::parse::{lemma_resync_offsets, lemma_suffix_complete, parse_resync, spec_blobs};
use crate::store::Breccia;

verus! {

/// A comparator's verdict during a binary search.
#[derive(Clone, Copy, Debug, PartialEq, Eq, Structural, PartialOrd, Ord, Hash)]
pub enum Search {
    /// The target should be to the left of this blob.
    Left,
    /// The target should be to the right of this blob.
    Right,
    /// This blob gave no useful information; try the next one.
    Next,
}

/// A monotone comparator homing in on the blob at offset `t`: over a store
/// whose blobs the caller keeps sorted, it answers `Right` below the target
/// offset, `Left` above it, and succeeds with `r0` exactly at it.
pub open spec fn spec_monotone<F, R>(f: F, t: int, r0: R) -> bool where F: Fn(
    Offset,
    &[u8],
) -> Result<Option<R>, Search> {
    forall|o: Offset, b: &[u8], ret: Result<Option<R>, Search>|
        #[trigger] f.ensures((o, b), ret) ==> ret == (if (o.raw as int) < t {
            Err::<Option<R>, Search>(Search::Right)
        } else if o.raw > t {
            Err::<Option<R>, Search>(Search::Left)
        } else {
            Ok::<Option<R>, Search>(Some(r0))
        })
}

/// Whether some stored blob sits at offset `t`.
pub open spec fn has_blob_at(s: Seq<Marker>, t: int) -> bool {
    exists|k: int| 0 <= k < spec_blobs(s).len() && (#[trigger] spec_blobs(s)[k]).0 == t
}

impl<H: Header> Breccia<H> {
    /// Binary searches for a blob over the whole body.
    ///
    /// The comparator returns `Ok(Some(r))` to end the search with `Some(r)`,
    /// `Ok(None)` to abort it, and otherwise the direction to bisect
    /// towards, or `Search::Next` for an uninformative blob. A monotone
    /// comparator aimed at a stored offset is guaranteed to find it.
    pub fn binary_search<F, R>(&self, f: F) -> (r: Option<R>) where F: Fn(
        Offset,
        &[u8],
    ) -> Result<Option<R>, Search>
        requires
            self.wf(),
            forall|o: Offset, b: &[u8]| #[trigger] f.requires((o, b)),
        ensures
            r matches Some(v) ==> exists|o: Offset, b: &[u8]| #[trigger] f.ensures(
                (o, b),
                Ok(Some(v)),
            ),
            forall|t: int, r0: R|
                #[trigger] spec_monotone(f, t, r0) && has_blob_at(self.body@, t) ==> r == Some(r0),
    {
        let last_offset = Offset::new(self.body.len() as u64);
        let r = self.binary_search_in_range(f, Offset::new(0)..last_offset);
        proof {
            assert forall|t: int, r0: R|
                #[trigger] spec_monotone(f, t, r0) && has_blob_at(self.body@, t) implies r == Some(
                r0,
            ) by {
                lemma_resync_offsets(self.body@, 0, 0);
            }
        }
        r
    }

    /// Binary searches for a blob within a range of offsets.
    ///
    /// Bisects the half-open range: the comparator sees the first blobs at
    /// or after the midpoint, and `Search::Left` and `Search::Right` recurse
    /// on the halves, the right half starting just past the midpoint. An
    /// empty range returns `None` without consulting the comparator.
    pub fn binary_search_in_range<F, R>(&self, f: F, range: core::ops::Range<Offset>) -> (r: Option<
        R,
    >) where F: Fn(Offset, &[u8]) -> Result<Option<R>, Search>
        requires
            self.wf(),
            range.start.raw <= range.end.raw,
            range.end.raw <= self.body@.len(),
            range.start.raw < range.end.raw ==> forall|o: Offset, b: &[u8]| #[trigger] f.requires(
                (o, b),
            ),
        ensures
            range.start.raw == range.end.raw ==> r is None,
            r matches Some(v) ==> exists|o: Offset, b: &[u8]| #[trigger] f.ensures(
                (o, b),
                Ok(Some(v)),
            ),
            forall|t: int, r0: R|
                #[trigger] spec_monotone(f, t, r0) && has_blob_at(self.body@, t)
                    && range.start.raw <= t < range.end.raw ==> r == Some(r0),
        decreases range.end.raw - range.start.raw,
    {
        let lo = range.start.raw;
        let hi = range.end.raw;
        if lo >= hi {
            return None;
        }
        let mid = range.start.midpoint(range.end);
        let mid_i = mid.raw as usize;
        let map = slice_subrange(self.body.as_slice(), mid_i, self.body.len());
        proof {
            assert(map@ =~= self.body@.skip(mid.raw as int));
        }
        let mut blobs = Blobs::new(map, mid);
        let ghost blobs0 = blobs;
        let ghost suffix = parse_resync(self.body@.skip(mid.raw as int), mid.raw as int, 0);
        loop
            invariant
                blobs.wf(),
                lo == range.start.raw,
                hi == range.end.raw,
                lo <= mid.raw < hi <= self.body@.len(),
                self.wf(),
                mid.raw == (lo + hi) as int / 2,
                blobs0.remaining() == suffix,
                suffix == parse_resync(self.body@.skip(mid.raw as int), mid.raw as int, 0),
                forall|o: Offset, b: &[u8]| #[trigger] f.requires((o, b)),
                forall|t: int, r0: R| #[trigger] spec_monotone(f, t, r0) ==> blobs == blobs0,
            decreases blobs.remaining().len(),
        {
            let ghost before = blobs;
            match blobs.next() {
                Some((offset, blob)) => {
                    proof {
                        if before.remaining().len() == 0 {
                            assert(false);
                        }
                    }
                    if offset.raw >= hi {
                        // The right half holds no blob inside the range.
                        proof {
                            assert forall|t: int, r0: R|
                                #[trigger] spec_monotone(f, t, r0) && has_blob_at(self.body@, t)
                                    && lo <= t < hi implies t < mid.raw by {
                                if t >= mid.raw {
                                    self.lemma_target_bounds_first(mid.raw as int, t);
                                    assert(offset.raw == suffix[0].0);
                                    assert(false);
                                }
                            }
                        }
                        if lo != mid.raw {
                            return self.binary_search_in_range(f, range.start..mid);
                        } else {
                            return None;
                        }
                    }
                    let bs = blob.as_slice();
                    match f(offset, bs) {
                        Ok(Some(v)) => {
                            proof {
                                assert(f.ensures((offset, bs), Ok(Some(v))));
                                assert forall|t: int, r0: R|
                                    #[trigger] spec_monotone(f, t, r0) implies v == r0 by {}
                            }
                            return Some(v);
                        },
                        Ok(None) => {
                            proof {
                                assert(f.ensures((offset, bs), Ok(None::<R>)));
                                assert forall|t: int, r0: R|
                                    #[trigger] spec_monotone(f, t, r0) implies false by {}
                            }
                            return None;
                        },
                        Err(Search::Next) => {
                            proof {
                                assert(f.ensures(
                                    (offset, bs),
                                    Err::<Option<R>, Search>(Search::Next),
                                ));
                                assert forall|t: int, r0: R|
                                    #[trigger] spec_monotone(f, t, r0) implies blobs
                                    == blobs0 by {
                                    assert(false);
                                }
                            }
                        },
                        Err(Search::Right) => {
                            proof {
                                assert(f.ensures(
                                    (offset, bs),
                                    Err::<Option<R>, Search>(Search::Right),
                                ));
                                assert forall|t: int, r0: R|
                                    #[trigger] spec_monotone(f, t, r0) implies mid.raw < t by {
                                    lemma_resync_offsets(
                                        self.body@.skip(mid.raw as int),
                                        mid.raw as int,
                                        0,
                                    );
                                    assert(offset.raw == suffix[0].0);
                                    assert(offset.raw >= mid.raw);
                                }
                            }
                            return self.binary_search_in_range(
                                f,
                                Offset::new(mid.raw + 1)..range.end,
                            );
                        },
                        Err(Search::Left) => {
                            proof {
                                assert(f.ensures(
                                    (offset, bs),
                                    Err::<Option<R>, Search>(Search::Left),
                                ));
                                assert forall|t: int, r0: R|
                                    #[trigger] spec_monotone(f, t, r0) && has_blob_at(
                                    self.body@,
                                    t,
                                ) && lo <= t < hi implies t < mid.raw by {
                                    if t >= mid.raw {
                                        self.lemma_target_bounds_first(mid.raw as int, t);
                                        assert(offset.raw == suffix[0].0);
                                        assert(false);
                                    }
                                }
                            }
                            return self.binary_search_in_range(f, range.start..mid);
                        },
                    }
                },
                None => {
                    // The right half was inconclusive; search the left half
                    // if it is not empty.
                    proof {
                        assert forall|t: int, r0: R|
                            #[trigger] spec_monotone(f, t, r0) && has_blob_at(self.body@, t) && lo
                                <= t < hi implies t < mid.raw by {
                            if t >= mid.raw {
                                self.lemma_target_bounds_first(mid.raw as int, t);
                                assert(suffix.len() > 0);
                                assert(before.remaining().len() == 0);
                                assert(false);
                            }
                        }
                    }
                    if lo != mid.raw {
                        return self.binary_search_in_range(f, range.start..mid);
                    } else {
                        return None;
                    }
                },
            }
        }
    }

    /// A stored blob at offset `t >= m` appears in the parse seeded at `m`,
    /// whose first offset is therefore at most `t` (and at least `m`).
    proof fn lemma_target_bounds_first(&self, m: int, t: int)
        requires
            0 <= m <= self.body@.len(),
            has_blob_at(self.body@, t),
            t >= m,
        ensures
            parse_resync(self.body@.skip(m), m, 0).len() > 0,
            m <= parse_resync(self.body@.skip(m), m, 0)[0].0 <= t,
    {
        let k = choose|k: int|
            0 <= k < spec_blobs(self.body@).len() && (#[trigger] spec_blobs(self.body@)[k]).0 == t;
        lemma_suffix_complete(self.body@, m, k);
        let suffix = parse_resync(self.body@.skip(m), m, 0);
        let k2 = choose|k2: int|
            0 <= k2 < suffix.len() && #[trigger] suffix[k2] == spec_blobs(self.body@)[k];
        lemma_resync_offsets(self.body@.skip(m), m, 0);
        if k2 > 0 {
            assert(suffix[0].0 < suffix[k2].0);
        }
    }
}

} // verus!

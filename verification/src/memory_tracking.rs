//! The set of byte ranges of one region that have already been read.

use vstd::prelude::*;
use crate::lemmas::{
    lemma_cleared_apart, lemma_cleared_ordered, lemma_cleared_push, lemma_cleared_run, lemma_filter_run,
    lemma_hull, lemma_marked_run,
};
use crate::span::{Interval, Span, SpanRelation};
use crate::Address;

verus! {

/// The intervals that a sequence of spans stands for.
pub open spec fn views(spans: Seq<Span>) -> Seq<Interval> {
    spans.map_values(|s: Span| s@)
}

/// Every interval is valid, the starts ascend strictly and no two intervals
/// share an address.
pub open spec fn ordered(spans: Seq<Interval>) -> bool {
    &&& forall|i: int| 0 <= i < spans.len() ==> (#[trigger] spans[i]).valid()
    &&& forall|i: int, j: int|
        0 <= i < j < spans.len() ==> {
            &&& (#[trigger] spans[i]).start < (#[trigger] spans[j]).start
            &&& spans[i].end <= spans[j].start
        }
}

/// No two intervals share an address or lie end to end.
pub open spec fn separated(spans: Seq<Interval>) -> bool {
    forall|i: int, j: int|
        0 <= i < j < spans.len() ==> (#[trigger] spans[i]).end < (#[trigger] spans[j]).start
}

/// Some span holds the address `x`.
pub open spec fn covers(spans: Seq<Interval>, x: int) -> bool {
    exists|i: int| 0 <= i < spans.len() && (#[trigger] spans[i]).contains(x)
}

/// The spans at `lo..hi` are those that touch `new`: the ones below `lo` end
/// before it begins, the ones from `hi` on start after it ends.
pub open spec fn touching_run(spans: Seq<Interval>, new: Interval, lo: int, hi: int) -> bool {
    &&& 0 <= lo <= hi <= spans.len()
    &&& forall|i: int| 0 <= i < spans.len() ==> (i < lo <==> (#[trigger] spans[i]).end < new.start)
    &&& forall|i: int| 0 <= i < spans.len() ==> (i < hi <==> (#[trigger] spans[i]).start <= new.end)
}

/// The spans at `lo..hi` are those that overlap `query`.
pub open spec fn overlapping_run(spans: Seq<Interval>, query: Interval, lo: int, hi: int) -> bool {
    &&& 0 <= lo <= hi <= spans.len()
    &&& forall|i: int| 0 <= i < spans.len() ==> (lo <= i < hi <==> (#[trigger] spans[i]).overlaps(query))
}

/// No span overlaps `query`.
pub open spec fn unread(reads: Seq<Interval>, query: Interval) -> bool {
    forall|i: int| 0 <= i < reads.len() ==> !(#[trigger] reads[i]).overlaps(query)
}

/// Some span overlaps `query`, and the highest such span starts at `fault`.
pub open spec fn read_at(reads: Seq<Interval>, query: Interval, fault: int) -> bool {
    exists|i: int|
        {
            &&& 0 <= i < reads.len()
            &&& (#[trigger] reads[i]).overlaps(query)
            &&& reads[i].start == fault
            &&& forall|j: int| i < j < reads.len() ==> !(#[trigger] reads[j]).overlaps(query)
        }
}

/// `new` merged with the spans at `lo..hi`, of which the first starts lowest
/// and the last ends highest.
pub open spec fn merged_at(spans: Seq<Interval>, new: Interval, lo: int, hi: int) -> Interval {
    if lo < hi {
        new.join(spans[lo]).join(spans[hi - 1])
    } else {
        new
    }
}

/// The spans at `lo..hi` are those that touch `new`, and `out` is `spans`
/// with that run replaced by its merger with `new`.
pub open spec fn marks_run(
    spans: Seq<Interval>,
    new: Interval,
    lo: int,
    hi: int,
    out: Seq<Interval>,
) -> bool {
    &&& touching_run(spans, new, lo, hi)
    &&& out == spans.take(lo).push(merged_at(spans, new, lo, hi)) + spans.skip(hi)
}

/// The spans at `lo..hi` are those that overlap `clear`, and `out` is
/// `spans` with that run replaced by what of its first span lies below
/// `clear` and what of its last span lies above.
pub open spec fn clears_run(
    spans: Seq<Interval>,
    clear: Interval,
    lo: int,
    hi: int,
    out: Seq<Interval>,
) -> bool {
    &&& overlapping_run(spans, clear, lo, hi)
    &&& out == if lo < hi {
        spans.take(lo) + spans[lo].below(clear) + spans[hi - 1].above(clear) + spans.skip(hi)
    } else {
        spans
    }
}

/// The smallest interval that holds `new` and every span that touches it.
pub open spec fn hull(spans: Seq<Interval>, new: Interval) -> Interval {
    spans.fold_left(
        new,
        |acc: Interval, s: Interval|
            if s.touches(new) {
                acc.join(s)
            } else {
                acc
            },
    )
}

/// The spans once `new` is marked as read: those that end before `new`
/// begins, then `new` merged with all that touch it, then those that start
/// after `new` ends.
pub open spec fn marked(spans: Seq<Interval>, new: Interval) -> Seq<Interval> {
    spans.filter(|s: Interval| s.end < new.start).push(hull(spans, new)) + spans.filter(
        |s: Interval| new.end < s.start,
    )
}

/// No span that touches `new` is classified against it as disjoint, so that
/// `new` can be merged with each of them.
pub open spec fn accepts(spans: Seq<Interval>, new: Interval) -> bool {
    forall|i: int|
        0 <= i < spans.len() && (#[trigger] spans[i]).touches(new) ==> new.relation(spans[i])
            != SpanRelation::Disjoint
}

/// The spans once the read mark is taken off the addresses of `clear`: of
/// each span, what `clear` leaves of it.
pub open spec fn cleared(spans: Seq<Interval>, clear: Interval) -> Seq<Interval> {
    spans.map_values(|s: Interval| s.minus(clear)).flatten()
}

/// Against every span that it overlaps, `clear` is classified as lying
/// strictly inside it, as reaching over one of its ends, or as covering it.
pub open spec fn releases(spans: Seq<Interval>, clear: Interval) -> bool {
    forall|i: int|
        0 <= i < spans.len() && (#[trigger] spans[i]).overlaps(clear) ==> {
            ||| spans[i].relation(clear) == SpanRelation::Break
            ||| spans[i].relation(clear) == SpanRelation::OverlapStart
            ||| spans[i].relation(clear) == SpanRelation::OverlapEnd
            ||| spans[i].relation(clear) == SpanRelation::Engulf
        }
}

/// The ranges of one region that have been read, kept in ascending order.
/// No two spans share an address. Marking a range merges it with the spans
/// that lie end to end with it, so a record that is built by marking alone is
/// [`separated`]; only clearing an empty range strictly inside a span leaves
/// two spans that lie end to end.
#[derive(Debug, Hash, PartialEq, Eq)]
pub struct MemoryTracker {
    spans: Vec<Span>,
}

impl View for MemoryTracker {
    type V = Seq<Interval>;

    closed spec fn view(&self) -> Seq<Interval> {
        views(self.spans@)
    }
}

impl Default for MemoryTracker {
    fn default() -> (t: MemoryTracker)
        ensures
            t@ == Seq::<Interval>::empty(),
    {
        let t = MemoryTracker { spans: Vec::new() };
        assert(t@ =~= Seq::<Interval>::empty());
        t
    }
}

impl Clone for MemoryTracker {
    fn clone(&self) -> (t: MemoryTracker)
        ensures
            t@ == self@,
    {
        proof {
            use_type_invariant(self);
        }
        let mut spans: Vec<Span> = Vec::new();
        let mut i: usize = 0;
        while i < self.spans.len()
            invariant
                i <= self.spans.len(),
                spans@ == self.spans@.take(i as int),
            decreases self.spans.len() - i,
        {
            spans.push(self.spans[i]);
            assert(spans@ =~= self.spans@.take(i + 1));
            i += 1;
        }
        assert(spans@ =~= self.spans@);
        MemoryTracker { spans }
    }
}

impl MemoryTracker {
    #[verifier::type_invariant]
    pub open spec fn inv(self) -> bool {
        ordered(self@)
    }

    /// Number of spans held.
    pub fn len(&self) -> (n: usize)
        ensures
            n == self@.len(),
    {
        self.spans.len()
    }

    pub fn is_empty(&self) -> (b: bool)
        ensures
            b == (self@.len() == 0),
    {
        self.spans.len() == 0
    }

    /// Forgets every span.
    pub fn clear(&mut self)
        ensures
            final(self)@ == Seq::<Interval>::empty(),
    {
        self.spans = Vec::new();
        assert(self@ =~= Seq::<Interval>::empty());
    }

    /// Whether `[a, a + sz)` can be marked as read.
    pub fn can_track(&self, a: Address, sz: usize) -> (b: bool)
        ensures
            b == accepts(self@, Interval::with_len(a as int, sz as int)),
    {
        proof {
            use_type_invariant(self);
        }
        let new = Span::with_len(a, sz);
        let (lo, hi) = self.probe(&new, true);
        let mut i: usize = lo;
        while i < hi
            invariant
                lo <= i <= hi <= self.spans.len(),
                new@ == Interval::with_len(a as int, sz as int),
                touching_run(self@, new@, lo as int, hi as int),
                forall|k: int|
                    lo <= k < i ==> new@.relation(#[trigger] self@[k]) != SpanRelation::Disjoint,
            decreases hi - i,
        {
            let span = self.spans[i];
            assert(span@ == self@[i as int]);
            if new.relation(&span) == SpanRelation::Disjoint {
                assert(self@[i as int].touches(new@));
                return false;
            }
            i += 1;
        }
        true
    }

    /// Marks `[a, a + sz)` as read, merging it with every span that it
    /// overlaps or lies end to end with.
    pub fn track_access(&mut self, a: Address, sz: usize)
        requires
            accepts(old(self)@, Interval::with_len(a as int, sz as int)),
        ensures
            final(self)@ == marked(old(self)@, Interval::with_len(a as int, sz as int)),
            exists|lo: int, hi: int|
                marks_run(
                    old(self)@,
                    Interval::with_len(a as int, sz as int),
                    lo,
                    hi,
                    final(self)@,
                ),
            ordered(final(self)@),
            separated(old(self)@) ==> separated(final(self)@),
    {
        proof {
            use_type_invariant(&*self);
        }
        let new = Span::with_len(a, sz);
        let (lo, hi) = self.probe(&new, true);
        let mut start = new.start();
        let mut end = new.end();
        let mut i: usize = hi;
        while i > lo
            invariant
                lo <= i <= hi <= self.spans.len(),
                ordered(self@),
                new@.valid(),
                accepts(self@, new@),
                touching_run(self@, new@, lo as int, hi as int),
                start <= new@.start,
                new@.end <= end,
                forall|k: int|
                    i <= k < hi ==> start <= (#[trigger] self@[k]).start && self@[k].end <= end,
                start == new@.start || exists|k: int| i <= k < hi && (#[trigger] self@[k]).start == start,
                end == new@.end || exists|k: int| i <= k < hi && (#[trigger] self@[k]).end == end,
            decreases i,
        {
            i -= 1;
            let span = self.spans[i];
            assert(span@ == self@[i as int]);
            match new.relation(&span) {
                SpanRelation::Break => {},
                SpanRelation::Engulf => {
                    if span.start() < start {
                        start = span.start();
                    }
                    if span.end() > end {
                        end = span.end();
                    }
                },
                SpanRelation::AdjacentStart | SpanRelation::OverlapStart => {
                    if span.start() < start {
                        start = span.start();
                    }
                },
                SpanRelation::AdjacentEnd | SpanRelation::OverlapEnd => {
                    if span.end() > end {
                        end = span.end();
                    }
                },
                SpanRelation::Disjoint => {},
            }
        }
        let merged = Span::new(start, end);
        let mut spans: Vec<Span> = Vec::new();
        let mut k: usize = 0;
        while k < lo
            invariant
                k <= lo <= self.spans.len(),
                spans@ == self.spans@.take(k as int),
            decreases lo - k,
        {
            spans.push(self.spans[k]);
            assert(spans@ =~= self.spans@.take(k + 1));
            k += 1;
        }
        spans.push(merged);
        let mut k: usize = hi;
        while k < self.spans.len()
            invariant
                lo <= hi <= k <= self.spans.len(),
                spans@ == self.spans@.take(lo as int).push(merged) + self.spans@.subrange(
                    hi as int,
                    k as int,
                ),
            decreases self.spans.len() - k,
        {
            spans.push(self.spans[k]);
            assert(spans@ =~= self.spans@.take(lo as int).push(merged) + self.spans@.subrange(
                hi as int,
                k + 1,
            ));
            k += 1;
        }
        proof {
            lemma_hull(self@, new@);
            lemma_marked_run(self@, new@, lo as int, hi as int);
            assert(merged@ == hull(self@, new@));
            assert(views(spans@) =~= marked(self@, new@));
            assert(marks_run(self@, new@, lo as int, hi as int, views(spans@)));
        }
        self.spans = spans;
    }

    /// Whether the read mark can be taken off `[a, a + sz)`.
    pub fn can_remove(&self, a: Address, sz: usize) -> (b: bool)
        ensures
            b == releases(self@, Interval::with_len(a as int, sz as int)),
    {
        proof {
            use_type_invariant(self);
        }
        let clear = Span::with_len(a, sz);
        let (lo, hi) = self.probe(&clear, false);
        let mut i: usize = lo;
        while i < hi
            invariant
                lo <= i <= hi <= self.spans.len(),
                clear@ == Interval::with_len(a as int, sz as int),
                overlapping_run(self@, clear@, lo as int, hi as int),
                forall|k: int|
                    lo <= k < i ==> {
                        ||| (#[trigger] self@[k]).relation(clear@) == SpanRelation::Break
                        ||| self@[k].relation(clear@) == SpanRelation::OverlapStart
                        ||| self@[k].relation(clear@) == SpanRelation::OverlapEnd
                        ||| self@[k].relation(clear@) == SpanRelation::Engulf
                    },
            decreases hi - i,
        {
            let span = self.spans[i];
            assert(span@ == self@[i as int]);
            match span.relation(&clear) {
                SpanRelation::Break
                | SpanRelation::OverlapStart
                | SpanRelation::OverlapEnd
                | SpanRelation::Engulf => {},
                _ => {
                    assert(self@[i as int].overlaps(clear@));
                    return false;
                },
            }
            i += 1;
        }
        true
    }

    /// Takes the read mark off `[a, a + sz)`: every span that overlaps the
    /// range is cut back to what lies outside it, and split where the range
    /// lies strictly inside it.
    pub fn remove_access(&mut self, a: Address, sz: usize)
        requires
            releases(old(self)@, Interval::with_len(a as int, sz as int)),
        ensures
            final(self)@ == cleared(old(self)@, Interval::with_len(a as int, sz as int)),
            exists|lo: int, hi: int|
                clears_run(
                    old(self)@,
                    Interval::with_len(a as int, sz as int),
                    lo,
                    hi,
                    final(self)@,
                ),
            ordered(final(self)@),
            separated(old(self)@) && sz > 0 ==> separated(final(self)@),
    {
        proof {
            use_type_invariant(&*self);
        }
        let clear = Span::with_len(a, sz);
        proof {
            use_type_invariant(&clear);
        }
        let (lo, hi) = self.probe(&clear, false);
        let mut spans: Vec<Span> = Vec::new();
        let mut k: usize = 0;
        while k < lo
            invariant
                k <= lo <= self.spans.len(),
                spans@ == self.spans@.take(k as int),
            decreases lo - k,
        {
            spans.push(self.spans[k]);
            assert(spans@ =~= self.spans@.take(k + 1));
            k += 1;
        }
        proof {
            assert(views(spans@) =~= self@.take(lo as int));
            lemma_cleared_apart(self@.take(lo as int), clear@);
        }
        let mut i: usize = lo;
        while i < hi
            invariant
                lo <= i <= hi <= self.spans.len(),
                ordered(self@),
                clear@.valid(),
                releases(self@, clear@),
                overlapping_run(self@, clear@, lo as int, hi as int),
                views(spans@) == cleared(self@.take(i as int), clear@),
            decreases hi - i,
        {
            let span = self.spans[i];
            let ghost before = views(spans@);
            proof {
                assert(span@ == self@[i as int]);
                assert(span@.overlaps(clear@));
                assert(span@.valid());
                assert(self@.take(i + 1) =~= self@.take(i as int).push(span@));
                lemma_cleared_push(self@.take(i as int), span@, clear@);
            }
            match span.relation(&clear) {
                SpanRelation::Break => {
                    spans.push(Span::new(span.start(), clear.start()));
                    spans.push(Span::new(clear.end(), span.end()));
                },
                SpanRelation::OverlapStart => {
                    spans.push(Span::new(clear.end(), span.end()));
                },
                SpanRelation::OverlapEnd => {
                    spans.push(Span::new(span.start(), clear.start()));
                },
                _ => {},
            }
            assert(views(spans@) =~= before + span@.minus(clear@));
            i += 1;
        }
        let mut k: usize = hi;
        while k < self.spans.len()
            invariant
                hi <= k <= self.spans.len(),
                overlapping_run(self@, clear@, lo as int, hi as int),
                views(spans@) == cleared(self@.take(k as int), clear@),
            decreases self.spans.len() - k,
        {
            let span = self.spans[k];
            proof {
                assert(span@ == self@[k as int]);
                assert(!span@.overlaps(clear@));
                assert(self@.take(k + 1) =~= self@.take(k as int).push(span@));
                lemma_cleared_push(self@.take(k as int), span@, clear@);
            }
            let ghost before = views(spans@);
            spans.push(span);
            assert(views(spans@) =~= before + span@.minus(clear@));
            k += 1;
        }
        proof {
            assert(self@.take(self@.len() as int) =~= self@);
            lemma_cleared_ordered(self@, clear@);
            if sz > 0 && clear@.start == clear@.end {
                assert forall|i: int| 0 <= i < self@.len() implies !(#[trigger] self@[i]).overlaps(
                    clear@,
                ) by {
                    assert(self@[i].valid());
                }
                lemma_cleared_apart(self@, clear@);
            }
            lemma_cleared_run(self@, clear@, lo as int, hi as int);
            assert(clears_run(self@, clear@, lo as int, hi as int, views(spans@)));
        }
        self.spans = spans;
    }

    /// The spans in ascending order, each as its start and its length.
    pub fn redzones(&self) -> (zones: Vec<(Address, usize)>)
        ensures
            zones@.len() == self@.len(),
            forall|i: int|
                0 <= i < zones@.len() ==> {
                    &&& (#[trigger] zones@[i]).0 == self@[i].start
                    &&& zones@[i].1 == self@[i].len()
                },
            forall|i: int, j: int|
                0 <= i < j < zones@.len() ==> (#[trigger] zones@[i]).0 < (#[trigger] zones@[j]).0,
    {
        proof {
            use_type_invariant(self);
        }
        let mut zones: Vec<(Address, usize)> = Vec::new();
        let mut i: usize = 0;
        while i < self.spans.len()
            invariant
                i <= self.spans.len(),
                zones@.len() == i,
                forall|k: int|
                    0 <= k < i ==> {
                        &&& (#[trigger] zones@[k]).0 == self@[k].start
                        &&& zones@[k].1 == self@[k].len()
                    },
            decreases self.spans.len() - i,
        {
            let span = self.spans[i];
            zones.push((span.start(), span.len()));
            i += 1;
        }
        zones
    }

    /// Number of spans that start below `limit`, or at or below it where
    /// `closed` is set. Found by bisection.
    fn rank(&self, limit: Address, closed: bool) -> (n: usize)
        ensures
            n <= self@.len(),
            forall|i: int|
                0 <= i < self@.len() ==> (i < n <==> if closed {
                    (#[trigger] self@[i]).start <= limit
                } else {
                    self@[i].start < limit
                }),
    {
        proof {
            use_type_invariant(self);
        }
        let mut lo: usize = 0;
        let mut hi: usize = self.spans.len();
        while lo < hi
            invariant
                lo <= hi <= self.spans.len(),
                ordered(self@),
                forall|i: int|
                    0 <= i < lo ==> if closed {
                        (#[trigger] self@[i]).start <= limit
                    } else {
                        self@[i].start < limit
                    },
                forall|i: int|
                    hi <= i < self@.len() ==> !if closed {
                        (#[trigger] self@[i]).start <= limit
                    } else {
                        self@[i].start < limit
                    },
            decreases hi - lo,
        {
            let mid: usize = lo + (hi - lo) / 2;
            let start = self.spans[mid].start();
            assert(start == self@[mid as int].start);
            let under = if closed {
                start <= limit
            } else {
                start < limit
            };
            if under {
                lo = mid + 1;
            } else {
                hi = mid;
            }
        }
        lo
    }

    /// Whether span `i` ends above `floor`, or at or above it where `closed`
    /// is set.
    fn ends_past(&self, i: usize, floor: Address, closed: bool) -> (b: bool)
        requires
            i < self@.len(),
        ensures
            b == if closed {
                self@[i as int].end >= floor
            } else {
                self@[i as int].end > floor
            },
    {
        let end = self.spans[i].end();
        if closed {
            end >= floor
        } else {
            end > floor
        }
    }

    /// The bounds `lo <= hi` such that the spans at `lo..hi` are those that
    /// overlap `query`, or, where `closed` is set, those that touch it. The
    /// spans that start low enough are scanned from the highest down, up to
    /// the first that ends too early.
    fn probe(&self, query: &Span, closed: bool) -> (bounds: (usize, usize))
        ensures
            closed ==> touching_run(self@, query@, bounds.0 as int, bounds.1 as int),
            !closed ==> overlapping_run(self@, query@, bounds.0 as int, bounds.1 as int),
    {
        proof {
            use_type_invariant(self);
            use_type_invariant(query);
        }
        let hi = self.rank(query.end(), closed);
        let floor = query.start();
        let mut lo: usize = hi;
        while lo > 0 && self.ends_past(lo - 1, floor, closed)
            invariant
                lo <= hi <= self.spans.len(),
                forall|i: int|
                    lo <= i < hi ==> if closed {
                        (#[trigger] self@[i]).end >= floor
                    } else {
                        self@[i].end > floor
                    },
            decreases lo,
        {
            lo -= 1;
        }
        proof {
            assert forall|i: int| 0 <= i < lo implies if closed {
                (#[trigger] self@[i]).end < floor
            } else {
                self@[i].end <= floor
            } by {
                assert(self@[lo - 1].valid());
                if i < lo - 1 {
                    assert(self@[i].end <= self@[lo - 1].start);
                }
            }
            assert forall|i: int| hi <= i < self@.len() implies if closed {
                (#[trigger] self@[i]).end >= floor
            } else {
                !self@[i].overlaps(query@)
            } by {
                assert(self@[i].valid());
            }
        }
        (lo, hi)
    }

    /// Tells whether any span overlaps `[a, a + sz)`. Where one does, the
    /// error is the start of the highest such span. An empty range overlaps
    /// the span that it lies strictly inside.
    pub fn check(&self, a: Address, sz: usize) -> (r: Result<(), Address>)
        ensures
            match r {
                Ok(()) => unread(self@, Interval::with_len(a as int, sz as int)),
                Err(fault) => read_at(self@, Interval::with_len(a as int, sz as int), fault as int),
            },
    {
        proof {
            use_type_invariant(self);
        }
        let query = Span::with_len(a, sz);
        let hi = self.rank(query.end(), false);
        if hi > 0 && self.spans[hi - 1].end() > a {
            assert(self@[hi - 1].overlaps(query@));
            Err(self.spans[hi - 1].start())
        } else {
            proof {
                assert forall|i: int| 0 <= i < self@.len() implies !(#[trigger] self@[i]).overlaps(
                    query@,
                ) by {
                    if i < hi - 1 {
                        assert(self@[i].end <= self@[hi - 1].start);
                        assert(self@[hi - 1].valid());
                    }
                }
            }
            Ok(())
        }
    }

    /// The spans that overlap `[a, a + sz)`, from the highest start down.
    pub fn lookup_range(&self, a: Address, sz: usize) -> (found: Vec<Span>)
        ensures
            views(found@) == self@.filter(
                |s: Interval| s.overlaps(Interval::with_len(a as int, sz as int)),
            ).reverse(),
    {
        proof {
            use_type_invariant(self);
        }
        let query = Span::with_len(a, sz);
        let (lo, hi) = self.probe(&query, false);
        let ghost hit = |s: Interval| s.overlaps(Interval::with_len(a as int, sz as int));
        let mut found: Vec<Span> = Vec::new();
        let mut i: usize = hi;
        while i > lo
            invariant
                lo <= i <= hi <= self.spans.len(),
                found@.len() == hi - i,
                forall|k: int| 0 <= k < found@.len() ==> (#[trigger] found@[k])@ == self@[hi - 1 - k],
            decreases i,
        {
            i -= 1;
            found.push(self.spans[i]);
        }
        proof {
            lemma_filter_run(self@, hit, lo as int, hi as int);
            assert(views(found@) =~= self@.subrange(lo as int, hi as int).reverse());
        }
        found
    }
}

} // verus!

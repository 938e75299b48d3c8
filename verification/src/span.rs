//! Half-open address intervals and how one lies against another.

use core::cmp::Ordering;
use vstd::prelude::*;
use vstd::std_specs::cmp::PartialOrdSpecImpl;
use crate::Address;

verus! {

/// The mathematical interval `[start, end)` that a [`Span`] stands for.
pub struct Interval {
    pub start: int,
    pub end: int,
}

/// How one span lies against a reference span. The rules are tried in the
/// order given with [`Interval::relation`], and the first that matches wins.
#[derive(Clone, Copy, Debug, Hash, PartialEq, Eq, Structural)]
pub enum SpanRelation {
    /// None of the other rules matches. The two spans may still share
    /// addresses: a span inside the reference that shares just one of its
    /// ends is classified so.
    Disjoint,
    /// The span ends where the reference starts.
    AdjacentStart,
    /// The span starts where the reference ends.
    AdjacentEnd,
    /// The span starts before the reference and ends after its start.
    OverlapStart,
    /// The span ends after the reference and starts before its end.
    OverlapEnd,
    /// The span covers the reference.
    Engulf,
    /// The span lies strictly inside the reference.
    Break,
}

impl Interval {
    /// The interval is well formed and every bound is an address.
    pub open spec fn valid(self) -> bool {
        0 <= self.start <= self.end <= usize::MAX
    }

    /// Number of addresses in the interval.
    pub open spec fn len(self) -> int {
        self.end - self.start
    }

    /// The interval that starts at `start` and holds `len` addresses, cut off
    /// at the highest address.
    pub open spec fn with_len(start: int, len: int) -> Interval {
        Interval {
            start,
            end: if start + len <= usize::MAX { start + len } else { usize::MAX as int },
        }
    }

    /// The interval holds the address `x`.
    pub open spec fn contains(self, x: int) -> bool {
        self.start <= x < self.end
    }

    /// The two intervals share an address.
    pub open spec fn overlaps(self, other: Interval) -> bool {
        self.start < other.end && other.start < self.end
    }

    /// The two intervals share an address or lie end to end.
    pub open spec fn touches(self, other: Interval) -> bool {
        self.start <= other.end && other.start <= self.end
    }

    /// The smallest interval that holds both.
    pub open spec fn join(self, other: Interval) -> Interval {
        Interval {
            start: if other.start < self.start { other.start } else { self.start },
            end: if other.end > self.end { other.end } else { self.end },
        }
    }

    /// The part of `self` below `clear`, if it holds an address.
    pub open spec fn below(self, clear: Interval) -> Seq<Interval> {
        if self.start < clear.start {
            seq![Interval { start: self.start, end: clear.start }]
        } else {
            Seq::empty()
        }
    }

    /// The part of `self` above `clear`, if it holds an address.
    pub open spec fn above(self, clear: Interval) -> Seq<Interval> {
        if clear.end < self.end {
            seq![Interval { start: clear.end, end: self.end }]
        } else {
            Seq::empty()
        }
    }

    /// What is left of `self`, in ascending order, once the addresses of
    /// `clear` are taken out of it.
    pub open spec fn minus(self, clear: Interval) -> Seq<Interval> {
        if self.overlaps(clear) {
            self.below(clear) + self.above(clear)
        } else {
            seq![self]
        }
    }

    /// Classifies `other` against `self`; the first rule that matches wins.
    pub open spec fn relation(self, other: Interval) -> SpanRelation {
        if other.start <= self.start && other.end >= self.end {
            SpanRelation::Engulf
        } else if other.end == self.start {
            SpanRelation::AdjacentStart
        } else if other.start == self.end {
            SpanRelation::AdjacentEnd
        } else if other.start < self.start && other.end > self.start {
            SpanRelation::OverlapStart
        } else if other.end > self.end && other.start < self.end {
            SpanRelation::OverlapEnd
        } else if other.start > self.start && other.end < self.end {
            SpanRelation::Break
        } else {
            SpanRelation::Disjoint
        }
    }
}

/// A half-open interval `[start, end)` of addresses with `start <= end`.
#[derive(Clone, Copy, Debug, Hash, PartialEq, Eq, Structural)]
pub struct Span {
    start: Address,
    end: Address,
}

impl View for Span {
    type V = Interval;

    closed spec fn view(&self) -> Interval {
        Interval { start: self.start as int, end: self.end as int }
    }
}

/// Spans are ordered by where they start, whatever their ends.
impl PartialOrd for Span {
    fn partial_cmp(&self, other: &Span) -> (r: Option<Ordering>) {
        if self.start < other.start {
            Some(Ordering::Less)
        } else if self.start == other.start {
            Some(Ordering::Equal)
        } else {
            Some(Ordering::Greater)
        }
    }
}

impl PartialOrdSpecImpl for Span {
    open spec fn obeys_partial_cmp_spec() -> bool {
        true
    }

    open spec fn partial_cmp_spec(&self, other: &Span) -> Option<Ordering> {
        if self@.start < other@.start {
            Some(Ordering::Less)
        } else if self@.start == other@.start {
            Some(Ordering::Equal)
        } else {
            Some(Ordering::Greater)
        }
    }
}

impl Span {
    #[verifier::type_invariant]
    pub open spec fn inv(self) -> bool {
        self@.valid()
    }

    /// Two spans are equal where their starts and their ends are.
    pub proof fn lemma_equal_by_bounds(self, other: Span)
        ensures
            self == other <==> self@ == other@,
    {
    }

    /// The span `[start, end)`.
    pub fn new(start: Address, end: Address) -> (s: Span)
        requires
            start <= end,
        ensures
            s@ == (Interval { start: start as int, end: end as int }),
    {
        Span { start, end }
    }

    /// The span of `sz` addresses from `start`, cut off at the highest address.
    pub fn with_len(start: Address, sz: usize) -> (s: Span)
        ensures
            s@ == Interval::with_len(start as int, sz as int),
    {
        Span { start, end: start.saturating_add(sz) }
    }

    pub fn start(&self) -> (a: Address)
        ensures
            a == self@.start,
    {
        self.start
    }

    pub fn end(&self) -> (a: Address)
        ensures
            a == self@.end,
    {
        self.end
    }

    /// Number of addresses in the span.
    pub fn len(&self) -> (n: usize)
        ensures
            n == self@.len(),
    {
        proof {
            use_type_invariant(self);
        }
        self.end - self.start
    }

    /// Classifies `other` against `self`.
    pub fn relation(&self, other: &Span) -> (r: SpanRelation)
        ensures
            r == self@.relation(other@),
    {
        if other.start <= self.start && other.end >= self.end {
            SpanRelation::Engulf
        } else if other.end == self.start {
            SpanRelation::AdjacentStart
        } else if other.start == self.end {
            SpanRelation::AdjacentEnd
        } else if other.start < self.start && other.end > self.start {
            SpanRelation::OverlapStart
        } else if other.end > self.end && other.start < self.end {
            SpanRelation::OverlapEnd
        } else if other.start > self.start && other.end < self.end {
            SpanRelation::Break
        } else {
            SpanRelation::Disjoint
        }
    }
}

} // verus!

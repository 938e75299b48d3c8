//! What holds of marking and clearing read ranges, whatever the ranges.

use vstd::prelude::*;
use crate::detector::{classified, owns, related, unowned, DetectorView, Verdict};
use crate::lemmas::{lemma_cleared_push, lemma_hull, lemma_marked_run, lemma_touching_run};
use crate::memory_tracking::{accepts, cleared, covers, hull, marked, ordered, releases, unread};
use crate::span::{Interval, SpanRelation};

verus! {

/// The spans after marking each interval of `news` in turn.
pub open spec fn marked_all(spans: Seq<Interval>, news: Seq<Interval>) -> Seq<Interval> {
    news.fold_left(spans, |acc: Seq<Interval>, new: Interval| marked(acc, new))
}

/// Marking a range that touches no span adds it as a span of its own and
/// leaves the others as they are.
pub proof fn lemma_mark_apart(spans: Seq<Interval>, new: Interval)
    requires
        ordered(spans),
        new.valid(),
        forall|i: int| 0 <= i < spans.len() ==> !(#[trigger] spans[i]).touches(new),
    ensures
        accepts(spans, new),
        ordered(marked(spans, new)),
        marked(spans, new).len() == spans.len() + 1,
        forall|e: Interval| marked(spans, new).contains(e) <==> spans.contains(e) || e == new,
{
    let (lo, hi) = lemma_touching_run(spans, new);
    if lo < hi {
        assert(spans[lo].touches(new));
    }
    lemma_marked_run(spans, new, lo, hi);
    lemma_hull(spans, new);
    let out = marked(spans, new);
    assert(hull(spans, new) == new);
    assert(out == spans.take(lo).push(new) + spans.skip(lo));
    assert forall|e: Interval| out.contains(e) <==> spans.contains(e) || e == new by {
        if out.contains(e) {
            let k = choose|k: int| 0 <= k < out.len() && out[k] == e;
            if k < lo {
                assert(spans[k] == e);
            } else if k > lo {
                assert(spans[k - 1] == e);
            }
        }
        if spans.contains(e) {
            let k = choose|k: int| 0 <= k < spans.len() && spans[k] == e;
            if k < lo {
                assert(out[k] == e);
            } else {
                assert(out[k + 1] == e);
            }
        }
        if e == new {
            assert(out[lo] == e);
        }
    }
}

/// Marking ranges of which no two touch, on an empty record, gives as many
/// spans as ranges were marked: the ranges themselves.
pub proof fn lemma_apart_marks_count(news: Seq<Interval>)
    requires
        forall|i: int| 0 <= i < news.len() ==> (#[trigger] news[i]).valid(),
        forall|i: int, j: int|
            0 <= i < j < news.len() ==> !(#[trigger] news[i]).touches(#[trigger] news[j]),
    ensures
        ordered(marked_all(Seq::empty(), news)),
        marked_all(Seq::empty(), news).len() == news.len(),
        forall|e: Interval| marked_all(Seq::empty(), news).contains(e) <==> news.contains(e),
        forall|k: int|
            0 <= k < news.len() ==> accepts(
                marked_all(Seq::empty(), news.take(k)),
                #[trigger] news[k],
            ),
    decreases news.len(),
{
    let empty = Seq::<Interval>::empty();
    if news.len() == 0 {
        assert(marked_all(empty, news) == empty);
    } else {
        let rest = news.drop_last();
        let last = news.last();
        let n = news.len() as int;
        assert forall|i: int| 0 <= i < rest.len() implies #[trigger] rest[i] == news[i] by {}
        lemma_apart_marks_count(rest);
        let before = marked_all(empty, rest);
        assert(marked_all(empty, news) == marked(before, last));
        assert forall|i: int| 0 <= i < before.len() implies !(#[trigger] before[i]).touches(
            last,
        ) by {
            assert(before.contains(before[i]));
            assert(rest.contains(before[i]));
            let j = choose|j: int| 0 <= j < rest.len() && rest[j] == before[i];
            assert(!news[j].touches(news[n - 1]));
        }
        lemma_mark_apart(before, last);
        let out = marked_all(empty, news);
        assert forall|e: Interval| out.contains(e) <==> news.contains(e) by {
            if news.contains(e) {
                let j = choose|j: int| 0 <= j < news.len() && news[j] == e;
                if j < n - 1 {
                    assert(rest[j] == e);
                    assert(rest.contains(e));
                }
            }
            if rest.contains(e) {
                let j = choose|j: int| 0 <= j < rest.len() && rest[j] == e;
                assert(news[j] == e);
            }
            if e == last {
                assert(news[n - 1] == e);
            }
        }
        assert forall|k: int| 0 <= k < news.len() implies accepts(
            marked_all(empty, news.take(k)),
            #[trigger] news[k],
        ) by {
            if k < n - 1 {
                assert(news.take(k) =~= rest.take(k));
                assert(news[k] == rest[k]);
            } else {
                assert(news.take(k) =~= rest);
            }
        }
    }
}

/// Marking a range on an empty record gives that range alone.
pub proof fn lemma_mark_first(new: Interval)
    requires
        new.valid(),
    ensures
        accepts(Seq::empty(), new),
        marked(Seq::empty(), new) == seq![new],
{
    let empty = Seq::<Interval>::empty();
    lemma_marked_run(empty, new, 0, 0);
    assert(hull(empty, new) == new);
    assert(empty.take(0).push(new) + empty.skip(0) =~= seq![new]);
}

/// Two ranges of which neither is classified against the other as disjoint
/// can be marked in either order, and both orders leave the same record: the
/// one span that holds both.
pub proof fn lemma_mark_commutes(a: Interval, b: Interval)
    requires
        a.valid(),
        b.valid(),
        a.relation(b) != SpanRelation::Disjoint,
        b.relation(a) != SpanRelation::Disjoint,
    ensures
        accepts(marked(Seq::empty(), a), b),
        accepts(marked(Seq::empty(), b), a),
        marked(marked(Seq::empty(), a), b) == marked(marked(Seq::empty(), b), a),
        marked(marked(Seq::empty(), a), b) == seq![a.join(b)],
{
    lemma_mark_second(a, b);
    lemma_mark_second(b, a);
    assert(a.join(b) == b.join(a));
}

/// Marking a second range that is not classified as disjoint against the
/// first merges the two.
proof fn lemma_mark_second(held: Interval, new: Interval)
    requires
        held.valid(),
        new.valid(),
        new.relation(held) != SpanRelation::Disjoint,
    ensures
        accepts(marked(Seq::empty(), held), new),
        marked(marked(Seq::empty(), held), new) == seq![held.join(new)],
{
    let first = marked(Seq::empty(), held);
    assert(first == seq![held]) by {
        lemma_mark_first(held);
    }
    assert(held.touches(new)) by {
        lemma_related_touches(new, held);
    }
    assert(marked(seq![held], new) == seq![held.join(new)]) by {
        lemma_mark_pair(held, new);
    }
    lemma_accepts_one(held, new);
}

/// A record of one span accepts a range against which that span is not
/// classified as disjoint.
proof fn lemma_accepts_one(held: Interval, new: Interval)
    requires
        new.relation(held) != SpanRelation::Disjoint,
    ensures
        accepts(seq![held], new),
{
    let spans = seq![held];
    assert(spans[0] == held);
}

/// An interval that is not classified as disjoint touches the reference.
pub proof fn lemma_related_touches(reference: Interval, other: Interval)
    requires
        reference.valid(),
        other.valid(),
        reference.relation(other) != SpanRelation::Disjoint,
    ensures
        reference.touches(other),
{
}

/// Marking a range on a record of one span that it touches merges the two.
proof fn lemma_mark_pair(held: Interval, new: Interval)
    requires
        held.valid(),
        new.valid(),
        held.touches(new),
    ensures
        marked(seq![held], new) == seq![held.join(new)],
{
    let spans = seq![held];
    assert(spans[0] == held);
    lemma_marked_run(spans, new, 0, 1);
    lemma_hull(spans, new);
    assert(hull(spans, new) == held.join(new));
    assert(spans.take(0).push(held.join(new)) + spans.skip(1) =~= seq![held.join(new)]);
}

/// Marking a range that holds an address on an empty record and clearing
/// the same range leaves the record empty again.
pub proof fn lemma_mark_then_clear(range: Interval)
    requires
        range.valid(),
        range.start < range.end,
    ensures
        accepts(Seq::empty(), range),
        releases(marked(Seq::empty(), range), range),
        cleared(marked(Seq::empty(), range), range) == Seq::<Interval>::empty(),
{
    let empty = Seq::<Interval>::empty();
    lemma_mark_first(range);
    assert(seq![range] =~= empty.push(range));
    lemma_cleared_push(empty, range, range);
    assert(empty.map_values(|s: Interval| s.minus(range)) =~= Seq::empty());
    assert(cleared(empty, range) =~= empty);
    assert(range.minus(range) =~= empty);
    assert(seq![range][0] == range);
}

/// Once a range that holds an address is marked as read, a check of the
/// same range finds it.
pub proof fn lemma_mark_then_check(spans: Seq<Interval>, new: Interval)
    requires
        ordered(spans),
        new.valid(),
        new.start < new.end,
    ensures
        !unread(marked(spans, new), new),
{
    let (lo, hi) = lemma_touching_run(spans, new);
    lemma_marked_run(spans, new, lo, hi);
    lemma_hull(spans, new);
    let out = marked(spans, new);
    assert(out[lo] == hull(spans, new));
    assert(out[lo].overlaps(new));
}

/// Once the read mark is taken off a range, a check of the same range finds
/// nothing.
pub proof fn lemma_clear_then_check(spans: Seq<Interval>, clear: Interval)
    ensures
        unread(cleared(spans, clear), clear),
    decreases spans.len(),
{
    if spans.len() == 0 {
        assert(spans.map_values(|s: Interval| s.minus(clear)) =~= Seq::empty());
        assert(cleared(spans, clear) =~= Seq::empty());
    } else {
        let rest = spans.drop_last();
        let last = spans.last();
        lemma_clear_then_check(rest, clear);
        lemma_cleared_push(rest, last, clear);
        assert(rest.push(last) =~= spans);
        let head = cleared(rest, clear);
        let tail = last.minus(clear);
        let out = cleared(spans, clear);
        assert forall|k: int| 0 <= k < out.len() implies !(#[trigger] out[k]).overlaps(clear) by {
            if k < head.len() {
                assert(out[k] == head[k]);
            } else {
                assert(out[k] == tail[k - head.len()]);
            }
        }
    }
}

/// Once the region that owns the byte at `addr` is no longer watched, an
/// access to a range that is related to no other region is not checked: it
/// is classified as unwatched and changes nothing.
pub proof fn lemma_unwatch_forgets(
    before: DetectorView,
    addr: int,
    i: int,
    target: Interval,
    is_write: bool,
    verdict: Verdict,
    after: DetectorView,
)
    requires
        owns(before.regions, Interval::with_len(addr, 1), i),
        forall|j: int|
            0 <= j < before.regions.len() && j != i ==> !related(#[trigger] before.regions[j], target),
        classified(
            DetectorView { regions: before.regions.remove(i), ..before },
            target,
            is_write,
            verdict,
            after,
        ),
    ensures
        unowned(before.regions.remove(i), target),
        verdict == Verdict::Unwatched,
        after == (DetectorView { regions: before.regions.remove(i), ..before }),
{
    let left = before.regions.remove(i);
    assert forall|j: int| 0 <= j < left.len() implies !related(#[trigger] left[j], target) by {
        if j < i {
            assert(left[j] == before.regions[j]);
        } else {
            assert(left[j] == before.regions[j + 1]);
        }
    }
}

/// What a span that touches a new range adds to the merger, by how it is
/// classified against the range: its start where it engulfs the range, lies
/// end to end with its start or overlaps its start, and its end where it
/// engulfs the range, lies end to end with its end or overlaps its end. A
/// span strictly inside the range adds nothing.
pub proof fn lemma_join_by_relation(new: Interval, span: Interval)
    requires
        new.valid(),
        span.valid(),
        span.touches(new),
        new.relation(span) != SpanRelation::Disjoint,
    ensures
        new.join(span).start == match new.relation(span) {
            SpanRelation::Engulf | SpanRelation::AdjacentStart | SpanRelation::OverlapStart => span.start,
            _ => new.start,
        },
        new.join(span).end == match new.relation(span) {
            SpanRelation::Engulf | SpanRelation::AdjacentEnd | SpanRelation::OverlapEnd => span.end,
            _ => new.end,
        },
{
}

/// What clearing a range leaves of a span that it overlaps, by how the range
/// is classified against the span: both ends of the span where the range
/// lies strictly inside it, the upper end where the range reaches over its
/// start, the lower end where the range reaches over its end, and nothing
/// where the range covers it.
pub proof fn lemma_minus_by_relation(span: Interval, clear: Interval)
    requires
        span.valid(),
        clear.valid(),
        span.overlaps(clear),
    ensures
        match span.relation(clear) {
            SpanRelation::Break => span.minus(clear) == seq![
                Interval { start: span.start, end: clear.start },
                Interval { start: clear.end, end: span.end },
            ],
            SpanRelation::OverlapStart => span.minus(clear) == seq![
                Interval { start: clear.end, end: span.end },
            ],
            SpanRelation::OverlapEnd => span.minus(clear) == seq![
                Interval { start: span.start, end: clear.start },
            ],
            SpanRelation::Engulf => span.minus(clear) == Seq::<Interval>::empty(),
            _ => true,
        },
{
    let lower = Interval { start: span.start, end: clear.start };
    let upper = Interval { start: clear.end, end: span.end };
    assert(seq![lower] + seq![upper] =~= seq![lower, upper]);
    assert(Seq::<Interval>::empty() + seq![upper] =~= seq![upper]);
    assert(seq![lower] + Seq::<Interval>::empty() =~= seq![lower]);
    assert(Seq::<Interval>::empty() + Seq::<Interval>::empty() =~= Seq::<Interval>::empty());
}

/// After a range is marked, the addresses that count as read are those
/// that did before and those of the range.
pub proof fn lemma_marked_covers(spans: Seq<Interval>, new: Interval, x: int)
    requires
        ordered(spans),
        new.valid(),
    ensures
        covers(marked(spans, new), x) <==> covers(spans, x) || new.contains(x),
{
    let (lo, hi) = lemma_touching_run(spans, new);
    lemma_marked_run(spans, new, lo, hi);
    let out = marked(spans, new);
    let merged = out[lo];
    if covers(out, x) {
        let k = choose|k: int| 0 <= k < out.len() && (#[trigger] out[k]).contains(x);
        if k < lo {
            assert(spans[k].contains(x));
        } else if k > lo {
            assert(spans[k - 1 - lo + hi].contains(x));
        } else if !new.contains(x) {
            assert(lo < hi);
            if x < new.start {
                assert(spans[lo].contains(x));
            } else {
                assert(spans[hi - 1].contains(x));
            }
        }
    }
    if covers(spans, x) {
        let k = choose|k: int| 0 <= k < spans.len() && (#[trigger] spans[k]).contains(x);
        if k < lo {
            assert(out[k].contains(x));
        } else if k >= hi {
            assert(out[k - hi + lo + 1].contains(x));
        } else {
            assert(spans[lo].start <= spans[k].start && spans[k].end <= spans[hi - 1].end) by {
                assert(spans[k].valid() && spans[lo].valid() && spans[hi - 1].valid());
            }
            assert(merged.contains(x));
        }
    }
    if new.contains(x) {
        assert(merged.contains(x));
    }
}

/// After the read mark is taken off a range, the addresses that count as
/// read are those that did before and are not of the range.
pub proof fn lemma_cleared_covers(spans: Seq<Interval>, clear: Interval, x: int)
    ensures
        covers(cleared(spans, clear), x) <==> covers(spans, x) && !clear.contains(x),
    decreases spans.len(),
{
    if spans.len() == 0 {
        assert(spans.map_values(|s: Interval| s.minus(clear)) =~= Seq::empty());
        assert(cleared(spans, clear) =~= Seq::empty());
    } else {
        let rest = spans.drop_last();
        let last = spans.last();
        lemma_cleared_covers(rest, clear, x);
        lemma_cleared_push(rest, last, clear);
        assert(rest.push(last) =~= spans);
        let head = cleared(rest, clear);
        let tail = last.minus(clear);
        let out = cleared(spans, clear);
        if covers(out, x) {
            let k = choose|k: int| 0 <= k < out.len() && (#[trigger] out[k]).contains(x);
            if k < head.len() {
                assert(head[k].contains(x));
                let i = choose|i: int| 0 <= i < rest.len() && (#[trigger] rest[i]).contains(x);
                assert(spans[i].contains(x));
            } else {
                assert(tail[k - head.len()].contains(x));
                assert(spans[spans.len() - 1].contains(x));
            }
        }
        if covers(spans, x) && !clear.contains(x) {
            let i = choose|i: int| 0 <= i < spans.len() && (#[trigger] spans[i]).contains(x);
            if i < rest.len() {
                assert(rest[i].contains(x));
                let k = choose|k: int| 0 <= k < head.len() && (#[trigger] head[k]).contains(x);
                assert(out[k].contains(x));
            } else {
                assert(last.contains(x));
                if !last.overlaps(clear) {
                    assert(tail[0].contains(x));
                    assert(out[head.len() as int].contains(x));
                } else if x < clear.start {
                    assert(tail[0].contains(x));
                    assert(out[head.len() as int].contains(x));
                } else {
                    let top = tail.len() - 1;
                    assert(tail[top].contains(x));
                    assert(out[head.len() + top].contains(x));
                }
            }
        }
    }
}

} // verus!

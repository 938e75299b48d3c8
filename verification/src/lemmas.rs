//! How marking and clearing act on spans that are in order.

use vstd::prelude::*;
use crate::memory_tracking::{
    cleared, clears_run, hull, marked, marks_run, merged_at, ordered, overlapping_run, separated,
    touching_run,
};
use crate::span::Interval;

verus! {

/// A predicate that holds of the items at `lo..hi` and of no other item
/// selects exactly that run.
pub proof fn lemma_filter_run<A>(s: Seq<A>, pred: spec_fn(A) -> bool, lo: int, hi: int)
    requires
        0 <= lo <= hi <= s.len(),
        forall|i: int| 0 <= i < s.len() ==> (pred(#[trigger] s[i]) <==> lo <= i < hi),
    ensures
        s.filter(pred) == s.subrange(lo, hi),
    decreases s.len(),
{
    reveal(Seq::filter);
    if s.len() == 0 {
        assert(s.filter(pred) =~= s.subrange(lo, hi));
    } else {
        let rest = s.drop_last();
        let last = s.len() - 1;
        if hi == s.len() && lo < hi {
            assert(pred(s[last]));
            lemma_filter_run(rest, pred, lo, hi - 1);
            assert(rest.subrange(lo, hi - 1).push(s.last()) =~= s.subrange(lo, hi));
        } else if hi == s.len() {
            assert(!pred(s[last]));
            lemma_filter_run(rest, pred, lo - 1, hi - 1);
            assert(rest.subrange(lo - 1, hi - 1) =~= s.subrange(lo, hi));
        } else {
            assert(!pred(s[last]));
            lemma_filter_run(rest, pred, lo, hi);
            assert(rest.subrange(lo, hi) =~= s.subrange(lo, hi));
        }
    }
}

/// The hull holds `new` and every span that touches it, and each of its two
/// bounds is a bound of one of them.
pub proof fn lemma_hull(spans: Seq<Interval>, new: Interval)
    ensures
        hull(spans, new).start <= new.start,
        new.end <= hull(spans, new).end,
        forall|i: int|
            0 <= i < spans.len() && (#[trigger] spans[i]).touches(new) ==> {
                &&& hull(spans, new).start <= spans[i].start
                &&& spans[i].end <= hull(spans, new).end
            },
        hull(spans, new).start == new.start || exists|i: int|
            0 <= i < spans.len() && (#[trigger] spans[i]).touches(new) && spans[i].start == hull(
                spans,
                new,
            ).start,
        hull(spans, new).end == new.end || exists|i: int|
            0 <= i < spans.len() && (#[trigger] spans[i]).touches(new) && spans[i].end == hull(
                spans,
                new,
            ).end,
    decreases spans.len(),
{
    if spans.len() > 0 {
        let rest = spans.drop_last();
        let last = spans.len() - 1;
        lemma_hull(rest, new);
        let inner = hull(rest, new);
        let outer = hull(spans, new);
        assert(outer == if spans[last].touches(new) {
            inner.join(spans[last])
        } else {
            inner
        });
        assert forall|i: int| 0 <= i < spans.len() && (#[trigger] spans[i]).touches(new) implies {
            &&& outer.start <= spans[i].start
            &&& spans[i].end <= outer.end
        } by {
            if i < last {
                assert(rest[i] == spans[i]);
            }
        }
        if outer.start != new.start {
            if outer.start == inner.start {
                let i = choose|i: int|
                    0 <= i < rest.len() && (#[trigger] rest[i]).touches(new) && rest[i].start
                        == inner.start;
                assert(spans[i] == rest[i]);
            } else {
                assert(spans[last].touches(new) && spans[last].start == outer.start);
            }
        }
        if outer.end != new.end {
            if outer.end == inner.end {
                let i = choose|i: int|
                    0 <= i < rest.len() && (#[trigger] rest[i]).touches(new) && rest[i].end
                        == inner.end;
                assert(spans[i] == rest[i]);
            } else {
                assert(spans[last].touches(new) && spans[last].end == outer.end);
            }
        }
    }
}

/// Where the spans at `lo..hi` are those that touch `new`, marking `new`
/// replaces that run by the hull, and the result is in order again.
pub proof fn lemma_marked_run(spans: Seq<Interval>, new: Interval, lo: int, hi: int)
    requires
        ordered(spans),
        new.valid(),
        touching_run(spans, new, lo, hi),
    ensures
        hull(spans, new) == merged_at(spans, new, lo, hi),
        marks_run(spans, new, lo, hi, marked(spans, new)),
        ordered(marked(spans, new)),
        separated(spans) ==> separated(marked(spans, new)),
{
    let before = |s: Interval| s.end < new.start;
    let after = |s: Interval| new.end < s.start;
    lemma_filter_run(spans, before, 0, lo);
    lemma_filter_run(spans, after, hi, spans.len() as int);
    assert(spans.subrange(0, lo) =~= spans.take(lo));
    assert(spans.subrange(hi, spans.len() as int) =~= spans.skip(hi));
    lemma_hull(spans, new);
    let h = hull(spans, new);
    let out = spans.take(lo).push(h) + spans.skip(hi);
    assert(marked(spans, new) == out);
    assert forall|i: int| 0 <= i < spans.len() && (#[trigger] spans[i]).touches(new) implies lo
        <= i < hi by {}
    assert(h.valid());
    assert(h == merged_at(spans, new, lo, hi)) by {
        if lo < hi {
            assert(spans[lo].touches(new) && spans[hi - 1].touches(new));
            assert forall|i: int| lo <= i < hi implies spans[lo].start <= (#[trigger] spans[i]).start
                && spans[i].end <= spans[hi - 1].end by {
                assert(spans[i].valid() && spans[lo].valid() && spans[hi - 1].valid());
            }
        }
    }
    assert forall|i: int| 0 <= i < lo implies (#[trigger] spans[i]).end <= h.start && spans[i].start
        < h.start && (separated(spans) ==> spans[i].end < h.start) by {}
    assert forall|i: int| hi <= i < spans.len() implies h.end <= (#[trigger] spans[i]).start
        && h.start < spans[i].start && (separated(spans) ==> h.end < spans[i].start) by {}
    assert forall|i: int| 0 <= i < out.len() implies (#[trigger] out[i]).valid() by {
        if i < lo {
            assert(out[i] == spans[i]);
        } else if i > lo {
            assert(out[i] == spans[i - lo - 1 + hi]);
        }
    }
    assert forall|i: int, j: int| 0 <= i < j < out.len() implies {
        &&& (#[trigger] out[i]).start < (#[trigger] out[j]).start
        &&& out[i].end <= out[j].start
        &&& separated(spans) ==> out[i].end < out[j].start
    } by {
        if i < lo {
            assert(out[i] == spans[i]);
        } else if i > lo {
            assert(out[i] == spans[i - lo - 1 + hi]);
        }
        if j < lo {
            assert(out[j] == spans[j]);
        } else if j > lo {
            assert(out[j] == spans[j - lo - 1 + hi]);
        }
    }
}

/// Clearing works span by span: what it leaves of the last span follows what
/// it leaves of the others.
pub proof fn lemma_cleared_push(spans: Seq<Interval>, last: Interval, clear: Interval)
    ensures
        cleared(spans.push(last), clear) == cleared(spans, clear) + last.minus(clear),
{
    let f = |s: Interval| s.minus(clear);
    assert(spans.push(last).map_values(f) =~= spans.map_values(f).push(f(last)));
    spans.map_values(f).lemma_flatten_push(f(last));
}

/// Clearing a range that no span overlaps changes nothing.
pub proof fn lemma_cleared_apart(spans: Seq<Interval>, clear: Interval)
    requires
        forall|i: int| 0 <= i < spans.len() ==> !(#[trigger] spans[i]).overlaps(clear),
    ensures
        cleared(spans, clear) == spans,
    decreases spans.len(),
{
    if spans.len() == 0 {
        assert(spans.map_values(|s: Interval| s.minus(clear)) =~= Seq::empty());
        assert(cleared(spans, clear) =~= spans);
    } else {
        let rest = spans.drop_last();
        assert forall|i: int| 0 <= i < rest.len() implies !(#[trigger] rest[i]).overlaps(clear) by {
            assert(rest[i] == spans[i]);
        }
        lemma_cleared_apart(rest, clear);
        lemma_cleared_push(rest, spans.last(), clear);
        assert(rest.push(spans.last()) =~= spans);
        assert(spans[spans.len() - 1] == spans.last());
        assert(cleared(spans, clear) =~= spans);
    }
}

/// Clearing keeps the spans in order. Each span that is left is one of the
/// old ones or holds an address, and none ends beyond the last old span.
pub proof fn lemma_cleared_ordered(spans: Seq<Interval>, clear: Interval)
    requires
        ordered(spans),
        clear.valid(),
    ensures
        ordered(cleared(spans, clear)),
        separated(spans) && clear.start < clear.end ==> separated(cleared(spans, clear)),
        forall|k: int|
            0 <= k < cleared(spans, clear).len() ==> {
                &&& spans.len() > 0
                &&& (#[trigger] cleared(spans, clear)[k]).end <= spans.last().end
                &&& (spans.contains(cleared(spans, clear)[k]) || cleared(spans, clear)[k].start
                    < cleared(spans, clear)[k].end)
            },
    decreases spans.len(),
{
    if spans.len() == 0 {
        assert(spans.map_values(|s: Interval| s.minus(clear)) =~= Seq::empty());
        assert(cleared(spans, clear) =~= Seq::empty());
    } else {
        let rest = spans.drop_last();
        let last = spans.last();
        assert(rest.push(last) =~= spans);
        assert forall|i: int| 0 <= i < rest.len() implies rest[i] == spans[i] by {}
        lemma_cleared_ordered(rest, clear);
        lemma_cleared_push(rest, last, clear);
        let head = cleared(rest, clear);
        let tail = last.minus(clear);
        let out = cleared(spans, clear);
        assert(out == head + tail);
        assert(last.valid());
        assert(last == spans[spans.len() - 1]);
        assert forall|k: int| 0 <= k < head.len() implies (#[trigger] head[k]).end <= last.start
            && head[k].start < last.start && (separated(spans) ==> head[k].end < last.start) by {
            let e = head[k];
            assert(rest.last() == spans[rest.len() - 1]);
            assert(e.valid());
            if rest.contains(e) {
                let i = choose|i: int| 0 <= i < rest.len() && rest[i] == e;
                assert(spans[i] == e);
            }
        }
        assert forall|k: int| 0 <= k < tail.len() implies (#[trigger] tail[k]).valid() && last.start
            <= tail[k].start && tail[k].end <= last.end && (tail[k] == last || tail[k].start
            < tail[k].end) by {}
        assert forall|k: int| 0 <= k < out.len() implies {
            &&& (#[trigger] out[k]).valid()
            &&& out[k].end <= last.end
            &&& (spans.contains(out[k]) || out[k].start < out[k].end)
        } by {
            if k < head.len() {
                assert(out[k] == head[k]);
                if rest.contains(head[k]) {
                    let i = choose|i: int| 0 <= i < rest.len() && rest[i] == head[k];
                    assert(spans[i] == head[k]);
                }
            } else {
                assert(out[k] == tail[k - head.len()]);
            }
        }
        assert forall|i: int, j: int| 0 <= i < j < out.len() implies {
            &&& (#[trigger] out[i]).start < (#[trigger] out[j]).start
            &&& out[i].end <= out[j].start
            &&& (separated(spans) && clear.start < clear.end ==> out[i].end < out[j].start)
        } by {
            if separated(spans) {
                assert forall|x: int, y: int| 0 <= x < y < rest.len() implies (#[trigger] rest[x]).end
                    < (#[trigger] rest[y]).start by {
                    assert(rest[x] == spans[x] && rest[y] == spans[y]);
                }
            }
            if j < head.len() {
                assert(out[i] == head[i] && out[j] == head[j]);
            } else if i < head.len() {
                assert(out[i] == head[i]);
                assert(out[j] == tail[j - head.len()]);
            } else {
                assert(out[i] == tail[i - head.len()]);
                assert(out[j] == tail[j - head.len()]);
            }
        }
    }
}

/// In ordered spans, those that touch an interval stand in one run.
pub proof fn lemma_touching_run(spans: Seq<Interval>, new: Interval) -> (bounds: (int, int))
    requires
        ordered(spans),
        new.valid(),
    ensures
        touching_run(spans, new, bounds.0, bounds.1),
    decreases spans.len(),
{
    if spans.len() == 0 {
        (0, 0)
    } else {
        let rest = spans.drop_last();
        let last = spans.last();
        let n = spans.len() as int;
        assert forall|i: int| 0 <= i < rest.len() implies #[trigger] rest[i] == spans[i] by {}
        assert(last == spans[n - 1] && last.valid());
        let (lo, hi) = lemma_touching_run(rest, new);
        assert forall|i: int| 0 <= i < n - 1 implies (#[trigger] spans[i]).end <= last.start
            && spans[i].start < last.start by {}
        let lo2 = if last.end < new.start { n } else { lo };
        let hi2 = if last.start <= new.end { n } else { hi };
        assert forall|i: int| 0 <= i < n implies (i < lo2 <==> (#[trigger] spans[i]).end < new.start) by {
            if i < n - 1 {
                assert(spans[i] == rest[i]);
            }
        }
        assert forall|i: int| 0 <= i < n implies (i < hi2 <==> (#[trigger] spans[i]).start <= new.end) by {
            if i < n - 1 {
                assert(spans[i] == rest[i]);
            }
        }
        (lo2, hi2)
    }
}

/// Clearing works part by part.
pub proof fn lemma_cleared_concat(head: Seq<Interval>, tail: Seq<Interval>, clear: Interval)
    ensures
        cleared(head + tail, clear) == cleared(head, clear) + cleared(tail, clear),
{
    let f = |s: Interval| s.minus(clear);
    assert((head + tail).map_values(f) =~= head.map_values(f) + tail.map_values(f));
    vstd::seq_lib::lemma_flatten_concat(head.map_values(f), tail.map_values(f));
}

/// Of a run of ordered spans that all overlap `clear`, clearing leaves what
/// of the first lies below `clear` and what of the last lies above.
proof fn lemma_cleared_within(run: Seq<Interval>, clear: Interval)
    requires
        ordered(run),
        run.len() > 0,
        forall|i: int| 0 <= i < run.len() ==> (#[trigger] run[i]).overlaps(clear),
    ensures
        cleared(run, clear) == run.first().below(clear) + run.last().above(clear),
    decreases run.len(),
{
    let rest = run.drop_last();
    let last = run.last();
    assert(rest.push(last) =~= run);
    lemma_cleared_push(rest, last, clear);
    assert(last == run[run.len() - 1]);
    if rest.len() == 0 {
        assert(rest.map_values(|s: Interval| s.minus(clear)) =~= Seq::empty());
        assert(cleared(rest, clear) =~= Seq::empty());
        assert(run.first() == last);
        assert(cleared(run, clear) =~= last.below(clear) + last.above(clear));
    } else {
        assert forall|i: int| 0 <= i < rest.len() implies #[trigger] rest[i] == run[i] by {}
        lemma_cleared_within(rest, clear);
        assert(rest.last() == run[rest.len() - 1]);
        assert(rest.first() == run[0]);
        assert(rest.last().end <= last.start);
        assert(rest.last().above(clear) =~= Seq::empty());
        assert(last.below(clear) =~= Seq::empty());
        assert(cleared(run, clear) =~= run.first().below(clear) + last.above(clear));
    }
}

/// Where the spans at `lo..hi` are those that overlap `clear`, clearing
/// replaces that run by what of its first span lies below `clear` and what
/// of its last span lies above.
pub proof fn lemma_cleared_run(spans: Seq<Interval>, clear: Interval, lo: int, hi: int)
    requires
        ordered(spans),
        overlapping_run(spans, clear, lo, hi),
    ensures
        clears_run(spans, clear, lo, hi, cleared(spans, clear)),
{
    if lo < hi {
        let head = spans.take(lo);
        let run = spans.subrange(lo, hi);
        let tail = spans.skip(hi);
        assert(spans =~= head + run + tail);
        lemma_cleared_concat(head + run, tail, clear);
        lemma_cleared_concat(head, run, clear);
        assert forall|i: int| 0 <= i < head.len() implies !(#[trigger] head[i]).overlaps(clear) by {
            assert(head[i] == spans[i]);
        }
        lemma_cleared_apart(head, clear);
        assert forall|i: int| 0 <= i < tail.len() implies !(#[trigger] tail[i]).overlaps(clear) by {
            assert(tail[i] == spans[i + hi]);
        }
        lemma_cleared_apart(tail, clear);
        assert forall|i: int| 0 <= i < run.len() implies (#[trigger] run[i]).overlaps(clear) by {
            assert(run[i] == spans[i + lo]);
        }
        assert(ordered(run)) by {
            assert forall|i: int| 0 <= i < run.len() implies #[trigger] run[i] == spans[i + lo] by {}
        }
        lemma_cleared_within(run, clear);
        assert(run.first() == spans[lo] && run.last() == spans[hi - 1]);
        assert(cleared(spans, clear) == cleared(head + run, clear) + cleared(tail, clear));
        assert(cleared(spans, clear) =~= head + spans[lo].below(clear) + spans[hi - 1].above(clear)
            + tail);
    } else {
        lemma_cleared_apart(spans, clear);
    }
}

} // verus!

//! Points in time, spans of time, and rates.
//!
//! A point in time is a number of nanoseconds since one fixed moment, and a
//! span of time is a number of nanoseconds.
use vstd::prelude::*;
use vstd::relations::*;
use vstd::seq_lib::*;
use vstd::set_lib::*;
use crate::double::{self, Seconds};

verus! {

/// One millisecond. Spans that are not longer are too short to measure a rate.
/// The same spans are not longer than a thousandth of a second in double
/// precision.
pub const MILLISECOND: u64 = 1_000_000;

/// The nanoseconds from `earlier` to `later`; none if `later` comes first.
pub open spec fn span(earlier: u64, later: u64) -> nat {
    if later >= earlier {
        (later - earlier) as nat
    } else {
        0
    }
}

/// The nanoseconds from `earlier` to `later`; none if `later` comes first.
pub fn elapsed(earlier: u64, later: u64) -> (nanos: u64)
    ensures
        nanos == span(earlier, later),
{
    if later >= earlier {
        later - earlier
    } else {
        0
    }
}

/// A number of tokens over a span of time.
#[derive(Debug, Clone, Copy, PartialEq, Eq, Structural)]
pub struct Rate {
    pub tokens: u128,
    pub nanos: u64,
}

/// The moments that an interval covers: from its start up to, and without,
/// its end.
pub open spec fn moments(interval: (u64, u64)) -> Set<int> {
    Set::new(|t: int| interval.0 <= t < interval.1)
}

/// The moments that at least one of the intervals covers.
pub open spec fn busy_moments(intervals: Seq<(u64, u64)>) -> Set<int> {
    Set::new(|t: int| exists|i: int| 0 <= i < intervals.len() && #[trigger] moments(intervals[i]).contains(t))
}

/// The time during which at least one of the intervals is active.
pub open spec fn busy_time(intervals: Seq<(u64, u64)>) -> nat {
    busy_moments(intervals).len()
}

/// Whether the intervals stand in the order of their starts.
pub open spec fn by_start(intervals: Seq<(u64, u64)>) -> bool {
    forall|i: int, j: int| 0 <= i <= j < intervals.len() ==> intervals[i].0 <= intervals[j].0
}

proof fn lemma_moments(interval: (u64, u64))
    ensures
        moments(interval).finite(),
        moments(interval).len() == span(interval.0, interval.1),
{
    if interval.0 <= interval.1 {
        lemma_int_range(interval.0 as int, interval.1 as int);
        assert(moments(interval) =~= set_int_range(interval.0 as int, interval.1 as int));
    } else {
        assert(moments(interval) =~= Set::<int>::empty());
    }
}

proof fn lemma_busy_insert(intervals: Seq<(u64, u64)>, at: int, x: (u64, u64))
    requires
        0 <= at <= intervals.len(),
    ensures
        busy_moments(intervals.insert(at, x)) == busy_moments(intervals).union(moments(x)),
{
    let more = intervals.insert(at, x);
    assert forall|t: int| busy_moments(more).contains(t) implies busy_moments(intervals).union(
        moments(x),
    ).contains(t) by {
        let i = choose|i: int| 0 <= i < more.len() && #[trigger] moments(more[i]).contains(t);
        if i < at {
            assert(moments(intervals[i]).contains(t));
        } else if i > at {
            assert(moments(intervals[i - 1]).contains(t));
        }
    }
    assert forall|t: int| busy_moments(intervals).union(moments(x)).contains(t) implies busy_moments(
        more,
    ).contains(t) by {
        if moments(x).contains(t) {
            assert(moments(more[at]).contains(t));
        } else {
            let i = choose|i: int|
                0 <= i < intervals.len() && #[trigger] moments(intervals[i]).contains(t);
            if i < at {
                assert(moments(more[i]).contains(t));
            } else {
                assert(moments(more[i + 1]).contains(t));
            }
        }
    }
    assert(busy_moments(more) =~= busy_moments(intervals).union(moments(x)));
}

/// One more interval adds the moments that it covers.
pub proof fn lemma_busy_push(intervals: Seq<(u64, u64)>, x: (u64, u64))
    ensures
        busy_moments(intervals.push(x)) == busy_moments(intervals).union(moments(x)),
{
    lemma_busy_insert(intervals, intervals.len() as int, x);
    assert(intervals.insert(intervals.len() as int, x) =~= intervals.push(x));
}

proof fn lemma_busy_finite(intervals: Seq<(u64, u64)>)
    ensures
        busy_moments(intervals).finite(),
    decreases intervals.len(),
{
    if intervals.len() == 0 {
        assert(busy_moments(intervals) =~= Set::<int>::empty());
    } else {
        lemma_busy_finite(intervals.drop_last());
        lemma_busy_push(intervals.drop_last(), intervals.last());
        lemma_moments(intervals.last());
        assert(intervals.drop_last().push(intervals.last()) =~= intervals);
    }
}

/// Whether `a` does not stand behind `b`, by their starts, and by their ends
/// where they start together.
pub open spec fn not_after(a: (u64, u64), b: (u64, u64)) -> bool {
    a.0 < b.0 || (a.0 == b.0 && a.1 <= b.1)
}

/// The intervals in the order of their starts.
pub open spec fn in_order(intervals: Seq<(u64, u64)>) -> Seq<(u64, u64)> {
    intervals.sort_by(|a: (u64, u64), b: (u64, u64)| not_after(a, b))
}

proof fn lemma_in_order(sorted: Seq<(u64, u64)>, intervals: Seq<(u64, u64)>)
    requires
        sorted.to_multiset() == intervals.to_multiset(),
        forall|i: int, j: int|
            0 <= i < j < sorted.len() ==> not_after(#[trigger] sorted[i], #[trigger] sorted[j]),
    ensures
        sorted == in_order(intervals),
{
    let leq = |a: (u64, u64), b: (u64, u64)| not_after(a, b);
    assert(total_ordering(leq));
    intervals.lemma_sort_by_ensures(leq);
    lemma_sorted_unique(sorted, intervals.sort_by(leq), leq);
}

proof fn lemma_insert_to_multiset(s: Seq<(u64, u64)>, at: int, x: (u64, u64))
    requires
        0 <= at <= s.len(),
    ensures
        s.insert(at, x).to_multiset() == s.to_multiset().insert(x),
{
    broadcast use vstd::multiset::group_multiset_axioms;

    let t = s.insert(at, x);
    t.to_multiset_ensures();
    assert(t[at] == x);
    assert(t.contains(x));
    assert(t.remove(at) =~= s);
    assert(t.to_multiset() =~= s.to_multiset().insert(x));
}

/// Puts the intervals in the order of their starts.
fn sort_by_start(intervals: &Vec<(u64, u64)>) -> (sorted: Vec<(u64, u64)>)
    ensures
        sorted@ == in_order(intervals@),
        by_start(sorted@),
        sorted.len() == intervals.len(),
        busy_moments(sorted@) == busy_moments(intervals@),
{
    let mut sorted: Vec<(u64, u64)> = Vec::new();
    assert(intervals@.take(0) =~= sorted@);
    for i in 0..intervals.len()
        invariant
            forall|i: int, j: int|
                0 <= i < j < sorted.len() ==> not_after(
                    #[trigger] sorted@[i],
                    #[trigger] sorted@[j],
                ),
            sorted.len() == i,
            sorted@.to_multiset() == intervals@.take(i as int).to_multiset(),
            busy_moments(sorted@) == busy_moments(intervals@.take(i as int)),
    {
        let x: (u64, u64) = intervals[i];
        let mut at: usize = sorted.len();
        while at > 0 && (sorted[at - 1].0 > x.0 || (sorted[at - 1].0 == x.0 && sorted[at - 1].1
            > x.1))
            invariant
                at <= sorted.len(),
                forall|k: int| at <= k < sorted.len() ==> !not_after(#[trigger] sorted@[k], x),
            decreases at,
        {
            at = at - 1;
        }
        let ghost before = sorted@;
        proof {
            lemma_busy_insert(sorted@, at as int, x);
            lemma_busy_push(intervals@.take(i as int), x);
            assert(intervals@.take(i + 1) =~= intervals@.take(i as int).push(x));
        }
        sorted.insert(at, x);
        proof {
            lemma_insert_to_multiset(before, at as int, x);
            intervals@.take(i as int).to_multiset_ensures();
            assert forall|a: int, b: int| 0 <= a < b < sorted.len() implies not_after(
                #[trigger] sorted@[a],
                #[trigger] sorted@[b],
            ) by {
                let k = if a < at {
                    a
                } else {
                    a - 1
                };
                let m = if b < at {
                    b
                } else {
                    b - 1
                };
                if a == at {
                    assert(sorted@[b] == before[m]);
                    assert(!not_after(before[m], x));
                } else if b == at {
                    assert(sorted@[a] == before[k]);
                    assert(not_after(before[at - 1], x));
                    if k < at - 1 {
                        assert(not_after(before[k], before[at - 1]));
                    }
                } else {
                    assert(sorted@[a] == before[k] && sorted@[b] == before[m]);
                    assert(not_after(before[k], before[m]));
                }
            }
        }
    }
    assert(intervals@.take(intervals.len() as int) =~= intervals@);
    proof {
        lemma_in_order(sorted@, intervals@);
        assert forall|i: int, j: int| 0 <= i <= j < sorted.len() implies sorted@[i].0
            <= sorted@[j].0 by {
            if i < j {
                assert(not_after(sorted@[i], sorted@[j]));
            }
        }
    }
    sorted
}

/// The length of the union of the intervals: the time during which at least
/// one of them is active.
pub fn union_duration(intervals: &Vec<(u64, u64)>) -> (nanos: u64)
    ensures
        nanos == busy_time(intervals@),
{
    if intervals.len() == 0 {
        assert(busy_moments(intervals@) =~= Set::<int>::empty());
        return 0;
    }
    let sorted: Vec<(u64, u64)> = sort_by_start(intervals);
    let mut total: u64 = 0;
    let mut cur_start: u64 = sorted[0].0;
    let mut cur_end: u64 = sorted[0].1;
    let ghost mut past: Set<int> = Set::empty();
    proof {
        let first = sorted@.take(1);
        assert forall|t: int| busy_moments(first).contains(t) implies moments(
            (cur_start, cur_end),
        ).contains(t) by {
            let i = choose|i: int| 0 <= i < first.len() && #[trigger] moments(first[i]).contains(t);
            assert(first[i] == sorted@[0]);
        }
        assert forall|t: int| moments((cur_start, cur_end)).contains(t) implies busy_moments(
            first,
        ).contains(t) by {
            assert(moments(first[0]).contains(t));
        }
        assert(busy_moments(first) =~= past.union(moments((cur_start, cur_end))));
    }
    for i in 1..sorted.len()
        invariant
            1 <= sorted.len(),
            by_start(sorted@),
            past.finite(),
            past.len() == total,
            total <= cur_start,
            forall|t: int| past.contains(t) ==> t < cur_start,
            cur_start <= sorted@[i - 1].0,
            busy_moments(sorted@.take(i as int)) == past.union(moments((cur_start, cur_end))),
    {
        let (s, e): (u64, u64) = sorted[i];
        let ghost cur = (cur_start, cur_end);
        proof {
            assert(sorted@.take(i + 1) =~= sorted@.take(i as int).push((s, e)));
            lemma_busy_push(sorted@.take(i as int), (s, e));
            lemma_moments(cur);
            lemma_set_disjoint_lens(past, moments(cur));
            assert(sorted@[i - 1].0 <= sorted@[i as int].0);
        }
        if s > cur_end {
            total = total + elapsed(cur_start, cur_end);
            proof {
                past = past.union(moments(cur));
            }
            cur_start = s;
            cur_end = e;
        } else if e > cur_end {
            cur_end = e;
            assert(moments((cur_start, e)) =~= moments(cur).union(moments((s, e))));
            assert(past.union(moments(cur)).union(moments((s, e))) =~= past.union(
                moments((cur_start, e)),
            ));
        } else {
            assert(past.union(moments(cur)).union(moments((s, e))) =~= past.union(moments(cur)));
        }
    }
    assert(sorted@.take(sorted.len() as int) =~= sorted@);
    proof {
        lemma_moments((cur_start, cur_end));
        lemma_set_disjoint_lens(past, moments((cur_start, cur_end)));
    }
    total + elapsed(cur_start, cur_end)
}

/// Intervals that stand in the order of their starts, with those joined that
/// overlap or meet.
pub open spec fn merged(sorted: Seq<(u64, u64)>) -> Seq<(u64, u64)>
    decreases sorted.len(),
{
    if sorted.len() == 0 {
        Seq::empty()
    } else {
        let before = merged(sorted.drop_last());
        let x = sorted.last();
        if before.len() == 0 || x.0 > before.last().1 {
            before.push(x)
        } else if x.1 > before.last().1 {
            before.drop_last().push((before.last().0, x.1))
        } else {
            before
        }
    }
}

/// The lengths of intervals in seconds, added up in double precision.
pub open spec fn sum_of_seconds(intervals: Seq<(u64, u64)>) -> nat
    decreases intervals.len(),
{
    if intervals.len() == 0 {
        0
    } else {
        let x = intervals.last();
        double::rounded(sum_of_seconds(intervals.drop_last()) + double::seconds(span(x.0, x.1)))
    }
}

/// Whether the time during which at least one of the intervals is active is
/// more than a thousandth of a second, where the stretches of that time are
/// added up in seconds, in double precision.
pub open spec fn busy_over_a_thousandth(intervals: Seq<(u64, u64)>) -> bool {
    sum_of_seconds(merged(in_order(intervals))) > double::thousandth()
}

proof fn lemma_sum_of_seconds_grows(intervals: Seq<(u64, u64)>, n: int)
    requires
        0 <= n <= intervals.len(),
    ensures
        double::is_double(sum_of_seconds(intervals)),
        sum_of_seconds(intervals.take(n)) <= sum_of_seconds(intervals),
    decreases intervals.len(),
{
    if intervals.len() == 0 {
        assert(intervals.take(n) =~= intervals);
    } else {
        let before = intervals.drop_last();
        let x = intervals.last();
        let sum = sum_of_seconds(before) + double::seconds(span(x.0, x.1));
        double::lemma_quotient_is_double(sum, 1);
        if n == intervals.len() {
            assert(intervals.take(n) =~= intervals);
        } else {
            assert(intervals.take(n) =~= before.take(n));
            lemma_sum_of_seconds_grows(before, n);
            double::lemma_rounded_from_below(sum_of_seconds(before), sum);
        }
    }
}

/// Joins intervals that overlap or meet.
fn merge_intervals(sorted: &Vec<(u64, u64)>) -> (parts: Vec<(u64, u64)>)
    ensures
        parts@ == merged(sorted@),
{
    let mut parts: Vec<(u64, u64)> = Vec::new();
    for i in 0..sorted.len()
        invariant
            parts@ == merged(sorted@.take(i as int)),
    {
        let x: (u64, u64) = sorted[i];
        let ghost before = parts@;
        assert(sorted@.take(i + 1).drop_last() =~= sorted@.take(i as int));
        let n: usize = parts.len();
        if n == 0 || x.0 > parts[n - 1].1 {
            parts.push(x);
        } else if x.1 > parts[n - 1].1 {
            let start: u64 = parts[n - 1].0;
            parts.set(n - 1, (start, x.1));
            assert(parts@ =~= before.drop_last().push((before.last().0, x.1)));
        }
    }
    assert(sorted@.take(sorted.len() as int) =~= sorted@);
    parts
}

/// Tells whether the time during which at least one of the intervals is
/// active is more than a thousandth of a second.
pub fn is_busy_over_a_thousandth(intervals: &Vec<(u64, u64)>) -> (yes: bool)
    ensures
        yes == busy_over_a_thousandth(intervals@),
{
    let sorted: Vec<(u64, u64)> = sort_by_start(intervals);
    let parts: Vec<(u64, u64)> = merge_intervals(&sorted);
    let mut sum: Seconds = Seconds { units: 0 };
    for i in 0..parts.len()
        invariant
            parts@ == merged(in_order(intervals@)),
            sum.units == sum_of_seconds(parts@.take(i as int)),
            sum.units <= double::thousandth(),
    {
        let part: (u64, u64) = parts[i];
        let more: Seconds = Seconds::of_nanos(elapsed(part.0, part.1));
        proof {
            assert(parts@.take(i + 1).drop_last() =~= parts@.take(i as int));
            double::lemma_thousandth();
        }
        sum = sum.plus(more);
        if sum.over_a_thousandth() {
            proof {
                lemma_sum_of_seconds_grows(parts@, i + 1);
            }
            return true;
        }
    }
    assert(parts@.take(parts.len() as int) =~= parts@);
    false
}

/// The sum of the lengths of the intervals.
pub open spec fn sum_of_spans(intervals: Seq<(u64, u64)>) -> nat
    decreases intervals.len(),
{
    if intervals.len() == 0 {
        0
    } else {
        sum_of_spans(intervals.drop_last()) + span(intervals.last().0, intervals.last().1)
    }
}

/// Whether no two of the intervals share a moment.
pub open spec fn separate(intervals: Seq<(u64, u64)>) -> bool {
    forall|i: int, j: int|
        0 <= i < j < intervals.len() ==> moments(#[trigger] intervals[i]).disjoint(
            moments(#[trigger] intervals[j]),
        )
}

/// Intervals that do not overlap add up.
pub proof fn law_separate_intervals_add_up(intervals: Seq<(u64, u64)>)
    requires
        separate(intervals),
    ensures
        busy_time(intervals) == sum_of_spans(intervals),
    decreases intervals.len(),
{
    if intervals.len() == 0 {
        assert(busy_moments(intervals) =~= Set::<int>::empty());
    } else {
        let before = intervals.drop_last();
        let x = intervals.last();
        law_separate_intervals_add_up(before);
        lemma_busy_push(before, x);
        lemma_busy_finite(before);
        lemma_moments(x);
        assert(before.push(x) =~= intervals);
        assert(busy_moments(before).disjoint(moments(x))) by {
            assert forall|t: int| busy_moments(before).contains(t) implies !moments(x).contains(
                t,
            ) by {
                let i = choose|i: int|
                    0 <= i < before.len() && #[trigger] moments(before[i]).contains(t);
                assert(moments(intervals[i]).disjoint(moments(intervals[intervals.len() - 1])));
                assert(moments(intervals[i]).contains(t));
            }
        }
        lemma_set_disjoint_lens(busy_moments(before), moments(x));
    }
}

/// The union is never longer than the sum: time that intervals share counts
/// once.
pub proof fn law_union_at_most_sum(intervals: Seq<(u64, u64)>)
    ensures
        busy_time(intervals) <= sum_of_spans(intervals),
    decreases intervals.len(),
{
    if intervals.len() == 0 {
        assert(busy_moments(intervals) =~= Set::<int>::empty());
    } else {
        let before = intervals.drop_last();
        let x = intervals.last();
        law_union_at_most_sum(before);
        lemma_busy_push(before, x);
        lemma_busy_finite(before);
        lemma_moments(x);
        assert(before.push(x) =~= intervals);
        lemma_len_union(busy_moments(before), moments(x));
    }
}

/// The union is shorter than the sum where two intervals share a moment `t`.
pub proof fn law_overlap_is_shorter(intervals: Seq<(u64, u64)>, i: int, j: int, t: int)
    requires
        0 <= i < j < intervals.len(),
        moments(intervals[i]).contains(t),
        moments(intervals[j]).contains(t),
    ensures
        busy_time(intervals) < sum_of_spans(intervals),
    decreases intervals.len(),
{
    let before = intervals.drop_last();
    let x = intervals.last();
    let a = busy_moments(before);
    let b = moments(x);
    lemma_busy_push(before, x);
    lemma_busy_finite(before);
    lemma_moments(x);
    assert(before.push(x) =~= intervals);
    if j < before.len() {
        assert(before[i] == intervals[i] && before[j] == intervals[j]);
        law_overlap_is_shorter(before, i, j, t);
        lemma_len_union(a, b);
    } else {
        law_union_at_most_sum(before);
        assert(moments(before[i]).contains(t));
        assert(a.intersect(b).contains(t));
        lemma_set_intersect_union_lens(a, b);
        lemma_len_subset(a.intersect(b), b);
        if a.intersect(b).len() == 0 {
            a.intersect(b).lemma_len0_is_empty();
        }
    }
}

/// No interval is longer than the time during which at least one is active.
pub proof fn law_union_covers_each(intervals: Seq<(u64, u64)>, i: int)
    requires
        0 <= i < intervals.len(),
    ensures
        span(intervals[i].0, intervals[i].1) <= busy_time(intervals),
{
    lemma_busy_finite(intervals);
    lemma_moments(intervals[i]);
    assert(moments(intervals[i]).subset_of(busy_moments(intervals)));
    lemma_len_subset(moments(intervals[i]), busy_moments(intervals));
}

/// One more interval, wherever in the list it stands, never lowers the time
/// during which at least one is active.
pub proof fn law_more_is_not_less(intervals: Seq<(u64, u64)>, at: int, x: (u64, u64))
    requires
        0 <= at <= intervals.len(),
    ensures
        busy_time(intervals) <= busy_time(intervals.insert(at, x)),
{
    lemma_busy_insert(intervals, at, x);
    lemma_busy_finite(intervals.insert(at, x));
    lemma_len_subset(busy_moments(intervals), busy_moments(intervals.insert(at, x)));
}

/// An interval during which others were active all the time adds nothing.
pub proof fn law_overlap_merges(intervals: Seq<(u64, u64)>, x: (u64, u64))
    requires
        moments(x).subset_of(busy_moments(intervals)),
    ensures
        busy_time(intervals.push(x)) == busy_time(intervals),
{
    lemma_busy_push(intervals, x);
    assert(busy_moments(intervals).union(moments(x)) =~= busy_moments(intervals));
}

/// Which interval comes first in the list does not matter.
pub proof fn law_order_does_not_matter(a: Seq<(u64, u64)>, b: Seq<(u64, u64)>)
    requires
        forall|x: (u64, u64)| a.contains(x) <==> b.contains(x),
    ensures
        busy_time(a) == busy_time(b),
{
    assert forall|t: int| busy_moments(a).contains(t) <==> busy_moments(b).contains(t) by {
        if busy_moments(a).contains(t) {
            let i = choose|i: int| 0 <= i < a.len() && #[trigger] moments(a[i]).contains(t);
            assert(b.contains(a[i]));
            let j = choose|j: int| 0 <= j < b.len() && b[j] == a[i];
            assert(moments(b[j]).contains(t));
        }
        if busy_moments(b).contains(t) {
            let i = choose|i: int| 0 <= i < b.len() && #[trigger] moments(b[i]).contains(t);
            assert(a.contains(b[i]));
            let j = choose|j: int| 0 <= j < a.len() && a[j] == b[i];
            assert(moments(a[j]).contains(t));
        }
    }
    assert(busy_moments(a) =~= busy_moments(b));
}

/// Intervals that share a moment `t` cover the time from the first start to
/// the last end.
pub proof fn law_shared_moment_spans(intervals: Seq<(u64, u64)>, t: int, first: int, last: int)
    requires
        0 <= first < intervals.len(),
        0 <= last < intervals.len(),
        forall|i: int|
            0 <= i < intervals.len() ==> {
                &&& (#[trigger] intervals[i]).0 <= t < intervals[i].1
                &&& intervals[first].0 <= intervals[i].0
                &&& intervals[i].1 <= intervals[last].1
            },
    ensures
        busy_time(intervals) == intervals[last].1 - intervals[first].0,
{
    let whole = (intervals[first].0, intervals[last].1);
    assert forall|x: int| busy_moments(intervals).contains(x) implies moments(whole).contains(x) by {
        let i = choose|i: int|
            0 <= i < intervals.len() && #[trigger] moments(intervals[i]).contains(x);
        assert(intervals[i].0 <= t);
    }
    assert forall|x: int| moments(whole).contains(x) implies busy_moments(intervals).contains(x) by {
        assert(intervals[first].0 <= t < intervals[first].1);
        assert(intervals[last].0 <= t < intervals[last].1);
        if x <= t {
            assert(moments(intervals[first]).contains(x));
        } else {
            assert(moments(intervals[last]).contains(x));
        }
    }
    assert(busy_moments(intervals) =~= moments(whole));
    lemma_moments(whole);
    assert(intervals[first].0 <= t < intervals[first].1);
    assert(intervals[last].0 <= t < intervals[last].1);
}

/// The time during which at least one of the intervals is active is the number
/// of moments that are not before the start of one of them, and before the end
/// of the same one.
pub proof fn law_busy_time(intervals: Seq<(u64, u64)>)
    ensures
        busy_time(intervals) == Set::new(
            |t: int|
                exists|i: int|
                    0 <= i < intervals.len() && (#[trigger] intervals[i]).0 <= t < intervals[i].1,
        ).len(),
        busy_time(intervals) <= u64::MAX,
{
    let all = Set::new(
        |t: int|
            exists|i: int|
                0 <= i < intervals.len() && (#[trigger] intervals[i]).0 <= t < intervals[i].1,
    );
    assert forall|t: int| busy_moments(intervals).contains(t) <==> all.contains(t) by {
        if all.contains(t) {
            let i = choose|i: int|
                0 <= i < intervals.len() && (#[trigger] intervals[i]).0 <= t < intervals[i].1;
            assert(moments(intervals[i]).contains(t));
        }
    }
    assert(busy_moments(intervals) =~= all);
    lemma_int_range(0, u64::MAX as int);
    assert(busy_moments(intervals).subset_of(set_int_range(0, u64::MAX as int)));
    lemma_len_subset(busy_moments(intervals), set_int_range(0, u64::MAX as int));
}

/// The nanoseconds to a later point in time lead there, and there are none to
/// an earlier one.
pub proof fn law_span(earlier: u64, later: u64)
    ensures
        earlier <= later ==> earlier + span(earlier, later) == later,
        earlier >= later ==> span(earlier, later) == 0,
{
}

/// Putting intervals in order keeps each as often as it occurs, and leaves
/// none before one that starts earlier, or that starts with it and ends
/// earlier.
pub proof fn law_in_order(intervals: Seq<(u64, u64)>)
    ensures
        in_order(intervals).to_multiset() == intervals.to_multiset(),
        forall|i: int, j: int|
            0 <= i < j < intervals.len() ==> {
                let a = #[trigger] in_order(intervals)[i];
                let b = #[trigger] in_order(intervals)[j];
                a.0 < b.0 || (a.0 == b.0 && a.1 <= b.1)
            },
{
    let leq = |a: (u64, u64), b: (u64, u64)| not_after(a, b);
    assert(total_ordering(leq));
    intervals.lemma_sort_by_ensures(leq);
    let sorted = in_order(intervals);
    intervals.to_multiset_ensures();
    sorted.to_multiset_ensures();
    assert(sorted.len() == intervals.len());
    assert forall|i: int, j: int| 0 <= i < j < intervals.len() implies not_after(
        #[trigger] sorted[i],
        #[trigger] sorted[j],
    ) by {
        assert(leq(sorted[i], sorted[j]));
    }
}

proof fn lemma_merged(sorted: Seq<(u64, u64)>)
    requires
        by_start(sorted),
    ensures
        busy_moments(merged(sorted)) == busy_moments(sorted),
        sorted.len() > 0 ==> merged(sorted).len() > 0 && merged(sorted).last().0 <= sorted.last().0,
        forall|i: int, j: int|
            0 <= i < j < merged(sorted).len() ==> (#[trigger] merged(sorted)[i]).1 < (
            #[trigger] merged(sorted)[j]).0,
    decreases sorted.len(),
{
    if sorted.len() > 0 {
        let fewer = sorted.drop_last();
        let x = sorted.last();
        lemma_merged(fewer);
        let before = merged(fewer);
        let after = merged(sorted);
        assert(sorted =~= fewer.push(x));
        lemma_busy_push(fewer, x);
        if fewer.len() > 0 {
            assert(fewer.last() == sorted[sorted.len() - 2]);
            assert(fewer.last().0 <= x.0);
        }
        if before.len() == 0 || x.0 > before.last().1 {
            lemma_busy_push(before, x);
            assert forall|i: int, j: int| 0 <= i < j < after.len() implies (#[trigger] after[i]).1
                < (#[trigger] after[j]).0 by {
                if j == before.len() {
                    if i < before.len() - 1 {
                        assert(before[i].1 < before[before.len() - 1].0);
                    }
                } else {
                    assert(before[i].1 < before[j].0);
                }
            }
        } else {
            let last = before.last();
            let others = before.drop_last();
            assert(before =~= others.push(last));
            lemma_busy_push(others, last);
            if x.1 > last.1 {
                lemma_busy_push(others, (last.0, x.1));
                assert(moments((last.0, x.1)) =~= moments(last).union(moments(x)));
                assert(busy_moments(others).union(moments(last).union(moments(x)))
                    =~= busy_moments(others).union(moments(last)).union(moments(x)));
                assert forall|i: int, j: int| 0 <= i < j < after.len() implies (
                #[trigger] after[i]).1 < (#[trigger] after[j]).0 by {
                    assert(before[i].1 < before[j].0);
                }
            } else {
                assert(moments(x).subset_of(moments(last)));
                assert(busy_moments(before).union(moments(x)) =~= busy_moments(before));
            }
        }
    } else {
        assert(merged(sorted) =~= sorted);
    }
}

/// Joining intervals that overlap or meet leaves stretches with time between
/// any two, at the same moments: their lengths add up to the time during which
/// at least one of the intervals is active.
pub proof fn law_merged(intervals: Seq<(u64, u64)>)
    ensures
        forall|i: int, j: int|
            0 <= i < j < merged(in_order(intervals)).len() ==> (#[trigger] merged(
                in_order(intervals),
            )[i]).1 < (#[trigger] merged(in_order(intervals))[j]).0,
        busy_moments(merged(in_order(intervals))) == busy_moments(intervals),
        sum_of_spans(merged(in_order(intervals))) == busy_time(intervals),
{
    let sorted = in_order(intervals);
    let parts = merged(sorted);
    law_in_order(intervals);
    intervals.to_multiset_ensures();
    sorted.to_multiset_ensures();
    assert forall|i: int, j: int| 0 <= i <= j < sorted.len() implies sorted[i].0 <= sorted[j].0 by {
        if i < j {
            let a = sorted[i];
            let b = sorted[j];
            assert(a.0 < b.0 || (a.0 == b.0 && a.1 <= b.1));
        }
    }
    lemma_merged(sorted);
    assert forall|x: (u64, u64)| sorted.contains(x) <==> intervals.contains(x) by {
        assert(sorted.contains(x) <==> sorted.to_multiset().count(x) > 0);
        assert(intervals.contains(x) <==> intervals.to_multiset().count(x) > 0);
    }
    lemma_same_moments(sorted, intervals);
    assert(separate(parts));
    law_separate_intervals_add_up(parts);
}

proof fn lemma_same_moments(a: Seq<(u64, u64)>, b: Seq<(u64, u64)>)
    requires
        forall|x: (u64, u64)| a.contains(x) <==> b.contains(x),
    ensures
        busy_moments(a) == busy_moments(b),
{
    assert forall|t: int| busy_moments(a).contains(t) <==> busy_moments(b).contains(t) by {
        if busy_moments(a).contains(t) {
            let i = choose|i: int| 0 <= i < a.len() && #[trigger] moments(a[i]).contains(t);
            assert(b.contains(a[i]));
            let j = choose|j: int| 0 <= j < b.len() && b[j] == a[i];
            assert(moments(b[j]).contains(t));
        }
        if busy_moments(b).contains(t) {
            let i = choose|i: int| 0 <= i < b.len() && #[trigger] moments(b[i]).contains(t);
            assert(a.contains(b[i]));
            let j = choose|j: int| 0 <= j < a.len() && a[j] == b[i];
            assert(moments(a[j]).contains(t));
        }
    }
    assert(busy_moments(a) =~= busy_moments(b));
}

/// Lengths in seconds are added up one by one, each sum rounded.
pub proof fn law_sum_of_seconds(intervals: Seq<(u64, u64)>, start: u64, end: u64)
    requires
        start <= end,
    ensures
        sum_of_seconds(Seq::empty()) == 0,
        sum_of_seconds(intervals.push((start, end))) == double::rounded(
            sum_of_seconds(intervals) + double::seconds((end - start) as nat),
        ),
{
    assert(intervals.push((start, end)).drop_last() =~= intervals);
}

proof fn lemma_sum_covers_each(parts: Seq<(u64, u64)>, i: int)
    requires
        0 <= i < parts.len(),
    ensures
        double::seconds(span(parts[i].0, parts[i].1)) <= sum_of_seconds(parts),
{
    let x = parts[i];
    let before = parts.take(i);
    assert(parts.take(i + 1) =~= before.push(x));
    assert(before.push(x).drop_last() =~= before);
    lemma_sum_of_seconds_grows(parts, i + 1);
    let some = double::seconds(span(x.0, x.1));
    double::lemma_seconds_is_double(span(x.0, x.1));
    double::lemma_rounded_from_below(some, sum_of_seconds(before) + some);
}

proof fn lemma_part_over(intervals: Seq<(u64, u64)>, i: int)
    requires
        0 <= i < intervals.len(),
        intervals[i].1 - intervals[i].0 > 1_000_000,
    ensures
        exists|k: int|
            0 <= k < merged(in_order(intervals)).len() && span(
                (#[trigger] merged(in_order(intervals))[k]).0,
                merged(in_order(intervals))[k].1,
            ) > 1_000_000,
{
    let parts = merged(in_order(intervals));
    let x = intervals[i];
    law_merged(intervals);
    assert(moments(x).contains(x.0 as int));
    assert(busy_moments(intervals).contains(x.0 as int));
    let k = choose|k: int| 0 <= k < parts.len() && #[trigger] moments(parts[k]).contains(x.0 as int);
    if parts[k].1 < x.1 {
        let t = parts[k].1 as int;
        assert(moments(x).contains(t));
        assert(busy_moments(intervals).contains(t));
        let j = choose|j: int| 0 <= j < parts.len() && #[trigger] moments(parts[j]).contains(t);
        if j < k {
            assert(parts[j].1 < parts[k].0);
        } else if j > k {
            assert(parts[k].1 < parts[j].0);
        }
    }
}

/// The time is more than a thousandth of a second wherever one of the
/// intervals is longer than a million nanoseconds; for a single interval,
/// nowhere else; and there is none where no interval has a moment.
pub proof fn law_busy_over_a_thousandth(intervals: Seq<(u64, u64)>)
    ensures
        (exists|i: int|
            0 <= i < intervals.len() && (#[trigger] intervals[i]).1 - intervals[i].0 > 1_000_000)
            ==> busy_over_a_thousandth(intervals),
        intervals.len() == 1 ==> (busy_over_a_thousandth(intervals) <==> intervals[0].1
            - intervals[0].0 > 1_000_000),
        intervals.len() == 0 ==> !busy_over_a_thousandth(intervals),
{
    let sorted = in_order(intervals);
    let parts = merged(sorted);
    if exists|i: int|
        0 <= i < intervals.len() && (#[trigger] intervals[i]).1 - intervals[i].0 > 1_000_000 {
        let i = choose|i: int|
            0 <= i < intervals.len() && (#[trigger] intervals[i]).1 - intervals[i].0 > 1_000_000;
        lemma_part_over(intervals, i);
        let k = choose|k: int|
            0 <= k < parts.len() && span((#[trigger] parts[k]).0, parts[k].1) > 1_000_000;
        lemma_sum_covers_each(parts, k);
        double::law_thousandth(span(parts[k].0, parts[k].1));
    }
    law_in_order(intervals);
    intervals.to_multiset_ensures();
    sorted.to_multiset_ensures();
    assert(sorted.len() == intervals.len());
    if intervals.len() == 1 {
        let x = intervals[0];
        assert(intervals.contains(x));
        assert(intervals.to_multiset().count(x) > 0);
        assert(sorted.contains(x));
        assert(sorted =~= seq![x]);
        assert(sorted.drop_last() =~= Seq::<(u64, u64)>::empty());
        assert(merged(sorted.drop_last()) =~= Seq::<(u64, u64)>::empty());
        assert(parts =~= seq![x]);
        assert(parts.drop_last() =~= Seq::<(u64, u64)>::empty());
        assert(sum_of_seconds(parts.drop_last()) == 0);
        let some = double::seconds(span(x.0, x.1));
        double::lemma_seconds_is_double(span(x.0, x.1));
        double::lemma_rounded_keeps(some);
        double::law_thousandth(span(x.0, x.1));
        assert(0 + some == some);
    }
    if intervals.len() == 0 {
        assert(parts =~= Seq::<(u64, u64)>::empty());
        assert(sum_of_seconds(parts) == 0);
    }
}

} // verus!

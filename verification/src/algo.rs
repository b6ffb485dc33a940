//! Day-granularity allocation: partitions the anchor dates into windows,
//! assigns the day budget to the windows with a greedy marginal-density rule,
//! and places each window's share evenly inside the window.

use vstd::prelude::*;

use crate::date::Date;
use crate::date::all_wf;
use crate::date::first_ge;
use crate::date::lemma_first_ge_range;
use crate::date::lemma_sorted_set_of_contains;
use crate::date::sorted_set;
use crate::date::sorted_set_of;
use crate::date::strictly_sorted;
use crate::date::views_of;
use crate::date::MAX_DAY_NUMBER;
use crate::rounding::seq_sum;
use crate::rounding::to_ints;

verus! {

/// Largest day-count span of a window between two supported dates.
pub const MAX_SPAN: i64 = 140_000_000;

/// The anchor dates that matter from `start` on: all anchors at or after
/// `start`, preceded by the latest anchor before `start` if there is one.
pub open spec fn relevant_days(u: Seq<int>, start: int) -> Seq<int> {
    let p = first_ge(u, start, 0);
    if p == 0 {
        u
    } else {
        seq![u[p - 1]] + u.skip(p)
    }
}

/// Day-count spans of the windows between consecutive anchors.
pub open spec fn gaps(u: Seq<int>) -> Seq<int> {
    if u.len() == 0 {
        Seq::empty()
    } else {
        Seq::new((u.len() - 1) as nat, |i: int| u[i + 1] - u[i])
    }
}

/// Some window has a positive span.
pub open spec fn has_positive(s: Seq<int>) -> bool {
    exists|i: int| 0 <= i < s.len() && s[i] > 0
}

/// Window `i` currently deserves the next day strictly more than window `j`:
/// its marginal density `spans[i] / (counts[i] + 1)` is strictly larger
/// (compared exactly, by cross-multiplication).
pub open spec fn score_gt(spans: Seq<int>, counts: Seq<int>, i: int, j: int) -> bool {
    spans[i] * (counts[j] + 1) > spans[j] * (counts[i] + 1)
}

/// Index of the first window among the first `n` that maximizes the marginal
/// density (stable argmax: ties keep the earlier window).
pub open spec fn argmax_upto(spans: Seq<int>, counts: Seq<int>, n: int) -> int
    decreases n,
{
    if n <= 1 {
        0
    } else {
        let b = argmax_upto(spans, counts, n - 1);
        if score_gt(spans, counts, n - 1, b) {
            n - 1
        } else {
            b
        }
    }
}

/// Per-window day counts after greedily handing out `b` days, one at a time,
/// each to the first window of currently largest marginal density.
pub open spec fn greedy_counts_rec(spans: Seq<int>, b: nat) -> Seq<int>
    decreases b,
{
    if b == 0 {
        Seq::new(spans.len(), |i: int| 0)
    } else {
        let c = greedy_counts_rec(spans, (b - 1) as nat);
        let k = argmax_upto(spans, c, spans.len() as int);
        c.update(k, c[k] + 1)
    }
}

/// Per-window day counts of the greedy apportioner: all zero when no window
/// has a positive span (nothing can be placed), otherwise the greedy
/// hand-out of the whole budget.
pub open spec fn greedy_counts(spans: Seq<int>, budget: nat) -> Seq<int> {
    if has_positive(spans) {
        greedy_counts_rec(spans, budget)
    } else {
        Seq::new(spans.len(), |i: int| 0)
    }
}

/// The `k` dates placed evenly in the window `(left, right)`: multiples of
/// the truncated quotient `(right - left) / (k + 1)`, offset from `left`.
pub open spec fn window_points(left: int, right: int, k: int) -> Seq<int> {
    Seq::new(if k >= 0 { k as nat } else { 0 }, |i: int| left + (i + 1) * ((right - left) / (k + 1)))
}

/// Concatenation of the placed dates of the first `w` windows.
pub open spec fn placements_upto(u: Seq<int>, counts: Seq<int>, w: int) -> Seq<int>
    decreases w,
{
    if w <= 0 {
        Seq::empty()
    } else {
        placements_upto(u, counts, w - 1) + window_points(u[w - 1], u[w], counts[w - 1])
    }
}

/// All placed dates, in window order.
pub open spec fn placements(u: Seq<int>, counts: Seq<int>) -> Seq<int> {
    placements_upto(u, counts, counts.len() as int)
}

/// The whole day-granularity pipeline: sort and de-duplicate the anchors,
/// keep the relevant ones, apportion the budget greedily over the window
/// spans, and place each window's share evenly inside it.
pub open spec fn spec_vacation_days(days: Seq<int>, budget: int, start: int) -> Seq<int> {
    let u = relevant_days(sorted_set_of(days), start);
    placements(u, greedy_counts(gaps(u), budget as nat))
}

/// Updating one entry changes a sequence's sum by the difference at that
/// entry.
proof fn lemma_seq_sum_update(s: Seq<int>, i: int, v: int)
    requires
        0 <= i < s.len(),
    ensures
        seq_sum(s.update(i, v)) == seq_sum(s) - s[i] + v,
    decreases s.len(),
{
    let t = s.update(i, v);
    if i == s.len() - 1 {
        assert(t.drop_last() =~= s.drop_last());
    } else {
        assert(t.drop_last() =~= s.drop_last().update(i, v));
        lemma_seq_sum_update(s.drop_last(), i, v);
    }
}

/// A sequence of zeros sums to zero.
proof fn lemma_seq_sum_zeros(n: nat)
    ensures
        seq_sum(Seq::new(n, |i: int| 0)) == 0,
    decreases n,
{
    if n > 0 {
        assert(Seq::new(n, |i: int| 0int).drop_last() =~= Seq::new((n - 1) as nat, |i: int| 0int));
        lemma_seq_sum_zeros((n - 1) as nat);
    }
}

/// The stable argmax lies within the first `n` windows.
proof fn lemma_argmax_upto_range(spans: Seq<int>, counts: Seq<int>, n: int)
    requires
        1 <= n,
    ensures
        0 <= argmax_upto(spans, counts, n) < n,
    decreases n,
{
    if n > 1 {
        lemma_argmax_upto_range(spans, counts, n - 1);
    }
}

/// The greedy counts are between zero and the budget and sum to the budget.
proof fn lemma_greedy_rec_sum(spans: Seq<int>, b: nat)
    requires
        spans.len() >= 1,
    ensures
        greedy_counts_rec(spans, b).len() == spans.len(),
        forall|i: int| 0 <= i < spans.len()
            ==> 0 <= #[trigger] greedy_counts_rec(spans, b)[i] <= b,
        seq_sum(greedy_counts_rec(spans, b)) == b,
    decreases b,
{
    if b == 0 {
        lemma_seq_sum_zeros(spans.len());
    } else {
        lemma_greedy_rec_sum(spans, (b - 1) as nat);
        let c = greedy_counts_rec(spans, (b - 1) as nat);
        let k = argmax_upto(spans, c, spans.len() as int);
        lemma_argmax_upto_range(spans, c, spans.len() as int);
        lemma_seq_sum_update(c, k, c[k] + 1);
    }
}

/// Conservation of the greedy apportioner: whenever a window with positive
/// span exists, the assigned counts sum to exactly the day budget; when none
/// exists, every count is zero.
pub proof fn lemma_greedy_conservation(spans: Seq<int>, budget: nat)
    ensures
        greedy_counts(spans, budget).len() == spans.len(),
        has_positive(spans) ==> seq_sum(greedy_counts(spans, budget)) == budget,
        !has_positive(spans)
            ==> forall|i: int| 0 <= i < spans.len() ==> #[trigger] greedy_counts(spans, budget)[i] == 0,
        forall|i: int| 0 <= i < spans.len() ==> 0 <= #[trigger] greedy_counts(spans, budget)[i] <= budget,
{
    if has_positive(spans) {
        lemma_greedy_rec_sum(spans, budget);
    }
}

/// Day-count durations between consecutive dates.
pub fn compute_times_between_days(days: &Vec<Date>) -> (r: Vec<i64>)
    requires
        all_wf(days@),
    ensures
        to_ints(r@) == gaps(views_of(days@)),
        forall|i: int| 0 <= i < r@.len()
            ==> -MAX_SPAN <= #[trigger] r@[i] <= MAX_SPAN,
{
    let mut out: Vec<i64> = Vec::new();
    if days.len() == 0 {
        proof {
            assert(to_ints(out@) =~= gaps(views_of(days@)));
        }
        return out;
    }
    let mut i: usize = 0;
    while i < days.len() - 1
        invariant
            all_wf(days@),
            days@.len() >= 1,
            0 <= i <= days@.len() - 1,
            out@.len() == i,
            forall|j: int| 0 <= j < i
                ==> #[trigger] out@[j] as int == views_of(days@)[j + 1] - views_of(days@)[j],
            forall|j: int| 0 <= j < i ==> -MAX_SPAN <= #[trigger] out@[j] <= MAX_SPAN,
        decreases days@.len() - i,
    {
        let d = days[i + 1].day_number() - days[i].day_number();
        out.push(d);
        i = i + 1;
    }
    proof {
        assert(to_ints(out@) =~= gaps(views_of(days@)));
    }
    out
}

/// Removes the anchors that cannot affect days off taken from `start_date`
/// on: of the anchors strictly before it, only the latest is kept (it bounds
/// the first actionable window); all later anchors stay.
pub fn get_relevant_fixed_days(fixed_days: Vec<Date>, start_date: &Date) -> (r: Vec<Date>)
    requires
        strictly_sorted(views_of(fixed_days@)),
        all_wf(fixed_days@),
    ensures
        views_of(r@) == relevant_days(views_of(fixed_days@), start_date@),
        strictly_sorted(views_of(r@)),
        all_wf(r@),
{
    let ghost u = views_of(fixed_days@);
    let x = start_date.day_number();
    let mut p: usize = 0;
    while p < fixed_days.len() && fixed_days[p].day_number() < x
        invariant
            strictly_sorted(u),
            u == views_of(fixed_days@),
            x == start_date@,
            0 <= p <= u.len(),
            first_ge(u, x as int, 0) == first_ge(u, x as int, p as int),
            forall|j: int| 0 <= j < p ==> u[j] < x,
        decreases u.len() - p,
    {
        p = p + 1;
    }
    proof {
        assert(first_ge(u, x as int, 0) == p as int);
    }
    if p == 0 {
        proof {
            assert(views_of(fixed_days@) =~= relevant_days(u, x as int));
        }
        return fixed_days;
    }
    let mut out: Vec<Date> = Vec::new();
    out.push(fixed_days[p - 1]);
    let mut i: usize = p;
    while i < fixed_days.len()
        invariant
            strictly_sorted(u),
            u == views_of(fixed_days@),
            all_wf(fixed_days@),
            1 <= p <= i <= u.len(),
            out@.len() == 1 + i - p,
            views_of(out@)[0] == u[p - 1],
            forall|j: int| 1 <= j < out@.len()
                ==> #[trigger] views_of(out@)[j] == u[p + j - 1],
            all_wf(out@),
        decreases u.len() - i,
    {
        let ghost prev = views_of(out@);
        out.push(fixed_days[i]);
        i = i + 1;
        proof {
            assert(views_of(out@) =~= prev.push(u[i - 1]));
        }
    }
    proof {
        assert(views_of(out@) =~= seq![u[p - 1]] + u.skip(p as int));
        assert forall|a: int, b: int|
            0 <= a < b < views_of(out@).len()
                implies #[trigger] views_of(out@)[a] < #[trigger] views_of(out@)[b] by {
            if a == 0 {
                assert(views_of(out@)[b] == u[p + b - 1]);
            }
        }
    }
    out
}

/// Greedy apportionment of `num_days` over the windows: each day goes to the
/// first window maximizing the marginal density `span / (assigned + 1)`; a
/// window with no positive span never attracts a day, and if no window has a
/// positive span, nothing is assigned at all.
pub fn compute_days_per_bucket(times_between_days: &Vec<i64>, num_days: u16) -> (r: Vec<i64>)
    requires
        forall|i: int| 0 <= i < times_between_days@.len()
            ==> 0 <= #[trigger] times_between_days@[i] <= MAX_SPAN,
    ensures
        r@.len() == times_between_days@.len(),
        to_ints(r@) == greedy_counts(to_ints(times_between_days@), num_days as nat),
        forall|i: int| 0 <= i < r@.len() ==> 0 <= #[trigger] r@[i] <= num_days,
        has_positive(to_ints(times_between_days@))
            ==> seq_sum(to_ints(r@)) == num_days as int,
{
    let ghost spans = to_ints(times_between_days@);
    let n = times_between_days.len();
    let mut counts: Vec<i64> = Vec::new();
    let mut z: usize = 0;
    while z < n
        invariant
            0 <= z <= n,
            counts@.len() == z,
            forall|j: int| 0 <= j < z ==> #[trigger] counts@[j] == 0,
        decreases n - z,
    {
        counts.push(0);
        z = z + 1;
    }
    let mut any_positive = false;
    let mut q: usize = 0;
    while q < n
        invariant
            spans == to_ints(times_between_days@),
            n == spans.len(),
            0 <= q <= n,
            any_positive ==> has_positive(spans),
            !any_positive ==> forall|j: int| 0 <= j < q ==> #[trigger] spans[j] <= 0,
        decreases n - q,
    {
        if times_between_days[q] > 0 {
            any_positive = true;
            proof {
                assert(spans[q as int] > 0);
            }
        }
        q = q + 1;
    }
    if !any_positive {
        proof {
            assert(!has_positive(spans));
            assert(to_ints(counts@) =~= greedy_counts(spans, num_days as nat));
        }
        return counts;
    }
    proof {
        assert(has_positive(spans));
        assert(to_ints(counts@) =~= greedy_counts_rec(spans, 0));
    }
    let mut b: u16 = 0;
    while b < num_days
        invariant
            spans == to_ints(times_between_days@),
            n == spans.len(),
            n >= 1,
            forall|i: int| 0 <= i < n ==> 0 <= #[trigger] spans[i] <= MAX_SPAN,
            0 <= b <= num_days,
            counts@.len() == n,
            to_ints(counts@) == greedy_counts_rec(spans, b as nat),
            forall|i: int| 0 <= i < n ==> 0 <= #[trigger] counts@[i] <= b,
        decreases num_days - b,
    {
        let ghost c = to_ints(counts@);
        let mut best: usize = 0;
        let mut j: usize = 1;
        while j < n
            invariant
                spans == to_ints(times_between_days@),
                n == spans.len() == counts@.len(),
                c == to_ints(counts@),
                forall|i: int| 0 <= i < n ==> 0 <= #[trigger] spans[i] <= MAX_SPAN,
                forall|i: int| 0 <= i < n ==> 0 <= #[trigger] counts@[i] <= b,
                b < num_days,
                1 <= j <= n,
                0 <= best < j,
                best as int == argmax_upto(spans, c, j as int),
            decreases n - j,
        {
            proof {
                assert(spans[j as int] * (counts@[best as int] + 1) <= MAX_SPAN * 0x10000
                    && spans[j as int] * (counts@[best as int] + 1) >= 0) by (nonlinear_arith)
                    requires
                        0 <= spans[j as int] <= MAX_SPAN,
                        0 <= counts@[best as int] + 1 <= 0x10000,
                ;
                assert(spans[best as int] * (counts@[j as int] + 1) <= MAX_SPAN * 0x10000
                    && spans[best as int] * (counts@[j as int] + 1) >= 0) by (nonlinear_arith)
                    requires
                        0 <= spans[best as int] <= MAX_SPAN,
                        0 <= counts@[j as int] + 1 <= 0x10000,
                ;
            }
            if times_between_days[j] * (counts[best] + 1)
                > times_between_days[best] * (counts[j] + 1) {
                best = j;
            }
            j = j + 1;
        }
        proof {
            assert(best as int == argmax_upto(spans, c, n as int));
        }
        counts[best] = counts[best] + 1;
        b = b + 1;
        proof {
            assert(to_ints(counts@) =~= c.update(best as int, c[best as int] + 1));
            assert(to_ints(counts@) == greedy_counts_rec(spans, b as nat));
        }
    }
    proof {
        lemma_greedy_rec_sum(spans, num_days as nat);
    }
    counts
}

/// Places each window's assigned days evenly inside the window: the window
/// span is divided by one more than the count, and the days are put at the
/// successive multiples of that (truncated) quotient after the left
/// boundary.
pub fn compute_ideal_days_off(fixed_days_off: &Vec<Date>, days_per_bucket: &Vec<i64>) -> (r: Vec<Date>)
    requires
        strictly_sorted(views_of(fixed_days_off@)),
        all_wf(fixed_days_off@),
        fixed_days_off@.len() == 0 ==> days_per_bucket@.len() == 0,
        fixed_days_off@.len() > 0 ==> days_per_bucket@.len() == fixed_days_off@.len() - 1,
        forall|i: int| 0 <= i < days_per_bucket@.len()
            ==> 0 <= #[trigger] days_per_bucket@[i] <= u16::MAX,
    ensures
        views_of(r@) == placements(views_of(fixed_days_off@), to_ints(days_per_bucket@)),
        all_wf(r@),
{
    let ghost u = views_of(fixed_days_off@);
    let ghost cts = to_ints(days_per_bucket@);
    let mut out: Vec<Date> = Vec::new();
    let mut w: usize = 0;
    while w < days_per_bucket.len()
        invariant
            u == views_of(fixed_days_off@),
            cts == to_ints(days_per_bucket@),
            strictly_sorted(u),
            all_wf(fixed_days_off@),
            u.len() == 0 ==> cts.len() == 0,
            u.len() > 0 ==> cts.len() == u.len() - 1,
            forall|i: int| 0 <= i < cts.len() ==> 0 <= #[trigger] cts[i] <= u16::MAX,
            0 <= w <= cts.len(),
            views_of(out@) == placements_upto(u, cts, w as int),
            all_wf(out@),
        decreases cts.len() - w,
    {
        proof {
            assert(u[w as int] == views_of(fixed_days_off@)[w as int]);
            assert(u[w + 1] == views_of(fixed_days_off@)[w + 1]);
            assert(0 <= cts[w as int] <= u16::MAX);
            assert(u[w as int] < u[w + 1]);
        }
        let left = fixed_days_off[w].day_number();
        let right = fixed_days_off[w + 1].day_number();
        let k = days_per_bucket[w];
        let span = right - left;
        let quot = span / (k + 1);
        proof {
            assert(span >= 1);
            assert(0 <= quot <= span) by (nonlinear_arith)
                requires
                    quot as int == span as int / (k as int + 1),
                    span >= 1,
                    k >= 0,
            ;
        }
        let mut i: i64 = 0;
        while i < k
            invariant
                u == views_of(fixed_days_off@),
                cts == to_ints(days_per_bucket@),
                all_wf(fixed_days_off@),
                0 <= w < cts.len(),
                u.len() == cts.len() + 1,
                left == u[w as int],
                right == u[w + 1],
                k == cts[w as int],
                0 <= k <= u16::MAX,
                span == right - left,
                span >= 1,
                quot as int == span as int / (k as int + 1),
                0 <= quot <= span,
                -MAX_DAY_NUMBER <= left <= MAX_DAY_NUMBER,
                -MAX_DAY_NUMBER <= right <= MAX_DAY_NUMBER,
                0 <= i <= k,
                views_of(out@) == placements_upto(u, cts, w as int)
                    + window_points(left as int, right as int, k as int).take(i as int),
                all_wf(out@),
            decreases k - i,
        {
            proof {
                assert(quot * (i + 2) <= span) by (nonlinear_arith)
                    requires
                        quot as int == span as int / (k as int + 1),
                        span >= 1,
                        0 <= i < k,
                        k + 1 >= 2,
                ;
                assert(0 <= quot * (i + 1)) by (nonlinear_arith)
                    requires
                        quot >= 0,
                        i >= 0,
                ;
                assert(quot * (i + 1) <= quot * (i + 2)) by (nonlinear_arith)
                    requires
                        quot >= 0,
                        i >= 0,
                ;
            }
            let offset = quot * (i + 1);
            let day = Date::from_day_number(left + offset).unwrap();
            let ghost prev = views_of(out@);
            let ghost wp = window_points(left as int, right as int, k as int);
            out.push(day);
            i = i + 1;
            proof {
                assert(views_of(out@) =~= prev.push(left + offset));
                assert(wp[i - 1] == left as int + ((i - 1) + 1) * ((right as int - left as int)
                    / (k as int + 1)));
                assert(offset as int == quot as int * (i as int));
                assert(span as int == right as int - left as int);
                assert((i as int) * (span as int / (k as int + 1)) == quot as int * (i as int))
                    by (nonlinear_arith)
                    requires
                        quot as int == span as int / (k as int + 1),
                ;
                assert(wp[i - 1] == left + offset);
                assert(wp.take(i as int) =~= wp.take(i - 1).push(wp[i - 1]));
                assert(views_of(out@) =~= placements_upto(u, cts, w as int) + wp.take(i as int));
            }
        }
        w = w + 1;
        proof {
            assert(window_points(left as int, right as int, k as int).take(k as int)
                =~= window_points(left as int, right as int, k as int));
            assert(views_of(out@) == placements_upto(u, cts, w as int));
        }
    }
    out
}

/// Suggests dates for the remaining free days: the anchors are sorted and
/// de-duplicated, only the relevant ones are kept, the budget is split
/// greedily over the windows between consecutive anchors, and each window's
/// share is placed evenly inside it.  With fewer than two relevant anchors,
/// or a zero budget, the result is empty.
pub fn calculate_vacation_days(fixed_days: Vec<Date>, remaining_days: u16, start_date: &Date) -> (r: Vec<Date>)
    requires
        all_wf(fixed_days@),
        start_date.wf(),
    ensures
        views_of(r@) == spec_vacation_days(views_of(fixed_days@), remaining_days as int, start_date@),
        all_wf(r@),
        remaining_days == 0 ==> r@.len() == 0,
        relevant_days(sorted_set_of(views_of(fixed_days@)), start_date@).len() < 2
            ==> r@.len() == 0,
        has_positive(gaps(relevant_days(sorted_set_of(views_of(fixed_days@)), start_date@)))
            ==> r@.len() == remaining_days,
{
    let sorted_days = sorted_set(&fixed_days);
    let relevant_fixed_days = get_relevant_fixed_days(sorted_days, start_date);
    let times_between_days = compute_times_between_days(&relevant_fixed_days);
    proof {
        let u = views_of(relevant_fixed_days@);
        assert(times_between_days@.len() == to_ints(times_between_days@).len());
        assert(to_ints(times_between_days@).len() == gaps(u).len());
        assert forall|i: int| 0 <= i < times_between_days@.len()
            implies 0 <= #[trigger] times_between_days@[i] <= MAX_SPAN by {
            assert(u.len() != 0 && gaps(u).len() == u.len() - 1);
            assert(0 <= i < u.len() - 1);
            assert(u[i] < u[i + 1]);
            assert(gaps(u)[i] == u[i + 1] - u[i]);
            assert(to_ints(times_between_days@)[i] == times_between_days@[i] as int);
            assert(to_ints(times_between_days@)[i] == gaps(u)[i]);
        }
    }
    let days_off_between = compute_days_per_bucket(&times_between_days, remaining_days);
    let ideal_days_off = compute_ideal_days_off(&relevant_fixed_days, &days_off_between);
    proof {
        let u = views_of(relevant_fixed_days@);
        lemma_greedy_conservation(gaps(u), remaining_days as nat);
        if remaining_days == 0 || u.len() < 2 {
            lemma_placements_empty(u, greedy_counts(gaps(u), remaining_days as nat));
        }
        if has_positive(gaps(u)) {
            lemma_placements_length(u, greedy_counts(gaps(u), remaining_days as nat));
        }
    }
    ideal_days_off
}

/// When every count is zero, nothing is placed.
proof fn lemma_placements_empty(u: Seq<int>, counts: Seq<int>)
    requires
        forall|i: int| 0 <= i < counts.len() ==> #[trigger] counts[i] == 0,
    ensures
        placements(u, counts).len() == 0,
{
    lemma_placements_upto_empty(u, counts, counts.len() as int);
}

proof fn lemma_placements_upto_empty(u: Seq<int>, counts: Seq<int>, w: int)
    requires
        w <= counts.len(),
        forall|i: int| 0 <= i < counts.len() ==> #[trigger] counts[i] == 0,
    ensures
        placements_upto(u, counts, w).len() == 0,
    decreases w,
{
    if w > 0 {
        lemma_placements_upto_empty(u, counts, w - 1);
    }
}

/// Inside a window whose span can hold its count, the placed dates are
/// strictly ascending and lie strictly between the boundaries.
proof fn lemma_window_points_inside(left: int, right: int, k: int)
    requires
        0 <= k,
        k == 0 || k + 1 <= right - left,
    ensures
        forall|t: int| 0 <= t < window_points(left, right, k).len()
            ==> left < #[trigger] window_points(left, right, k)[t] < right,
        forall|t1: int, t2: int|
            0 <= t1 < t2 < window_points(left, right, k).len()
                ==> #[trigger] window_points(left, right, k)[t1]
                    < #[trigger] window_points(left, right, k)[t2],
{
    if k > 0 {
        let span = right - left;
        let q = span / (k + 1);
        vstd::arithmetic::div_mod::lemma_fundamental_div_mod(span, k + 1);
        vstd::arithmetic::div_mod::lemma_mod_bound(span, k + 1);
        assert(1 <= q && q * (k + 1) <= span) by (nonlinear_arith)
            requires
                span == (k + 1) * q + span % (k + 1),
                0 <= span % (k + 1) < k + 1,
                k + 1 <= span,
        ;
        assert forall|t: int| 0 <= t < k
            implies left < #[trigger] window_points(left, right, k)[t] < right by {
            assert(1 <= (t + 1) * q && (t + 1) * q <= k * q && k * q < q * (k + 1))
                by (nonlinear_arith)
                requires
                    1 <= q,
                    0 <= t < k,
            ;
        }
        assert forall|t1: int, t2: int| 0 <= t1 < t2 < k
            implies #[trigger] window_points(left, right, k)[t1]
                < #[trigger] window_points(left, right, k)[t2] by {
            assert((t1 + 1) * q < (t2 + 1) * q) by (nonlinear_arith)
                requires
                    1 <= q,
                    0 <= t1 < t2,
            ;
        }
    }
}

/// No window is over-filled: every window with an assigned count has room
/// for one more than its count.
pub open spec fn counts_within_spans(u: Seq<int>, counts: Seq<int>) -> bool {
    forall|i: int| 0 <= i < counts.len()
        ==> 0 <= #[trigger] counts[i]
            && (counts[i] == 0 || counts[i] + 1 <= u[i + 1] - u[i])
}

proof fn lemma_placements_upto_props(u: Seq<int>, counts: Seq<int>, w: int)
    requires
        strictly_sorted(u),
        counts.len() < u.len(),
        counts_within_spans(u, counts),
        0 <= w <= counts.len(),
    ensures
        strictly_sorted(placements_upto(u, counts, w)),
        forall|t: int| 0 <= t < placements_upto(u, counts, w).len()
            ==> u[0] < #[trigger] placements_upto(u, counts, w)[t] < u[w],
        forall|t: int, j: int|
            0 <= t < placements_upto(u, counts, w).len() && 0 <= j < u.len()
                ==> #[trigger] placements_upto(u, counts, w)[t] != #[trigger] u[j],
    decreases w,
{
    if w > 0 {
        lemma_placements_upto_props(u, counts, w - 1);
        let prev = placements_upto(u, counts, w - 1);
        let wp = window_points(u[w - 1], u[w], counts[w - 1]);
        lemma_window_points_inside(u[w - 1], u[w], counts[w - 1]);
        let cur = placements_upto(u, counts, w);
        assert(cur == prev + wp);
        assert forall|t: int| 0 <= t < cur.len()
            implies u[0] < #[trigger] cur[t] < u[w] by {
            if t < prev.len() {
                assert(cur[t] == prev[t]);
                assert(u[w - 1] <= u[w]);
            } else {
                assert(cur[t] == wp[t - prev.len()]);
            }
        }
        assert forall|t1: int, t2: int| 0 <= t1 < t2 < cur.len()
            implies #[trigger] cur[t1] < #[trigger] cur[t2] by {
            if t1 < prev.len() && t2 >= prev.len() {
                assert(cur[t1] == prev[t1] && cur[t2] == wp[t2 - prev.len()]);
                assert(cur[t1] < u[w - 1]);
            } else if t1 >= prev.len() {
                assert(cur[t1] == wp[t1 - prev.len()] && cur[t2] == wp[t2 - prev.len()]);
            }
        }
        assert forall|t: int, j: int|
            0 <= t < cur.len() && 0 <= j < u.len()
                implies #[trigger] cur[t] != #[trigger] u[j] by {
            if t >= prev.len() {
                let x = wp[t - prev.len()];
                assert(u[w - 1] < x < u[w]);
                if j <= w - 1 {
                    assert(u[j] <= u[w - 1]);
                } else {
                    assert(u[j] >= u[w]);
                }
            }
        }
    }
}

/// Order law of the placer: as long as no window is over-filled, the
/// placed dates are strictly ascending in time, across all windows.
pub proof fn lemma_placements_strictly_ascending(u: Seq<int>, counts: Seq<int>)
    requires
        strictly_sorted(u),
        counts.len() < u.len(),
        counts_within_spans(u, counts),
    ensures
        strictly_sorted(placements(u, counts)),
{
    lemma_placements_upto_props(u, counts, counts.len() as int);
}

/// Disjointness law of the placer: as long as no window is over-filled, no
/// placed date equals an anchor date.
pub proof fn lemma_placements_disjoint(u: Seq<int>, counts: Seq<int>)
    requires
        strictly_sorted(u),
        counts.len() < u.len(),
        counts_within_spans(u, counts),
    ensures
        forall|t: int, j: int|
            0 <= t < placements(u, counts).len() && 0 <= j < u.len()
                ==> #[trigger] placements(u, counts)[t] != #[trigger] u[j],
{
    lemma_placements_upto_props(u, counts, counts.len() as int);
}

/// Order and disjointness of the whole day-granularity pipeline: whenever
/// the greedy counts leave every window room, the suggested dates are
/// strictly ascending and disjoint from the relevant anchor dates.
pub proof fn lemma_vacation_days_ordered_and_disjoint(days: Seq<int>, budget: int, start: int)
    requires
        budget >= 0,
        counts_within_spans(
            relevant_days(sorted_set_of(days), start),
            greedy_counts(gaps(relevant_days(sorted_set_of(days), start)), budget as nat),
        ),
        strictly_sorted(relevant_days(sorted_set_of(days), start)),
    ensures
        strictly_sorted(spec_vacation_days(days, budget, start)),
        forall|t: int, j: int|
            0 <= t < spec_vacation_days(days, budget, start).len()
                && 0 <= j < relevant_days(sorted_set_of(days), start).len()
                ==> #[trigger] spec_vacation_days(days, budget, start)[t]
                    != #[trigger] relevant_days(sorted_set_of(days), start)[j],
{
    let u = relevant_days(sorted_set_of(days), start);
    let counts = greedy_counts(gaps(u), budget as nat);
    lemma_greedy_conservation(gaps(u), budget as nat);
    if u.len() == 0 {
        assert(counts.len() == 0);
        assert(placements(u, counts).len() == 0);
    } else {
        assert(counts.len() == u.len() - 1);
        lemma_placements_strictly_ascending(u, counts);
        lemma_placements_disjoint(u, counts);
    }
}

/// Per-window capacity: the days a window can hold with all placements
/// strictly inside it.
pub open spec fn cap_seq(spans: Seq<int>) -> Seq<int> {
    Seq::new(spans.len(), |i: int| if spans[i] >= 1 { spans[i] - 1 } else { 0 })
}

/// Total capacity of all windows.
pub open spec fn span_capacity(spans: Seq<int>) -> int {
    seq_sum(cap_seq(spans))
}

/// A pointwise bound on the entries bounds the sum.
proof fn lemma_seq_sum_pointwise(c: Seq<int>, d: Seq<int>)
    requires
        c.len() == d.len(),
        forall|i: int| 0 <= i < c.len() ==> #[trigger] c[i] <= d[i],
    ensures
        seq_sum(c) <= seq_sum(d),
        (forall|i: int| 0 <= i < c.len() ==> #[trigger] c[i] == d[i]) ==> seq_sum(c) == seq_sum(d),
    decreases c.len(),
{
    if c.len() > 0 {
        lemma_seq_sum_pointwise(c.drop_last(), d.drop_last());
        if forall|i: int| 0 <= i < c.len() ==> #[trigger] c[i] == d[i] {
            assert(c =~= d);
        }
    }
}

/// The stable argmax has a score at least as large as every window's.
proof fn lemma_argmax_upto_max(spans: Seq<int>, counts: Seq<int>, n: int)
    requires
        1 <= n <= spans.len(),
        forall|i: int| 0 <= i < counts.len() ==> #[trigger] counts[i] >= 0,
        counts.len() == spans.len(),
    ensures
        forall|j: int| 0 <= j < n
            ==> !score_gt(spans, counts, j, argmax_upto(spans, counts, n)),
    decreases n,
{
    if n > 1 {
        lemma_argmax_upto_max(spans, counts, n - 1);
        lemma_argmax_upto_range(spans, counts, n - 1);
        let b = argmax_upto(spans, counts, n - 1);
        let a = argmax_upto(spans, counts, n);
        if score_gt(spans, counts, n - 1, b) {
            assert(a == n - 1);
            assert forall|j: int| 0 <= j < n
                implies !score_gt(spans, counts, j, a) by {
                if j < n - 1 {
                    assert(!score_gt(spans, counts, j, b));
                    assert(!(spans[j] * (counts[n - 1] + 1)
                        > spans[n - 1] * (counts[j] + 1))) by (nonlinear_arith)
                        requires
                            spans[j] * (counts[b] + 1) <= spans[b] * (counts[j] + 1),
                            spans[n - 1] * (counts[b] + 1) > spans[b] * (counts[n - 1] + 1),
                            counts[j] >= 0,
                            counts[b] >= 0,
                            counts[n - 1] >= 0,
                    ;
                }
            }
        }
    }
}

/// While the budget stays within the total capacity, the greedy hand-out
/// never fills a window beyond its capacity.
proof fn lemma_greedy_rec_capacity(spans: Seq<int>, b: nat)
    requires
        spans.len() >= 1,
        b <= span_capacity(spans),
    ensures
        forall|i: int| 0 <= i < spans.len()
            ==> #[trigger] greedy_counts_rec(spans, b)[i] <= cap_seq(spans)[i],
    decreases b,
{
    if b > 0 {
        lemma_greedy_rec_capacity(spans, (b - 1) as nat);
        lemma_greedy_rec_sum(spans, (b - 1) as nat);
        lemma_greedy_rec_sum(spans, b);
        let c = greedy_counts_rec(spans, (b - 1) as nat);
        let k = argmax_upto(spans, c, spans.len() as int);
        lemma_argmax_upto_range(spans, c, spans.len() as int);
        lemma_argmax_upto_max(spans, c, spans.len() as int);
        // Some window is still under its capacity.
        assert(exists|j: int| 0 <= j < spans.len() && #[trigger] c[j] < cap_seq(spans)[j]) by {
            if forall|j: int| 0 <= j < spans.len() ==> #[trigger] c[j] >= cap_seq(spans)[j] {
                assert forall|j: int| 0 <= j < spans.len()
                    implies #[trigger] c[j] == cap_seq(spans)[j] by {}
                lemma_seq_sum_pointwise(c, cap_seq(spans));
            }
        }
        let j = choose|j: int| 0 <= j < spans.len() && #[trigger] c[j] < cap_seq(spans)[j];
        // That window's marginal density exceeds one, so the argmax's does
        // too, and the chosen window is still below its span.
        assert(spans[j] >= 1 && c[j] + 1 < spans[j]);
        assert(!score_gt(spans, c, j, k));
        assert(spans[k] >= 1 && c[k] + 2 <= spans[k]) by (nonlinear_arith)
            requires
                spans[j] * (c[k] + 1) <= spans[k] * (c[j] + 1),
                c[j] + 1 < spans[j],
                c[j] >= 0,
                c[k] >= 0,
        ;
        assert forall|i: int| 0 <= i < spans.len()
            implies #[trigger] greedy_counts_rec(spans, b)[i] <= cap_seq(spans)[i] by {
            if i != k {
                assert(greedy_counts_rec(spans, b)[i] == c[i]);
            }
        }
    }
}

/// Capacity law of the greedy apportioner: whenever the budget is at most
/// the total capacity of the windows, no window is assigned more days than
/// fit strictly inside it.
pub proof fn lemma_greedy_within_capacity(u: Seq<int>, budget: nat)
    requires
        budget <= span_capacity(gaps(u)),
    ensures
        counts_within_spans(u, greedy_counts(gaps(u), budget)),
{
    let spans = gaps(u);
    lemma_greedy_conservation(spans, budget);
    let counts = greedy_counts(spans, budget);
    if has_positive(spans) {
        lemma_greedy_rec_capacity(spans, budget);
        assert forall|i: int| 0 <= i < counts.len()
            implies 0 <= #[trigger] counts[i]
                && (counts[i] == 0 || counts[i] + 1 <= u[i + 1] - u[i]) by {
            assert(counts[i] <= cap_seq(spans)[i]);
            assert(spans[i] == u[i + 1] - u[i]);
        }
    }
}

/// Order and disjointness of the day-granularity pipeline under a budget
/// within capacity: whenever the remaining days fit into the windows, the
/// suggested dates are strictly ascending and disjoint from the relevant
/// anchor dates.
pub proof fn lemma_vacation_days_within_capacity(days: Seq<int>, budget: int, start: int)
    requires
        0 <= budget <= span_capacity(gaps(relevant_days(sorted_set_of(days), start))),
    ensures
        strictly_sorted(spec_vacation_days(days, budget, start)),
        forall|t: int, j: int|
            0 <= t < spec_vacation_days(days, budget, start).len()
                && 0 <= j < relevant_days(sorted_set_of(days), start).len()
                ==> #[trigger] spec_vacation_days(days, budget, start)[t]
                    != #[trigger] relevant_days(sorted_set_of(days), start)[j],
{
    let u = relevant_days(sorted_set_of(days), start);
    lemma_sorted_set_of_sorted(days);
    lemma_relevant_days_sorted(sorted_set_of(days), start);
    lemma_greedy_within_capacity(u, budget as nat);
    lemma_vacation_days_ordered_and_disjoint(days, budget, start);
}

proof fn lemma_placements_upto_length(u: Seq<int>, counts: Seq<int>, w: int)
    requires
        0 <= w <= counts.len(),
        forall|i: int| 0 <= i < counts.len() ==> #[trigger] counts[i] >= 0,
    ensures
        placements_upto(u, counts, w).len() == seq_sum(counts.take(w)),
    decreases w,
{
    if w > 0 {
        lemma_placements_upto_length(u, counts, w - 1);
        assert(counts.take(w).drop_last() =~= counts.take(w - 1));
        assert(counts.take(w).last() == counts[w - 1]);
    }
}

/// The output length law: with non-negative counts, exactly as many dates
/// are placed as the counts sum to; with the conservation law, the
/// suggested dates are exactly as many as the remaining days.
pub proof fn lemma_placements_length(u: Seq<int>, counts: Seq<int>)
    requires
        forall|i: int| 0 <= i < counts.len() ==> #[trigger] counts[i] >= 0,
    ensures
        placements(u, counts).len() == seq_sum(counts),
{
    lemma_placements_upto_length(u, counts, counts.len() as int);
    assert(counts.take(counts.len() as int) =~= counts);
}

/// Conservation at pipeline level: whenever some window has a positive
/// span, exactly as many dates are suggested as there are remaining days.
pub proof fn lemma_vacation_days_count(days: Seq<int>, budget: int, start: int)
    requires
        0 <= budget,
        has_positive(gaps(relevant_days(sorted_set_of(days), start))),
    ensures
        spec_vacation_days(days, budget, start).len() == budget,
{
    let u = relevant_days(sorted_set_of(days), start);
    lemma_greedy_conservation(gaps(u), budget as nat);
    lemma_placements_length(u, greedy_counts(gaps(u), budget as nat));
}

/// Keeping only the relevant anchors keeps them strictly ascending.
pub proof fn lemma_relevant_days_sorted(u: Seq<int>, start: int)
    requires
        strictly_sorted(u),
    ensures
        strictly_sorted(relevant_days(u, start)),
{
    lemma_first_ge_range(u, start, 0);
    let p = first_ge(u, start, 0);
    let r = relevant_days(u, start);
    if p > 0 {
        assert forall|a: int, b: int| 0 <= a < b < r.len()
            implies #[trigger] r[a] < #[trigger] r[b] by {
            if a == 0 {
                assert(r[b] == u[p + b - 1]);
            } else {
                assert(r[a] == u[p + a - 1] && r[b] == u[p + b - 1]);
            }
        }
    }
}

/// Disjointness at pipeline level, against the raw anchor input: whenever
/// the remaining days fit into the windows, no suggested date equals any
/// anchor date that was handed in.
pub proof fn lemma_vacation_days_disjoint_from_input(days: Seq<int>, budget: int, start: int)
    requires
        0 <= budget <= span_capacity(gaps(relevant_days(sorted_set_of(days), start))),
    ensures
        forall|t: int, j: int|
            0 <= t < spec_vacation_days(days, budget, start).len() && 0 <= j < days.len()
                ==> #[trigger] spec_vacation_days(days, budget, start)[t]
                    != #[trigger] days[j],
{
    let u = sorted_set_of(days);
    lemma_sorted_set_of_sorted(days);
    lemma_relevant_days_sorted(u, start);
    lemma_first_ge_range(u, start, 0);
    let p = first_ge(u, start, 0);
    let r = relevant_days(u, start);
    let counts = greedy_counts(gaps(r), budget as nat);
    lemma_greedy_within_capacity(r, budget as nat);
    lemma_greedy_conservation(gaps(r), budget as nat);
    let out = spec_vacation_days(days, budget, start);
    if r.len() == 0 {
        assert(out.len() == 0);
    } else {
        lemma_placements_upto_props(r, counts, counts.len() as int);
        assert forall|t: int, j: int|
            0 <= t < out.len() && 0 <= j < days.len()
                implies #[trigger] out[t] != #[trigger] days[j] by {
            lemma_sorted_set_of_contains(days, days[j]);
            assert(u.contains(days[j])) by {
                assert(days.contains(days[j]));
            }
            let jj = choose|jj: int| 0 <= jj < u.len() && u[jj] == days[j];
            assert(r[0] < out[t] && out[t] < r[counts.len() as int]);
            if p == 0 {
                assert(r == u);
                assert(out[t] != r[jj]);
            } else if jj <= p - 1 {
                assert(u[jj] <= u[p - 1]);
                assert(r[0] == u[p - 1]);
            } else {
                assert(r[jj - p + 1] == u[jj]);
                assert(out[t] != r[jj - p + 1]);
            }
        }
    }
}

/// Sorting and de-duplicating yields a strictly ascending sequence.
pub proof fn lemma_sorted_set_of_sorted(days: Seq<int>)
    ensures
        strictly_sorted(sorted_set_of(days)),
    decreases days.len(),
{
    if days.len() > 0 {
        lemma_sorted_set_of_sorted(days.drop_last());
        lemma_sorted_insert_sorted(sorted_set_of(days.drop_last()), days.last());
    }
}

/// Inserting into a strictly ascending sequence keeps it strictly
/// ascending.
proof fn lemma_sorted_insert_sorted(s: Seq<int>, x: int)
    requires
        strictly_sorted(s),
    ensures
        strictly_sorted(crate::date::spec_sorted_insert(s, x)),
{
    lemma_first_ge_range(s, x, 0);
    let p = first_ge(s, x, 0);
    let t = crate::date::spec_sorted_insert(s, x);
    if !(0 <= p < s.len() && s[p] == x) {
        assert forall|a: int, b: int| 0 <= a < b < t.len()
            implies #[trigger] t[a] < #[trigger] t[b] by {
            if a < p && b == p {
                assert(t[a] == s[a] && t[b] == x);
            } else if a < p && b > p {
                assert(t[a] == s[a] && t[b] == s[b - 1]);
            } else if a == p && b > p {
                assert(t[a] == x && t[b] == s[b - 1]);
                assert(s[b - 1] >= x);
                assert(s[b - 1] != x) by {
                    if b - 1 == p {
                        assert(s[p] >= x && !(s[p] == x));
                    } else {
                        assert(s[p] < s[b - 1] || p >= s.len());
                        if p < s.len() {
                            assert(s[p] >= x);
                        }
                    }
                }
            } else if a > p {
                assert(t[a] == s[a - 1] && t[b] == s[b - 1]);
            } else {
                assert(t[a] == s[a] && t[b] == s[b]);
            }
        }
    }
}

} // verus!

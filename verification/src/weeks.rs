//! Week-granularity allocation: apportions the day budget over the windows
//! between consecutive anchors in proportion to their ISO-week spans (after
//! zeroing windows too tight to deserve extra days off), and places each
//! window's share at evenly spaced ISO weeks, rounding through the
//! error-diffusion accumulator.

use vstd::prelude::*;

use crate::algo::gaps;
use crate::algo::get_relevant_fixed_days;
use crate::algo::relevant_days;
use crate::date::Date;
use crate::date::all_wf;
use crate::date::day_number_of_ymd;
use crate::date::iso_week_exists;
use crate::date::iso_week_of;
use crate::date::sorted_set;
use crate::date::sorted_set_of;
use crate::date::views_of;
use crate::date::year_of;
use crate::rounding::lemma_round_preserves_sum;
use crate::rounding::lemma_rounded_close;
use crate::rounding::rounded_at;
use crate::rounding::round;
use crate::rounding::seq_sum;
use crate::rounding::spec_round;
use crate::rounding::to_ints;

verus! {

/// An ISO 8601 year-week identifier.
#[derive(Clone, Copy, PartialEq, Eq, Structural, Debug)]
pub struct IsoWeek {
    pub year: i32,
    pub week: u32,
}

/// The week numbers of a sequence of year-week identifiers.
pub open spec fn weeks_of(s: Seq<IsoWeek>) -> Seq<int> {
    s.map_values(|w: IsoWeek| w.week as int)
}

/// ISO week numbers of the given anchor dates.
pub open spec fn anchor_weeks(u: Seq<int>) -> Seq<int> {
    Seq::new(u.len(), |i: int| iso_week_of(u[i]))
}

/// The start week, with week 53 treated as week 0 to avoid year-wraparound
/// artifacts.
pub open spec fn effective_start_week(start: int) -> int {
    if iso_week_of(start) == 53 {
        0
    } else {
        iso_week_of(start)
    }
}

/// Weeks left in the start date's year: the ISO week of December 31 minus
/// the effective start week.
pub open spec fn remaining_weeks(start: int) -> int {
    iso_week_of(day_number_of_ymd(year_of(start), 12, 31)) - effective_start_week(start)
}

/// Week spans of the windows, with every span too tight to deserve extra
/// days off (smaller than the ideal interval `remw / factor`, compared by
/// cross-multiplication) zeroed out.
pub open spec fn filtered_deltas(ws: Seq<int>, factor: int, remw: int) -> Seq<int> {
    gaps(ws).map_values(|d: int| if d * factor < remw { 0 } else { d })
}

/// Ideal fractional day counts per window, scaled by the total week span:
/// window `i` deserves `deltas[i] / total` of the budget.
pub open spec fn count_nums(deltas: Seq<int>, budget: int) -> Seq<int> {
    deltas.map_values(|d: int| d * budget)
}

/// Integer day counts per window: the ideal fractional counts rounded by
/// the error-diffusion accumulator.
pub open spec fn week_counts(deltas: Seq<int>, budget: int) -> Seq<int> {
    spec_round(count_nums(deltas, budget), seq_sum(deltas))
}

/// Ideal fractional week positions of the `k` days placed in the window
/// `(sw, ew)`, scaled by `k + 1`: position `i` is `sw + (ew - sw) * (i + 1)
/// / (k + 1)`.
pub open spec fn window_nums(sw: int, ew: int, k: int) -> Seq<int> {
    Seq::new(
        if k >= 0 {
            k as nat
        } else {
            0
        },
        |i: int| sw * (k + 1) + (ew - sw) * (i + 1),
    )
}

/// Rounded week positions of the `k` days placed in the window `(sw, ew)`
/// (a fresh accumulator per window).
pub open spec fn window_weeks(sw: int, ew: int, k: int) -> Seq<int> {
    spec_round(window_nums(sw, ew, k), k + 1)
}

/// The week numbers of `s` that exist in the given ISO year, in order.
pub open spec fn kept_weeks(year: int, s: Seq<int>) -> Seq<int>
    decreases s.len(),
{
    if s.len() == 0 {
        Seq::empty()
    } else {
        let rest = kept_weeks(year, s.drop_last());
        if 0 <= s.last() <= u32::MAX && iso_week_exists(year, s.last()) {
            rest + seq![s.last()]
        } else {
            rest
        }
    }
}

/// Concatenation over the first `w` windows of the placed weeks that exist
/// in the given ISO year.
pub open spec fn week_placements_upto(year: int, ws: Seq<int>, counts: Seq<int>, w: int) -> Seq<int>
    decreases w,
{
    if w <= 0 {
        Seq::empty()
    } else {
        week_placements_upto(year, ws, counts, w - 1)
            + kept_weeks(year, window_weeks(ws[w - 1], ws[w], counts[w - 1]))
    }
}

/// The whole week-granularity pipeline: sort and de-duplicate the anchors,
/// keep the relevant ones, zero out the too-tight windows, apportion the
/// budget in proportion to the remaining week spans (rounded by the
/// accumulator), and place each window's share at evenly spaced weeks of
/// the start date's year.
pub open spec fn spec_vacation_weeks(days: Seq<int>, budget: int, start: int) -> Seq<int> {
    let u = relevant_days(sorted_set_of(days), start);
    if u.len() < 2 || budget <= 0 {
        Seq::empty()
    } else {
        let year = year_of(start);
        let ws = anchor_weeks(u);
        let deltas = filtered_deltas(ws, u.len() + budget, remaining_weeks(start));
        if seq_sum(deltas) <= 0 {
            Seq::empty()
        } else {
            week_placements_upto(year, ws, week_counts(deltas, budget), (u.len() - 1) as int)
        }
    }
}

/// Appending the next entry to a prefix adds it to the prefix sum.
proof fn lemma_seq_sum_take_step(s: Seq<int>, i: int)
    requires
        0 <= i < s.len(),
    ensures
        seq_sum(s.take(i + 1)) == seq_sum(s.take(i)) + s[i],
{
    assert(s.take(i + 1).drop_last() =~= s.take(i));
    assert(s.take(i + 1).last() == s[i]);
}

/// How `kept_weeks` grows when one more week is considered.
proof fn lemma_kept_take_step(year: int, s: Seq<int>, j: int)
    requires
        0 <= j < s.len(),
    ensures
        kept_weeks(year, s.take(j + 1)) == if 0 <= s[j] <= u32::MAX && iso_week_exists(year, s[j]) {
            kept_weeks(year, s.take(j)) + seq![s[j]]
        } else {
            kept_weeks(year, s.take(j))
        },
{
    assert(s.take(j + 1).drop_last() =~= s.take(j));
    assert(s.take(j + 1).last() == s[j]);
}

/// Scaling every entry scales the sum.
proof fn lemma_seq_sum_scale(s: Seq<int>, c: int)
    ensures
        seq_sum(s.map_values(|d: int| d * c)) == c * seq_sum(s),
    decreases s.len(),
{
    let t = s.map_values(|d: int| d * c);
    if s.len() == 0 {
        assert(c * 0 == 0) by (nonlinear_arith);
    } else {
        lemma_seq_sum_scale(s.drop_last(), c);
        assert(t.drop_last() =~= s.drop_last().map_values(|d: int| d * c));
        assert(t.last() == s.last() * c);
        assert(c * (seq_sum(s.drop_last()) + s.last())
            == c * seq_sum(s.drop_last()) + s.last() * c) by (nonlinear_arith);
    }
}

/// Conservation of the proportional week apportioner: when the filtered
/// week spans have a positive total, the rounded per-window counts sum to
/// exactly the day budget.
pub proof fn lemma_week_counts_conservation(deltas: Seq<int>, budget: int)
    requires
        seq_sum(deltas) >= 1,
    ensures
        seq_sum(week_counts(deltas, budget)) == budget,
{
    let total = seq_sum(deltas);
    let nums = count_nums(deltas, budget);
    lemma_seq_sum_scale(deltas, budget);
    assert(seq_sum(nums) == budget * total) by {
        assert(nums =~= deltas.map_values(|d: int| d * budget));
        assert(budget * total == total * budget) by (nonlinear_arith);
    }
    assert(seq_sum(nums) % total == 0) by {
        vstd::arithmetic::div_mod::lemma_fundamental_div_mod_converse_mod(
            budget * total,
            total,
            budget,
            0,
        );
    }
    lemma_round_preserves_sum(nums, total);
    assert(seq_sum(spec_round(nums, total)) == budget) by (nonlinear_arith)
        requires
            total * seq_sum(spec_round(nums, total)) == budget * total,
            total >= 1,
    ;
}

/// Order law of the week placer, within one window: when the window's week
/// span leaves more than two weeks per placed day, the rounded week
/// positions are strictly ascending.  (A tighter window can round two days
/// into the same week.)
pub proof fn lemma_window_weeks_ascending(sw: int, ew: int, k: int)
    requires
        0 <= k,
        ew - sw >= 2 * (k + 1) + 1,
    ensures
        forall|t1: int, t2: int|
            0 <= t1 < t2 < window_weeks(sw, ew, k).len()
                ==> #[trigger] window_weeks(sw, ew, k)[t1]
                    < #[trigger] window_weeks(sw, ew, k)[t2],
{
    let nums = window_nums(sw, ew, k);
    let den = k + 1;
    assert forall|t1: int, t2: int|
        0 <= t1 < t2 < window_weeks(sw, ew, k).len()
            implies #[trigger] window_weeks(sw, ew, k)[t1]
                < #[trigger] window_weeks(sw, ew, k)[t2] by {
        lemma_rounded_close(nums, den, t1);
        lemma_rounded_close(nums, den, t2);
        let r1 = rounded_at(nums, den, t1);
        let r2 = rounded_at(nums, den, t2);
        assert(nums[t2] - nums[t1] == (ew - sw) * (t2 - t1)) by (nonlinear_arith)
            requires
                nums[t1] == sw * (k + 1) + (ew - sw) * (t1 + 1),
                nums[t2] == sw * (k + 1) + (ew - sw) * (t2 + 1),
        ;
        assert(nums[t2] - nums[t1] >= 2 * den + 1) by (nonlinear_arith)
            requires
                nums[t2] - nums[t1] == (ew - sw) * (t2 - t1),
                ew - sw >= 2 * den + 1,
                t2 - t1 >= 1,
                den >= 1,
        ;
        assert(r1 < r2) by (nonlinear_arith)
            requires
                den * (r1 - 1) <= nums[t1] <= den * (r1 + 1),
                den * (r2 - 1) <= nums[t2] <= den * (r2 + 1),
                nums[t2] - nums[t1] >= 2 * den + 1,
                den >= 1,
        ;
    }
}

/// Conservation of the week-granularity pipeline: whenever the pipeline
/// allocates at all (at least two relevant anchors and a positive total
/// week weight), the per-window day counts it rounds out sum to exactly
/// the day budget.
pub proof fn lemma_vacation_weeks_conservation(days: Seq<int>, budget: int, start: int)
    requires
        seq_sum(
            filtered_deltas(
                anchor_weeks(relevant_days(sorted_set_of(days), start)),
                relevant_days(sorted_set_of(days), start).len() + budget,
                remaining_weeks(start),
            ),
        ) >= 1,
    ensures
        seq_sum(
            week_counts(
                filtered_deltas(
                    anchor_weeks(relevant_days(sorted_set_of(days), start)),
                    relevant_days(sorted_set_of(days), start).len() + budget,
                    remaining_weeks(start),
                ),
                budget,
            ),
        ) == budget,
{
    let u = relevant_days(sorted_set_of(days), start);
    lemma_week_counts_conservation(
        filtered_deltas(anchor_weeks(u), u.len() + budget, remaining_weeks(start)),
        budget,
    );
}

/// Suggests ISO weeks of the start date's year for the remaining free days:
/// the anchors are sorted and de-duplicated, only the relevant ones are
/// kept, windows whose week span is below the ideal interval get no weight,
/// the budget is split in proportion to the remaining spans (rounded by the
/// accumulator), and each window's share is placed at evenly spaced weeks.
/// With fewer than two relevant anchors, a zero budget, or no window
/// weight, the result is empty.
#[verifier::loop_isolation(false)]
#[verifier::rlimit(100)]
pub fn calculate_vacation_weeks(input_dates: &Vec<Date>, remaining_days: u16, start_date: &Date) -> (r: Vec<IsoWeek>)
    requires
        all_wf(input_dates@),
        start_date.wf(),
    ensures
        weeks_of(r@) == spec_vacation_weeks(
            views_of(input_dates@),
            remaining_days as int,
            start_date@,
        ),
        forall|i: int| 0 <= i < r@.len()
            ==> (#[trigger] r@[i]).year as int == year_of(start_date@),
        remaining_days == 0 ==> r@.len() == 0,
        relevant_days(sorted_set_of(views_of(input_dates@)), start_date@).len() < 2
            ==> r@.len() == 0,
{
    let ghost gstart = start_date@;
    let ghost gbudget = remaining_days as int;
    let sorted_days = sorted_set(input_dates);
    let relevant = get_relevant_fixed_days(sorted_days, start_date);
    let ghost u = views_of(relevant@);
    let n = relevant.len();
    if n < 2 || remaining_days == 0 {
        let out: Vec<IsoWeek> = Vec::new();
        proof {
            assert(weeks_of(out@) =~= spec_vacation_weeks(views_of(input_dates@), gbudget, gstart));
        }
        return out;
    }
    let year = start_date.year();
    let last_week = Date::iso_week_of_dec31(year);
    let sw0 = start_date.iso_week();
    let start_week: i64 = if sw0 == 53 {
        0
    } else {
        sw0 as i64
    };
    let remw: i64 = last_week as i64 - start_week;
    proof {
        assert(start_week as int == effective_start_week(gstart));
        assert(remw as int == remaining_weeks(gstart));
    }

    let mut ws: Vec<i64> = Vec::new();
    let mut i: usize = 0;
    while i < n
        invariant
            0 <= i <= n,
            ws@.len() == i,
            forall|j: int| 0 <= j < i ==> #[trigger] ws@[j] as int == anchor_weeks(u)[j],
            forall|j: int| 0 <= j < i ==> 1 <= #[trigger] ws@[j] <= 53,
        decreases n - i,
    {
        let wk = relevant[i].iso_week();
        ws.push(wk as i64);
        i = i + 1;
    }
    let ghost gws = anchor_weeks(u);
    proof {
        assert(to_ints(ws@) =~= gws);
    }

    let factor: i128 = n as i128 + remaining_days as i128;
    let ghost gfactor = u.len() + gbudget;
    let ghost fdeltas = filtered_deltas(gws, gfactor, remw as int);
    let mut deltas: Vec<i64> = Vec::new();
    let mut total: i128 = 0;
    let mut di: usize = 0;
    while di < n - 1
        invariant
            0 <= di <= n - 1,
            deltas@.len() == di,
            forall|j: int| 0 <= j < di ==> #[trigger] deltas@[j] as int == fdeltas[j],
            forall|j: int| 0 <= j < di ==> -52 <= #[trigger] deltas@[j] <= 52,
            total as int == seq_sum(fdeltas.take(di as int)),
            -52 * (di as int) <= total as int <= 52 * (di as int),
        decreases n - 1 - di,
    {
        let d = ws[di + 1] - ws[di];
        proof {
            assert(-0x1000_0000_0000_0000_0000 <= (d as int) * (factor as int)
                <= 0x1000_0000_0000_0000_0000) by (nonlinear_arith)
                requires
                    -52 <= d <= 52,
                    0 <= factor <= 0x2_0000_0000_0000_0000,
            ;
        }
        let kept: i64 = if (d as i128) * factor < remw as i128 {
            0
        } else {
            d
        };
        proof {
            assert(gaps(gws)[di as int] == gws[di + 1] - gws[di as int]);
            assert(fdeltas[di as int] == kept as int);
            lemma_seq_sum_take_step(fdeltas, di as int);
        }
        deltas.push(kept);
        total = total + kept as i128;
        di = di + 1;
    }
    proof {
        assert(fdeltas.take(n - 1 as int) =~= fdeltas);
        assert(total as int == seq_sum(fdeltas));
    }
    if total <= 0 {
        let out: Vec<IsoWeek> = Vec::new();
        proof {
            assert(weeks_of(out@) =~= spec_vacation_weeks(views_of(input_dates@), gbudget, gstart));
        }
        return out;
    }

    let mut nums: Vec<i64> = Vec::new();
    let mut ni: usize = 0;
    while ni < n - 1
        invariant
            0 <= ni <= n - 1,
            nums@.len() == ni,
            forall|j: int| 0 <= j < ni
                ==> #[trigger] nums@[j] as int == count_nums(fdeltas, gbudget)[j],
            forall|j: int| 0 <= j < ni ==> -3_407_820 <= #[trigger] nums@[j] <= 3_407_820,
        decreases n - 1 - ni,
    {
        proof {
            assert(-3_407_820 <= deltas@[ni as int] * remaining_days
                <= 3_407_820) by (nonlinear_arith)
                requires
                    -52 <= deltas@[ni as int] <= 52,
                    0 <= remaining_days <= 65535,
            ;
        }
        let scaled = deltas[ni] * remaining_days as i64;
        nums.push(scaled);
        ni = ni + 1;
    }
    proof {
        assert(to_ints(nums@) =~= count_nums(fdeltas, gbudget));
    }
    let counts = round(&nums, total);
    let ghost gcounts = week_counts(fdeltas, gbudget);
    proof {
        assert(to_ints(counts@) == gcounts);
        assert forall|j: int| 0 <= j < counts@.len()
            implies -3_407_821 <= #[trigger] counts@[j] <= 3_407_821 by {
            assert((total as int) * (counts@[j] - 1) <= nums@[j]
                <= (total as int) * (counts@[j] + 1));
            assert(-3_407_821 <= counts@[j] <= 3_407_821) by (nonlinear_arith)
                requires
                    (total as int) * (counts@[j] - 1) <= nums@[j]
                        <= (total as int) * (counts@[j] + 1),
                    -3_407_820 <= nums@[j] <= 3_407_820,
                    total as int >= 1,
            ;
        }
    }

    let mut out: Vec<IsoWeek> = Vec::new();
    let mut w: usize = 0;
    while w < counts.len()
        invariant
            0 <= w <= counts@.len(),
            weeks_of(out@) == week_placements_upto(year as int, gws, gcounts, w as int),
            forall|j: int| 0 <= j < out@.len()
                ==> (#[trigger] out@[j]).year as int == year_of(gstart),
        decreases counts@.len() - w,
    {
        let k = counts[w];
        if k >= 1 {
            let sww = ws[w];
            let eww = ws[w + 1];
            let ghost wnums_spec = window_nums(sww as int, eww as int, k as int);
            let mut wnums: Vec<i64> = Vec::new();
            let mut t: i64 = 0;
            while t < k
                invariant
                    0 <= t <= k,
                    wnums@.len() == t,
                    forall|j: int| 0 <= j < t ==> #[trigger] wnums@[j] as int == wnums_spec[j],
                    forall|j: int| 0 <= j < t
                        ==> -600_000_000 <= #[trigger] wnums@[j] <= 600_000_000,
                decreases k - t,
            {
                proof {
                    assert(-200_000_000 <= sww * (k + 1) <= 200_000_000) by (nonlinear_arith)
                        requires
                            1 <= sww <= 53,
                            1 <= k <= 3_407_821,
                    ;
                    assert(-400_000_000 <= (eww - sww) * (t + 1) <= 400_000_000)
                        by (nonlinear_arith)
                        requires
                            -52 <= eww - sww <= 52,
                            0 <= t < k,
                            k <= 3_407_821,
                    ;
                }
                let pos = sww * (k + 1) + (eww - sww) * (t + 1);
                wnums.push(pos);
                t = t + 1;
            }
            proof {
                assert(to_ints(wnums@) =~= wnums_spec);
            }
            let rweeks = round(&wnums, (k + 1) as i128);
            let ghost wweeks = window_weeks(sww as int, eww as int, k as int);
            proof {
                assert(to_ints(rweeks@) == wweeks);
            }
            let mut j: usize = 0;
            while j < rweeks.len()
                invariant
                    0 <= j <= rweeks@.len(),
                    to_ints(rweeks@) == wweeks,
                    weeks_of(out@) == week_placements_upto(year as int, gws, gcounts, w as int)
                        + kept_weeks(year as int, wweeks.take(j as int)),
                    forall|jj: int| 0 <= jj < out@.len()
                        ==> (#[trigger] out@[jj]).year as int == year_of(gstart),
                decreases rweeks@.len() - j,
            {
                let wk = rweeks[j];
                let ghost prev = weeks_of(out@);
                if wk >= 0 && wk <= u32::MAX as i64 && Date::iso_week_in_year(year, wk as u32) {
                    out.push(IsoWeek { year, week: wk as u32 });
                    proof {
                        assert(weeks_of(out@) =~= prev + seq![wk as int]);
                    }
                }
                j = j + 1;
                proof {
                    lemma_kept_take_step(year as int, wweeks, j - 1);
                    assert(weeks_of(out@) =~= week_placements_upto(year as int, gws, gcounts, w as int)
                        + kept_weeks(year as int, wweeks.take(j as int)));
                }
            }
            proof {
                assert(wweeks.take(rweeks@.len() as int) =~= wweeks);
            }
        } else {
            proof {
                assert(window_nums(gws[w as int], gws[w + 1], gcounts[w as int]).len() == 0);
                assert(window_weeks(gws[w as int], gws[w + 1], gcounts[w as int])
                    =~= Seq::<int>::empty());
                assert(kept_weeks(year as int, window_weeks(gws[w as int], gws[w + 1],
                    gcounts[w as int])).len() == 0);
                assert(weeks_of(out@) =~= week_placements_upto(year as int, gws, gcounts,
                    w + 1));
            }
        }
        w = w + 1;
    }
    proof {
        assert(weeks_of(out@) == spec_vacation_weeks(views_of(input_dates@), gbudget, gstart));
    }
    out
}

} // verus!

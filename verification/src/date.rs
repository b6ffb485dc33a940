//! Calendar dates, modelled as day numbers in the proleptic Gregorian
//! calendar (January 1 of year 1 CE is day 1, as in `chrono`'s
//! `num_days_from_ce`).  All calendar arithmetic the allocation logic needs
//! (ordering, differences, offsets) is plain integer arithmetic on the day
//! number; what only a calendar library can compute (ISO week numbers,
//! year-month-day conversions, the current date) is obtained from `chrono`
//! through trusted wrappers.

use vstd::prelude::*;

verus! {

/// Largest day-number magnitude the library accepts; comfortably inside the
/// range `chrono::NaiveDate` supports (about +/- 95.7 million days).
pub const MAX_DAY_NUMBER: i64 = 70_000_000;

/// Day-number magnitude up to which the trusted `chrono` wrappers are
/// called; a little wider than `MAX_DAY_NUMBER`, so that December 31 of the
/// year of any supported date is still within it.
pub const RAW_DAY_BOUND: i64 = 75_000_000;

/// Largest year magnitude for which `Date::from_ymd` decides validity
/// exactly; every date of such a year has a day number within
/// `MAX_DAY_NUMBER` (a year has at most 366 days and on average about
/// 365.2425, so the day numbers of year 190_000 stay below 69.5 million).
pub const MAX_EXACT_YEAR: i32 = 190_000;

/// Year magnitude up to which `chrono` accepts every real calendar date
/// (its supported years reach past +/- 262_000); every date of such a year
/// has a day number within `RAW_DAY_BOUND`.
pub const MAX_RAW_YEAR: i32 = 200_000;

/// Bound on the calendar year of any day number within `MAX_DAY_NUMBER`
/// (70_000_000 / 365 < 192_000).
pub const MAX_YEAR_OF_DAY: i32 = 192_000;

/// Day number of the given calendar date, as `chrono` computes it.
pub uninterp spec fn day_number_of_ymd(y: int, m: int, d: int) -> int;

/// ISO 8601 week number (1 ..= 53) of the date with the given day number.
pub uninterp spec fn iso_week_of(day_number: int) -> int;

/// Calendar year of the date with the given day number.
pub uninterp spec fn year_of(day_number: int) -> int;

/// Day number that parsing a string against a date format yields, if any.
pub uninterp spec fn parsed_day_number(s: Seq<char>, fmt: Seq<char>) -> Option<int>;

/// Whether the given ISO year has a week with the given number.
pub uninterp spec fn iso_week_exists(year: int, week: int) -> bool;

pub open spec fn is_leap_year(y: int) -> bool {
    (y % 4 == 0 && y % 100 != 0) || y % 400 == 0
}

pub open spec fn days_in_month(y: int, m: int) -> int {
    if m == 4 || m == 6 || m == 9 || m == 11 {
        30
    } else if m == 2 {
        if is_leap_year(y) {
            29
        } else {
            28
        }
    } else {
        31
    }
}

/// The month/day pair denotes a real proleptic Gregorian calendar date of
/// year `y`.
pub open spec fn valid_md(y: int, m: int, d: int) -> bool {
    1 <= m <= 12 && 1 <= d <= days_in_month(y, m)
}

/// Relies on `chrono::NaiveDate::from_ymd_opt`, which returns `Some` exactly
/// for real proleptic Gregorian calendar dates within chrono's supported
/// range (years -262143 ..= 262142, so in particular whenever the year
/// magnitude is at most `MAX_EXACT_YEAR`), and on
/// `chrono::Datelike::num_days_from_ce`, the day number of the date with
/// January 1 of year 1 CE as day 1.
#[verifier::external_body]
fn chrono_day_number_from_ymd(y: i32, m: u32, d: u32) -> (r: Option<i64>)
    ensures
        r is Some ==> r->0 == day_number_of_ymd(y as int, m as int, d as int),
        r is Some ==> valid_md(y as int, m as int, d as int),
        valid_md(y as int, m as int, d as int) && -MAX_RAW_YEAR <= y <= MAX_RAW_YEAR
            ==> r is Some,
        r is Some && -MAX_RAW_YEAR <= y <= MAX_RAW_YEAR
            ==> -RAW_DAY_BOUND <= r->0 <= RAW_DAY_BOUND,
        r is Some && -MAX_EXACT_YEAR <= y <= MAX_EXACT_YEAR
            ==> -MAX_DAY_NUMBER <= r->0 <= MAX_DAY_NUMBER,
{
    chrono::NaiveDate::from_ymd_opt(y, m, d)
        .map(|date| chrono::Datelike::num_days_from_ce(&date) as i64)
}

/// Relies on `chrono::NaiveDate::from_num_days_from_ce_opt`, which returns
/// `Some` for every day number within chrono's supported range (so for all
/// magnitudes up to `RAW_DAY_BOUND`), and on `chrono::Datelike::iso_week`
/// with `chrono::IsoWeek::week`, whose result ranges over 1 ..= 53.
#[verifier::external_body]
fn chrono_iso_week_of_day(day_number: i64) -> (r: u32)
    requires
        -RAW_DAY_BOUND <= day_number <= RAW_DAY_BOUND,
    ensures
        r as int == iso_week_of(day_number as int),
        1 <= r <= 53,
{
    let date = chrono::NaiveDate::from_num_days_from_ce_opt(day_number as i32)
        .expect("day number within chrono's range");
    chrono::Datelike::iso_week(&date).week()
}

/// Relies on `chrono::NaiveDate::from_num_days_from_ce_opt` (`Some` for every
/// day number within chrono's range) and `chrono::Datelike::year`; a day
/// number of magnitude at most `MAX_DAY_NUMBER` lies in a year of magnitude
/// below `MAX_YEAR_OF_DAY`, as there are at least 365 days per year.
#[verifier::external_body]
fn chrono_year_of_day(day_number: i64) -> (r: i32)
    requires
        -MAX_DAY_NUMBER <= day_number <= MAX_DAY_NUMBER,
    ensures
        r as int == year_of(day_number as int),
        -MAX_YEAR_OF_DAY <= r <= MAX_YEAR_OF_DAY,
{
    let date = chrono::NaiveDate::from_num_days_from_ce_opt(day_number as i32)
        .expect("day number within chrono's range");
    chrono::Datelike::year(&date)
}

/// Relies on `chrono::NaiveDate::parse_from_str`, whose result is a function
/// of the input string and the format string alone, and on
/// `chrono::Datelike::num_days_from_ce`.
#[verifier::external_body]
fn chrono_parse_date(s: &str, fmt: &str) -> (r: Option<i64>)
    ensures
        r is Some <==> parsed_day_number(s@, fmt@) is Some,
        r is Some ==> r->0 == parsed_day_number(s@, fmt@)->0,
{
    chrono::NaiveDate::parse_from_str(s, fmt)
        .ok()
        .map(|date| chrono::Datelike::num_days_from_ce(&date) as i64)
}

/// Relies on `chrono::NaiveDate::from_isoywd_opt`, which returns `Some`
/// exactly when the given ISO year (within chrono's range) has a week with
/// the given number.  The year is bounded because the function evaluates
/// `year - 1` when the week's Monday falls in the previous calendar year,
/// which would overflow on `i32::MIN`.
#[verifier::external_body]
fn chrono_iso_week_in_year(year: i32, week: u32) -> (r: bool)
    requires
        -MAX_YEAR_OF_DAY <= year <= MAX_YEAR_OF_DAY,
    ensures
        r == iso_week_exists(year as int, week as int),
{
    chrono::NaiveDate::from_isoywd_opt(year, week, chrono::Weekday::Mon).is_some()
}

/// Relies on `chrono::Local::now` and `chrono::NaiveDateTime::date`: the
/// current local calendar date.  Nothing can be promised about the clock, so
/// this wrapper has no contract; callers must treat the result as an
/// arbitrary day number.
#[verifier::external_body]
fn chrono_today_day_number() -> i64 {
    chrono::Datelike::num_days_from_ce(&chrono::Local::now().date_naive()) as i64
}

/// Day numbers of a sequence of dates.
pub open spec fn views_of(s: Seq<Date>) -> Seq<int> {
    s.map_values(|d: Date| d@)
}

/// Every date of the sequence is within the supported range.
pub open spec fn all_wf(s: Seq<Date>) -> bool {
    forall|i: int| 0 <= i < s.len() ==> (#[trigger] s[i]).wf()
}

/// The sequence is strictly ascending.
pub open spec fn strictly_sorted(s: Seq<int>) -> bool {
    forall|i: int, j: int| 0 <= i < j < s.len() ==> #[trigger] s[i] < #[trigger] s[j]
}

/// First index at or after `i` whose entry is at least `x` (the length if
/// there is none).
pub open spec fn first_ge(s: Seq<int>, x: int, i: int) -> int
    decreases s.len() - i,
{
    if i < 0 || i >= s.len() {
        i
    } else if s[i] >= x {
        i
    } else {
        first_ge(s, x, i + 1)
    }
}

/// The scan stays within bounds, stops at an entry at least `x`, and skips
/// only entries below `x`.
pub proof fn lemma_first_ge_range(s: Seq<int>, x: int, i: int)
    requires
        0 <= i <= s.len(),
    ensures
        i <= first_ge(s, x, i) <= s.len(),
        first_ge(s, x, i) < s.len() ==> s[first_ge(s, x, i)] >= x,
        forall|j: int| i <= j < first_ge(s, x, i) ==> #[trigger] s[j] < x,
    decreases s.len() - i,
{
    if i < s.len() && s[i] < x {
        lemma_first_ge_range(s, x, i + 1);
    }
}

/// Insertion of `x` into the strictly sorted sequence `s`, keeping it sorted
/// and without duplicates.
pub open spec fn spec_sorted_insert(s: Seq<int>, x: int) -> Seq<int> {
    let p = first_ge(s, x, 0);
    if 0 <= p < s.len() && s[p] == x {
        s
    } else {
        s.take(p) + seq![x] + s.skip(p)
    }
}

/// The strictly sorted sequence of the distinct values of `s`, built by
/// inserting its entries in order.
pub open spec fn sorted_set_of(s: Seq<int>) -> Seq<int>
    decreases s.len(),
{
    if s.len() == 0 {
        Seq::empty()
    } else {
        spec_sorted_insert(sorted_set_of(s.drop_last()), s.last())
    }
}

/// Inserting a value adds exactly that value to the members.
pub proof fn lemma_sorted_insert_contains(s: Seq<int>, x: int, y: int)
    ensures
        spec_sorted_insert(s, x).contains(y) <==> (s.contains(y) || y == x),
{
    lemma_first_ge_range(s, x, 0);
    let p = first_ge(s, x, 0);
    let t = spec_sorted_insert(s, x);
    if 0 <= p < s.len() && s[p] == x {
        if y == x {
            assert(s.contains(y)) by {
                assert(s[p] == y);
            }
        }
    } else {
        if t.contains(y) {
            let idx = choose|idx: int| 0 <= idx < t.len() && t[idx] == y;
            if idx < p {
                assert(s[idx] == y);
            } else if idx == p {
                assert(y == x);
            } else {
                assert(s[idx - 1] == y);
            }
        }
        if s.contains(y) {
            let j = choose|j: int| 0 <= j < s.len() && s[j] == y;
            if j < p {
                assert(t[j] == y);
            } else {
                assert(t[j + 1] == y);
            }
        }
        if y == x {
            assert(t[p] == y);
        }
    }
}

/// Sorting and de-duplicating keeps exactly the members.
pub proof fn lemma_sorted_set_of_contains(s: Seq<int>, y: int)
    ensures
        sorted_set_of(s).contains(y) <==> s.contains(y),
    decreases s.len(),
{
    if s.len() > 0 {
        lemma_sorted_set_of_contains(s.drop_last(), y);
        lemma_sorted_insert_contains(sorted_set_of(s.drop_last()), s.last(), y);
        if s.contains(y) {
            let j = choose|j: int| 0 <= j < s.len() && s[j] == y;
            if j < s.len() - 1 {
                assert(s.drop_last()[j] == y);
            }
        }
        if s.drop_last().contains(y) {
            let j = choose|j: int| 0 <= j < s.drop_last().len() && s.drop_last()[j] == y;
            assert(s[j] == y);
        }
    }
}

/// A proleptic Gregorian calendar date, held as its day number.
#[derive(Clone, Copy, PartialEq, Eq, Structural, Debug)]
pub struct Date {
    days: i64,
}

impl View for Date {
    type V = int;

    closed spec fn view(&self) -> int {
        self.days as int
    }
}

impl Date {
    /// The day numbers the library works with.
    pub open spec fn wf(self) -> bool {
        -(MAX_DAY_NUMBER as int) <= self@ <= MAX_DAY_NUMBER as int
    }

    /// Builds a date directly from its day number.
    pub fn from_day_number(n: i64) -> (r: Option<Date>)
        ensures
            r is Some <==> -MAX_DAY_NUMBER <= n <= MAX_DAY_NUMBER,
            r is Some ==> r->0@ == n && r->0.wf(),
    {
        if -MAX_DAY_NUMBER <= n && n <= MAX_DAY_NUMBER {
            Some(Date { days: n })
        } else {
            None
        }
    }

    /// Builds the date of the given calendar year, month and day.  For years
    /// of magnitude up to `MAX_EXACT_YEAR` the result is `Some` exactly when
    /// the month/day pair is a real date of that year.
    pub fn from_ymd(y: i32, m: u32, d: u32) -> (r: Option<Date>)
        ensures
            -MAX_EXACT_YEAR <= y <= MAX_EXACT_YEAR
                ==> (r is Some <==> valid_md(y as int, m as int, d as int)),
            r is Some ==> valid_md(y as int, m as int, d as int),
            r is Some ==> r->0@ == day_number_of_ymd(y as int, m as int, d as int),
            r is Some ==> r->0.wf(),
    {
        match chrono_day_number_from_ymd(y, m, d) {
            Some(n) => {
                if -MAX_DAY_NUMBER <= n && n <= MAX_DAY_NUMBER {
                    Some(Date { days: n })
                } else {
                    None
                }
            },
            None => None,
        }
    }

    /// Parses a date from a string with the given `chrono` format string.
    pub fn parse(s: &str, fmt: &str) -> (r: Option<Date>)
        ensures
            r is Some ==> parsed_day_number(s@, fmt@) is Some
                && r->0@ == parsed_day_number(s@, fmt@)->0
                && r->0.wf(),
            r is None ==> parsed_day_number(s@, fmt@) is None
                || !(-MAX_DAY_NUMBER <= parsed_day_number(s@, fmt@)->0 <= MAX_DAY_NUMBER),
    {
        match chrono_parse_date(s, fmt) {
            Some(n) => {
                if -MAX_DAY_NUMBER <= n && n <= MAX_DAY_NUMBER {
                    Some(Date { days: n })
                } else {
                    None
                }
            },
            None => None,
        }
    }

    /// The current local date if it lies in the supported day-number range,
    /// otherwise the origin date of day number 0.
    pub fn today_or_origin() -> (r: Date)
        ensures
            r.wf(),
    {
        let n = chrono_today_day_number();
        if -MAX_DAY_NUMBER <= n && n <= MAX_DAY_NUMBER {
            Date { days: n }
        } else {
            Date { days: 0 }
        }
    }

    /// The date's day number.
    pub fn day_number(&self) -> (n: i64)
        ensures
            n == self@,
    {
        self.days
    }

    /// Whether this date is strictly before the other.
    pub fn before(&self, other: &Date) -> (r: bool)
        ensures
            r == (self@ < other@),
    {
        self.days < other.days
    }

    /// The calendar year this date falls in.
    pub fn year(&self) -> (r: i32)
        requires
            self.wf(),
        ensures
            r as int == year_of(self@),
            -MAX_YEAR_OF_DAY <= r <= MAX_YEAR_OF_DAY,
    {
        chrono_year_of_day(self.days)
    }

    /// The ISO 8601 week number (1 ..= 53) this date falls in.
    pub fn iso_week(&self) -> (r: u32)
        requires
            self.wf(),
        ensures
            r as int == iso_week_of(self@),
            1 <= r <= 53,
    {
        chrono_iso_week_of_day(self.days)
    }

    /// The ISO 8601 week number of December 31 of the given year.
    pub fn iso_week_of_dec31(year: i32) -> (r: u32)
        requires
            -MAX_YEAR_OF_DAY <= year <= MAX_YEAR_OF_DAY,
        ensures
            r as int == iso_week_of(day_number_of_ymd(year as int, 12, 31)),
            1 <= r <= 53,
    {
        let n = chrono_day_number_from_ymd(year, 12, 31).unwrap();
        chrono_iso_week_of_day(n)
    }

    /// Whether the given ISO year has a week with the given number.
    pub fn iso_week_in_year(year: i32, week: u32) -> (r: bool)
        requires
            -MAX_YEAR_OF_DAY <= year <= MAX_YEAR_OF_DAY,
        ensures
            r == iso_week_exists(year as int, week as int),
    {
        chrono_iso_week_in_year(year, week)
    }
}

/// Inserts a date into a strictly sorted vector, keeping it sorted and
/// without duplicates.
pub fn set_insert(v: &mut Vec<Date>, d: Date)
    requires
        strictly_sorted(views_of(old(v)@)),
        all_wf(old(v)@),
        d.wf(),
    ensures
        views_of(final(v)@) == spec_sorted_insert(views_of(old(v)@), d@),
        strictly_sorted(views_of(final(v)@)),
        all_wf(final(v)@),
{
    let ghost s = views_of(v@);
    let x = d.day_number();
    let mut i: usize = 0;
    while i < v.len() && v[i].day_number() < x
        invariant
            strictly_sorted(s),
            s == views_of(v@),
            x == d@,
            0 <= i <= s.len(),
            first_ge(s, x as int, 0) == first_ge(s, x as int, i as int),
            forall|j: int| 0 <= j < i ==> s[j] < x,
        decreases s.len() - i,
    {
        i = i + 1;
    }
    proof {
        assert(first_ge(s, x as int, 0) == i as int);
    }
    if i < v.len() && v[i].day_number() == x {
        proof {
            assert(views_of(v@) =~= spec_sorted_insert(s, x as int));
        }
    } else {
        v.insert(i, d);
        proof {
            assert(views_of(v@) =~= s.take(i as int) + seq![x as int] + s.skip(i as int));
            assert forall|p: int, q: int|
                0 <= p < q < views_of(v@).len() implies views_of(v@)[p] < views_of(v@)[q] by {
                let t = views_of(v@);
                if p < i && q > i {
                    assert(t[p] == s[p] && t[q] == s[q - 1]);
                }
            }
        }
    }
}

/// The strictly sorted vector of the distinct dates of `v`.
pub fn sorted_set(v: &Vec<Date>) -> (r: Vec<Date>)
    requires
        all_wf(v@),
    ensures
        views_of(r@) == sorted_set_of(views_of(v@)),
        strictly_sorted(views_of(r@)),
        all_wf(r@),
{
    let mut out: Vec<Date> = Vec::new();
    let mut i: usize = 0;
    while i < v.len()
        invariant
            all_wf(v@),
            0 <= i <= v@.len(),
            views_of(out@) == sorted_set_of(views_of(v@).take(i as int)),
            strictly_sorted(views_of(out@)),
            all_wf(out@),
        decreases v@.len() - i,
    {
        set_insert(&mut out, v[i]);
        proof {
            assert(views_of(v@).take(i + 1).drop_last() =~= views_of(v@).take(i as int));
            assert(views_of(v@).take(i + 1).last() == views_of(v@)[i as int]);
        }
        i = i + 1;
    }
    proof {
        assert(views_of(v@).take(v@.len() as int) =~= views_of(v@));
    }
    out
}

} // verus!

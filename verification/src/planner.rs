//! The planner: holds the holiday table, the selected province, the
//! vacation-day budget, the user-fixed days off and the start date, and
//! recomputes the suggested weeks from scratch on demand.

use vstd::prelude::*;

use crate::date::Date;
use crate::date::all_wf;
use crate::date::sorted_set;
use crate::date::sorted_set_of;
use crate::date::spec_sorted_insert;
use crate::date::set_insert;
use crate::date::strictly_sorted;
use crate::date::views_of;
use crate::api::Holiday;
use crate::api::HolidaysResponse;
use crate::date::parsed_day_number;
use crate::date::MAX_DAY_NUMBER;
use crate::error::Error;
use crate::weeks::IsoWeek;
use crate::weeks::calculate_vacation_weeks;
use crate::weeks::spec_vacation_weeks;
use crate::weeks::weeks_of;

verus! {

/// A Canadian province or territory, as the holiday service identifies it.
#[derive(Clone, Copy, PartialEq, Eq, Structural, Debug, Hash)]
pub enum Province {
    AB,
    BC,
    MB,
    NB,
    NL,
    NS,
    NT,
    NU,
    ON,
    PE,
    QC,
    SK,
    YT,
}

/// The province a two-letter identifier denotes, if any.
pub open spec fn province_of(s: Seq<char>) -> Option<Province> {
    if s == "AB"@ {
        Some(Province::AB)
    } else if s == "BC"@ {
        Some(Province::BC)
    } else if s == "MB"@ {
        Some(Province::MB)
    } else if s == "NB"@ {
        Some(Province::NB)
    } else if s == "NL"@ {
        Some(Province::NL)
    } else if s == "NS"@ {
        Some(Province::NS)
    } else if s == "NT"@ {
        Some(Province::NT)
    } else if s == "NU"@ {
        Some(Province::NU)
    } else if s == "ON"@ {
        Some(Province::ON)
    } else if s == "PE"@ {
        Some(Province::PE)
    } else if s == "QC"@ {
        Some(Province::QC)
    } else if s == "SK"@ {
        Some(Province::SK)
    } else if s == "YT"@ {
        Some(Province::YT)
    } else {
        None
    }
}

impl Province {
    /// Parses the holiday service's two-letter province identifier.
    pub fn from_api_id(id: &str) -> (r: Result<Province, Error>)
        ensures
            province_of(id@) is Some ==> r is Ok && r->Ok_0 == province_of(id@)->0,
            province_of(id@) is None ==> r is Err && r->Err_0 == Error::ProvinceParse,
    {
        proof {
            reveal_strlit("AB");
            reveal_strlit("BC");
            reveal_strlit("MB");
            reveal_strlit("NB");
            reveal_strlit("NL");
            reveal_strlit("NS");
            reveal_strlit("NT");
            reveal_strlit("NU");
            reveal_strlit("ON");
            reveal_strlit("PE");
            reveal_strlit("QC");
            reveal_strlit("SK");
            reveal_strlit("YT");
        }
        if id.unicode_len() != 2 {
            return Err(Error::ProvinceParse);
        }
        let c0 = id.get_char(0);
        let c1 = id.get_char(1);
        proof {
            assert(id@ =~= seq![id@[0], id@[1]]);
        }
        match (c0, c1) {
            ('A', 'B') => {
                proof {
                    assert(id@ =~= "AB"@);
                }
                Ok(Province::AB)
            },
            ('B', 'C') => {
                proof {
                    assert(id@ =~= "BC"@);
                }
                Ok(Province::BC)
            },
            ('M', 'B') => {
                proof {
                    assert(id@ =~= "MB"@);
                }
                Ok(Province::MB)
            },
            ('N', 'B') => {
                proof {
                    assert(id@ =~= "NB"@);
                }
                Ok(Province::NB)
            },
            ('N', 'L') => {
                proof {
                    assert(id@ =~= "NL"@);
                }
                Ok(Province::NL)
            },
            ('N', 'S') => {
                proof {
                    assert(id@ =~= "NS"@);
                }
                Ok(Province::NS)
            },
            ('N', 'T') => {
                proof {
                    assert(id@ =~= "NT"@);
                }
                Ok(Province::NT)
            },
            ('N', 'U') => {
                proof {
                    assert(id@ =~= "NU"@);
                }
                Ok(Province::NU)
            },
            ('O', 'N') => {
                proof {
                    assert(id@ =~= "ON"@);
                }
                Ok(Province::ON)
            },
            ('P', 'E') => {
                proof {
                    assert(id@ =~= "PE"@);
                }
                Ok(Province::PE)
            },
            ('Q', 'C') => {
                proof {
                    assert(id@ =~= "QC"@);
                }
                Ok(Province::QC)
            },
            ('S', 'K') => {
                proof {
                    assert(id@ =~= "SK"@);
                }
                Ok(Province::SK)
            },
            ('Y', 'T') => {
                proof {
                    assert(id@ =~= "YT"@);
                }
                Ok(Province::YT)
            },
            _ => Err(Error::ProvinceParse),
        }
    }
}

/// First index at or after `i` whose entry has the given province as key
/// (the length if there is none).
pub open spec fn find_key(s: Seq<(Province, Vec<Date>)>, p: Province, i: int) -> int
    decreases s.len() - i,
{
    if i < 0 || i >= s.len() {
        i
    } else if s[i].0 == p {
        i
    } else {
        find_key(s, p, i + 1)
    }
}

proof fn lemma_find_key_range(s: Seq<(Province, Vec<Date>)>, p: Province, i: int)
    requires
        0 <= i <= s.len(),
    ensures
        i <= find_key(s, p, i) <= s.len(),
        find_key(s, p, i) < s.len() ==> s[find_key(s, p, i)].0 == p,
    decreases s.len() - i,
{
    if i < s.len() && !(s[i].0 == p) {
        lemma_find_key_range(s, p, i + 1);
    }
}

/// Two entry lists with the same keys in the same order are scanned alike.
proof fn lemma_find_key_pointwise(
    a: Seq<(Province, Vec<Date>)>,
    b: Seq<(Province, Vec<Date>)>,
    p: Province,
    i: int,
)
    requires
        a.len() == b.len(),
        forall|j: int| 0 <= j < a.len() ==> (#[trigger] a[j]).0 == b[j].0,
        0 <= i,
    ensures
        find_key(a, p, i) == find_key(b, p, i),
    decreases a.len() - i,
{
    if i < a.len() && !(a[i].0 == p) {
        lemma_find_key_pointwise(a, b, p, i + 1);
    }
}

/// The holiday table: per-province lists of holiday dates.
pub struct CanadianHolidays {
    entries: Vec<(Province, Vec<Date>)>,
}

impl CanadianHolidays {
    /// The table's entries, in insertion order of their provinces.
    pub closed spec fn spec_entries(self) -> Seq<(Province, Vec<Date>)> {
        self.entries@
    }

    /// Every stored date is within the supported range.
    pub open spec fn wf(self) -> bool {
        forall|i: int| 0 <= i < self.spec_entries().len()
            ==> all_wf((#[trigger] self.spec_entries()[i]).1@)
    }

    /// The dates stored for a province (of its first entry; the table never
    /// grows a second entry for the same province).
    pub open spec fn dates_for(self, p: Province) -> Seq<int> {
        let i = find_key(self.spec_entries(), p, 0);
        if i < self.spec_entries().len() {
            views_of(self.spec_entries()[i].1@)
        } else {
            Seq::empty()
        }
    }

    /// An empty holiday table.
    pub fn new() -> (r: CanadianHolidays)
        ensures
            r.wf(),
            r.spec_entries().len() == 0,
            forall|p: Province| #[trigger] r.dates_for(p) == Seq::<int>::empty(),
    {
        CanadianHolidays { entries: Vec::new() }
    }

    /// Appends a date to a province's list, creating the list if the
    /// province has none yet.
    pub fn add(&mut self, province: Province, date: Date)
        requires
            old(self).wf(),
            date.wf(),
        ensures
            final(self).wf(),
            final(self).dates_for(province) == old(self).dates_for(province).push(date@),
            forall|p: Province| p != province
                ==> #[trigger] final(self).dates_for(p) == old(self).dates_for(p),
    {
        let ghost s0 = self.entries@;
        let n = self.entries.len();
        let mut i: usize = 0;
        while i < n && self.entries[i].0 != province
            invariant
                s0 == self.entries@,
                n == s0.len(),
                0 <= i <= n,
                find_key(s0, province, 0) == find_key(s0, province, i as int),
                forall|j: int| 0 <= j < i ==> (#[trigger] s0[j]).0 != province,
            decreases n - i,
        {
            i = i + 1;
        }
        proof {
            assert(find_key(s0, province, 0) == i as int);
        }
        if i < n {
            let (p, mut lst) = self.entries.remove(i);
            lst.push(date);
            let ghost ue = (p, lst);
            self.entries.insert(i, (p, lst));
            proof {
                let s1 = self.entries@;
                assert(s1 =~= s0.update(i as int, ue));
                assert(s0 == old(self).spec_entries());
                assert(all_wf((old(self).spec_entries()[i as int]).1@));
                assert(all_wf(s0[i as int].1@));
                assert(ue.1@ =~= s0[i as int].1@.push(date));
                assert forall|k: int| 0 <= k < ue.1@.len()
                    implies (#[trigger] ue.1@[k]).wf() by {
                    if k < s0[i as int].1@.len() {
                        assert(ue.1@[k] == s0[i as int].1@[k]);
                    }
                }
                assert forall|j: int| 0 <= j < s1.len()
                    implies all_wf((#[trigger] s1[j]).1@) by {
                    if j != i as int {
                        assert(all_wf((old(self).spec_entries()[j]).1@));
                        assert(s1[j] == s0[j]);
                    }
                }
                assert forall|q: Province| true
                    implies #[trigger] find_key(s1, q, 0) == find_key(s0, q, 0) by {
                    lemma_find_key_pointwise(s0, s1, q, 0);
                }
                assert(views_of(s1[i as int].1@) =~= views_of(s0[i as int].1@).push(date@));
                lemma_find_key_range(s0, province, 0);
                assert forall|q: Province| q != province
                    implies #[trigger] self.dates_for(q) == old(self).dates_for(q) by {
                    lemma_find_key_range(s0, q, 0);
                    let f = find_key(s0, q, 0);
                    if f < s0.len() {
                        assert(f != i as int);
                        assert(s1[f] == s0[f]);
                    }
                }
            }
        } else {
            let mut lst: Vec<Date> = Vec::new();
            lst.push(date);
            let ghost ne = (province, lst);
            self.entries.push((province, lst));
            proof {
                let s1 = self.entries@;
                assert(s1 =~= s0.push(ne));
                assert(all_wf(ne.1@));
                assert forall|j: int| 0 <= j < s1.len()
                    implies all_wf((#[trigger] s1[j]).1@) by {
                    if j < s0.len() {
                        assert(all_wf((old(self).spec_entries()[j]).1@));
                        assert(s1[j] == s0[j]);
                    }
                }
                assert(find_key(s0, province, 0) == s0.len());
                lemma_find_key_push_beyond(s0, ne, province);
                assert(find_key(s1, province, 0) == s0.len() as int);
                assert(views_of(s1[s0.len() as int].1@) =~= Seq::<int>::empty().push(date@));
                assert(old(self).dates_for(province) =~= Seq::<int>::empty());
                assert forall|q: Province| q != province
                    implies #[trigger] self.dates_for(q) == old(self).dates_for(q) by {
                    lemma_find_key_push_other(s0, ne, q);
                    lemma_find_key_range(s0, q, 0);
                    let f = find_key(s0, q, 0);
                    if f < s0.len() {
                        assert(s1[f] == s0[f]);
                    }
                }
            }
        }
    }
}

/// Appending an entry puts its key right after a fruitless scan.
proof fn lemma_find_key_push_beyond(
    s: Seq<(Province, Vec<Date>)>,
    e: (Province, Vec<Date>),
    p: Province,
)
    requires
        find_key(s, p, 0) == s.len(),
        e.0 == p,
    ensures
        find_key(s.push(e), p, 0) == s.len(),
{
    lemma_find_key_push_step(s, e, p, 0);
}

/// Appending an entry with a different key does not change a scan's result,
/// except to run one entry further when nothing was found.
proof fn lemma_find_key_push_other(
    s: Seq<(Province, Vec<Date>)>,
    e: (Province, Vec<Date>),
    q: Province,
)
    requires
        e.0 != q,
    ensures
        find_key(s, q, 0) < s.len() ==> find_key(s.push(e), q, 0) == find_key(s, q, 0),
        find_key(s, q, 0) == s.len() ==> find_key(s.push(e), q, 0) == s.len() + 1,
{
    lemma_find_key_range(s, q, 0);
    lemma_find_key_push_step(s, e, q, 0);
}

proof fn lemma_find_key_push_step(
    s: Seq<(Province, Vec<Date>)>,
    e: (Province, Vec<Date>),
    q: Province,
    i: int,
)
    requires
        0 <= i <= s.len(),
    ensures
        find_key(s, q, i) < s.len() ==> find_key(s.push(e), q, i) == find_key(s, q, i),
        find_key(s, q, i) == s.len() && e.0 == q ==> find_key(s.push(e), q, i) == s.len(),
        find_key(s, q, i) == s.len() && e.0 != q ==> find_key(s.push(e), q, i) == s.len() + 1,
    decreases s.len() - i,
{
    lemma_find_key_range(s, q, i);
    if i < s.len() {
        assert(s.push(e)[i] == s[i]);
        if !(s[i].0 == q) {
            lemma_find_key_push_step(s, e, q, i + 1);
        }
    } else {
        assert(s.push(e)[i] == e);
        if e.0 != q {
            assert(find_key(s.push(e), q, i + 1) == i + 1);
        }
    }
}

/// The record's date parses and lies in the supported range.
pub open spec fn date_ok(h: Holiday) -> bool {
    &&& parsed_day_number(h.date@, "%Y-%m-%d"@) is Some
    &&& -MAX_DAY_NUMBER <= parsed_day_number(h.date@, "%Y-%m-%d"@)->0 <= MAX_DAY_NUMBER
}

/// The error one holiday record produces, if any: its date is checked
/// first, then its province identifiers.
pub open spec fn record_error(h: Holiday) -> Option<Error> {
    if !date_ok(h) {
        Some(Error::DateParse)
    } else if exists|j: int|
        0 <= j < h.provinces@.len() && province_of((#[trigger] h.provinces@[j]).id@) is None {
        Some(Error::ProvinceParse)
    } else {
        None
    }
}

/// The error of the first bad record at or after `i`, if any.
pub open spec fn response_error(hs: Seq<Holiday>, i: int) -> Option<Error>
    decreases hs.len() - i,
{
    if i < 0 || i >= hs.len() {
        None
    } else if record_error(hs[i]) is Some {
        record_error(hs[i])
    } else {
        response_error(hs, i + 1)
    }
}

/// The record's date, once for each of its first `j` province entries that
/// name the given province.
pub open spec fn record_dates_upto(h: Holiday, pr: Province, j: int) -> Seq<int>
    decreases j,
{
    if j <= 0 {
        Seq::empty()
    } else {
        record_dates_upto(h, pr, j - 1)
            + if province_of(h.provinces@[j - 1].id@) == Some(pr) {
                seq![parsed_day_number(h.date@, "%Y-%m-%d"@)->0]
            } else {
                Seq::empty()
            }
    }
}

/// The dates the first `i` records contribute to the given province.
pub open spec fn flat_dates_upto(hs: Seq<Holiday>, pr: Province, i: int) -> Seq<int>
    decreases i,
{
    if i <= 0 {
        Seq::empty()
    } else {
        flat_dates_upto(hs, pr, i - 1)
            + record_dates_upto(hs[i - 1], pr, hs[i - 1].provinces@.len() as int)
    }
}

/// All dates the response's records contribute to the given province, in
/// record order.
pub open spec fn flat_dates(hs: Seq<Holiday>, pr: Province) -> Seq<int> {
    flat_dates_upto(hs, pr, hs.len() as int)
}

/// The planner: the owner of the engine's inputs.  Any mutation is followed
/// by a full recomputation when the suggested weeks are next read.
pub struct Planner {
    holidays: CanadianHolidays,
    province: Province,
    num_vacation_days: u16,
    fixed_vacation_days: Vec<Date>,
    start_date: Date,
}

impl Planner {
    /// The holiday dates stored for a province.
    pub closed spec fn spec_holidays(self, p: Province) -> Seq<int> {
        self.holidays.dates_for(p)
    }

    /// The selected province.
    pub closed spec fn spec_province(self) -> Province {
        self.province
    }

    /// The total vacation-day budget.
    pub closed spec fn spec_num_vacation_days(self) -> int {
        self.num_vacation_days as int
    }

    /// The user-fixed days off, sorted ascending.
    pub closed spec fn spec_fixed(self) -> Seq<int> {
        views_of(self.fixed_vacation_days@)
    }

    /// The start date's day number.
    pub closed spec fn spec_start(self) -> int {
        self.start_date@
    }

    /// The days still free to allocate: the budget minus the fixed days
    /// (never below zero).
    pub open spec fn spec_remaining(self) -> int {
        if self.spec_fixed().len() >= self.spec_num_vacation_days() {
            0
        } else {
            self.spec_num_vacation_days() - self.spec_fixed().len()
        }
    }

    /// The planner's invariant: every stored date is in range, the fixed
    /// days and each holiday list are strictly sorted.
    pub closed spec fn wf(self) -> bool {
        &&& self.start_date.wf()
        &&& strictly_sorted(views_of(self.fixed_vacation_days@))
        &&& all_wf(self.fixed_vacation_days@)
        &&& self.holidays.wf()
        &&& forall|j: int| 0 <= j < self.holidays.spec_entries().len()
            ==> strictly_sorted(views_of((#[trigger] self.holidays.spec_entries()[j]).1@))
    }

    /// Builds a planner over the given holiday table (each province's list
    /// is sorted and de-duplicated), with a zero budget, no fixed days, and
    /// the current date as start date.
    pub fn new(holidays: CanadianHolidays, province: Province) -> (r: Planner)
        requires
            holidays.wf(),
        ensures
            r.wf(),
            r.spec_province() == province,
            r.spec_num_vacation_days() == 0,
            r.spec_fixed() == Seq::<int>::empty(),
            forall|p: Province| #[trigger] r.spec_holidays(p)
                == sorted_set_of(holidays.dates_for(p)),
    {
        let ghost s0 = holidays.entries@;
        let n = holidays.entries.len();
        let mut entries2: Vec<(Province, Vec<Date>)> = Vec::new();
        let mut i: usize = 0;
        while i < n
            invariant
                s0 == holidays.entries@,
                holidays.wf(),
                n == s0.len(),
                0 <= i <= n,
                entries2@.len() == i,
                forall|j: int| 0 <= j < i ==> (#[trigger] entries2@[j]).0 == s0[j].0,
                forall|j: int| 0 <= j < i ==> views_of((#[trigger] entries2@[j]).1@)
                    == sorted_set_of(views_of(s0[j].1@)),
                forall|j: int| 0 <= j < i
                    ==> strictly_sorted(views_of((#[trigger] entries2@[j]).1@)),
                forall|j: int| 0 <= j < i ==> all_wf((#[trigger] entries2@[j]).1@),
            decreases n - i,
        {
            let e = &holidays.entries[i];
            proof {
                assert(all_wf((holidays.spec_entries()[i as int]).1@));
            }
            let lst = sorted_set(&e.1);
            entries2.push((e.0, lst));
            i = i + 1;
        }
        let r = Planner {
            holidays: CanadianHolidays { entries: entries2 },
            province,
            num_vacation_days: 0,
            fixed_vacation_days: Vec::new(),
            start_date: Date::today_or_origin(),
        };
        proof {
            let s1 = r.holidays.spec_entries();
            assert forall|p: Province| #[trigger] r.spec_holidays(p)
                == sorted_set_of(holidays.dates_for(p)) by {
                lemma_find_key_pointwise(s0, s1, p, 0);
                lemma_find_key_range(s0, p, 0);
                let f = find_key(s0, p, 0);
                if f >= s0.len() {
                    assert(sorted_set_of(Seq::<int>::empty()) =~= Seq::<int>::empty());
                }
            }
        }
        r
    }

    /// Builds a planner from the holiday service's decoded response: every
    /// record's date string is parsed and handed to each province the
    /// record names.  Fails with `DateParse` or `ProvinceParse` exactly on
    /// the first record whose date or province identifiers do not parse.
    #[verifier::loop_isolation(false)]
    #[verifier::rlimit(60)]
    pub fn from_response(response: HolidaysResponse, province: Province) -> (r: Result<Planner, Error>)
        ensures
            r is Ok <==> response_error(response.holidays@, 0) is None,
            r is Err ==> r->Err_0 == response_error(response.holidays@, 0)->0,
            r is Ok ==> r->Ok_0.wf(),
            r is Ok ==> r->Ok_0.spec_province() == province,
            r is Ok ==> r->Ok_0.spec_num_vacation_days() == 0,
            r is Ok ==> r->Ok_0.spec_fixed() == Seq::<int>::empty(),
            r is Ok ==> forall|pr: Province| #[trigger] r->Ok_0.spec_holidays(pr)
                == sorted_set_of(flat_dates(response.holidays@, pr)),
    {
        let ghost hs = response.holidays@;
        let mut table = CanadianHolidays::new();
        let nrec = response.holidays.len();
        let mut ri: usize = 0;
        while ri < nrec
            invariant
                0 <= ri <= nrec,
                table.wf(),
                response_error(hs, 0) == response_error(hs, ri as int),
                forall|pr: Province| #[trigger] table.dates_for(pr)
                    == flat_dates_upto(hs, pr, ri as int),
            decreases nrec - ri,
        {
            let h = &response.holidays[ri];
            let date = match Date::parse(h.date.as_str(), "%Y-%m-%d") {
                Some(d) => d,
                None => {
                    proof {
                        assert(!date_ok(hs[ri as int]));
                        assert(record_error(hs[ri as int]) == Some(Error::DateParse));
                        assert(response_error(hs, ri as int) == Some(Error::DateParse));
                    }
                    return Err(Error::DateParse);
                },
            };
            let nprov = h.provinces.len();
            let mut pj: usize = 0;
            while pj < nprov
                invariant
                    0 <= pj <= nprov,
                    table.wf(),
                    forall|j: int| 0 <= j < pj
                        ==> province_of((#[trigger] hs[ri as int].provinces@[j]).id@) is Some,
                    forall|pr: Province| #[trigger] table.dates_for(pr)
                        == flat_dates_upto(hs, pr, ri as int)
                            + record_dates_upto(hs[ri as int], pr, pj as int),
                decreases nprov - pj,
            {
                let pid = match Province::from_api_id(h.provinces[pj].id.as_str()) {
                    Ok(p) => p,
                    Err(_) => {
                        proof {
                            assert(province_of(hs[ri as int].provinces@[pj as int].id@) is None);
                            assert(record_error(hs[ri as int]) == Some(Error::ProvinceParse));
                            assert(response_error(hs, ri as int) == Some(Error::ProvinceParse));
                        }
                        return Err(Error::ProvinceParse);
                    },
                };
                let ghost before = table;
                table.add(pid, date);
                pj = pj + 1;
                proof {
                    assert forall|pr: Province| #[trigger] table.dates_for(pr)
                        == flat_dates_upto(hs, pr, ri as int)
                            + record_dates_upto(hs[ri as int], pr, pj as int) by {
                        if pr == pid {
                            assert(table.dates_for(pr) =~= flat_dates_upto(hs, pr, ri as int)
                                + record_dates_upto(hs[ri as int], pr, pj as int));
                        } else {
                            assert(table.dates_for(pr) == before.dates_for(pr));
                            assert(record_dates_upto(hs[ri as int], pr, pj as int)
                                =~= record_dates_upto(hs[ri as int], pr, pj - 1));
                        }
                    }
                }
            }
            ri = ri + 1;
            proof {
                assert(record_error(hs[ri - 1]) is None);
                assert forall|pr: Province| #[trigger] table.dates_for(pr)
                    == flat_dates_upto(hs, pr, ri as int) by {
                    assert(table.dates_for(pr) =~= flat_dates_upto(hs, pr, ri - 1)
                        + record_dates_upto(hs[ri - 1], pr, hs[ri - 1].provinces@.len() as int));
                }
            }
        }
        let planner = Planner::new(table, province);
        Ok(planner)
    }

    /// The stored holiday dates of the selected province, sorted ascending
    /// (empty if the table has none for it).
    pub fn holidays(&self) -> (r: Vec<Date>)
        requires
            self.wf(),
        ensures
            views_of(r@) == self.spec_holidays(self.spec_province()),
            strictly_sorted(views_of(r@)),
            all_wf(r@),
    {
        let ghost s = self.holidays.entries@;
        let n = self.holidays.entries.len();
        let mut i: usize = 0;
        while i < n && self.holidays.entries[i].0 != self.province
            invariant
                s == self.holidays.entries@,
                n == s.len(),
                0 <= i <= n,
                find_key(s, self.province, 0) == find_key(s, self.province, i as int),
            decreases n - i,
        {
            i = i + 1;
        }
        proof {
            assert(find_key(s, self.province, 0) == i as int);
        }
        let mut out: Vec<Date> = Vec::new();
        if i < n {
            let lst = &self.holidays.entries[i].1;
            proof {
                assert(all_wf((self.holidays.spec_entries()[i as int]).1@));
            }
            let m = lst.len();
            let mut j: usize = 0;
            while j < m
                invariant
                    lst@ == s[i as int].1@,
                    0 <= i < n == s.len(),
                    m == lst@.len(),
                    0 <= j <= m,
                    all_wf(lst@),
                    out@.len() == j,
                    forall|q: int| 0 <= q < j ==> #[trigger] out@[q] == lst@[q],
                decreases m - j,
            {
                out.push(lst[j]);
                j = j + 1;
            }
            proof {
                assert(out@ =~= s[i as int].1@);
                assert(views_of(out@) =~= self.spec_holidays(self.spec_province()));
                assert(strictly_sorted(views_of((self.holidays.spec_entries()[i as int]).1@)));
            }
        } else {
            proof {
                assert(views_of(out@) =~= Seq::<int>::empty());
            }
        }
        out
    }

    /// The user-fixed vacation days, sorted ascending.
    pub fn fixed_vacation_days(&self) -> (r: Vec<Date>)
        requires
            self.wf(),
        ensures
            views_of(r@) == self.spec_fixed(),
            strictly_sorted(views_of(r@)),
            all_wf(r@),
    {
        let mut out: Vec<Date> = Vec::new();
        let m = self.fixed_vacation_days.len();
        let mut j: usize = 0;
        while j < m
            invariant
                0 <= j <= m,
                m == self.fixed_vacation_days@.len(),
                all_wf(self.fixed_vacation_days@),
                out@.len() == j,
                forall|q: int| 0 <= q < j
                    ==> #[trigger] out@[q] == self.fixed_vacation_days@[q],
            decreases m - j,
        {
            out.push(self.fixed_vacation_days[j]);
            j = j + 1;
        }
        proof {
            assert(out@ =~= self.fixed_vacation_days@);
            assert(views_of(out@) =~= self.spec_fixed());
        }
        out
    }

    /// Sets the total vacation-day budget.
    pub fn set_num_vacation_days(&mut self, num: u16)
        requires
            old(self).wf(),
        ensures
            final(self).wf(),
            final(self).spec_num_vacation_days() == num as int,
            final(self).spec_fixed() == old(self).spec_fixed(),
            final(self).spec_start() == old(self).spec_start(),
            final(self).spec_province() == old(self).spec_province(),
            forall|p: Province| #[trigger] final(self).spec_holidays(p)
                == old(self).spec_holidays(p),
    {
        self.num_vacation_days = num;
    }

    /// Fixes one more vacation day, unless the budget is already exhausted;
    /// a day already fixed is not duplicated.
    pub fn add_vacation_day(&mut self, date: Date) -> (r: Result<(), Error>)
        requires
            old(self).wf(),
            date.wf(),
        ensures
            final(self).wf(),
            old(self).spec_remaining() == 0 ==> r is Err
                && r->Err_0 == Error::InsertionFail
                && *final(self) == *old(self),
            old(self).spec_remaining() > 0 ==> r is Ok
                && final(self).spec_fixed()
                    == spec_sorted_insert(old(self).spec_fixed(), date@),
            final(self).spec_num_vacation_days() == old(self).spec_num_vacation_days(),
            final(self).spec_start() == old(self).spec_start(),
            final(self).spec_province() == old(self).spec_province(),
            forall|p: Province| #[trigger] final(self).spec_holidays(p)
                == old(self).spec_holidays(p),
    {
        if self.remaining_days() == 0 {
            return Err(Error::InsertionFail);
        }
        set_insert(&mut self.fixed_vacation_days, date);
        Ok(())
    }

    /// Sets the start date of the planning horizon.
    pub fn set_start_date(&mut self, date: Date)
        requires
            old(self).wf(),
            date.wf(),
        ensures
            final(self).wf(),
            final(self).spec_start() == date@,
            final(self).spec_fixed() == old(self).spec_fixed(),
            final(self).spec_num_vacation_days() == old(self).spec_num_vacation_days(),
            final(self).spec_province() == old(self).spec_province(),
            forall|p: Province| #[trigger] final(self).spec_holidays(p)
                == old(self).spec_holidays(p),
    {
        self.start_date = date;
    }

    /// The days still free to allocate: the budget minus the fixed days,
    /// never below zero.
    pub fn remaining_days(&self) -> (r: u16)
        ensures
            r as int == self.spec_remaining(),
    {
        if self.fixed_vacation_days.len() >= self.num_vacation_days as usize {
            0
        } else {
            self.num_vacation_days - self.fixed_vacation_days.len() as u16
        }
    }

    /// The suggested vacation weeks for the current state: the selected
    /// province's holidays and the fixed days are merged into one anchor
    /// set and the week-granularity allocator is run over it with the
    /// remaining days as budget.
    pub fn suggested_vacation_weeks(&self) -> (r: Vec<IsoWeek>)
        requires
            self.wf(),
        ensures
            weeks_of(r@) == spec_vacation_weeks(
                self.spec_holidays(self.spec_province()) + self.spec_fixed(),
                self.spec_remaining(),
                self.spec_start(),
            ),
    {
        let mut merged = self.holidays();
        let fixed = self.fixed_vacation_days();
        let m = fixed.len();
        let mut j: usize = 0;
        while j < m
            invariant
                0 <= j <= m,
                m == fixed@.len(),
                all_wf(fixed@),
                all_wf(merged@),
                views_of(merged@) == self.spec_holidays(self.spec_province())
                    + views_of(fixed@.take(j as int)),
            decreases m - j,
        {
            let ghost prev = views_of(merged@);
            merged.push(fixed[j]);
            j = j + 1;
            proof {
                assert(views_of(merged@) =~= prev.push(fixed@[j - 1]@));
                assert(views_of(fixed@.take(j as int))
                    =~= views_of(fixed@.take(j - 1)).push(fixed@[j - 1]@));
                assert(views_of(merged@) =~= self.spec_holidays(self.spec_province())
                    + views_of(fixed@.take(j as int)));
            }
        }
        proof {
            assert(fixed@.take(m as int) =~= fixed@);
            assert(views_of(merged@) =~= self.spec_holidays(self.spec_province())
                + self.spec_fixed());
        }
        let remaining = self.remaining_days();
        calculate_vacation_weeks(&merged, remaining, &self.start_date)
    }
}

} // verus!

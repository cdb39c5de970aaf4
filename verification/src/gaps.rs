//! Business-day gap detection over the observed range of dated folders.
//!
//! The analyzer walks every calendar day from the earliest to the latest
//! observed date.  A day with no folder is reported as missing when it is
//! a weekday (Monday through Friday) and counted as a skipped weekend
//! otherwise; the end date itself is never flagged.

use vstd::prelude::*;
use crate::date::{
    Date, date_valid, date_le, date_lt, next_date_of, weekday_of, is_business_day, day_number_of,
    date_before, next_day, weekday, lemma_next_day_tight, lemma_day_number_next,
    lemma_day_number_monotone,
};
use crate::record::{FileEntry, parsed_dates, folder_dates};

verus! {

/// Gap analysis over the observed date range of one line.
#[derive(Debug)]
pub struct GapReport {
    pub start_date: Date,
    pub end_date: Date,
    pub missing_weekdays: Vec<Date>,
    pub skipped_weekends: u32,
    pub is_empty: bool,
}

/// The weekdays in `[a, b)` that are absent from `obs`, in calendar order.
pub open spec fn missing_weekdays_between(a: Date, b: Date, obs: Set<Date>) -> Seq<Date>
    decreases b.year - a.year, 12 - a.month, 31 - a.day,
{
    if !date_valid(a) || !date_valid(b) || !date_lt(a, b) {
        Seq::empty()
    } else {
        let rest = missing_weekdays_between(next_date_of(a), b, obs);
        if is_business_day(a) && !obs.contains(a) {
            seq![a] + rest
        } else {
            rest
        }
    }
}

/// The weekend days in `[a, b)` that are absent from `obs`, in calendar
/// order.
pub open spec fn skipped_weekends_between(a: Date, b: Date, obs: Set<Date>) -> Seq<Date>
    decreases b.year - a.year, 12 - a.month, 31 - a.day,
{
    if !date_valid(a) || !date_valid(b) || !date_lt(a, b) {
        Seq::empty()
    } else {
        let rest = skipped_weekends_between(next_date_of(a), b, obs);
        if !is_business_day(a) && !obs.contains(a) {
            seq![a] + rest
        } else {
            rest
        }
    }
}

/// A day with no folder in the observed range is classified missing
/// exactly when it is a weekday (Monday is 1 .. Sunday is 7, weekdays are
/// 1 through 5), and as a skipped weekend exactly otherwise.
pub proof fn lemma_gap_day_classification(a: Date, b: Date, obs: Set<Date>, d: Date)
    requires
        date_valid(a),
        date_valid(b),
    ensures
        missing_weekdays_between(a, b, obs).contains(d) <==> (date_valid(d) && date_le(a, d)
            && date_lt(d, b) && !obs.contains(d) && weekday_of(d) <= 5),
        skipped_weekends_between(a, b, obs).contains(d) <==> (date_valid(d) && date_le(a, d)
            && date_lt(d, b) && !obs.contains(d) && weekday_of(d) > 5),
    decreases b.year - a.year, 12 - a.month, 31 - a.day,
{
    let ms = missing_weekdays_between(a, b, obs);
    let ws = skipped_weekends_between(a, b, obs);
    if !date_lt(a, b) {
        assert(ms =~= Seq::<Date>::empty());
        assert(ws =~= Seq::<Date>::empty());
        assert(!ms.contains(d) && !ws.contains(d));
    } else {
        let n = next_date_of(a);
        lemma_gap_day_classification(n, b, obs, d);
        let mrest = missing_weekdays_between(n, b, obs);
        let wrest = skipped_weekends_between(n, b, obs);
        if date_valid(d) && date_lt(a, d) {
            lemma_next_day_tight(a, d);
        }
        assert(date_le(a, d) ==> d == a || (date_valid(d) ==> date_le(n, d)));
        if is_business_day(a) && !obs.contains(a) {
            assert(ms == seq![a] + mrest);
            assert(ms.contains(d) <==> (d == a || mrest.contains(d))) by {
                if ms.contains(d) {
                    let i = choose|i: int| 0 <= i < ms.len() && ms[i] == d;
                    if i == 0 {
                    } else {
                        assert(mrest[i - 1] == d);
                    }
                } else {
                }
                if d == a {
                    assert(ms[0] == d);
                }
                if mrest.contains(d) {
                    let i = choose|i: int| 0 <= i < mrest.len() && mrest[i] == d;
                    assert(ms[i + 1] == d);
                }
            }
        } else {
            assert(ms == mrest);
        }
        if !is_business_day(a) && !obs.contains(a) {
            assert(ws == seq![a] + wrest);
            assert(ws.contains(d) <==> (d == a || wrest.contains(d))) by {
                if ws.contains(d) {
                    let i = choose|i: int| 0 <= i < ws.len() && ws[i] == d;
                    if i == 0 {
                    } else {
                        assert(wrest[i - 1] == d);
                    }
                }
                if d == a {
                    assert(ws[0] == d);
                }
                if wrest.contains(d) {
                    let i = choose|i: int| 0 <= i < wrest.len() && wrest[i] == d;
                    assert(ws[i + 1] == d);
                }
            }
        } else {
            assert(ws == wrest);
        }
    }
}

/// Every day in the walk contributes to at most one of the two lists, so
/// together they never outnumber the days between the two dates.
pub proof fn lemma_gap_counts_bounded(a: Date, b: Date, obs: Set<Date>)
    requires
        date_valid(a),
        date_valid(b),
    ensures
        missing_weekdays_between(a, b, obs).len() + skipped_weekends_between(a, b, obs).len()
            <= (if date_lt(a, b) {
            day_number_of(b) - day_number_of(a)
        } else {
            0int
        }),
    decreases b.year - a.year, 12 - a.month, 31 - a.day,
{
    if date_lt(a, b) {
        let n = next_date_of(a);
        lemma_day_number_next(a);
        lemma_next_day_tight(a, b);
        lemma_day_number_monotone(n, b);
        lemma_gap_counts_bounded(n, b, obs);
    }
}

pub(crate) fn vec_contains_date(v: &Vec<Date>, d: &Date) -> (r: bool)
    ensures
        r == v@.contains(*d),
{
    let mut i: usize = 0;
    while i < v.len()
        invariant
            i <= v@.len(),
            forall|j: int| 0 <= j < i ==> v@[j] != *d,
        decreases v@.len() - i,
    {
        if v[i].year == d.year && v[i].month == d.month && v[i].day == d.day {
            assert(v@[i as int] == *d);
            return true;
        }
        i += 1;
    }
    false
}

/// Walks the observed date range of a line and reports every missing
/// weekday and the number of weekend days with no folder.  `is_empty` is
/// set, and the other fields carry no information, when no folder name of
/// the line encodes a date.
#[verifier::loop_isolation(false)]
pub fn find_gaps(files: &Vec<FileEntry>, line_id: &str) -> (r: GapReport)
    ensures
        ({
            let obs = parsed_dates(files@, line_id@);
            &&& (r.is_empty <==> (forall|d: Date| !obs.contains(d)))
            &&& (r.is_empty ==> r.missing_weekdays@ == Seq::<Date>::empty()
                && r.skipped_weekends == 0)
            &&& (!r.is_empty ==> {
                &&& date_valid(r.start_date) && date_valid(r.end_date)
                &&& obs.contains(r.start_date) && obs.contains(r.end_date)
                &&& forall|d: Date|
                    obs.contains(d) ==> date_le(r.start_date, d) && date_le(d, r.end_date)
                &&& r.missing_weekdays@ == missing_weekdays_between(
                    r.start_date,
                    r.end_date,
                    obs,
                )
                &&& r.skipped_weekends == skipped_weekends_between(
                    r.start_date,
                    r.end_date,
                    obs,
                ).len()
            })
        }),
{
    let ghost obs = parsed_dates(files@, line_id@);
    let dates = folder_dates(files, line_id);
    if dates.len() == 0 {
        assert forall|d: Date| !obs.contains(d) by {
            assert(!dates@.contains(d));
        }
        return GapReport {
            start_date: Date { year: 1970, month: 1, day: 1 },
            end_date: Date { year: 1970, month: 1, day: 1 },
            missing_weekdays: Vec::new(),
            skipped_weekends: 0,
            is_empty: true,
        };
    }
    let start = dates[0];
    let end = dates[dates.len() - 1];
    proof {
        assert(dates@.contains(start)) by {
            assert(dates@[0] == start);
        }
        assert(dates@.contains(end)) by {
            assert(dates@[dates@.len() - 1] == end);
        }
        assert forall|d: Date| obs.contains(d) implies date_le(start, d) && date_le(
            d,
            end,
        ) by {
            assert(dates@.contains(d));
            let i = choose|i: int| 0 <= i < dates@.len() && dates@[i] == d;
            if i > 0 {
                assert(date_lt(dates@[0], dates@[i]));
            }
            if i < dates@.len() - 1 {
                assert(date_lt(dates@[i], dates@[dates@.len() - 1]));
            }
        }
    }
    let mut missing: Vec<Date> = Vec::new();
    let mut skipped: u32 = 0;
    let mut curr = start;
    proof {
        assert(missing@ + missing_weekdays_between(curr, end, obs) =~= missing_weekdays_between(
            curr,
            end,
            obs,
        ));
        lemma_day_number_monotone(curr, end);
        lemma_gap_counts_bounded(start, end, obs);
        assert(day_number_of(Date { year: 9999, month: 12, day: 31 }) == 3652364);
        assert(day_number_of(end) <= 3652364) by {
            lemma_day_number_monotone(end, Date { year: 9999, month: 12, day: 31 });
        }
        assert(day_number_of(start) <= day_number_of(end));
    }
    while date_before(&curr, &end)
        invariant
            date_valid(curr),
            date_valid(end),
            date_le(curr, end),
            missing_weekdays_between(start, end, obs) == missing@ + missing_weekdays_between(
                curr,
                end,
                obs,
            ),
            skipped_weekends_between(start, end, obs).len() == skipped
                + skipped_weekends_between(curr, end, obs).len(),
        decreases day_number_of(end) - day_number_of(curr),
    {
        proof {
            lemma_day_number_monotone(curr, end);
        }
        let in_obs = vec_contains_date(&dates, &curr);
        proof {
            assert(dates@.contains(curr) == obs.contains(curr));
        }
        let ghost m_here = missing_weekdays_between(curr, end, obs);
        let ghost s_here = skipped_weekends_between(curr, end, obs);
        let wd = weekday(&curr);
        if !in_obs {
            if wd <= 5 {
                let ghost old_missing = missing@;
                missing.push(curr);
                proof {
                    assert(m_here == seq![curr] + missing_weekdays_between(
                        next_date_of(curr),
                        end,
                        obs,
                    ));
                    assert(missing@ + missing_weekdays_between(next_date_of(curr), end, obs)
                        =~= (old_missing + m_here));
                }
            } else {
                proof {
                    assert(s_here == seq![curr] + skipped_weekends_between(
                        next_date_of(curr),
                        end,
                        obs,
                    ));
                    lemma_gap_counts_bounded(curr, end, obs);
                    lemma_day_number_monotone(curr, Date { year: 9999, month: 12, day: 31 });
                }
                skipped = skipped + 1;
            }
        }
        proof {
            if in_obs || wd > 5 {
                assert(m_here == missing_weekdays_between(next_date_of(curr), end, obs));
            }
            if in_obs || wd <= 5 {
                assert(s_here == skipped_weekends_between(next_date_of(curr), end, obs));
            }
            lemma_day_number_next(curr);
            lemma_next_day_tight(curr, end);
        }
        curr = next_day(&curr);
    }
    proof {
        assert(missing_weekdays_between(curr, end, obs) =~= Seq::<Date>::empty());
        assert(missing@ + Seq::<Date>::empty() =~= missing@);
        assert(!(forall|d: Date| !obs.contains(d))) by {
            assert(obs.contains(start));
        }
    }
    GapReport { start_date: start, end_date: end, missing_weekdays: missing, skipped_weekends: skipped, is_empty: false }
}

} // verus!

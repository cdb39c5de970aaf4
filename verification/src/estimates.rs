//! Transfer progress estimation: the configured project date range read
//! from the transfer script, the day currently being copied, weekday
//! spans, and the data and time left.  Reading the script file, the free
//! disk space and the clock is the caller's work.

use vstd::prelude::*;
use crate::date::{
    Date, date_valid, date_le, date_lt, next_date_of, is_business_day, day_number_of, date_before,
    date_before_eq, next_day, weekday, parse_date_chars, parse_ymd, lemma_next_day_tight,
    lemma_day_number_next, lemma_day_number_monotone,
};
use crate::record::{FileEntry, extract_date_spec, extract_date_from_dir, parsed_dates,
    folder_dates};
use crate::ranking::weekday_count;

verus! {

/// The index of the first newline of `s`, or its length.
pub open spec fn first_nl(s: Seq<char>) -> int
    decreases s.len(),
{
    if s.len() == 0 {
        0
    } else if s.first() == '\n' {
        0
    } else {
        1 + first_nl(s.drop_first())
    }
}

proof fn lemma_first_nl_bounds(s: Seq<char>)
    ensures
        0 <= first_nl(s) <= s.len(),
    decreases s.len(),
{
    if s.len() > 0 && s.first() != '\n' {
        lemma_first_nl_bounds(s.drop_first());
    }
}

/// A line with its trailing carriage return removed.
pub open spec fn strip_cr(s: Seq<char>) -> Seq<char> {
    if s.len() > 0 && s.last() == '\r' {
        s.drop_last()
    } else {
        s
    }
}

/// The lines of a text: split at newlines, each with a trailing carriage
/// return removed, with no final empty line after a trailing newline.
pub open spec fn split_lines(s: Seq<char>) -> Seq<Seq<char>>
    decreases s.len(),
{
    if s.len() == 0 {
        Seq::empty()
    } else {
        let i = first_nl(s);
        if !(0 <= i < s.len()) {
            seq![strip_cr(s)]
        } else {
            seq![strip_cr(s.subrange(0, i))] + split_lines(s.subrange(i + 1, s.len() as int))
        }
    }
}

fn first_nl_exec(s: &str) -> (r: usize)
    ensures
        r == first_nl(s@),
        r <= s@.len(),
    decreases s@.len(),
{
    let n = s.unicode_len();
    if n == 0 {
        return 0;
    }
    if s.get_char(0) == '\n' {
        return 0;
    }
    let rest = s.substring_char(1, n);
    proof {
        assert(rest@ =~= s@.drop_first());
    }
    1 + first_nl_exec(rest)
}

/// Splits a text into lines.
pub fn split_lines_exec(s: &str) -> (r: Vec<String>)
    ensures
        r@.len() == split_lines(s@).len(),
        forall|i: int| 0 <= i < r@.len() ==> (#[trigger] r@[i])@ == split_lines(s@)[i],
    decreases s@.len(),
{
    let n = s.unicode_len();
    if n == 0 {
        return Vec::new();
    }
    let i = first_nl_exec(s);
    proof {
        lemma_first_nl_bounds(s@);
    }
    if i >= n {
        let line = strip_cr_exec(s);
        let mut r: Vec<String> = Vec::new();
        r.push(line);
        return r;
    }
    let head = s.substring_char(0, i);
    proof {
        assert(head@ =~= s@.subrange(0, i as int));
    }
    let line = strip_cr_exec(head);
    let tail = s.substring_char(i + 1, n);
    proof {
        assert(tail@ =~= s@.subrange(i as int + 1, s@.len() as int));
    }
    let mut rest = split_lines_exec(tail);
    rest.insert(0, line);
    proof {
        let whole = split_lines(s@);
        assert(whole == seq![strip_cr(s@.subrange(0, i as int))] + split_lines(tail@));
        assert(rest@.len() == whole.len());
        assert forall|j: int| 0 <= j < rest@.len() implies (#[trigger] rest@[j])@ == whole[j] by {
            if j == 0 {
            } else {
                assert(whole[j] == split_lines(tail@)[j - 1]);
            }
        }
    }
    rest
}

fn strip_cr_exec(s: &str) -> (r: String)
    ensures
        r@ == strip_cr(s@),
{
    let n = s.unicode_len();
    if n > 0 && s.get_char(n - 1) == '\r' {
        let t = s.substring_char(0, n - 1);
        proof {
            assert(t@ =~= s@.drop_last());
        }
        String::from_str(t)
    } else {
        String::from_str(s)
    }
}

/// `pat` occurs inside `s`.
pub open spec fn contains_seq(s: Seq<char>, pat: Seq<char>) -> bool {
    exists|i: int| 0 <= i <= s.len() - pat.len() && #[trigger] s.subrange(i, i + pat.len()) =~= pat
}

fn str_contains(s: &str, pat: &str) -> (r: bool)
    ensures
        r == contains_seq(s@, pat@),
{
    let n = s.unicode_len();
    let m = pat.unicode_len();
    if m == 0 {
        proof {
            assert(s@.subrange(0, 0 + pat@.len() as int) =~= pat@);
        }
        return true;
    }
    if m > n {
        proof {
            if contains_seq(s@, pat@) {
                let i = choose|i: int|
                    0 <= i <= s@.len() - pat@.len() && #[trigger] s@.subrange(i, i + pat@.len())
                        =~= pat@;
                assert(false);
            }
        }
        return false;
    }
    let mut i: usize = 0;
    while i <= n - m
        invariant
            i <= n - m + 1,
            1 <= m <= n,
            n == s@.len(),
            m == pat@.len(),
            forall|j: int| 0 <= j < i ==> !(#[trigger] s@.subrange(j, j + pat@.len()) =~= pat@),
        decreases n - m + 1 - i,
    {
        let sub = s.substring_char(i, i + m);
        proof {
            assert(sub@ =~= s@.subrange(i as int, i as int + m as int));
        }
        if crate::text::str_eq(sub, pat) {
            proof {
                assert(s@.subrange(i as int, i as int + pat@.len() as int) =~= pat@);
            }
            return true;
        }
        i += 1;
    }
    proof {
        if contains_seq(s@, pat@) {
            let j = choose|j: int|
                0 <= j <= s@.len() - pat@.len() && #[trigger] s@.subrange(j, j + pat@.len())
                    =~= pat@;
            assert(!(s@.subrange(j, j + pat@.len()) =~= pat@));
        }
    }
    false
}

/// The index of the first double quote of `s`, or its length.
pub open spec fn first_quote(s: Seq<char>) -> int
    decreases s.len(),
{
    if s.len() == 0 {
        0
    } else if s.first() == '"' {
        0
    } else {
        1 + first_quote(s.drop_first())
    }
}

proof fn lemma_first_quote_bounds(s: Seq<char>)
    ensures
        0 <= first_quote(s) <= s.len(),
    decreases s.len(),
{
    if s.len() > 0 && s.first() != '"' {
        lemma_first_quote_bounds(s.drop_first());
    }
}

fn first_quote_exec(s: &str) -> (r: usize)
    ensures
        r == first_quote(s@),
        r <= s@.len(),
    decreases s@.len(),
{
    let n = s.unicode_len();
    if n == 0 {
        return 0;
    }
    if s.get_char(0) == '"' {
        return 0;
    }
    let rest = s.substring_char(1, n);
    proof {
        assert(rest@ =~= s@.drop_first());
    }
    1 + first_quote_exec(rest)
}

/// The text between the first two double quotes of a line, if the line
/// has two.
pub open spec fn first_quoted_span(s: Seq<char>) -> Option<Seq<char>> {
    let i = first_quote(s);
    if i >= s.len() {
        None
    } else {
        let rest = s.subrange(i + 1, s.len() as int);
        let j = first_quote(rest);
        if j >= rest.len() {
            None
        } else {
            Some(rest.subrange(0, j))
        }
    }
}

/// The date of a transfer-script assignment line: the strict
/// `YYYY-MM-DD` between the first two double quotes.
pub open spec fn ps1_date_of(line: Seq<char>) -> Option<Date> {
    match first_quoted_span(line) {
        Some(q) => parse_date_chars(q),
        None => None,
    }
}

/// Reads the date quoted in a transfer-script line such as an assignment
/// of a quoted day to a date variable.
pub fn extract_date_from_ps1(line: &str) -> (r: Option<Date>)
    ensures
        r == ps1_date_of(line@),
        r is Some ==> date_valid(r->0),
{
    let n = line.unicode_len();
    let i = first_quote_exec(line);
    proof {
        lemma_first_quote_bounds(line@);
    }
    if i >= n {
        return None;
    }
    let rest = line.substring_char(i + 1, n);
    proof {
        assert(rest@ =~= line@.subrange(i as int + 1, line@.len() as int));
    }
    let j = first_quote_exec(rest);
    proof {
        lemma_first_quote_bounds(rest@);
    }
    if j >= rest.unicode_len() {
        return None;
    }
    let q = rest.substring_char(0, j);
    proof {
        assert(q@ =~= rest@.subrange(0, j as int));
    }
    parse_ymd(q)
}

/// The start and end dates a transfer-script text configures: scanning
/// the lines in order, the first successful extraction from a line that
/// names the start-date variable, and likewise for the end-date variable;
/// a line is tried for the end date only when it does not name the start
/// date while that is still unset.
pub open spec fn scan_config(
    lines: Seq<Seq<char>>,
    s0: Option<Date>,
    e0: Option<Date>,
) -> (Option<Date>, Option<Date>)
    decreases lines.len(),
{
    if lines.len() == 0 {
        (s0, e0)
    } else {
        let l = lines.first();
        if s0 is None && contains_seq(l, "$startDate"@) {
            scan_config(lines.drop_first(), ps1_date_of(l), e0)
        } else if e0 is None && contains_seq(l, "$endDate"@) {
            scan_config(lines.drop_first(), s0, ps1_date_of(l))
        } else {
            scan_config(lines.drop_first(), s0, e0)
        }
    }
}

/// Reads the configured start and end dates out of the transfer-script
/// text; `None` unless both are present.
pub fn parse_config(content: &str) -> (r: Option<(Date, Date)>)
    ensures
        ({
            let (s, e) = scan_config(split_lines(content@), None, None);
            ((s is Some && e is Some) ==> r == Some((s->0, e->0))) && ((s is None || e is None)
                ==> r is None)
        }),
        r is Some ==> date_valid((r->0).0) && date_valid((r->0).1),
{
    let lines = split_lines_exec(content);
    let mut start: Option<Date> = None;
    let mut end: Option<Date> = None;
    let mut k: usize = 0;
    let ghost all = split_lines(content@);
    proof {
        assert(all.skip(0) =~= all);
    }
    while k < lines.len()
        invariant
            k <= lines@.len(),
            lines@.len() == all.len(),
            forall|i: int| 0 <= i < lines@.len() ==> (#[trigger] lines@[i])@ == all[i],
            scan_config(all, None, None) == scan_config(all.skip(k as int), start, end),
            start is Some ==> date_valid(start->0),
            end is Some ==> date_valid(end->0),
        decreases lines@.len() - k,
    {
        proof {
            assert(all.skip(k as int).first() == all[k as int]);
            assert(all.skip(k as int).drop_first() =~= all.skip(k as int + 1));
            assert(lines@[k as int]@ == all[k as int]);
        }
        let line = &lines[k];
        if start.is_none() && str_contains(line.as_str(), "$startDate") {
            proof {
                reveal_strlit("$startDate");
            }
            start = extract_date_from_ps1(line.as_str());
        } else if end.is_none() && str_contains(line.as_str(), "$endDate") {
            proof {
                reveal_strlit("$startDate");
                reveal_strlit("$endDate");
            }
            end = extract_date_from_ps1(line.as_str());
        } else {
            proof {
                reveal_strlit("$startDate");
                reveal_strlit("$endDate");
            }
        }
        k += 1;
    }
    proof {
        assert(all.skip(all.len() as int) =~= Seq::<Seq<char>>::empty());
    }
    match (start, end) {
        (Some(s), Some(e)) => Some((s, e)),
        _ => None,
    }
}

/// Business days in `[a, b)`: the loop that walks completed days never
/// counts the current day itself.
pub open spec fn weekday_count_before(a: Date, b: Date) -> int
    decreases b.year - a.year, 12 - a.month, 31 - a.day,
{
    if !date_valid(a) || !date_valid(b) || !date_lt(a, b) {
        0
    } else {
        (if is_business_day(a) {
            1int
        } else {
            0int
        }) + weekday_count_before(next_date_of(a), b)
    }
}

/// Counts business days in the inclusive range `[a, b]`.
#[verifier::loop_isolation(false)]
pub fn count_weekdays_between(a: &Date, b: &Date) -> (n: u32)
    requires
        date_valid(*a),
        date_valid(*b),
    ensures
        n == weekday_count(*a, *b),
{
    if !date_before_eq(a, b) {
        return 0;
    }
    proof {
        lemma_day_number_monotone(*a, *b);
        lemma_day_number_monotone(*b, Date { year: 9999, month: 12, day: 31 });
        assert(day_number_of(Date { year: 9999, month: 12, day: 31 }) == 3652364);
    }
    let mut cnt: u32 = 0;
    let mut curr = *a;
    while date_before(&curr, b)
        invariant
            date_valid(curr),
            date_le(curr, *b),
            weekday_count(*a, *b) == cnt + weekday_count(curr, *b),
            cnt <= day_number_of(curr) - day_number_of(*a),
        decreases day_number_of(*b) - day_number_of(curr),
    {
        proof {
            lemma_day_number_monotone(curr, *b);
            lemma_day_number_next(curr);
            lemma_next_day_tight(curr, *b);
        }
        let wd = weekday(&curr);
        if wd <= 5 {
            cnt += 1;
        }
        curr = next_day(&curr);
    }
    let wd = weekday(&curr);
    proof {
        assert(curr == *b);
        lemma_day_number_monotone(*a, curr);
    }
    if wd <= 5 {
        cnt += 1;
    }
    cnt
}

/// Counts business days in `[a, b)`.
#[verifier::loop_isolation(false)]
pub fn count_weekdays_before(a: &Date, b: &Date) -> (n: u32)
    requires
        date_valid(*a),
        date_valid(*b),
    ensures
        n == weekday_count_before(*a, *b),
{
    if !date_before(a, b) {
        return 0;
    }
    proof {
        lemma_day_number_monotone(*a, *b);
        lemma_day_number_monotone(*b, Date { year: 9999, month: 12, day: 31 });
        assert(day_number_of(Date { year: 9999, month: 12, day: 31 }) == 3652364);
    }
    let mut cnt: u32 = 0;
    let mut curr = *a;
    while date_before(&curr, b)
        invariant
            date_valid(curr),
            date_le(curr, *b),
            weekday_count_before(*a, *b) == cnt + weekday_count_before(curr, *b),
            cnt <= day_number_of(curr) - day_number_of(*a),
        decreases day_number_of(*b) - day_number_of(curr),
    {
        proof {
            lemma_day_number_monotone(curr, *b);
            lemma_day_number_next(curr);
            lemma_next_day_tight(curr, *b);
        }
        let wd = weekday(&curr);
        if wd <= 5 {
            cnt += 1;
        }
        curr = next_day(&curr);
    }
    cnt
}

/// The date of the first record written within the last five minutes
/// whose folder encodes a date of this line.
pub open spec fn first_recent_date(files: Seq<FileEntry>, line: Seq<char>, now: int) -> Option<
    Date,
>
    decreases files.len(),
{
    if files.len() == 0 {
        None
    } else {
        let f = files.first();
        if now - f.modified < 5 && extract_date_spec(f.parent_dir@, line) is Some {
            extract_date_spec(f.parent_dir@, line)
        } else {
            first_recent_date(files.drop_first(), line, now)
        }
    }
}

/// The day currently being copied: the dated folder of a file written in
/// the last five minutes, or else the latest dated folder, or `None`
/// when no folder encodes a date.
#[verifier::loop_isolation(false)]
pub fn get_current_copy_date(files: &Vec<FileEntry>, line_id: &str, now_minutes: i64) -> (r:
    Option<Date>)
    requires
        forall|i: int|
            -0x4000_0000_0000_0000 < (#[trigger] files@[i]).modified < 0x4000_0000_0000_0000,
        -0x4000_0000_0000_0000 < now_minutes < 0x4000_0000_0000_0000,
    ensures
        first_recent_date(files@, line_id@, now_minutes as int) is Some ==> r == first_recent_date(
            files@,
            line_id@,
            now_minutes as int,
        ),
        first_recent_date(files@, line_id@, now_minutes as int) is None ==> {
            &&& (r is None <==> (forall|d: Date|
                !parsed_dates(files@, line_id@).contains(d)))
            &&& (r is Some ==> parsed_dates(files@, line_id@).contains(r->0) && forall|d: Date|
                parsed_dates(files@, line_id@).contains(d) ==> date_le(d, r->0))
        },
        r is Some ==> date_valid(r->0),
{
    let ghost frd = first_recent_date(files@, line_id@, now_minutes as int);
    let mut k: usize = 0;
    proof {
        assert(files@.skip(0) =~= files@);
    }
    while k < files.len()
        invariant
            k <= files@.len(),
            frd == first_recent_date(files@.skip(k as int), line_id@, now_minutes as int),
        decreases files@.len() - k,
    {
        proof {
            assert(files@.skip(k as int).first() == files@[k as int]);
            assert(files@.skip(k as int).drop_first() =~= files@.skip(k as int + 1));
        }
        if now_minutes - files[k].modified < 5 {
            let d = extract_date_from_dir(files[k].parent_dir.as_str(), line_id);
            if d.is_some() {
                return d;
            }
        }
        k += 1;
    }
    proof {
        assert(files@.skip(files@.len() as int) =~= Seq::<FileEntry>::empty());
        assert(frd is None);
    }
    let dates = folder_dates(files, line_id);
    if dates.len() == 0 {
        proof {
            assert forall|d: Date| !parsed_dates(files@, line_id@).contains(d) by {
                assert(!dates@.contains(d));
            }
        }
        return None;
    }
    let last = dates[dates.len() - 1];
    proof {
        assert(dates@[dates@.len() - 1] == last);
        assert(dates@.contains(last));
        assert forall|d: Date| parsed_dates(files@, line_id@).contains(d) implies date_le(
            d,
            last,
        ) by {
            assert(dates@.contains(d));
            let i = choose|i: int| 0 <= i < dates@.len() && dates@[i] == d;
            if i < dates@.len() - 1 {
                assert(date_lt(dates@[i], dates@[dates@.len() - 1]));
            }
        }
    }
    Some(last)
}

/// The total size of the records of one folder.
pub open spec fn dir_size(files: Seq<FileEntry>, dir: Seq<char>) -> int
    decreases files.len(),
{
    if files.len() == 0 {
        0
    } else {
        dir_size(files.drop_last(), dir) + (if files.last().parent_dir@ == dir {
            files.last().size as int
        } else {
            0int
        })
    }
}

/// The distinct folder names, in first-occurrence order.
pub open spec fn dir_list(files: Seq<FileEntry>) -> Seq<Seq<char>>
    decreases files.len(),
{
    if files.len() == 0 {
        Seq::empty()
    } else {
        let rest = dir_list(files.drop_last());
        if rest.contains(files.last().parent_dir@) {
            rest
        } else {
            rest.push(files.last().parent_dir@)
        }
    }
}

/// The per-folder totals, one per distinct folder.
pub open spec fn dir_sums(files: Seq<FileEntry>) -> Seq<u64> {
    Seq::new(dir_list(files).len(), |i: int| dir_size(files, dir_list(files)[i]) as u64)
}

proof fn lemma_dir_size_le_sum(files: Seq<FileEntry>, dir: Seq<char>)
    ensures
        0 <= dir_size(files, dir) <= crate::stats::sum_of(crate::stats::all_sizes(files)),
    decreases files.len(),
{
    if files.len() > 0 {
        lemma_dir_size_le_sum(files.drop_last(), dir);
        assert(crate::stats::all_sizes(files).drop_last() =~= crate::stats::all_sizes(
            files.drop_last(),
        ));
        assert(crate::stats::all_sizes(files).last() == files.last().size);
    }
}

proof fn lemma_sum_prefix(files: Seq<FileEntry>, k: int)
    requires
        0 <= k <= files.len(),
    ensures
        crate::stats::sum_of(crate::stats::all_sizes(files.take(k))) <= crate::stats::sum_of(
            crate::stats::all_sizes(files),
        ),
    decreases files.len() - k,
{
    if k == files.len() {
        assert(files.take(k) =~= files);
    } else {
        lemma_sum_prefix(files, k + 1);
        assert(files.take(k + 1).drop_last() =~= files.take(k));
        assert(files.take(k + 1).last() == files[k]);
        let s1 = crate::stats::all_sizes(files.take(k + 1));
        assert(s1.drop_last() =~= crate::stats::all_sizes(files.take(k)));
        assert(s1.last() == files[k].size);
    }
}

fn dir_total(files: &Vec<FileEntry>, dir: &String) -> (t: u64)
    requires
        crate::stats::sum_of(crate::stats::all_sizes(files@)) <= 0xFFFF_FFFF_FFFF_FFFF,
    ensures
        t == dir_size(files@, dir@),
{
    let mut t: u64 = 0;
    let mut k: usize = 0;
    proof {
        assert(files@.take(0) =~= Seq::<FileEntry>::empty());
    }
    while k < files.len()
        invariant
            k <= files@.len(),
            t == dir_size(files@.take(k as int), dir@),
            crate::stats::sum_of(crate::stats::all_sizes(files@)) <= 0xFFFF_FFFF_FFFF_FFFF,
        decreases files@.len() - k,
    {
        proof {
            assert(files@.take(k as int + 1).drop_last() =~= files@.take(k as int));
            assert(files@.take(k as int + 1).last() == files@[k as int]);
            lemma_dir_size_le_sum(files@.take(k as int + 1), dir@);
            lemma_sum_prefix(files@, k as int + 1);
        }
        if files[k].parent_dir == *dir {
            t = t + files[k].size;
        }
        k += 1;
    }
    proof {
        assert(files@.take(files@.len() as int) =~= files@);
    }
    t
}

/// The per-folder names and totals of a record list, in first-occurrence
/// order.
#[verifier::loop_isolation(false)]
pub fn folder_totals(files: &Vec<FileEntry>) -> (r: Vec<(String, u64)>)
    requires
        crate::stats::sum_of(crate::stats::all_sizes(files@)) <= 0xFFFF_FFFF_FFFF_FFFF,
    ensures
        r@.len() == dir_list(files@).len(),
        forall|i: int|
            0 <= i < r@.len() ==> (#[trigger] r@[i]).0@ == dir_list(files@)[i] && r@[i].1
                == dir_sums(files@)[i],
{
    let mut names: Vec<String> = Vec::new();
    let mut sums: Vec<(String, u64)> = Vec::new();
    let mut k: usize = 0;
    proof {
        assert(files@.take(0) =~= Seq::<FileEntry>::empty());
        assert(dir_list(files@.take(0)) =~= Seq::<Seq<char>>::empty());
    }
    while k < files.len()
        invariant
            k <= files@.len(),
            names@.len() == dir_list(files@.take(k as int)).len(),
            forall|i: int|
                0 <= i < names@.len() ==> (#[trigger] names@[i])@ == dir_list(
                    files@.take(k as int),
                )[i],
            sums@.len() == names@.len(),
            forall|i: int|
                0 <= i < sums@.len() ==> (#[trigger] sums@[i]).0@ == names@[i]@ && sums@[i].1
                    == dir_size(files@, names@[i]@),
            crate::stats::sum_of(crate::stats::all_sizes(files@)) <= 0xFFFF_FFFF_FFFF_FFFF,
        decreases files@.len() - k,
    {
        proof {
            assert(files@.take(k as int + 1).drop_last() =~= files@.take(k as int));
            assert(files@.take(k as int + 1).last() == files@[k as int]);
        }
        let ghost old_list = dir_list(files@.take(k as int));
        let ghost new_list = dir_list(files@.take(k as int + 1));
        let mut found = false;
        let mut j: usize = 0;
        while j < names.len() && !found
            invariant
                j <= names@.len(),
                found ==> j > 0 && names@[j - 1]@ == files@[k as int].parent_dir@,
                !found ==> forall|i: int|
                    0 <= i < j ==> (#[trigger] names@[i])@ != files@[k as int].parent_dir@,
            decreases names@.len() - j,
        {
            if crate::text::str_eq(names[j].as_str(), files[k].parent_dir.as_str()) {
                found = true;
            }
            j += 1;
        }
        if !found {
            proof {
                assert(!old_list.contains(files@[k as int].parent_dir@)) by {
                    if old_list.contains(files@[k as int].parent_dir@) {
                        let i = choose|i: int|
                            0 <= i < old_list.len() && old_list[i] == files@[k as int].parent_dir@;
                        assert(names@[i]@ == files@[k as int].parent_dir@);
                    }
                }
                assert(new_list == old_list.push(files@[k as int].parent_dir@));
            }
            let t = dir_total(files, &files[k].parent_dir);
            names.push(files[k].parent_dir.clone());
            sums.push((files[k].parent_dir.clone(), t));
        } else {
            proof {
                assert(old_list.contains(files@[k as int].parent_dir@)) by {
                    assert(names@[j - 1]@ == files@[k as int].parent_dir@);
                    assert(old_list[j - 1] == names@[j - 1]@);
                }
                assert(new_list == old_list);
            }
        }
        k += 1;
    }
    proof {
        assert(files@.take(files@.len() as int) =~= files@);
    }
    sums
}

/// Transfer progress and capacity estimates, all exact: byte totals
/// instead of rounded terabytes, and the estimated time left in whole
/// hours and days at the current speed.
#[derive(Debug)]
pub struct EstimatesReport {
    pub current_copy_date: Date,
    pub daily_average_gib: u64,
    pub weekdays_remaining: u32,
    pub weekdays_completed: u32,
    pub total_weekdays: u32,
    pub estimated_data_left_bytes: u128,
    pub free_space_bytes: u64,
    pub disk_status_ok: bool,
    pub estimated_days_eta: Option<u128>,
    pub estimated_hours_eta: Option<u128>,
    pub start_date: Date,
    pub end_date: Date,
}

/// The median daily bytes of a record list: the median of the per-folder
/// totals, zero when there are no records.
pub open spec fn median_daily_bytes(files: Seq<FileEntry>) -> int {
    if dir_sums(files).len() > 0 {
        crate::stats::median_x2_of(dir_sums(files)) / 2
    } else {
        0
    }
}

/// Computes the transfer estimates from the records, the transfer-script
/// text, the clock, the free space and the measured speed.  Returns
/// `None` exactly when the script configures no complete date range.
#[verifier::loop_isolation(false)]
#[verifier::rlimit(60)]
pub fn calculate_estimates(
    files: &Vec<FileEntry>,
    line_id: &str,
    config_content: &str,
    now_minutes: i64,
    avail_bytes: u64,
    speed_bps: u64,
) -> (r: Option<EstimatesReport>)
    requires
        crate::stats::sum_of(crate::stats::all_sizes(files@)) <= 0xFFFF_FFFF_FFFF_FFFF,
        forall|i: int|
            -0x4000_0000_0000_0000 < (#[trigger] files@[i]).modified < 0x4000_0000_0000_0000,
        -0x4000_0000_0000_0000 < now_minutes < 0x4000_0000_0000_0000,
    ensures
        ({
            let (cs, ce) = scan_config(split_lines(config_content@), None, None);
            &&& (r is None <==> (cs is None || ce is None))
            &&& (r is Some ==> {
                let sd = cs->0;
                let ed = ce->0;
                let rep = r->0;
                let frd = first_recent_date(files@, line_id@, now_minutes as int);
                let med = median_daily_bytes(files@);
                &&& rep.start_date == sd
                &&& rep.end_date == ed
                &&& (frd is Some ==> rep.current_copy_date == frd->0)
                &&& (frd is None && (exists|d: Date|
                    parsed_dates(files@, line_id@).contains(d)) ==> parsed_dates(
                    files@,
                    line_id@,
                ).contains(rep.current_copy_date) && (forall|d: Date|
                    parsed_dates(files@, line_id@).contains(d) ==> date_le(
                        d,
                        rep.current_copy_date,
                    )))
                &&& (frd is None && (forall|d: Date|
                    !parsed_dates(files@, line_id@).contains(d)) ==> rep.current_copy_date == sd)
                &&& rep.daily_average_gib == med / 0x4000_0000
                &&& rep.total_weekdays == weekday_count(sd, ed)
                &&& rep.weekdays_completed == weekday_count_before(sd, rep.current_copy_date)
                &&& rep.weekdays_remaining == (if rep.current_copy_date == (Date {
                    year: 9999,
                    month: 12,
                    day: 31,
                }) {
                    0int
                } else {
                    weekday_count(next_date_of(rep.current_copy_date), ed)
                })
                &&& rep.estimated_data_left_bytes == rep.weekdays_remaining * med
                &&& rep.free_space_bytes == avail_bytes
                &&& rep.disk_status_ok == (avail_bytes > rep.estimated_data_left_bytes)
                &&& (speed_bps == 0 ==> rep.estimated_days_eta is None
                    && rep.estimated_hours_eta is None)
                &&& (speed_bps > 0 ==> {
                    let hours = rep.estimated_data_left_bytes as int / speed_bps as int / 3600;
                    rep.estimated_hours_eta == Some(hours as u128) && rep.estimated_days_eta
                        == Some((hours / 24) as u128)
                })
            })
        }),
{
    let cfg = parse_config(config_content);
    let (start_date, end_date) = match cfg {
        Some(p) => p,
        None => {
            return None;
        },
    };
    let current_copy_date = match get_current_copy_date(files, line_id, now_minutes) {
        Some(d) => d,
        None => start_date,
    };
    let pairs = folder_totals(files);
    let mut sums: Vec<u64> = Vec::new();
    let mut pk: usize = 0;
    while pk < pairs.len()
        invariant
            pk <= pairs@.len(),
            sums@.len() == pk,
            forall|i: int| 0 <= i < pk ==> #[trigger] sums@[i] == pairs@[i].1,
        decreases pairs@.len() - pk,
    {
        sums.push(pairs[pk].1);
        pk += 1;
    }
    proof {
        assert(sums@ =~= dir_sums(files@));
    }
    let med: u64 = if sums.len() > 0 {
        let sorted = crate::stats::sorted_copy_u64(&sums);
        let lo = sorted[(sorted.len() - 1) / 2];
        let hi = sorted[sorted.len() / 2];
        (((lo as u128) + (hi as u128)) / 2) as u64
    } else {
        0
    };
    proof {
        assert(med == median_daily_bytes(files@));
    }
    let daily_average_gib = med / 0x4000_0000;
    let total_weekdays = count_weekdays_between(&start_date, &end_date);
    let weekdays_completed = count_weekdays_before(&start_date, &current_copy_date);
    let weekdays_remaining: u32 = if current_copy_date.year == 9999 && current_copy_date.month
        == 12 && current_copy_date.day == 31 {
        0
    } else {
        let nxt = next_day(&current_copy_date);
        count_weekdays_between(&nxt, &end_date)
    };
    proof {
        assert((weekdays_remaining as int) * (med as int) < 0x1_0000_0000_0000_0000_0000_0000)
            by (nonlinear_arith)
            requires
                weekdays_remaining <= 0xFFFF_FFFFu32,
                med <= 0xFFFF_FFFF_FFFF_FFFFu64,
        ;
    }
    let estimated_data_left_bytes: u128 = (weekdays_remaining as u128) * (med as u128);
    let disk_status_ok = (avail_bytes as u128) > estimated_data_left_bytes;
    let (estimated_days_eta, estimated_hours_eta) = if speed_bps > 0 {
        let seconds_left = estimated_data_left_bytes / (speed_bps as u128);
        let hours_left = seconds_left / 3600;
        let days_eta = hours_left / 24;
        (Some(days_eta), Some(hours_left))
    } else {
        (None, None)
    };
    Some(
        EstimatesReport {
            current_copy_date,
            daily_average_gib,
            weekdays_remaining,
            weekdays_completed,
            total_weekdays,
            estimated_data_left_bytes,
            free_space_bytes: avail_bytes,
            disk_status_ok,
            estimated_days_eta,
            estimated_hours_eta,
            start_date,
            end_date,
        },
    )
}

} // verus!

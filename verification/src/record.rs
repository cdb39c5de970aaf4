//! Scanned file records and the dated-folder naming contract.
//!
//! Dated folders are named `Archive_Beam_<LINE>_<YYYY-MM-DD>`; the date is
//! read from the ten characters after the prefix.  A folder name of any
//! other shape contributes no date.

use vstd::prelude::*;
use crate::date::{Date, date_valid, date_lt, date_before, parse_date_chars, parse_ymd};
use crate::text::{has_prefix, str_has_prefix};

verus! {

/// One packaged file found on disk, as reported by the caller's scan.
/// `modified` is the modification time in whole minutes since the Unix
/// epoch, with local-time semantics.
#[derive(Debug, Clone)]
pub struct FileEntry {
    pub name: String,
    pub size: u64,
    pub is_valid: bool,
    pub invalid_reason: Option<String>,
    pub modified: i64,
    pub parent_dir: String,
}

/// The folder-name prefix that marks a dated archive folder of a line.
pub open spec fn archive_prefix_chars(line: Seq<char>) -> Seq<char> {
    "Archive_Beam_"@ + line + "_"@
}

/// The date encoded in a folder name, if the name has the dated shape.
pub open spec fn extract_date_spec(dir: Seq<char>, line: Seq<char>) -> Option<Date> {
    let p = archive_prefix_chars(line);
    if has_prefix(dir, p) && dir.len() >= p.len() + 10 {
        parse_date_chars(dir.subrange(p.len() as int, p.len() as int + 10))
    } else {
        None
    }
}

/// Builds the folder-name prefix of a line at run time.
pub fn archive_prefix(line_id: &str) -> (r: String)
    ensures
        r@ == archive_prefix_chars(line_id@),
{
    let mut s = String::from_str("Archive_Beam_");
    s.append(line_id);
    s.append("_");
    s
}

/// Reads the date encoded in a dated folder name, `None` when the name
/// does not match `Archive_Beam_<line_id>_<YYYY-MM-DD>`.
pub fn extract_date_from_dir(parent_dir: &str, line_id: &str) -> (r: Option<Date>)
    ensures
        r == extract_date_spec(parent_dir@, line_id@),
        r is Some ==> date_valid(r->0),
{
    let prefix = archive_prefix(line_id);
    if !str_has_prefix(parent_dir, prefix.as_str()) {
        return None;
    }
    let pn = prefix.as_str().unicode_len();
    let n = parent_dir.unicode_len();
    if n - pn < 10 {
        return None;
    }
    let ds = parent_dir.substring_char(pn, pn + 10);
    parse_ymd(ds)
}

/// The set of dates encoded in the folder names of a list of records.
pub open spec fn parsed_dates(files: Seq<FileEntry>, line: Seq<char>) -> Set<Date> {
    Set::new(
        |d: Date|
            exists|i: int|
                0 <= i < files.len() && extract_date_spec(#[trigger] files[i].parent_dir@, line)
                    == Some(d),
    )
}

/// The distinct dated-folder dates of a record list, in ascending calendar
/// order.
pub fn folder_dates(files: &Vec<FileEntry>, line_id: &str) -> (r: Vec<Date>)
    ensures
        forall|i: int, j: int| 0 <= i < j < r@.len() ==> date_lt(r@[i], r@[j]),
        forall|d: Date| r@.contains(d) <==> parsed_dates(files@, line_id@).contains(d),
        forall|i: int| 0 <= i < r@.len() ==> date_valid(#[trigger] r@[i]),
{
    let mut r: Vec<Date> = Vec::new();
    let mut k: usize = 0;
    while k < files.len()
        invariant
            k <= files@.len(),
            forall|i: int, j: int| 0 <= i < j < r@.len() ==> date_lt(r@[i], r@[j]),
            forall|d: Date| r@.contains(d) <==> parsed_dates(files@.take(k as int), line_id@).contains(d),
            forall|i: int| 0 <= i < r@.len() ==> date_valid(#[trigger] r@[i]),
        decreases files@.len() - k,
    {
        let ghost prev = r@;
        let d_opt = extract_date_from_dir(files[k].parent_dir.as_str(), line_id);
        proof {
            assert(files@.take(k as int + 1).drop_last() =~= files@.take(k as int));
            assert(files@.take(k as int + 1).last() == files@[k as int]);
        }
        if let Some(d) = d_opt {
            let mut i: usize = 0;
            while i < r.len() && date_before(&r[i], &d)
                invariant
                    i <= r@.len(),
                    forall|j: int| 0 <= j < i ==> date_lt(r@[j], d),
                    r@ == prev,
                decreases r@.len() - i,
            {
                i += 1;
            }
            if i == r.len() || !(r[i].year == d.year && r[i].month == d.month && r[i].day == d.day) {
                r.insert(i, d);
                proof {
                    prev.insert_ensures(i as int, d);
                    if i < prev.len() {
                        assert(!date_lt(prev[i as int], d));
                        assert(prev[i as int] != d);
                        assert(date_lt(d, prev[i as int]));
                    }
                    assert(forall|j: int| 0 <= j < i ==> date_lt(r@[j], d));
                    assert forall|j: int| i < j < r@.len() implies #[trigger] date_lt(
                        d,
                        r@[j],
                    ) by {
                        assert(r@[j] == prev[j - 1]);
                        assert(i < prev.len());
                        assert(date_lt(d, prev[i as int]));
                        if j - 1 > i {
                            assert(date_lt(prev[i as int], prev[j - 1]));
                        }
                    }
                    assert(forall|d2: Date| prev.contains(d2) ==> r@.contains(d2)) by {
                        assert(forall|j: int|
                            0 <= j < prev.len() ==> r@.contains(#[trigger] prev[j])) by {
                            assert(forall|j: int|
                                0 <= j < prev.len() ==> prev[j] == (if j < i {
                                    r@[j]
                                } else {
                                    r@[j + 1]
                                }));
                        }
                    }
                    assert(forall|d2: Date| r@.contains(d2) ==> d2 == d || prev.contains(d2)) by {
                        assert(forall|j: int|
                            0 <= j < r@.len() && j != i ==> r@[j] == (if j < i {
                                prev[j]
                            } else {
                                prev[j - 1]
                            }));
                    }
                    assert(r@.contains(d)) by {
                        assert(r@[i as int] == d);
                    }
                }
            } else {
                proof {
                    assert(r@[i as int] == d);
                    assert(r@.contains(d));
                }
            }
        }
        proof {
            let fk = files@[k as int];
            let taken = files@.take(k as int + 1);
            let rest = files@.take(k as int);
            assert forall|d2: Date| parsed_dates(taken, line_id@).contains(d2) implies (
            parsed_dates(rest, line_id@).contains(d2) || extract_date_spec(fk.parent_dir@, line_id@)
                == Some(d2)) by {
                let i = choose|i: int|
                    0 <= i < taken.len() && extract_date_spec(
                        #[trigger] taken[i].parent_dir@,
                        line_id@,
                    ) == Some(d2);
                if i < k {
                    assert(rest[i] == taken[i]);
                    assert(extract_date_spec(rest[i].parent_dir@, line_id@) == Some(d2));
                } else {
                    assert(taken[i] == fk);
                }
            }
            assert forall|d2: Date| parsed_dates(rest, line_id@).contains(d2) implies parsed_dates(
                taken,
                line_id@,
            ).contains(d2) by {
                let i = choose|i: int|
                    0 <= i < rest.len() && extract_date_spec(
                        #[trigger] rest[i].parent_dir@,
                        line_id@,
                    ) == Some(d2);
                assert(taken[i] == rest[i]);
                assert(extract_date_spec(taken[i].parent_dir@, line_id@) == Some(d2));
            }
            if d_opt is Some {
                assert(extract_date_spec(taken[k as int].parent_dir@, line_id@) == Some(
                    d_opt->0,
                ));
                assert(parsed_dates(taken, line_id@).contains(d_opt->0));
            }
            assert forall|d2: Date| r@.contains(d2) implies parsed_dates(
                taken,
                line_id@,
            ).contains(d2) by {
                if d_opt is Some && d2 == d_opt->0 {
                } else {
                    assert(prev.contains(d2));
                    assert(parsed_dates(rest, line_id@).contains(d2));
                }
            }
            assert forall|d2: Date| parsed_dates(taken, line_id@).contains(d2) implies r@.contains(
                d2,
            ) by {
                if parsed_dates(rest, line_id@).contains(d2) {
                    assert(prev.contains(d2));
                    assert(r@.contains(d2));
                } else {
                    assert(extract_date_spec(fk.parent_dir@, line_id@) == Some(d2));
                    assert(d_opt == Some(d2));
                }
            }
        }
        k += 1;
    }
    proof {
        assert(files@.take(k as int) =~= files@);
    }
    r
}

} // verus!

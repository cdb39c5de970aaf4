//! Alert debouncing: the pure decision of what to do after each audit
//! run, from the current and previous transfer state and the persisted
//! state-change timestamp.  Reading and writing the files, and sending
//! the alert, are the caller's work.

use vstd::prelude::*;
use crate::date::{Date, date_valid, day_number_of, day_number, parse_date_chars, parse_ymd};
use crate::text::{is_digit_char, digit_val, trimmed, trim_str, str_eq};

verus! {

/// A local wall-clock time to the minute.
#[derive(Clone, Copy, Debug, PartialEq, Eq, Structural)]
pub struct DateTime {
    pub date: Date,
    pub hour: u32,
    pub minute: u32,
}

pub open spec fn datetime_valid(t: DateTime) -> bool {
    date_valid(t.date) && t.hour <= 23 && t.minute <= 59
}

/// Minutes since the day-number epoch.
pub open spec fn total_minutes_of(t: DateTime) -> int {
    day_number_of(t.date) * 1440 + t.hour * 60 + t.minute
}

/// The result of reading a sixteen-character `YYYY-MM-DD HH:MM` string.
pub open spec fn parse_timestamp_chars(s: Seq<char>) -> Option<DateTime> {
    if s.len() == 16 && s[10] == ' ' && s[13] == ':' && is_digit_char(s[11]) && is_digit_char(
        s[12],
    ) && is_digit_char(s[14]) && is_digit_char(s[15]) {
        match parse_date_chars(s.subrange(0, 10)) {
            Some(d) => {
                let hour = digit_val(s[11]) * 10 + digit_val(s[12]);
                let minute = digit_val(s[14]) * 10 + digit_val(s[15]);
                if hour <= 23 && minute <= 59 {
                    Some(DateTime { date: d, hour: hour as u32, minute: minute as u32 })
                } else {
                    None
                }
            },
            None => None,
        }
    } else {
        None
    }
}

/// Parses a strict `YYYY-MM-DD HH:MM` timestamp.
pub fn parse_timestamp(s: &str) -> (r: Option<DateTime>)
    ensures
        r == parse_timestamp_chars(s@),
        r is Some ==> datetime_valid(r->0),
{
    if s.unicode_len() != 16 {
        return None;
    }
    if s.get_char(10) != ' ' || s.get_char(13) != ':' {
        return None;
    }
    let h0 = s.get_char(11);
    let h1 = s.get_char(12);
    let m0 = s.get_char(14);
    let m1 = s.get_char(15);
    let hd0 = h0 as u32;
    let hd1 = h1 as u32;
    let md0 = m0 as u32;
    let md1 = m1 as u32;
    if !(48 <= hd0 && hd0 <= 57 && 48 <= hd1 && hd1 <= 57 && 48 <= md0 && md0 <= 57 && 48 <= md1
        && md1 <= 57) {
        return None;
    }
    let ds = s.substring_char(0, 10);
    proof {
        assert(ds@ =~= s@.subrange(0, 10));
    }
    let d = parse_ymd(ds);
    match d {
        Some(dd) => {
            let hour = (hd0 - 48) * 10 + (hd1 - 48);
            let minute = (md0 - 48) * 10 + (md1 - 48);
            if hour <= 23 && minute <= 59 {
                Some(DateTime { date: dd, hour, minute })
            } else {
                None
            }
        },
        None => None,
    }
}

/// Minutes since the epoch, computable at run time.
pub fn total_minutes(t: &DateTime) -> (n: u64)
    requires
        datetime_valid(*t),
    ensures
        n == total_minutes_of(*t),
{
    let dn = day_number(&t.date);
    proof {
        crate::date::lemma_day_number_monotone(t.date, Date { year: 9999, month: 12, day: 31 });
        assert(day_number_of(Date { year: 9999, month: 12, day: 31 }) == 3652364);
    }
    dn * 1440 + (t.hour as u64) * 60 + t.minute as u64
}

/// The minutes elapsed from a persisted timestamp (trimmed, then parsed
/// strictly) to the current time; `None` when the content does not parse.
pub open spec fn elapsed_minutes_spec(s: Seq<char>, now: DateTime) -> Option<i64> {
    match parse_timestamp_chars(trimmed(s)) {
        Some(t) => Some((total_minutes_of(now) - total_minutes_of(t)) as i64),
        None => None,
    }
}

/// Parses a state-change timestamp and reports how many minutes ago it
/// was, negative when it lies in the future.
pub fn parse_timestamp_and_get_elapsed_minutes(timestamp_str: &str, current_time: DateTime) -> (r:
    Option<i64>)
    requires
        datetime_valid(current_time),
    ensures
        r == elapsed_minutes_spec(timestamp_str@, current_time),
{
    let t = trim_str(timestamp_str);
    match parse_timestamp(t) {
        Some(ts) => {
            let a = total_minutes(&current_time);
            let b = total_minutes(&ts);
            Some(a as i64 - b as i64)
        },
        None => None,
    }
}

/// What one audit run should do about alerting.
#[derive(Debug, Clone, Copy, PartialEq, Eq, Structural)]
pub enum AlertAction {
    NoAction,
    CreateTimestamp,
    WaitForThreshold,
    SendAlert { minutes_elapsed: i64 },
}

/// The two state files of one line under the base directory.
#[derive(Debug)]
pub struct AlertFiles {
    pub state_file: String,
    pub timestamp_file: String,
}

/// Builds the state-file and state-change-timestamp paths of a line.
pub fn get_alert_file_paths(base_dir: &str, line_id: &str) -> (r: AlertFiles)
    ensures
        r.state_file@ == base_dir@ + "/.transfer_state_"@ + line_id@,
        r.timestamp_file@ == base_dir@ + "/.transfer_state_changed_"@ + line_id@,
{
    let mut state_file = String::from_str(base_dir);
    state_file.append("/.transfer_state_");
    state_file.append(line_id);
    let mut timestamp_file = String::from_str(base_dir);
    timestamp_file.append("/.transfer_state_changed_");
    timestamp_file.append(line_id);
    AlertFiles { state_file, timestamp_file }
}

/// Decides the alert action: a state change starts (or restarts) the
/// debounce timestamp; an unchanged state with a readable timestamp
/// sends the alert once the threshold is reached and waits below it;
/// everything else does nothing.
pub fn determine_alert_action(
    current_state: &str,
    prev_state: &str,
    timestamp_file_content: Option<&str>,
    threshold_minutes: u64,
    current_time: DateTime,
) -> (r: AlertAction)
    requires
        datetime_valid(current_time),
        threshold_minutes <= 0x7FFF_FFFF_FFFF_FFFF,
    ensures
        current_state@ != prev_state@ ==> r == AlertAction::CreateTimestamp,
        current_state@ == prev_state@ && timestamp_file_content is None ==> r
            == AlertAction::NoAction,
        current_state@ == prev_state@ && timestamp_file_content is Some ==> ({
            match elapsed_minutes_spec(timestamp_file_content->0@, current_time) {
                None => r == AlertAction::NoAction,
                Some(e) => r == (if e >= threshold_minutes as i64 {
                    AlertAction::SendAlert { minutes_elapsed: e }
                } else {
                    AlertAction::WaitForThreshold
                }),
            }
        }),
{
    if !str_eq(current_state, prev_state) {
        return AlertAction::CreateTimestamp;
    }
    let content = match timestamp_file_content {
        Some(c) => c,
        None => {
            return AlertAction::NoAction;
        },
    };
    match parse_timestamp_and_get_elapsed_minutes(content, current_time) {
        Some(minutes_elapsed) => {
            if minutes_elapsed >= threshold_minutes as i64 {
                AlertAction::SendAlert { minutes_elapsed }
            } else {
                AlertAction::WaitForThreshold
            }
        },
        None => AlertAction::NoAction,
    }
}

} // verus!

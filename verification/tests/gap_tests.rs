use beam_audit::date::Date;
use beam_audit::gaps::find_gaps;
use beam_audit::record::FileEntry;

fn make_entry(date_str: &str, line_id: &str) -> FileEntry {
    FileEntry {
        name: "dummy.zip".to_string(),
        size: 0,
        is_valid: true,
        invalid_reason: None,
        modified: 0,
        parent_dir: format!("Archive_Beam_{}_{}", line_id, date_str),
    }
}

#[test]
fn test_find_gaps_clean_week() {
    // Mon 29th, Tue 30th, Wed 31st (No gaps)
    let files = vec![
        make_entry("2024-07-29", "B"),
        make_entry("2024-07-30", "B"),
        make_entry("2024-07-31", "B"),
    ];

    let report = find_gaps(&files, "B");
    assert_eq!(report.missing_weekdays.len(), 0);
    assert_eq!(report.skipped_weekends, 0);
    assert_eq!(report.start_date, Date { year: 2024, month: 7, day: 29 });
    assert_eq!(report.end_date, Date { year: 2024, month: 7, day: 31 });
}

#[test]
fn test_find_gaps_missing_tuesday() {
    // Mon 29th, Wed 31st (Tue missing)
    let files = vec![
        make_entry("2024-07-29", "B"), // Mon
        make_entry("2024-07-31", "B"), // Wed
    ];

    let report = find_gaps(&files, "B");
    assert_eq!(report.missing_weekdays.len(), 1);
    assert_eq!(report.missing_weekdays[0], Date { year: 2024, month: 7, day: 30 });
}

#[test]
fn test_find_gaps_skip_weekend() {
    // Fri 2nd, Mon 5th (Sat 3rd, Sun 4th missing but acceptable)
    let files = vec![
        make_entry("2024-08-02", "B"), // Fri
        make_entry("2024-08-05", "B"), // Mon
    ];

    let report = find_gaps(&files, "B");
    assert_eq!(report.missing_weekdays.len(), 0);
    assert_eq!(report.skipped_weekends, 2); // Sat, Sun
}

#[test]
fn test_find_gaps_no_dated_folders() {
    let files = vec![FileEntry {
        name: "dummy.zip".to_string(),
        size: 10,
        is_valid: true,
        invalid_reason: None,
        modified: 0,
        parent_dir: "SomeOtherDir".to_string(),
    }];
    let report = find_gaps(&files, "B");
    assert!(report.is_empty);
    assert_eq!(report.missing_weekdays.len(), 0);
    assert_eq!(report.skipped_weekends, 0);
}

#[test]
fn test_find_gaps_wrong_line_ignored() {
    let files = vec![make_entry("2024-07-29", "A"), make_entry("2024-07-31", "A")];
    let report = find_gaps(&files, "B");
    assert!(report.is_empty);
}

#[test]
fn test_weekday_of_known_dates() {
    // 2024-07-29 is a Monday, 2024-08-04 is a Sunday
    assert_eq!(beam_audit::date::weekday(&Date { year: 2024, month: 7, day: 29 }), 1);
    assert_eq!(beam_audit::date::weekday(&Date { year: 2024, month: 8, day: 3 }), 6);
    assert_eq!(beam_audit::date::weekday(&Date { year: 2024, month: 8, day: 4 }), 7);
}

#[test]
fn test_next_day_rollovers() {
    let next = beam_audit::date::next_day(&Date { year: 2024, month: 2, day: 28 });
    assert_eq!(next, Date { year: 2024, month: 2, day: 29 }); // leap year
    let next = beam_audit::date::next_day(&Date { year: 2023, month: 2, day: 28 });
    assert_eq!(next, Date { year: 2023, month: 3, day: 1 });
    let next = beam_audit::date::next_day(&Date { year: 2024, month: 12, day: 31 });
    assert_eq!(next, Date { year: 2025, month: 1, day: 1 });
}

#[test]
fn test_parse_ymd_strictness() {
    assert_eq!(
        beam_audit::date::parse_ymd("2024-07-29"),
        Some(Date { year: 2024, month: 7, day: 29 })
    );
    assert_eq!(beam_audit::date::parse_ymd("2024-13-01"), None);
    assert_eq!(beam_audit::date::parse_ymd("2023-02-29"), None);
    assert_eq!(beam_audit::date::parse_ymd("2024/07/29"), None);
    assert_eq!(beam_audit::date::parse_ymd("2024-07-2"), None);
}

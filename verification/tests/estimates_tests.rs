use beam_audit::date::Date;
use beam_audit::estimates::{
    calculate_estimates, extract_date_from_ps1, get_current_copy_date, parse_config,
};
use beam_audit::record::FileEntry;

fn entry(name: &str, parent_dir: &str, size: u64, modified: i64) -> FileEntry {
    FileEntry {
        name: name.to_string(),
        size,
        is_valid: true,
        invalid_reason: None,
        modified,
        parent_dir: parent_dir.to_string(),
    }
}

#[test]
fn test_extract_date_from_ps1() {
    let line = "$startDate = \"2024-07-29\"";
    let date = extract_date_from_ps1(line);
    assert_eq!(date, Some(Date { year: 2024, month: 7, day: 29 }));

    let line_err = "$startDate = \"invalid-date\"";
    assert!(extract_date_from_ps1(line_err).is_none());
}

#[test]
fn test_parse_config() {
    let content = "$startDate = \"2024-07-29\"\n$endDate = \"2024-09-10\"\n";
    let (start, end) = parse_config(content).unwrap();
    assert_eq!(start, Date { year: 2024, month: 7, day: 29 });
    assert_eq!(end, Date { year: 2024, month: 9, day: 10 });
}

#[test]
fn test_parse_config_missing_dates() {
    assert!(parse_config("some other content\n").is_none());
}

#[test]
fn test_get_current_copy_date() {
    // Case 1: Active Transfer (Recent file exists)
    let now: i64 = 29_000_000;
    let files_active = vec![
        entry("file1.zip", "Archive_Beam_B_2024-08-01", 100, now - 2),
        entry("file2.zip", "Archive_Beam_B_2024-07-31", 100, now - 60),
    ];

    let date_active = get_current_copy_date(&files_active, "B", now);
    assert_eq!(date_active, Some(Date { year: 2024, month: 8, day: 1 }));

    // Case 2: No Active Transfer (Use latest folder)
    let files_idle = vec![
        entry("file1.zip", "Archive_Beam_B_2024-07-31", 100, now - 120),
        entry("file2.zip", "Archive_Beam_B_2024-08-02", 100, now - 180),
    ];

    let date_idle = get_current_copy_date(&files_idle, "B", now);
    // Should pick 2024-08-02 as it is the latest folder date in the list
    assert_eq!(date_idle, Some(Date { year: 2024, month: 8, day: 2 }));
}

#[test]
fn test_calculate_estimates_basic() {
    let now: i64 = 29_000_000;
    // Two folders, 3 GiB and 5 GiB: median daily bytes is 4 GiB
    let gib: u64 = 1 << 30;
    let files = vec![
        entry("a.zip", "Archive_Beam_B_2024-07-29", 3 * gib, now - 600),
        entry("b.zip", "Archive_Beam_B_2024-07-30", 5 * gib, now - 600),
    ];
    let config = "$startDate = \"2024-07-29\"\n$endDate = \"2024-08-02\"\n";
    let report = calculate_estimates(&files, "B", config, now, 20 * gib, 0).unwrap();
    assert_eq!(report.start_date, Date { year: 2024, month: 7, day: 29 });
    assert_eq!(report.end_date, Date { year: 2024, month: 8, day: 2 });
    // Latest folder is 2024-07-30 (Tue); remaining weekdays: Jul 31, Aug 1, Aug 2
    assert_eq!(report.current_copy_date, Date { year: 2024, month: 7, day: 30 });
    assert_eq!(report.total_weekdays, 5);
    assert_eq!(report.weekdays_completed, 1);
    assert_eq!(report.weekdays_remaining, 3);
    assert_eq!(report.daily_average_gib, 4);
    assert_eq!(report.estimated_data_left_bytes, 3 * 4 * gib as u128);
    assert!(report.disk_status_ok);
    assert!(report.estimated_days_eta.is_none());
    assert!(report.estimated_hours_eta.is_none());
}

#[test]
fn test_calculate_estimates_no_config() {
    let files: Vec<FileEntry> = Vec::new();
    assert!(calculate_estimates(&files, "B", "nothing here\n", 0, 0, 0).is_none());
}

#[test]
fn test_calculate_estimates_eta() {
    let now: i64 = 29_000_000;
    let files = vec![entry("a.zip", "Archive_Beam_B_2024-07-29", 7200, now - 600)];
    let config = "$startDate = \"2024-07-29\"\n$endDate = \"2024-07-31\"\n";
    // Two weekdays remain at 7200 bytes each; at 2 bytes/s that is 7200 s = 2 h
    let report = calculate_estimates(&files, "B", config, now, 100_000, 2).unwrap();
    assert_eq!(report.weekdays_remaining, 2);
    assert_eq!(report.estimated_hours_eta, Some(2));
    assert_eq!(report.estimated_days_eta, Some(0));
}

#[test]
fn test_email_config_parse() {
    let content = "SMTP_USER=user@example.com\nSMTP_PASS=\"secret\"\nRECIPIENT_EMAIL = ops@example.com\n";
    let cfg = beam_audit::emailcfg::EmailConfig::parse(content).unwrap();
    assert_eq!(cfg.smtp_user, "user@example.com");
    assert_eq!(cfg.smtp_pass, "secret");
    assert_eq!(cfg.recipient, "ops@example.com");
    assert!(beam_audit::emailcfg::EmailConfig::parse("SMTP_USER=x\n").is_none());
}

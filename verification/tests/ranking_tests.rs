use beam_audit::date::Date;
use beam_audit::ranking::{
    calculate_health_score, calculate_monthly_rankings, combine_rankings,
    count_expected_weekdays_in_month, find_always_empty_files, MonthlyMetrics,
    MonthlyRankingReport, SCORE_SCALE,
};
use beam_audit::ratio::Ratio;
use beam_audit::record::{extract_date_from_dir, FileEntry};

fn make_test_entry(date: &str, line_id: &str, name: &str, is_valid: bool, size: u64) -> FileEntry {
    FileEntry {
        name: name.to_string(),
        size,
        is_valid,
        invalid_reason: if is_valid { None } else { Some("Test error".to_string()) },
        modified: 0,
        parent_dir: format!("Archive_Beam_{}_{}", line_id, date),
    }
}

fn metrics(
    year: i32,
    month: u32,
    missing_days: usize,
    anomaly_count: usize,
    invalid_files: usize,
    empty_files: usize,
    expected_weekdays: usize,
    actual_archives: usize,
    score_points: u64,
    is_complete: bool,
) -> MonthlyMetrics {
    MonthlyMetrics {
        year,
        month,
        missing_days,
        anomaly_count,
        invalid_files,
        empty_files,
        expected_weekdays,
        actual_archives,
        health_score: score_points * SCORE_SCALE,
        is_complete,
    }
}

fn points(scaled: u64) -> f64 {
    scaled as f64 / SCORE_SCALE as f64
}

#[test]
fn test_extract_date_from_dir() {
    assert_eq!(
        extract_date_from_dir("Archive_Beam_B_2024-10-15", "B"),
        Some(Date { year: 2024, month: 10, day: 15 })
    );
    assert_eq!(
        extract_date_from_dir("Archive_Beam_A_2024-07-29", "A"),
        Some(Date { year: 2024, month: 7, day: 29 })
    );
    // Wrong line ID
    assert_eq!(extract_date_from_dir("Archive_Beam_B_2024-10-15", "A"), None);
    // Invalid format
    assert_eq!(extract_date_from_dir("SomeOtherDir", "B"), None);
}

#[test]
fn test_count_expected_weekdays_full_month() {
    // October 2024 has 23 weekdays (full month)
    let start = Date { year: 2024, month: 10, day: 1 };
    let end = Date { year: 2024, month: 10, day: 31 };
    let today = Date { year: 2024, month: 11, day: 1 };
    assert_eq!(count_expected_weekdays_in_month(2024, 10, start, end, today), 23);
}

#[test]
fn test_count_expected_weekdays_partial_start() {
    // July 2024 starting from 29th (Mon) to 31st (Wed) = 3 weekdays
    let start = Date { year: 2024, month: 7, day: 29 };
    let end = Date { year: 2024, month: 12, day: 31 };
    let today = Date { year: 2024, month: 8, day: 15 };
    assert_eq!(count_expected_weekdays_in_month(2024, 7, start, end, today), 3);
}

#[test]
fn test_count_expected_weekdays_current_month() {
    // If today is mid-month, only count up to today
    let start = Date { year: 2024, month: 1, day: 1 };
    let end = Date { year: 2024, month: 12, day: 31 };
    // Today is Jan 15, 2024 (Monday)
    let today = Date { year: 2024, month: 1, day: 15 };
    // Jan 1-15, 2024: 11 weekdays
    assert_eq!(count_expected_weekdays_in_month(2024, 1, start, end, today), 11);
}

#[test]
fn test_count_expected_weekdays_future_month() {
    // Future month should return 0
    let start = Date { year: 2024, month: 1, day: 1 };
    let end = Date { year: 2024, month: 12, day: 31 };
    let today = Date { year: 2024, month: 6, day: 15 };
    assert_eq!(count_expected_weekdays_in_month(2024, 12, start, end, today), 0);
}

#[test]
fn test_find_always_empty_files() {
    let files = vec![
        make_test_entry("2024-10-01", "B", "normal.zip", true, 5000),
        make_test_entry("2024-10-01", "B", "always_empty.zip", true, 22),
        make_test_entry("2024-10-02", "B", "normal.zip", true, 5100),
        make_test_entry("2024-10-02", "B", "always_empty.zip", true, 22),
        make_test_entry("2024-10-01", "B", "sometimes_empty.zip", true, 22),
        make_test_entry("2024-10-02", "B", "sometimes_empty.zip", true, 5000),
    ];

    let always_empty = find_always_empty_files(&files, 1000);
    assert!(always_empty.iter().any(|n| n == "always_empty.zip"));
    assert!(!always_empty.iter().any(|n| n == "normal.zip"));
    assert!(!always_empty.iter().any(|n| n == "sometimes_empty.zip"));
}

#[test]
fn test_perfect_month_score() {
    let m = metrics(2024, 8, 0, 0, 0, 0, 22, 22, 0, true);
    let score = calculate_health_score(&m);
    assert!((points(score) - 100.0).abs() < 0.001, "Perfect month should score 100.0");
}

#[test]
fn test_all_missing_month_score() {
    let m = metrics(2024, 12, 22, 0, 0, 0, 22, 0, 0, true);
    let score = calculate_health_score(&m);
    assert!(points(score) <= 0.0, "All missing month should score 0.0 or less");
}

#[test]
fn test_partial_issues_score() {
    // Month with some issues should score between 0 and 100
    let m = metrics(2024, 10, 2, 3, 5, 4, 23, 21, 0, true);
    let score = calculate_health_score(&m);
    // penalty = 2*10 + 5*3 + 3*2 + 4*1 = 45; max_penalty = 230
    // score = 100 * (1 - 45/230) = 80.4...
    let p = points(score);
    assert!(p > 0.0 && p < 100.0, "Partial issues should score between 0 and 100");
    assert!((p - 80.4).abs() < 1.0, "Expected score around 80.4, got {}", p);
}

#[test]
fn test_always_empty_files_excluded_from_scoring() {
    // Create files where one file is always empty and another sometimes empty
    let files = vec![
        // Archive 1
        make_test_entry("2024-10-01", "B", "DeviceCptr26.zip", true, 22),
        make_test_entry("2024-10-01", "B", "normal.zip", true, 5000),
        make_test_entry("2024-10-01", "B", "sometimes_empty.zip", true, 22),
        // Archive 2
        make_test_entry("2024-10-02", "B", "DeviceCptr26.zip", true, 22),
        make_test_entry("2024-10-02", "B", "normal.zip", true, 5100),
        make_test_entry("2024-10-02", "B", "sometimes_empty.zip", true, 5000),
    ];

    let start = Date { year: 2024, month: 10, day: 1 };
    let end = Date { year: 2024, month: 10, day: 2 };
    let today = Date { year: 2025, month: 1, day: 1 };

    let report = calculate_monthly_rankings(&files, None, None, "B", start, end, today, 1000);

    // Should have October 2024
    assert_eq!(report.months.len(), 1);
    let oct = &report.months[0];
    assert_eq!(oct.year, 2024);
    assert_eq!(oct.month, 10);

    // DeviceCptr26.zip is always empty (2 files, both empty) - excluded
    // sometimes_empty.zip is empty once but not always - counts as 1 empty
    assert_eq!(oct.empty_files, 1, "Only sometimes_empty.zip should count as empty");
}

#[test]
fn test_monthly_ranking_calculation() {
    let files = vec![
        // October 2024 - 2 archives, 1 invalid file
        make_test_entry("2024-10-01", "B", "test.zip", true, 5000),
        make_test_entry("2024-10-01", "B", "bad.zip", false, 100),
        make_test_entry("2024-10-02", "B", "test.zip", true, 5000),
        // November 2024 - 1 archive, clean
        make_test_entry("2024-11-01", "B", "test.zip", true, 5000),
    ];

    let start = Date { year: 2024, month: 10, day: 1 };
    let end = Date { year: 2024, month: 11, day: 30 };
    let today = Date { year: 2025, month: 1, day: 1 };

    let report = calculate_monthly_rankings(&files, None, None, "B", start, end, today, 1000);

    assert_eq!(report.months.len(), 2);
    assert_eq!(report.line_id, "B");

    // November should rank higher (no invalid files)
    let nov = report.months.iter().find(|m| m.month == 11).unwrap();
    let oct = report.months.iter().find(|m| m.month == 10).unwrap();
    assert!(nov.health_score > oct.health_score);
}

#[test]
fn test_combine_rankings() {
    // Line A report with Oct=80%, Nov=90%
    let line_a = MonthlyRankingReport {
        months: vec![
            metrics(2024, 10, 0, 0, 2, 0, 23, 23, 80, true),
            metrics(2024, 11, 0, 0, 0, 0, 21, 21, 90, true),
        ],
        best_month: None,
        worst_month: None,
        average_score: Ratio { num: (85 * SCORE_SCALE) as u128, den: SCORE_SCALE as u128 },
        line_id: "A".to_string(),
    };

    // Line B report with Oct=70%, Nov=100%
    let line_b = MonthlyRankingReport {
        months: vec![
            metrics(2024, 10, 0, 0, 5, 0, 23, 23, 70, true),
            metrics(2024, 11, 0, 0, 0, 0, 21, 21, 100, true),
        ],
        best_month: None,
        worst_month: None,
        average_score: Ratio { num: (85 * SCORE_SCALE) as u128, den: SCORE_SCALE as u128 },
        line_id: "B".to_string(),
    };

    let combined = combine_rankings(&line_a, &line_b);

    assert_eq!(combined.months.len(), 2);

    // November combined = (90 + 100) / 2 = 95
    let nov = combined.months.iter().find(|m| m.month == 11).unwrap();
    let nov_score = nov.combined_score_x2 as f64 / 2.0 / SCORE_SCALE as f64;
    assert!((nov_score - 95.0).abs() < 0.1);

    // October combined = (80 + 70) / 2 = 75
    let oct = combined.months.iter().find(|m| m.month == 10).unwrap();
    let oct_score = oct.combined_score_x2 as f64 / 2.0 / SCORE_SCALE as f64;
    assert!((oct_score - 75.0).abs() < 0.1);

    // Best month should be November
    assert!(combined.best_month.is_some());
    assert_eq!(combined.best_month.as_ref().unwrap().month, 11);

    // Worst month should be October
    assert!(combined.worst_month.is_some());
    assert_eq!(combined.worst_month.as_ref().unwrap().month, 10);
}

#[test]
fn test_combine_rankings_partial_data() {
    // Line A has Oct and Nov, Line B only has Nov
    let line_a = MonthlyRankingReport {
        months: vec![
            metrics(2024, 10, 0, 0, 0, 0, 23, 23, 100, true),
            metrics(2024, 11, 0, 0, 0, 0, 21, 21, 90, true),
        ],
        best_month: None,
        worst_month: None,
        average_score: Ratio { num: (95 * SCORE_SCALE) as u128, den: SCORE_SCALE as u128 },
        line_id: "A".to_string(),
    };

    let line_b = MonthlyRankingReport {
        months: vec![metrics(2024, 11, 0, 0, 0, 0, 21, 21, 80, true)],
        best_month: None,
        worst_month: None,
        average_score: Ratio { num: (80 * SCORE_SCALE) as u128, den: SCORE_SCALE as u128 },
        line_id: "B".to_string(),
    };

    let combined = combine_rankings(&line_a, &line_b);

    assert_eq!(combined.months.len(), 2);

    // October only has Line A data, so combined = 100
    let oct = combined.months.iter().find(|m| m.month == 10).unwrap();
    assert!(oct.line_a_score.is_some());
    assert!(oct.line_b_score.is_none());
    let oct_score = oct.combined_score_x2 as f64 / 2.0 / SCORE_SCALE as f64;
    assert!((oct_score - 100.0).abs() < 0.1);

    // November has both, combined = (90 + 80) / 2 = 85
    let nov = combined.months.iter().find(|m| m.month == 11).unwrap();
    assert!(nov.line_a_score.is_some());
    assert!(nov.line_b_score.is_some());
    let nov_score = nov.combined_score_x2 as f64 / 2.0 / SCORE_SCALE as f64;
    assert!((nov_score - 85.0).abs() < 0.1);
}

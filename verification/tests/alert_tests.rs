use beam_audit::alerts::{
    determine_alert_action, get_alert_file_paths, parse_timestamp,
    parse_timestamp_and_get_elapsed_minutes, AlertAction, DateTime,
};
use beam_audit::date::Date;

fn at(year: i32, month: u32, day: u32, hour: u32, minute: u32) -> DateTime {
    DateTime { date: Date { year, month, day }, hour, minute }
}

#[test]
fn test_parse_timestamp_format() {
    // Test valid timestamp format
    let valid_timestamp = "2026-01-22 04:05";
    assert!(parse_timestamp(valid_timestamp).is_some());
}

#[test]
fn test_parse_timestamp_invalid_format() {
    // Test invalid formats
    let invalid_formats = vec![
        "2026-01-22",          // Missing time
        "04:05",               // Missing date
        "2026/01/22 04:05",    // Wrong separator
        "22-01-2026 04:05",    // Wrong date order
        "2026-01-22 04:05:30", // Has seconds (we don't use them)
    ];

    for invalid in invalid_formats {
        assert!(parse_timestamp(invalid).is_none(), "Should reject format: {}", invalid);
    }
}

#[test]
fn test_timestamp_elapsed_calculation() {
    // A timestamp from 30 minutes before the reference time
    let now = at(2026, 1, 22, 12, 0);
    let timestamp_str = "2026-01-22 11:30";

    if let Some(elapsed) = parse_timestamp_and_get_elapsed_minutes(timestamp_str, now) {
        assert!((29..=31).contains(&elapsed), "Expected ~30 minutes, got {}", elapsed);
    } else {
        panic!("Should successfully parse timestamp");
    }
}

#[test]
fn test_timestamp_threshold_check() {
    // Test that 20-minute threshold logic works
    let threshold = 20i64;

    // 25 minutes ago - should trigger alert
    let now = at(2026, 1, 22, 12, 0);
    if let Some(elapsed) = parse_timestamp_and_get_elapsed_minutes("2026-01-22 11:35", now) {
        assert!(elapsed >= threshold, "25 minutes should exceed 20-minute threshold");
    }

    // 15 minutes ago - should NOT trigger alert
    if let Some(elapsed) = parse_timestamp_and_get_elapsed_minutes("2026-01-22 11:45", now) {
        assert!(elapsed < threshold, "15 minutes should be under 20-minute threshold");
    }
}

#[test]
fn test_timestamp_format_consistency() {
    // The canonical written format parses back and has the expected shape
    let written_format = "2026-01-22 04:05";
    assert!(parse_timestamp(written_format).is_some());

    // Verify format matches expected pattern (YYYY-MM-DD HH:MM)
    assert_eq!(written_format.len(), 16);
    assert_eq!(written_format.chars().nth(4), Some('-'));
    assert_eq!(written_format.chars().nth(7), Some('-'));
    assert_eq!(written_format.chars().nth(10), Some(' '));
    assert_eq!(written_format.chars().nth(13), Some(':'));
    // Minute-elapsed computations round-trip at both example times
    assert_eq!(
        parse_timestamp_and_get_elapsed_minutes("2026-01-22 04:05", at(2026, 1, 22, 16, 10)),
        Some(12 * 60 + 5)
    );
    assert_eq!(
        parse_timestamp_and_get_elapsed_minutes("2026-01-22 13:10", at(2026, 1, 22, 13, 10)),
        Some(0)
    );
}

#[test]
fn test_get_alert_file_paths() {
    let files = get_alert_file_paths("/data/storage", "B");
    assert_eq!(files.state_file, "/data/storage/.transfer_state_B");
    assert_eq!(files.timestamp_file, "/data/storage/.transfer_state_changed_B");
}

#[test]
fn test_determine_alert_action_no_change_no_timestamp() {
    let now = at(2026, 1, 22, 12, 0);
    let action = determine_alert_action("IDLE", "IDLE", None, 20, now);
    assert_eq!(action, AlertAction::NoAction);
}

#[test]
fn test_determine_alert_action_state_change() {
    let now = at(2026, 1, 22, 12, 0);
    let action = determine_alert_action("IDLE", "ACTIVE", None, 20, now);
    assert_eq!(action, AlertAction::CreateTimestamp);
}

#[test]
fn test_determine_alert_action_under_threshold() {
    let now = at(2026, 1, 22, 12, 0);
    let timestamp = "2026-01-22 11:50"; // 10 minutes ago
    let action = determine_alert_action("IDLE", "IDLE", Some(timestamp), 20, now);
    assert_eq!(action, AlertAction::WaitForThreshold);
}

#[test]
fn test_determine_alert_action_over_threshold() {
    let now = at(2026, 1, 22, 12, 0);
    let timestamp = "2026-01-22 11:30"; // 30 minutes ago
    let action = determine_alert_action("IDLE", "IDLE", Some(timestamp), 20, now);
    assert_eq!(action, AlertAction::SendAlert { minutes_elapsed: 30 });
}

#[test]
fn test_determine_alert_action_exactly_at_threshold() {
    let now = at(2026, 1, 22, 12, 20);
    let timestamp = "2026-01-22 12:00"; // Exactly 20 minutes ago
    let action = determine_alert_action("IDLE", "IDLE", Some(timestamp), 20, now);
    assert_eq!(action, AlertAction::SendAlert { minutes_elapsed: 20 });
}

#[test]
fn test_determine_alert_action_invalid_timestamp() {
    let now = at(2026, 1, 22, 12, 0);
    let invalid_timestamp = "invalid-format";
    let action = determine_alert_action("IDLE", "IDLE", Some(invalid_timestamp), 20, now);
    assert_eq!(action, AlertAction::NoAction);
}

#[test]
fn test_determine_alert_action_state_change_with_existing_timestamp() {
    // If state changes while a timestamp exists, should create new timestamp
    let now = at(2026, 1, 22, 12, 0);
    let old_timestamp = "2026-01-22 11:30"; // 30 minutes ago
    let action = determine_alert_action("ACTIVE", "IDLE", Some(old_timestamp), 20, now);
    assert_eq!(action, AlertAction::CreateTimestamp);
}

#[test]
fn test_timestamp_trimmed_before_parsing() {
    let now = at(2026, 1, 22, 12, 0);
    assert_eq!(
        parse_timestamp_and_get_elapsed_minutes("  2026-01-22 11:30\n", now),
        Some(30)
    );
}

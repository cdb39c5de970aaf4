use beam_audit::present::escape_html;
use beam_audit::ratio::Ratio;
use beam_audit::record::FileEntry;
use beam_audit::stats::{
    calculate_anomalies, calculate_integrity_stats, collect_bad_files, sorted_copy_u64,
};
use beam_audit::sysio::{classify_redundancy, is_other_line_active, IoSample, RedundancyVerdict};

fn entry(name: &str, size: u64, is_valid: bool, parent_dir: &str) -> FileEntry {
    FileEntry {
        name: name.to_string(),
        size,
        is_valid,
        invalid_reason: if is_valid { None } else { Some("Missing ZIP signature".to_string()) },
        modified: 0,
        parent_dir: parent_dir.to_string(),
    }
}

#[test]
fn test_integrity_stats_empty_input() {
    let files: Vec<FileEntry> = Vec::new();
    assert!(calculate_integrity_stats(&files, 1000).is_none());
}

#[test]
fn test_integrity_stats_counts_and_median() {
    let files = vec![
        entry("a.zip", 100, true, "d1"),
        entry("a.zip", 300, true, "d2"),
        entry("a.zip", 200, false, "d3"),
        entry("b.zip", 5, true, "d1"),
    ];
    let stats = calculate_integrity_stats(&files, 10).unwrap();
    assert_eq!(stats.grand_total, 4);
    assert_eq!(stats.grand_empty, 1);
    assert_eq!(stats.grand_bad, 1);
    assert_eq!(stats.grand_min, 100);
    assert_eq!(stats.grand_max, 300);
    assert_eq!(stats.rows.len(), 2);
    let a = stats.rows.iter().find(|r| r.name == "a.zip").unwrap();
    assert_eq!(a.total, 3);
    assert_eq!(a.empty, 0);
    assert_eq!(a.bad, 1);
    assert!(a.valid_stats);
    assert_eq!(a.min_size, 100);
    assert_eq!(a.max_size, 300);
    // median of [100, 200, 300] is 200
    assert_eq!(a.median_low, 200);
    assert_eq!(a.median_high, 200);
    // population variance of [100, 200, 300]: 20000/3
    // stored as sum((3x - 600)^2) / 27 = 180000/27
    assert_eq!(a.variance_num as f64 / a.variance_den as f64, 20000.0 / 3.0);
    let b = stats.rows.iter().find(|r| r.name == "b.zip").unwrap();
    assert_eq!(b.total, 1);
    assert_eq!(b.empty, 1);
    assert!(!b.valid_stats);
}

#[test]
fn test_integrity_stats_even_count_median() {
    let files = vec![
        entry("a.zip", 100, true, "d1"),
        entry("a.zip", 400, true, "d2"),
        entry("a.zip", 200, true, "d3"),
        entry("a.zip", 300, true, "d4"),
    ];
    let stats = calculate_integrity_stats(&files, 10).unwrap();
    let a = &stats.rows[0];
    // median of [100, 200, 300, 400] is the average of the two middle values
    assert_eq!(a.median_low, 200);
    assert_eq!(a.median_high, 300);
}

#[test]
fn test_grand_median_of_medians() {
    // Two names with very different record counts: the grand median must
    // average the per-name medians, never recompute over all sizes
    let files = vec![
        entry("many.zip", 10, true, "d1"),
        entry("many.zip", 10, true, "d2"),
        entry("many.zip", 10, true, "d3"),
        entry("many.zip", 10, true, "d4"),
        entry("few.zip", 1000, true, "d1"),
    ];
    let stats = calculate_integrity_stats(&files, 1).unwrap();
    assert_eq!(stats.valid_groups, 2);
    // per-name medians are 10 and 1000; the grand median is their midpoint
    let gm = (stats.grand_median_x2_low as f64 + stats.grand_median_x2_high as f64) / 4.0;
    assert_eq!(gm, 505.0);
}

#[test]
fn test_sorted_copy_orders_sizes() {
    let v = vec![5u64, 1, 4, 1, 3];
    let s = sorted_copy_u64(&v);
    assert_eq!(s, vec![1, 1, 3, 4, 5]);
}

#[test]
fn test_anomalies_flags_small_and_large() {
    let days = vec![
        ("day_b".to_string(), 100u64),
        ("day_a".to_string(), 200u64),
        ("day_c".to_string(), 300u64),
    ];
    // low factor 0.8, high factor 1.2; median 200: small < 160, large > 240
    let report = calculate_anomalies(&days, 8, 10, 12, 10).unwrap();
    assert_eq!(report.median_daily_size, 200);
    assert_eq!(report.anomalies.len(), 2);
    // ordered by day name ascending
    assert_eq!(report.anomalies[0].name, "day_b");
    assert_eq!(report.anomalies[0].category, "Too Small");
    assert_eq!(report.anomalies[1].name, "day_c");
    assert_eq!(report.anomalies[1].category, "Too Large");
}

#[test]
fn test_anomalies_empty_input() {
    let days: Vec<(String, u64)> = Vec::new();
    assert!(calculate_anomalies(&days, 8, 10, 12, 10).is_none());
}

#[test]
fn test_anomalies_single_day_unflagged() {
    let days = vec![("only".to_string(), 500u64)];
    let report = calculate_anomalies(&days, 8, 10, 12, 10).unwrap();
    assert_eq!(report.median_daily_size, 500);
    assert_eq!(report.anomalies.len(), 0);
}

#[test]
fn test_collect_bad_files_groups_and_truncates() {
    let files = vec![
        entry("z.zip", 10, false, "Archive_Beam_B_2024-10-02"),
        entry("good.zip", 10, true, "Archive_Beam_B_2024-10-01"),
        entry("b.zip", 20, false, "Archive_Beam_B_2024-10-01"),
        entry("a.zip", 30, false, "Archive_Beam_B_2024-10-01"),
        entry("c.zip", 40, false, "Archive_Beam_B_2024-10-01"),
    ];
    let report = collect_bad_files(&files, "B", 2).unwrap();
    assert_eq!(report.total_count, 4);
    assert_eq!(report.files_by_folder.len(), 2);
    // folders sorted ascending
    assert_eq!(report.files_by_folder[0].0, "Archive_Beam_B_2024-10-01");
    assert_eq!(report.files_by_folder[1].0, "Archive_Beam_B_2024-10-02");
    let (_, shown, count) = &report.files_by_folder[0];
    assert_eq!(*count, 3);
    assert_eq!(shown.len(), 2);
    assert_eq!(shown[0].relative_path, "Line B/Archive_Beam_B_2024-10-01/a.zip");
    assert_eq!(shown[1].relative_path, "Line B/Archive_Beam_B_2024-10-01/b.zip");
    assert_eq!(shown[0].reason, "Missing ZIP signature");
}

#[test]
fn test_collect_bad_files_none_when_all_valid() {
    let files = vec![entry("good.zip", 10, true, "d1")];
    assert!(collect_bad_files(&files, "B", 3).is_none());
}

#[test]
fn test_escape_html_replacements() {
    assert_eq!(escape_html("a<b&c>\"d'"), "a&lt;b&amp;c&gt;&quot;d&#39;");
    assert_eq!(escape_html("plain"), "plain");
}

#[test]
fn test_classify_redundancy_verdicts() {
    let s1 = IoSample { disk_write_bytes: 0, net_recv_bytes: 0 };
    let busy_disk = IoSample { disk_write_bytes: 100 * 1024 * 1024, net_recv_bytes: 0 };
    let busy_net = IoSample { disk_write_bytes: 0, net_recv_bytes: 100 * 1024 * 1024 };
    let quiet = IoSample { disk_write_bytes: 1000, net_recv_bytes: 1000 };
    assert_eq!(
        classify_redundancy(&s1, &busy_disk, 5, true),
        RedundancyVerdict::DiskActivityOtherLine
    );
    assert_eq!(
        classify_redundancy(&s1, &busy_disk, 5, false),
        RedundancyVerdict::DiskActivityUnattributed
    );
    assert_eq!(
        classify_redundancy(&s1, &busy_net, 5, true),
        RedundancyVerdict::NetActivityOtherLine
    );
    assert_eq!(
        classify_redundancy(&s1, &busy_net, 5, false),
        RedundancyVerdict::NetActivityUnattributed
    );
    assert_eq!(classify_redundancy(&s1, &quiet, 5, true), RedundancyVerdict::ConfirmedIdle);
}

#[test]
fn test_is_other_line_active() {
    let now: i64 = 29_000_000;
    assert!(is_other_line_active(&vec![now - 10, now], now));
    assert!(!is_other_line_active(&vec![now - 10, now - 2], now));
    assert!(!is_other_line_active(&Vec::new(), now));
}

#[test]
fn test_average_score_ratio_shape() {
    let r = Ratio { num: 3, den: 4 };
    assert_eq!(r.num, 3);
    assert_eq!(r.den, 4);
}

#[test]
fn test_median_invariant_under_reordering() {
    // the median is the standard order statistic, whatever the input order
    let a = vec![300u64, 100, 200, 500, 400, 600];
    let b = vec![600u64, 500, 400, 300, 200, 100];
    let sa = sorted_copy_u64(&a);
    let sb = sorted_copy_u64(&b);
    assert_eq!(sa, sb);
    // even length: the median is the average of the two central values
    let lo = sa[(sa.len() - 1) / 2];
    let hi = sa[sa.len() / 2];
    assert_eq!((lo, hi), (300, 400));
}

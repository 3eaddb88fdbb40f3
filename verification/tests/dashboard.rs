use trace::realtime::{
    format_duration, format_metric_name, format_metric_type, truncate_string, DisplayConfig,
    MetricType,
};

#[test]
fn test_display_config_default() {
    let config = DisplayConfig::default();
    assert!(config.show_stats);
    assert!(config.show_alerts);
    assert!(config.show_trends);
    assert!(!config.compact_mode);
}

#[test]
fn test_display_config_compact() {
    let config = DisplayConfig::compact();
    assert!(config.show_stats);
    assert!(config.show_alerts);
    assert!(!config.show_trends);
    assert!(config.compact_mode);
}

#[test]
fn test_format_duration() {
    assert_eq!(format_duration(0), "00:00");
    assert_eq!(format_duration(90), "01:30");
    assert_eq!(format_duration(3661), "01:01:01");
}

#[test]
fn test_truncate_string() {
    assert_eq!(truncate_string("hello", 10), "hello     ");
    assert_eq!(truncate_string("hello world", 8), "hello...");
}

#[test]
fn detailed_config_shows_everything() {
    let config = DisplayConfig::detailed();
    assert!(config.show_stats && config.show_alerts && config.show_trends);
    assert!(config.show_anomalies && config.show_recent_entries);
    assert_eq!(config.max_recent_entries, 20);
    assert_eq!(config.refresh_rate, 500);
    assert!(!config.compact_mode);
}

#[test]
fn format_duration_long_runs() {
    assert_eq!(format_duration(59), "00:59");
    assert_eq!(format_duration(3600), "01:00:00");
    assert_eq!(format_duration(360000 + 61), "100:01:01");
}

#[test]
fn truncate_string_edges() {
    assert_eq!(truncate_string("abc", 3), "abc");
    assert_eq!(truncate_string("abcd", 2), "...");
    assert_eq!(truncate_string("", 2), "  ");
    assert_eq!(truncate_string("héllo world", 8), "héll... ");
}

#[test]
fn metric_labels() {
    assert_eq!(format_metric_type(&MetricType::EntriesPerSecond), "Entries/Second");
    assert_eq!(format_metric_type(&MetricType::UFSCustomRatio), "UFS Custom Ratio");
    assert_eq!(format_metric_name(&MetricType::BlockRatio), "Block 비율");
    assert_eq!(format_metric_name(&MetricType::TotalEntries), "총 엔트리");
}

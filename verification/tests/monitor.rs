use trace::compression::{choose_log_file, is_log_file_name};
use trace::iteration::iteration_numbers;
use trace::monitor::{parse_log_entry, LevelCounts, LogMonitor, ParsedLogEntry};
use trace::statistics::get_ufs_opcode_name;
use trace::throughput::{analyze_performance, PerfSample};

#[test]
fn log_entries_from_ftrace_lines() {
    let e = parse_log_entry(
        "  kworker/1:1H-175     [001] ..... 22218.735851: ufshcd_command: send_req: ff: tag: 3",
    )
    .unwrap();
    assert_eq!(e.process_id, 175);
    assert_eq!(e.thread_id, 1);
    assert_eq!(e.timestamp, "22218.735851:");
    assert_eq!(e.level, "UFS");
    assert_eq!(e.trace_type, "UFS");
    assert_eq!(e.message, "ufshcd_command: send_req: ff: tag: 3");

    let b = parse_log_entry("f2fs_discard-25-1461 [003] d.h2. 1.5: block_rq_issue: 8,0 R").unwrap();
    assert_eq!(b.process_id, 1461);
    assert_eq!(b.thread_id, 3);
    assert_eq!(b.level, "BLOCK");
    assert_eq!(b.trace_type, "Block");

    let o = parse_log_entry("<idle> cpu x 12 hello   world").unwrap();
    assert_eq!(o.process_id, 0);
    assert_eq!(o.thread_id, 0);
    assert_eq!(o.level, "INFO");
    assert_eq!(o.trace_type, "Other");
    assert_eq!(o.message, "hello world");

    assert!(parse_log_entry("   ").is_none());
    assert!(parse_log_entry("a b c").is_none());
    let four = parse_log_entry("a-x [7] c d").unwrap();
    assert_eq!(four.message, "");
    assert_eq!(four.process_id, 0);
    assert_eq!(four.thread_id, 7);
}

#[test]
fn new_entries_are_unknown() {
    let e = ParsedLogEntry::new("1.0".into(), "INFO".into(), 1, 2, "m".into());
    assert_eq!(e.trace_type, "Unknown");
    assert!(e.latency.is_none());
}

#[test]
fn counts_by_level() {
    let mut c = LevelCounts::new();
    for l in ["ERROR", "warn", "Warning", "info", "debug", "TRACE", "other"] {
        c.add_entry(l);
    }
    assert_eq!(c.total_entries, 7);
    assert_eq!(c.error_count, 1);
    assert_eq!(c.warning_count, 2);
    assert_eq!(c.info_count, 1);
    assert_eq!(c.debug_count, 1);
    assert_eq!(c.trace_count, 1);
}

#[test]
fn opcode_names() {
    assert_eq!(get_ufs_opcode_name("0x28"), "READ_10");
    assert_eq!(get_ufs_opcode_name("0x2a"), "WRITE_10");
    assert_eq!(get_ufs_opcode_name("0x35"), "SYNCHRONIZE_CACHE_10");
    assert_eq!(get_ufs_opcode_name("0x42"), "UNMAP");
    assert_eq!(get_ufs_opcode_name("0x12"), "0x12");
}

#[test]
fn log_file_choice() {
    assert!(is_log_file_name("Trace.CSV"));
    assert!(is_log_file_name("x.log"));
    assert!(is_log_file_name("notes.txt"));
    assert!(is_log_file_name("my_blktrace_dump"));
    assert!(!is_log_file_name("image.png"));
    assert_eq!(choose_log_file(&[]), None);
    assert_eq!(choose_log_file(&[10, 30, 20]), Some(1));
    assert_eq!(choose_log_file(&[30, 10, 30, 5]), Some(2));
}

#[test]
fn iteration_directories() {
    let names: Vec<String> = vec!["10".into(), "2".into(), "logs".into(), "1".into(), "+3".into()];
    assert_eq!(iteration_numbers(&names), vec![1, 2, 3, 10]);
    assert!(iteration_numbers(&[]).is_empty());
}

#[test]
fn throughput_per_second() {
    let s = |t: u64, size: u32, io: &str| PerfSample { time: t, size, io_type: io.to_string() };
    let samples = vec![
        s(5_000_000_000, 8, "R"),
        s(5_500_000_000, 8, "WS"),
        s(7_200_000_000, 16, "RA"),
        s(6_999_999_999, 4, "W"),
        s(6_000_000_000, 4, "FF"),
    ];
    let r = analyze_performance(&samples, "Block");
    assert_eq!(r.len(), 3);
    assert_eq!((r[0].second, r[0].read_bytes, r[0].write_bytes, r[0].read_ops, r[0].write_ops), (0, 4096, 4096, 1, 1));
    assert_eq!((r[1].second, r[1].write_bytes, r[1].write_ops), (1, 2048, 1));
    assert_eq!((r[2].second, r[2].read_bytes, r[2].read_ops), (2, 8192, 1));
    let u = analyze_performance(&[s(0, 1, "w")], "UFS");
    assert_eq!(u[0].write_bytes, 4096);
    assert!(analyze_performance(&[], "UFS").is_empty());
}

#[test]
fn iteration_manager_paths() {
    let manager = trace::iteration::IterationOutputManager::new("test_output_temp");
    assert_eq!(manager.get_iteration_dir(1), "test_output_temp/1");
    let file_path = manager.get_file_path(1, "test.parquet");
    assert!(file_path.contains("test.parquet"));
    assert_eq!(file_path, "test_output_temp/1/test.parquet");
    let dirs: Vec<String> = vec!["2".into(), "1".into()];
    assert_eq!(iteration_numbers(&dirs), vec![1, 2]);
}

#[test]
fn monitor_bookkeeping() {
    let mut m = LogMonitor::new();
    let mut e = ParsedLogEntry::new("1.0".into(), "error".into(), 10, 1, "a".into());
    e.latency = Some(5_000);
    m.process_entry(&e);
    let mut f = ParsedLogEntry::new("2.0".into(), "INFO".into(), 10, 2, "b".into());
    f.latency = Some(2_000);
    m.process_entry(&f);
    let g = ParsedLogEntry::new("3.0".into(), "debug".into(), 11, 1, "c".into());
    m.process_entry(&g);
    assert_eq!(m.unique_processes(), 2);
    assert_eq!(m.unique_threads(), 2);
    assert_eq!(m.counts.total_entries, 3);
    assert_eq!(m.counts.error_count, 1);
    assert_eq!(m.counts.info_count, 1);
    assert_eq!(m.counts.debug_count, 1);
    assert_eq!(m.max_latency, 5_000);
    assert_eq!(m.min_latency, 2_000);
    let recent = m.get_recent_entries();
    assert_eq!(recent.len(), 3);
    assert_eq!(recent[2].message, "c");
    for k in 0..120u32 {
        let x = ParsedLogEntry::new(format!("{k}"), "info".into(), k, 0, format!("m{k}"));
        m.process_entry(&x);
    }
    let recent = m.get_recent_entries();
    assert_eq!(recent.len(), 100);
    assert_eq!(recent[0].message, "m20");
    assert_eq!(recent[99].message, "m119");
    assert_eq!(m.unique_processes(), 120);
}

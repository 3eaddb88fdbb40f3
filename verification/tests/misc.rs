use trace::log_common::get_optimal_buffer_size;
use trace::performance::{calculate_optimal_chunk_size, MemoryMonitor, PerformanceProfiler};
use trace::storage::MinioConfig;
use trace::TraceType;

#[test]
fn memory_monitor_tracks_peak() {
    let mut m = MemoryMonitor::new();
    m.record_allocation(3 * 1024 * 1024);
    m.record_allocation(2 * 1024 * 1024);
    assert_eq!(m.get_current_mb(), 5);
    assert_eq!(m.get_peak_mb(), 5);
    m.record_deallocation(4 * 1024 * 1024);
    assert_eq!(m.get_current_mb(), 1);
    assert_eq!(m.get_peak_mb(), 5);
    // The counter wraps like an atomic `fetch_sub`: taking away usize::MAX
    // is adding one.
    m.record_deallocation(usize::MAX);
    assert_eq!(m.get_current_mb(), 1);
    m.record_deallocation(1024 * 1024 + 1);
    assert_eq!(m.get_current_mb(), 0);
}

#[test]
fn profiler_total_time() {
    let mut p = PerformanceProfiler::new(100);
    assert_eq!(p.get_total_time(250), 150);
    p.checkpoint("parse", 180);
    p.checkpoint("save", 400);
    assert_eq!(p.get_total_time(9999), 300);
}

#[test]
fn chunk_and_buffer_sizes() {
    // A quarter of a small file, but never below 1 MiB.
    assert_eq!(calculate_optimal_chunk_size(2 * 1024 * 1024, 4096), 1024 * 1024);
    assert_eq!(calculate_optimal_chunk_size(80 * 1024 * 1024, 4096), 20 * 1024 * 1024);
    // An eighth of a medium file, capped at a tenth of memory.
    assert_eq!(calculate_optimal_chunk_size(800 * 1024 * 1024, 500), 50 * 1024 * 1024);
    // A sixteenth of a large file, capped at 100 MiB.
    assert_eq!(calculate_optimal_chunk_size(4096 * 1024 * 1024, 100_000), 100 * 1024 * 1024);
    assert_eq!(get_optimal_buffer_size(10), 1024 * 1024);
    assert_eq!(get_optimal_buffer_size(200_000_000), 8 * 1024 * 1024);
    assert_eq!(get_optimal_buffer_size(2_000_000_000), 32 * 1024 * 1024);
}

#[test]
fn config_for_another_bucket() {
    let c = MinioConfig::new("http://h:9000".into(), "ak".into(), "SECRET-REDACTED".into(), "logs".into());
    assert_eq!(c.region, "us-east-1");
    let t = c.with_bucket("results");
    assert_eq!(t.bucket, "results");
    assert_eq!(t.endpoint, "http://h:9000");
    assert_eq!(t.region, "us-east-1");
}

#[test]
fn trace_type_names() {
    assert_eq!(TraceType::from_name("BLOCK"), Ok(TraceType::Block));
    assert_eq!(TraceType::from_name("ufscustom"), Ok(TraceType::UFSCUSTOM));
    assert_eq!(TraceType::from_name("nvme"), Err("Unknown trace type: nvme".to_string()));
    assert_eq!(TraceType::UFS.display_name(), "UFS");
    assert_eq!(TraceType::Block.display_name(), "Block I/O");
    assert_eq!(TraceType::UFSCUSTOM.display_name(), "UFSCustom");
    assert_eq!("Ufs".parse::<TraceType>(), Ok(TraceType::UFS));
    assert_eq!("x".parse::<TraceType>(), Err("Unknown trace type: x".to_string()));
}

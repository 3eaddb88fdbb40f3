use trace::align::AlignmentConfig;
use trace::streaming::StreamingProcessor;

fn cfg() -> AlignmentConfig {
    AlignmentConfig { alignment_size_kb: 64 }
}

#[test]
fn batches_are_read_by_kind() {
    let mut p = StreamingProcessor::new(Some("out"), 1_000);
    assert_eq!(p.output_prefix.as_deref(), Some("out"));
    let lines: Vec<String> = vec![
        "  w-1 [000] .... 1.000000: ufshcd_command: send_req: d: tag: 1, size: 4096, LBA: 0, opcode: 0x2a (W), group_id: 0x0, hwq_id: 0".to_string(),
        "not a trace line".to_string(),
        "0x28,100,4096,1.5,1.6".to_string(),
    ];
    p.process_batch(&lines, &cfg());
    assert_eq!(p.ufs_traces.len(), 1);
    assert_eq!(p.block_traces.len(), 0);
    assert_eq!(p.ufscustom_traces.len(), 1);
    assert_eq!(p.get_parsed_lines(), 3);
}

#[test]
fn flush_by_lines_or_time() {
    let mut p = StreamingProcessor::new(None, 10);
    assert!(!p.should_process(10_000_000_000));
    p.parsed_lines = 5;
    assert!(!p.should_process(10 + 4_999_999_999));
    assert!(p.should_process(10 + 5_000_000_000));
    assert!(!p.should_process(5));
    p.parsed_lines = 100_000;
    assert!(p.should_process(11));
    p.mark_processed(77);
    assert_eq!(p.parsed_lines, 0);
    assert_eq!(p.last_processed_time, 77);
}

#[test]
fn only_recent_records_are_kept() {
    let mut p = StreamingProcessor::new(None, 0);
    let line = "0x28,100,4096,1.5,1.6".to_string();
    let lines: Vec<String> = (0..20_001).map(|_| line.clone()).collect();
    p.process_batch(&lines, &cfg());
    assert_eq!(p.ufscustom_traces.len(), 20_001);
    p.manage_memory();
    assert_eq!(p.ufscustom_traces.len(), 15_000);
    p.manage_memory();
    assert_eq!(p.ufscustom_traces.len(), 15_000);
}

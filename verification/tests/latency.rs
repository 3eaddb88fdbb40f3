use trace::align::AlignmentConfig;
use trace::block_latency::{block_bottom_half_latency_process, block_latency_fits};
use trace::custom_latency::{ufscustom_bottom_half_latency_process, ufscustom_latency_fits};
use trace::log_common::{parse_block_io_event, parse_ufs_event, parse_ufscustom_event};
use trace::ufs_latency::{ufs_bottom_half_latency_process, ufs_latency_fits};

fn cfg() -> AlignmentConfig {
    AlignmentConfig { alignment_size_kb: 64 }
}

fn ufs(t: &str, action: &str, tag: u32, lba_bytes: u64, size_bytes: u32) -> trace::UFS {
    let line = format!(
        "  w-1 [000] .... {}: ufshcd_command: {}: d: tag: {}, size: {}, LBA: {}, opcode: 0x2a (W), group_id: 0x0, hwq_id: 0",
        t, action, tag, size_bytes, lba_bytes
    );
    parse_ufs_event(&line, &cfg()).unwrap()
}

#[test]
fn ufs_latencies_in_time_order() {
    // Given out of order on purpose.
    let events = vec![
        ufs("1.003", "complete_rsp", 1, 0, 4096),
        ufs("1.000", "send_req", 1, 0, 4096),
        ufs("1.001", "send_req", 2, 4096, 4096),
        ufs("1.004", "complete_rsp", 2, 4096, 4096),
        ufs("1.010", "send_req", 3, 8192, 4096),
    ];
    let out = ufs_bottom_half_latency_process(events);
    let times: Vec<u64> = out.iter().map(|u| u.time).collect();
    assert_eq!(times, vec![1_000_000_000, 1_001_000_000, 1_003_000_000, 1_004_000_000, 1_010_000_000]);
    let qds: Vec<u32> = out.iter().map(|u| u.qd).collect();
    assert_eq!(qds, vec![1, 2, 1, 0, 1]);
    // second send continues the first (lba 0 + size 1 unit == lba 1 unit)
    assert!(!out[0].continuous);
    assert!(out[1].continuous);
    assert!(out[4].continuous);
    // dispatch to complete
    assert_eq!(out[2].dtoc, 3_000_000);
    assert_eq!(out[3].dtoc, 3_000_000);
    // first completion measured from the send that made the queue busy
    assert_eq!(out[2].ctoc, 3_000_000);
    assert_eq!(out[3].ctoc, 1_000_000);
    // idle time before the last send
    assert_eq!(out[4].ctod, 6_000_000);
}

fn block(t: &str, action: &str, io: &str, sector: u64, size: u32) -> trace::Block {
    let line = format!("  k-1 [001] .... {}: {}: 8,0 {} () {} + {} [k]", t, action, io, sector, size);
    parse_block_io_event(&line, &cfg()).unwrap()
}

#[test]
fn block_repeats_dropped_and_latencies() {
    let events = vec![
        block("2.000", "block_rq_issue", "W", 100, 8),
        block("2.001", "block_rq_issue", "W", 100, 8),
        block("2.002", "block_rq_issue", "W", 108, 8),
        block("2.005", "block_rq_complete", "W", 100, 8),
        block("2.006", "block_rq_complete", "W", 108, 8),
        block("2.007", "block_rq_complete", "WS", 0, 0),
        block("2.010", "block_rq_issue", "R", 0, 8),
    ];
    let out = block_bottom_half_latency_process(events);
    assert_eq!(out.len(), 5);
    let qds: Vec<u32> = out.iter().map(|b| b.qd).collect();
    assert_eq!(qds, vec![1, 2, 1, 0, 1]);
    assert!(out[1].continuous);
    assert_eq!(out[2].dtoc, 5_000_000);
    assert_eq!(out[3].dtoc, 4_000_000);
    assert_eq!(out[2].ctoc, 5_000_000);
    assert_eq!(out[3].ctoc, 1_000_000);
    assert_eq!(out[4].ctod, 4_000_000);
    assert!(!out[4].continuous);
}

#[test]
fn custom_queue_depths() {
    let lines = ["0x2a,0,8,1.0,1.5", "0x2a,8,8,1.2,1.3", "0x28,16,8,2.0,2.5"];
    let items: Vec<trace::UFSCUSTOM> =
        lines.iter().map(|l| parse_ufscustom_event(l, &cfg()).unwrap()).collect();
    let out = ufscustom_bottom_half_latency_process(items);
    let qd: Vec<(u32, u32)> = out.iter().map(|u| (u.start_qd, u.end_qd)).collect();
    assert_eq!(qd, vec![(1, 0), (2, 1), (1, 0)]);
    assert!(!out[0].continuous);
    assert!(out[1].continuous);
    assert!(!out[2].continuous);
    assert_eq!(out[1].ctoc, 0);
    assert_eq!(out[2].ctoc, 1_200_000_000);
    assert_eq!(out[1].ctod, 0);
    assert_eq!(out[2].ctod, 700_000_000);
}

#[test]
fn empty_inputs() {
    assert!(ufs_bottom_half_latency_process(Vec::new()).is_empty());
    assert!(block_bottom_half_latency_process(Vec::new()).is_empty());
    assert!(ufscustom_bottom_half_latency_process(Vec::new()).is_empty());
}

#[test]
fn latency_inputs_fit_checks() {
    let mut u = vec![ufs("1.000", "send_req", 1, 0, 4096)];
    assert!(ufs_latency_fits(&u));
    u[0].lba = u64::MAX;
    assert!(!ufs_latency_fits(&u));
    u[0].size = 0;
    assert!(ufs_latency_fits(&u));

    let mut b = vec![block("2.000", "block_rq_issue", "W", 100, 8)];
    assert!(block_latency_fits(&b));
    b[0].sector = u64::MAX - b[0].size as u64;
    assert!(block_latency_fits(&b));
    b[0].sector = u64::MAX - b[0].size as u64 + 1;
    assert!(!block_latency_fits(&b));

    let mut c: Vec<trace::UFSCUSTOM> = vec![parse_ufscustom_event("0x2a,0,8,1.0,1.5", &cfg()).unwrap()];
    assert!(ufscustom_latency_fits(&c));
    c[0].lba = u64::MAX;
    c[0].size = 1;
    assert!(!ufscustom_latency_fits(&c));
    assert!(ufs_latency_fits(&Vec::new()));
}

use trace::statistics::{
    complete_action, default_latency_ranges, group_by_type, latency_totals, range_counts,
    request_action, request_totals, size_counts, sorted_latencies, user_latency_ranges,
    LatencyField, StatRecord,
};
use trace::{Block, UFS, UFSCUSTOM};

fn rec(t: &str, action: &str, dtoc: i128, ctoc: u64, ctod: u64, size: u32, qd: u32) -> StatRecord {
    StatRecord {
        req_type: t.to_string(),
        action: action.to_string(),
        dtoc,
        ctoc,
        ctod,
        size,
        qd,
        continuous: size % 2 == 0,
        aligned: qd % 2 == 1,
    }
}

fn ufs(opcode: &str) -> UFS {
    UFS {
        time: 0,
        process: String::new(),
        cpu: 0,
        action: "complete_rsp".to_string(),
        tag: 0,
        opcode: opcode.to_string(),
        lba: 0,
        size: 8,
        groupid: 0,
        hwqid: 0,
        qd: 3,
        dtoc: 500,
        ctoc: 0,
        ctod: 0,
        continuous: false,
        aligned: true,
    }
}

#[test]
fn io_types_of_each_kind() {
    assert_eq!(ufs("0x28").get_io_type(), "R");
    assert_eq!(ufs("0X2A").get_io_type(), "W");
    assert_eq!(ufs("0x35").get_io_type(), "O");
    assert_eq!(ufs("0x28").get_type(), "0x28");
    let b = Block {
        time: 0,
        process: String::new(),
        cpu: 0,
        flags: String::new(),
        action: "block_rq_issue".to_string(),
        devmajor: 0,
        devminor: 0,
        io_type: "WS".to_string(),
        extra: 0,
        sector: 0,
        size: 8,
        comm: String::new(),
        qd: 1,
        dtoc: 0,
        ctoc: 0,
        ctod: 0,
        continuous: false,
        aligned: false,
    };
    assert_eq!(b.get_type(), "W");
    assert_eq!(b.get_io_type(), "WS");
    let mut e = b.clone();
    e.io_type = String::new();
    assert_eq!(e.get_type(), "?");
    let c = UFSCUSTOM {
        opcode: "Read_10".to_string(),
        lba: 0,
        size: 4096,
        start_time: 10,
        end_time: 4,
        dtoc: -6,
        start_qd: 2,
        end_qd: 1,
        ctoc: 0,
        ctod: 0,
        continuous: true,
        aligned: true,
    };
    assert_eq!(c.get_io_type(), "R");
    let r = c.stat_record();
    assert_eq!(r.action, "complete");
    assert_eq!(r.qd, 2);
    assert_eq!(r.dtoc, -6);
}

#[test]
fn actions_by_trace_kind() {
    let ftrace = vec![rec("R", "block_rq_issue", 0, 0, 0, 8, 1), rec("R", "block_rq_complete", 5, 0, 0, 8, 0)];
    let letters = vec![rec("R", "Q", 0, 0, 0, 8, 1), rec("R", "C", 5, 0, 0, 8, 0)];
    assert_eq!(complete_action("UFS", &ftrace), "complete_rsp");
    assert_eq!(request_action("UFS", &ftrace), "send_req");
    assert_eq!(complete_action("UFSCustom", &ftrace), "complete");
    assert_eq!(request_action("UFSCustom", &ftrace), "block_rq_issue");
    assert_eq!(complete_action("Block", &ftrace), "block_rq_complete");
    assert_eq!(request_action("Block", &ftrace), "block_rq_issue");
    assert_eq!(complete_action("Block", &letters), "C");
    assert_eq!(request_action("Block", &letters), "Q");
}

#[test]
fn totals_over_requests() {
    let rs = vec![
        rec("0x2a", "complete_rsp", 2_000_000, 0, 0, 8, 4),
        rec("0x28", "complete_rsp", -1_000, 3_000, 7, 16, 9),
        rec("0x28", "send_req", 0, 0, 5_000, 16, 2),
        rec("0x28", "complete_rsp", 500, 1_000, 0, 3, 1),
    ];
    let t = latency_totals(&rs, Some("complete_rsp"), LatencyField::Dtoc);
    assert_eq!(t.selected, 3);
    assert_eq!(t.positive, 2);
    assert_eq!(t.positive_sum, 2_000_500);
    assert_eq!(t.negative_sum, 1_000);
    let c = latency_totals(&rs, Some("complete_rsp"), LatencyField::Ctoc);
    assert_eq!((c.positive, c.positive_sum), (2, 4_000));
    let d = latency_totals(&rs, Some("send_req"), LatencyField::Ctod);
    assert_eq!((d.selected, d.positive, d.positive_sum), (1, 1, 5_000));
    let all = latency_totals(&rs, None, LatencyField::Ctod);
    assert_eq!((all.selected, all.positive, all.positive_sum), (4, 2, 5_007));
    let q = request_totals(&rs);
    assert_eq!(q.total, 4);
    assert_eq!(q.max_qd, 9);
    assert_eq!(q.qd_sum, 16);
    assert_eq!(q.continuous, 3);
    assert_eq!(q.aligned, 2);
}

#[test]
fn groups_in_name_order() {
    let rs = vec![
        rec("W", "complete_rsp", 1, 0, 0, 8, 1),
        rec("R", "complete_rsp", 2, 0, 0, 8, 1),
        rec("R", "send_req", 3, 0, 0, 8, 1),
        rec("D", "complete_rsp", 4, 0, 0, 8, 1),
        rec("R", "complete_rsp", 5, 0, 0, 8, 1),
        rec("Ra", "complete_rsp", 6, 0, 0, 8, 1),
    ];
    let gs = group_by_type(&rs, Some("complete_rsp"));
    let names: Vec<&str> = gs.iter().map(|g| g.req_type.as_str()).collect();
    assert_eq!(names, vec!["D", "R", "Ra", "W"]);
    assert_eq!(gs[1].members, vec![1, 4]);
    assert_eq!(gs[3].members, vec![0]);
    let all = group_by_type(&rs, None);
    assert_eq!(all[1].members, vec![1, 2, 4]);
    assert!(group_by_type(&rs, Some("nothing")).is_empty());
}

#[test]
fn latencies_sorted_and_positive_only() {
    let rs = vec![
        rec("R", "c", 30, 0, 0, 8, 1),
        rec("R", "c", -4, 0, 0, 8, 1),
        rec("R", "c", 10, 0, 0, 8, 1),
        rec("R", "c", 0, 0, 0, 8, 1),
        rec("R", "c", 20, 0, 0, 8, 1),
        rec("R", "c", 10, 0, 0, 8, 1),
    ];
    assert_eq!(sorted_latencies(&rs, &[0, 1, 2, 3, 4, 5], LatencyField::Dtoc), vec![10, 10, 20, 30]);
    assert_eq!(sorted_latencies(&rs, &[4, 0], LatencyField::Dtoc), vec![20, 30]);
    assert!(sorted_latencies(&rs, &[1, 3], LatencyField::Dtoc).is_empty());
}

#[test]
fn default_ranges_count_every_positive_value_once() {
    let r = default_latency_ranges();
    assert_eq!(r.bounds.len(), 16);
    assert_eq!(r.labels[0], "≤ 0.1ms");
    assert_eq!(r.labels[8], "500ms < v ≤ 1s");
    assert_eq!(r.labels[15], "> 1000s");
    // 0.05 ms, 0.1 ms (edge, first range), 0.1 ms + 1 ns, 2 ms, 2000 s.
    let vals = vec![50_000, 100_000, 100_001, 2_000_000, 2_000_000_000_000];
    let c = range_counts(&vals, &r.bounds);
    assert_eq!(c[0], 2);
    assert_eq!(c[1], 1);
    assert_eq!(c[3], 1);
    assert_eq!(c[15], 1);
    assert_eq!(c.iter().sum::<usize>(), vals.len());
}

#[test]
fn user_ranges_and_labels() {
    let r = user_latency_ranges(&[250_000, 1_000_000, 12_500_000]);
    assert_eq!(r.bounds, vec![0, 250_000, 1_000_000, 12_500_000]);
    assert_eq!(r.labels, vec!["≤ 0.25ms", "0.25ms < v ≤ 1ms", "1ms < v ≤ 12.5ms", "> 12.5ms"]);
    let c = range_counts(&[1, 250_000, 250_001, 99_000_000], &r.bounds);
    assert_eq!(c, vec![2, 1, 0, 1]);
}

#[test]
fn size_distribution_ascending() {
    let rs = vec![
        rec("R", "c", 1, 0, 0, 64, 1),
        rec("R", "c", 1, 0, 0, 8, 1),
        rec("R", "c", 1, 0, 0, 64, 1),
        rec("W", "c", 1, 0, 0, 4, 1),
    ];
    assert_eq!(size_counts(&rs, &[0, 1, 2]), vec![(8, 1), (64, 2)]);
    assert_eq!(size_counts(&rs, &[3, 0]), vec![(4, 1), (64, 1)]);
}

#[test]
fn readme_latency_ranges_example() {
    let ms = [0.1, 0.5, 1.0, 5.0, 10.0, 30.0, 100.0, 200.0, 500.0, 1000.0, 1100.0];
    let ns: Vec<u64> = ms.iter().map(|m: &f64| (m * 1_000_000.0).round() as u64).collect();
    let r = user_latency_ranges(&ns);
    assert_eq!(r.labels.len(), 12);
    assert_eq!(r.labels[0], "≤ 0.1ms");
    assert_eq!(r.labels[1], "0.1ms < v ≤ 0.5ms");
    assert_eq!(r.labels[2], "0.5ms < v ≤ 1ms");
    assert_eq!(r.labels[11], "> 1100ms");
}

#[test]
fn zero_latency_falls_in_first_range() {
    let r = user_latency_ranges(&[100_000, 500_000, 1_000_000]);
    assert_eq!(r.labels, vec!["≤ 0.1ms", "0.1ms < v ≤ 0.5ms", "0.5ms < v ≤ 1ms", "> 1ms"]);
    let c = range_counts(&[0, 50_000, 300_000, 2_000_000], &r.bounds);
    assert_eq!(c, vec![2, 1, 0, 1]);
    let d = default_latency_ranges();
    let c = range_counts(&[0], &d.bounds);
    assert_eq!(c[0], 1);
    assert_eq!(c.iter().sum::<usize>(), 1);
}

use trace::align::AlignmentConfig;
use trace::benchmark::{Bandwidth, BenchmarkResult};
use trace::benchmark_report::{group_results, tool_series};
use trace::custom_log::process_ufscustom_content;

fn res(tool: &str, iteration: usize, test_type: &str, digits: &str) -> BenchmarkResult {
    BenchmarkResult {
        tool: tool.to_string(),
        iteration,
        test_type: test_type.to_string(),
        bandwidth: Bandwidth { digits: digits.to_string(), divisor: 1 },
    }
}

fn digits(b: &Option<Bandwidth>) -> Option<&str> {
    b.as_ref().map(|x| x.digits.as_str())
}

#[test]
fn custom_content_skips_header_comments_and_bad_lines() {
    let content = "opcode,lba,size,start_time,end_time\n\
                   # comment\n\
                   0x28,100,4096,1.5,1.5005\n\
                   \n\
                   garbage line\n\
                   0x2a,64,8192,2.0,2.001\n";
    let r = process_ufscustom_content(content, &AlignmentConfig { alignment_size_kb: 64 });
    assert_eq!(r.total_lines, 6);
    assert_eq!(r.parsed_lines, 2);
    // Four lines were not records; the leading header is counted once more.
    assert_eq!(r.skipped_lines, 5);
    assert_eq!(r.traces[0].opcode, "0x28");
    assert_eq!(r.traces[0].lba, 100);
    assert_eq!(r.traces[0].dtoc, 500_000);
    assert_eq!(r.traces[1].size, 8192);
    assert_eq!(r.traces[1].dtoc, 1_000_000);

    let plain = process_ufscustom_content("0x28,1,2,0.1,0.2", &AlignmentConfig { alignment_size_kb: 64 });
    assert_eq!((plain.total_lines, plain.parsed_lines, plain.skipped_lines), (1, 1, 0));
    let empty = process_ufscustom_content("", &AlignmentConfig { alignment_size_kb: 64 });
    assert_eq!((empty.total_lines, empty.parsed_lines, empty.skipped_lines), (0, 0, 0));
}

#[test]
fn results_grouped_by_iteration_and_tool() {
    let results = vec![
        res("TIOtest", 1, "Write", "50.0"),
        res("FIO", 2, "WRITE", "600"),
        res("FIO", 1, "WRITE", "604"),
        res("FIO", 1, "READ", "700"),
        res("IOzone", 1, "random READ", "30"),
        res("FIO", 1, "WRITE", "610"),
    ];
    let rows = group_results(&results);
    let keys: Vec<(usize, &str)> = rows.iter().map(|r| (r.iteration, r.tool.as_str())).collect();
    assert_eq!(keys, vec![(1, "FIO"), (1, "IOzone"), (1, "TIOtest"), (2, "FIO")]);
    assert_eq!(digits(&rows[0].write), Some("610"));
    assert_eq!(digits(&rows[0].read), Some("700"));
    assert_eq!(digits(&rows[1].read), Some("30"));
    // "Write" names neither "WRITE" nor "READ": the row has no bandwidth.
    assert_eq!(digits(&rows[2].write), None);
    assert_eq!(digits(&rows[2].read), None);
    assert_eq!(digits(&rows[3].write), Some("600"));
}

#[test]
fn series_in_iteration_order() {
    let results = vec![
        res("FIO", 2, "WRITE", "b"),
        res("FIO", 0, "WRITE", "ignored"),
        res("FIO", 1, "WRITE", "a"),
        res("IOzone", 1, "READ", "r1"),
        res("FIO", 1, "READ WRITE", "both"),
        res("FIO", 2, "READ", "c"),
    ];
    let ts = tool_series(&results);
    assert_eq!(ts.len(), 2);
    assert_eq!(ts[0].tool, "FIO");
    let w: Vec<&str> = ts[0].writes.iter().map(|b| b.digits.as_str()).collect();
    let r: Vec<&str> = ts[0].reads.iter().map(|b| b.digits.as_str()).collect();
    assert_eq!(w, vec!["a", "b"]);
    assert_eq!(r, vec!["both", "c"]);
    assert_eq!(ts[1].tool, "IOzone");
    assert_eq!(ts[1].reads.len(), 1);
    assert!(ts[1].writes.is_empty());
}

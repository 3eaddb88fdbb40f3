use trace::benchmark::{text_lines, BenchmarkParser, LogLineType};

fn value(digits: &str, divisor: u32) -> f64 {
    digits.parse::<f64>().unwrap() / divisor as f64
}

#[test]
fn test_fio_iteration_detection() {
    let parser = BenchmarkParser::new();
    let mut current_iter = 0;

    let line = "--- FIO 1GB Sequential Write Test (Iteration 1) ---";
    parser.detect_line_type(line, &mut current_iter);
    assert_eq!(current_iter, 1);
}

#[test]
fn test_fio_result_detection() {
    let parser = BenchmarkParser::new();
    let mut current_iter = 1;

    let line = "  WRITE: bw=604MiB/s (633MB/s), 604MiB/s-604MiB/s (633MB/s-633MB/s), io=1024MiB (1074MB), run=1695-1695msec";
    let result = parser.detect_line_type(line, &mut current_iter);

    match result {
        LogLineType::FioResult { iteration, test_type, bandwidth } => {
            assert_eq!(iteration, 1);
            assert_eq!(test_type, "WRITE");
            assert_eq!(value(&bandwidth.digits, bandwidth.divisor), 604.0);
        }
        _ => panic!("Expected FioResult"),
    }
}

#[test]
fn test_trace_detection() {
    let parser = BenchmarkParser::new();
    let mut current_iter = 1;

    let ufs_line = "    kworker/1:1H-175     [001] ..... 22218.735851: ufshcd_command: send_req:";
    let result = parser.detect_line_type(ufs_line, &mut current_iter);
    assert!(matches!(result, LogLineType::UfsTrace));

    let block_line = "  test-123   [000] ..... 12345.678901: block_rq_issue: 8,0 R 4096 () 1000 + 8 [test]";
    let result = parser.detect_line_type(block_line, &mut current_iter);
    assert!(matches!(result, LogLineType::BlockTrace));

    let ufscustom_line = "0x28,1000,8,123.456,123.789";
    let result = parser.detect_line_type(ufscustom_line, &mut current_iter);
    assert!(matches!(result, LogLineType::UfsCustomTrace));

    let ufscustom_line2 = "0x2a,2048,16,456.123,456.567";
    let result = parser.detect_line_type(ufscustom_line2, &mut current_iter);
    assert!(matches!(result, LogLineType::UfsCustomTrace));
}

#[test]
fn tiotest_and_iozone_lines() {
    let parser = BenchmarkParser::new();
    let mut it = 0;
    let tio = "| Write        1024 MBs |    3.2 s | 318.500 MB/s |   0.4 %  |";
    match parser.detect_line_type(tio, &mut it) {
        LogLineType::TioTestResult { iteration, test_type, bandwidth } => {
            assert_eq!(iteration, 1);
            assert_eq!(test_type, "Write");
            assert_eq!(value(&bandwidth.digits, bandwidth.divisor), 318.5);
        }
        _ => panic!("Expected TioTestResult"),
    }
    let tio_read = "| Random Read    64 MBs |    1.0 s |  64.000 MB/s |   0.1 %  |";
    match parser.detect_line_type(tio_read, &mut it) {
        LogLineType::TioTestResult { iteration, test_type, .. } => {
            assert_eq!(iteration, 1);
            assert_eq!(test_type, "Random Read");
        }
        _ => panic!("Expected TioTestResult"),
    }
    let seq = "          524288    1024   812345   801234   901234   902345";
    match parser.detect_line_type(seq, &mut it) {
        LogLineType::IOzoneResult { iteration, test_type, bandwidth } => {
            assert_eq!(iteration, 2);
            assert_eq!(test_type, "Sequential");
            assert_eq!(value(&bandwidth.digits, bandwidth.divisor), 812345.0);
        }
        _ => panic!("Expected IOzoneResult"),
    }
    let rnd = "\tParent sees throughput for 4 random readers \t=  102400.00 kB/sec";
    match parser.detect_line_type(rnd, &mut it) {
        LogLineType::IOzoneResult { iteration, test_type, bandwidth } => {
            assert_eq!(iteration, 2);
            assert_eq!(test_type, "Random Read");
            assert_eq!(value(&bandwidth.digits, bandwidth.divisor), 100.0);
        }
        other => panic!("Expected IOzoneResult, got {:?}", other),
    }
    assert!(matches!(parser.detect_line_type("hello", &mut it), LogLineType::Other));
}

#[test]
fn results_and_iterations_of_a_log() {
    let log = "--- FIO seq (Iteration 1) ---\n  WRITE: bw=100MiB/s (105MB/s)\nx ufshcd_command: send_req\r\n--- FIO seq (Iteration 2) ---\n  READ: bw=2.5MiB/s\n0x28,1,8,1.0,2.0\n";
    let lines = text_lines(log);
    assert_eq!(lines.len(), 6);
    assert_eq!(lines[2], "x ufshcd_command: send_req");
    let parser = BenchmarkParser::new();
    let results = parser.extract_benchmark_results(log);
    assert_eq!(results.len(), 2);
    assert_eq!(results[0].tool, "FIO");
    assert_eq!(results[0].iteration, 1);
    assert_eq!(results[1].iteration, 2);
    assert_eq!(results[1].test_type, "READ");
    let (res, table) = parser.classify_benchmark_lines(&lines);
    assert_eq!(res.len(), 2);
    assert_eq!(table.get(&1).unwrap().ufs_traces.len(), 1);
    assert_eq!(table.get(&2).unwrap().ufscustom_traces, vec!["0x28,1,8,1.0,2.0".to_string()]);
}

#[test]
fn text_lines_like_str_lines() {
    assert_eq!(text_lines(""), Vec::<String>::new());
    assert_eq!(text_lines("a\n\nb"), vec!["a".to_string(), "".to_string(), "b".to_string()]);
    assert_eq!(text_lines("a\r\nb\r"), vec!["a".to_string(), "b\r".to_string()]);
}

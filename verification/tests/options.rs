use trace::align::parse_alignment_size;
use trace::benchmark::benchmark_counter_fits;
use trace::filter::parse_cpu_list;
use trace::latency::{ms_answer, parse_latency_ranges, unsigned_answer};
use trace::TraceType;
use trace::compression::{is_log_file_name, CompressionFormat};
use trace::statistics::count_containing;

#[test]
fn alignment_sizes() {
    assert_eq!(parse_alignment_size("64KB"), Ok(65536));
    assert_eq!(parse_alignment_size("128kb"), Ok(131072));
    assert_eq!(parse_alignment_size("1MB"), Ok(1048576));
    assert_eq!(parse_alignment_size("2gb"), Ok(2 * 1073741824));
    assert_eq!(parse_alignment_size("4096"), Ok(4096));
    assert_eq!(parse_alignment_size("+8KB"), Ok(8192));
    assert_eq!(parse_alignment_size("xKB"), Err("Invalid alignment size: 'XKB'".to_string()));
    assert_eq!(parse_alignment_size("KB"), Err("Invalid alignment size: 'KB'".to_string()));
    assert_eq!(
        parse_alignment_size("64kib"),
        Err("Invalid alignment size: '64KIB'. Use format like '64KB', '1MB'".to_string())
    );
    assert!(parse_alignment_size("18446744073709551615KB").is_err());
}

#[test]
fn cpu_lists() {
    assert_eq!(parse_cpu_list("0,1,2,3\n"), Some(vec![0, 1, 2, 3]));
    assert_eq!(parse_cpu_list(" 4 , 7"), Some(vec![4, 7]));
    assert_eq!(parse_cpu_list("\n"), None);
    assert_eq!(parse_cpu_list("1,x"), None);
    assert_eq!(parse_cpu_list("1,,2"), None);
    assert_eq!(parse_cpu_list("+5"), Some(vec![5]));
}

#[test]
fn counter_fits_ordinary_logs() {
    let lines: Vec<String> = vec![
        "--- FIO 1GB Sequential Write Test (Iteration 3) ---".to_string(),
        "WRITE: bw=604MiB/s".to_string(),
    ];
    assert!(benchmark_counter_fits(&lines));
    let top = format!("--- FIO x (Iteration {}) ---", usize::MAX);
    let iozone = "                1048576    4096   512000   520000   530000".to_string();
    assert!(benchmark_counter_fits(&vec![top.clone()]));
    assert!(!benchmark_counter_fits(&vec![top, iozone]));
}

#[test]
fn texts_holding_a_word() {
    let ops: Vec<String> = vec!["READ_10".into(), "WRITE_10".into(), "0x28".into(), "READ_16".into()];
    assert_eq!(count_containing(&ops, "READ"), 2);
    assert_eq!(count_containing(&ops, "WRITE"), 1);
    assert_eq!(count_containing(&ops, "SYNC"), 0);
    assert_eq!(count_containing(&[], "R"), 0);
}

#[test]
fn latency_range_option_values() {
    assert_eq!(
        parse_latency_ranges("0.1,0.5,1,5,10,30,100,200,500,1000,1100"),
        Ok(vec![
            100_000, 500_000, 1_000_000, 5_000_000, 10_000_000, 30_000_000, 100_000_000, 200_000_000,
            500_000_000, 1_000_000_000, 1_100_000_000
        ])
    );
    assert_eq!(parse_latency_ranges(" 0.25 , 1,12.5"), Ok(vec![250_000, 1_000_000, 12_500_000]));
    assert_eq!(parse_latency_ranges("-0,1"), Ok(vec![0, 1_000_000]));
    assert_eq!(parse_latency_ranges(".5,5."), Ok(vec![500_000, 5_000_000]));
    assert_eq!(
        parse_latency_ranges("1,-2"),
        Err("Latency range values must be non-negative".to_string())
    );
    assert_eq!(
        parse_latency_ranges("1,abc"),
        Err("Invalid latency range value: abc".to_string())
    );
    assert_eq!(parse_latency_ranges(""), Err("Invalid latency range value: ".to_string()));
    assert_eq!(
        parse_latency_ranges("5,1"),
        Err("Latency range values must be in ascending order".to_string())
    );
    assert_eq!(
        parse_latency_ranges("1,1"),
        Err("Latency range values must be in ascending order".to_string())
    );
}

#[test]
fn ascii_case_of_names() {
    assert_eq!(CompressionFormat::from_path("LOGS.TAR.GZ"), CompressionFormat::TarGz);
    assert_eq!(CompressionFormat::from_path("a.Zip"), CompressionFormat::Zip);
    assert!(is_log_file_name("RUN.LOG"));
    assert!(is_log_file_name("my_Trace_1.bin"));
    assert!(!is_log_file_name("data.bin"));
    assert_eq!(TraceType::parse_str("UFSCUSTOM"), Some(TraceType::UFSCUSTOM));
    assert_eq!(TraceType::parse_str(&format!("{:?}", TraceType::Block)), Some(TraceType::Block));
    assert_eq!(TraceType::parse_str(&format!("{:?}", TraceType::UFS)), Some(TraceType::UFS));
    assert_eq!(TraceType::parse_str("bLoCk"), Some(TraceType::Block));
    assert_eq!(TraceType::parse_str("blocks"), None);
}

#[test]
fn latency_range_float_forms() {
    assert_eq!(parse_latency_ranges("1e3"), Ok(vec![1_000_000_000]));
    assert_eq!(parse_latency_ranges("+5"), Ok(vec![5_000_000]));
    assert_eq!(parse_latency_ranges("1E-3,2.5e+1"), Ok(vec![1_000, 25_000_000]));
    assert_eq!(parse_latency_ranges("0.1,inf"), Ok(vec![100_000, u64::MAX]));
    assert_eq!(parse_latency_ranges("INFINITY"), Ok(vec![u64::MAX]));
    assert_eq!(parse_latency_ranges("1e400"), Ok(vec![u64::MAX]));
    assert_eq!(parse_latency_ranges("2.5e-7"), Ok(vec![0]));
    assert_eq!(parse_latency_ranges("-0.0e5,1"), Ok(vec![0, 1_000_000]));
    let neg = Err("Latency range values must be non-negative".to_string());
    assert_eq!(parse_latency_ranges("NaN"), neg);
    assert_eq!(parse_latency_ranges("-nan"), neg);
    assert_eq!(parse_latency_ranges("-inf"), neg);
    assert_eq!(parse_latency_ranges("-1e-3"), neg);
    for bad in ["1e", "e5", ".", "1.2.3", "1e+", "in", "0x10", "1_000"] {
        assert_eq!(parse_latency_ranges(bad), Err(format!("Invalid latency range value: {bad}")));
    }
    assert_eq!(
        parse_latency_ranges("1,inf,2"),
        Err("Latency range values must be in ascending order".to_string())
    );
}

#[test]
fn prompt_answers() {
    assert_eq!(ms_answer("1.5\n"), 1_500_000);
    assert_eq!(ms_answer("  2e1 \n"), 20_000_000);
    assert_eq!(ms_answer("-3\n"), 0);
    assert_eq!(ms_answer("nan\n"), 0);
    assert_eq!(ms_answer("\n"), 0);
    assert_eq!(ms_answer("abc\n"), 0);
    assert_eq!(ms_answer("inf"), u64::MAX);
    assert_eq!(unsigned_answer("42\n", u64::MAX), 42);
    assert_eq!(unsigned_answer(" +7 ", u64::MAX), 7);
    assert_eq!(unsigned_answer("4294967296\n", u32::MAX as u64), 0);
    assert_eq!(unsigned_answer("4294967295\n", u32::MAX as u64), 4294967295);
    assert_eq!(unsigned_answer("-1\n", u64::MAX), 0);
    assert_eq!(unsigned_answer("x", u64::MAX), 0);
}

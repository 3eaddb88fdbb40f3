use trace::align::AlignmentConfig;
use trace::filter::{filter_block_data, filter_ufscustom_data, match_range_u32, FilterOptions};
use trace::log_common::{parse_block_io_event, parse_ufscustom_event};

fn cfg() -> AlignmentConfig {
    AlignmentConfig { alignment_size_kb: 64 }
}

fn blocks() -> Vec<trace::Block> {
    ["1.0", "2.0", "3.0"]
        .iter()
        .enumerate()
        .map(|(i, t)| {
            let line = format!("  a-1 [00{}] .. {}: block_rq_issue: 8,0 R () {} + 8 [a]", i, t, i * 100);
            parse_block_io_event(&line, &cfg()).unwrap()
        })
        .collect()
}

#[test]
fn no_filter_keeps_everything() {
    let f = FilterOptions::default();
    assert_eq!(filter_block_data(blocks(), &f).len(), 3);
}

#[test]
fn time_sector_and_cpu_filters() {
    let mut f = FilterOptions::default();
    f.start_time = 1_500_000_000;
    f.end_time = 3_000_000_000;
    let kept = filter_block_data(blocks(), &f);
    assert_eq!(kept.len(), 2);
    let mut f = FilterOptions::default();
    f.end_sector = 50;
    assert_eq!(filter_block_data(blocks(), &f).len(), 1);
    let mut f = FilterOptions::default();
    f.cpu_list = vec![2, 1];
    assert_eq!(filter_block_data(blocks(), &f).len(), 2);
    f.build_cpu_set();
    assert!(f.cpu_matches(2) && !f.cpu_matches(0));
    assert_eq!(filter_block_data(blocks(), &f).len(), 2);
}

#[test]
fn custom_records_keep_cpu_and_overlap_time() {
    let items: Vec<trace::UFSCUSTOM> = ["0x28,0,8,1.0,2.0", "0x28,0,8,3.0,4.0"]
        .iter()
        .map(|l| parse_ufscustom_event(l, &cfg()).unwrap())
        .collect();
    let mut f = FilterOptions::default();
    f.start_time = 1_500_000_000;
    f.end_time = 2_500_000_000;
    f.cpu_list = vec![7];
    let kept = filter_ufscustom_data(items, &f);
    assert_eq!(kept.len(), 1);
    assert_eq!(kept[0].start_time, 1_000_000_000);
}

#[test]
fn count_ranges() {
    assert!(match_range_u32(5, 0, 0));
    assert!(match_range_u32(5, 5, 0));
    assert!(!match_range_u32(4, 5, 0));
    assert!(match_range_u32(5, 0, 5));
    assert!(!match_range_u32(6, 1, 5));
}

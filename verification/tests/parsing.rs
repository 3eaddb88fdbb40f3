use trace::align::AlignmentConfig;
use trace::log_common::{
    categorize_line_fast, parse_block_io_event, parse_log_line, parse_ufs_event,
    parse_ufscustom_event, process_line, process_line_optimized, LineCategory,
};
use trace::TraceType;

const UFS_LINE: &str = "    kworker/1:1H-175     [001] ..... 22218.735851: ufshcd_command: send_req: ff3b0000.ufs: tag: 12, DB: 0x0, size: 4096, IS: 0, LBA: 1234567, opcode: 0x2a (WRITE_10), group_id: 0x0, hwq_id: 3";
const BLOCK_LINE: &str = "  test-123   [000] ..... 12345.678901: block_rq_issue: 8,0 R 4096 () 1000 + 8 [test]";
const CUSTOM_LINE: &str = "0x28,1000,8,123.456,123.789";

fn config() -> AlignmentConfig {
    AlignmentConfig { alignment_size_kb: 64 }
}

#[test]
fn ufs_line_fields() {
    let u = parse_ufs_event(UFS_LINE, &config()).unwrap();
    assert_eq!(u.process, "kworker/1:1H-175");
    assert_eq!(u.cpu, 1);
    assert_eq!(u.time, 22218735851000);
    assert_eq!(u.action, "send_req");
    assert_eq!(u.tag, 12);
    assert_eq!(u.size, 1);
    assert_eq!(u.lba, 1234567 / 4096);
    assert_eq!(u.opcode, "0x2a");
    assert_eq!(u.groupid, 0);
    assert_eq!(u.hwqid, 3);
    assert!(!u.aligned);
    assert_eq!(u.qd, 0);
}

#[test]
fn ufs_line_edge_values() {
    let line = "  p [2] 1.5: ufshcd_command: complete_rsp: x tag: 7 size: -8193 LBA: 2305843009213693951 opcode: 0x28 group_id: 0x1f hwq_id: -1";
    let u = parse_ufs_event(line, &config()).unwrap();
    assert_eq!(u.action, "complete_rsp");
    assert_eq!(u.time, 1_500_000_000);
    assert_eq!(u.size, 3);
    assert_eq!(u.lba, 0);
    assert_eq!(u.groupid, 31);
    assert_eq!(u.hwqid, 0);
    assert!(u.aligned);
}

#[test]
fn ufs_line_refused() {
    let r = parse_ufs_event(BLOCK_LINE, &config());
    assert_eq!(r.err(), Some("Line does not match UFS pattern"));
}

#[test]
fn block_line_fields() {
    let b = parse_block_io_event(BLOCK_LINE, &config()).unwrap();
    assert_eq!(b.process, "test-123");
    assert_eq!(b.cpu, 0);
    assert_eq!(b.flags, ".....");
    assert_eq!(b.time, 12345678901000);
    assert_eq!(b.action, "block_rq_issue");
    assert_eq!(b.devmajor, 8);
    assert_eq!(b.devminor, 0);
    assert_eq!(b.io_type, "R");
    assert_eq!(b.extra, 4096);
    assert_eq!(b.sector, 1000);
    assert_eq!(b.size, 8);
    assert_eq!(b.comm, "test");
    assert!(!b.aligned);
}

#[test]
fn block_line_without_extra_and_with_tail() {
    let line = "  fio-9 [003] d..1. 10.000001: block_rq_complete: 254,48 WS () 128 + 16 [0] [fio]";
    let b = parse_block_io_event(line, &config()).unwrap();
    assert_eq!(b.extra, 0);
    assert_eq!(b.io_type, "WS");
    assert_eq!(b.sector, 128);
    assert_eq!(b.size, 16);
    assert_eq!(b.comm, "fio");
    assert_eq!(b.flags, "d..1.");
    assert!(b.aligned);
    let max = "  a [0] x 1.0: block_rq_issue: 1,2 R () 18446744073709551615 + 0 [c]";
    assert_eq!(parse_block_io_event(max, &config()).unwrap().sector, 0);
}

#[test]
fn block_line_refused() {
    let r = parse_block_io_event(CUSTOM_LINE, &config());
    assert_eq!(r.err(), Some("Line does not match Block IO pattern"));
}

#[test]
fn custom_line_fields() {
    let c = parse_ufscustom_event(CUSTOM_LINE, &config()).unwrap();
    assert_eq!(c.opcode, "0x28");
    assert_eq!(c.lba, 1000);
    assert_eq!(c.size, 8);
    assert_eq!(c.start_time, 123_456_000_000);
    assert_eq!(c.end_time, 123_789_000_000);
    assert_eq!(c.dtoc, 333_000_000);
    assert!(!c.aligned);
}

#[test]
fn custom_line_errors() {
    let cfg = config();
    assert_eq!(
        parse_ufscustom_event("opcode,lba,size,start_time,end_time", &cfg).err(),
        Some("Header line")
    );
    assert_eq!(parse_ufscustom_event("   ", &cfg).err(), Some("Comment or empty line"));
    assert_eq!(parse_ufscustom_event("# note", &cfg).err(), Some("Comment or empty line"));
    assert_eq!(parse_ufscustom_event("// note", &cfg).err(), Some("Comment or empty line"));
    assert_eq!(
        parse_ufscustom_event("0x28,1000,8,1.5", &cfg).err(),
        Some("Line does not match UFSCUSTOM pattern")
    );
    let c = parse_ufscustom_event("0x2a,0,16,2,1.25", &cfg).unwrap();
    assert_eq!(c.dtoc, -750_000_000);
    assert!(c.aligned);
}

#[test]
fn mixed_lines() {
    let cfg = config();
    let (u, b, c) = process_line(UFS_LINE, &cfg).unwrap();
    assert!(u.is_some() && b.is_none() && c.is_none());
    let (u, b, c) = process_line(BLOCK_LINE, &cfg).unwrap();
    assert!(u.is_none() && b.is_some() && c.is_none());
    let (u, b, c) = process_line(CUSTOM_LINE, &cfg).unwrap();
    assert!(u.is_none() && b.is_none() && c.is_some());
    assert!(process_line("some test line", &cfg).is_none());
    assert!(process_line_optimized("some test line", &cfg).is_none());
    assert!(process_line_optimized(BLOCK_LINE, &cfg).unwrap().1.is_some());
}

#[test]
fn quick_categories() {
    assert_eq!(categorize_line_fast(""), LineCategory::Empty);
    assert_eq!(categorize_line_fast(UFS_LINE), LineCategory::UFS);
    assert_eq!(categorize_line_fast(BLOCK_LINE), LineCategory::Block);
    assert_eq!(categorize_line_fast(CUSTOM_LINE), LineCategory::UFSCustom);
    assert_eq!(categorize_line_fast("hello"), LineCategory::Unknown);
    assert_eq!(parse_log_line(CUSTOM_LINE).unwrap().0, TraceType::UFSCUSTOM);
    assert_eq!(parse_log_line(UFS_LINE).unwrap().0, TraceType::UFS);
    assert_eq!(parse_log_line("x blk_mq y").unwrap().0, TraceType::Block);
    assert!(parse_log_line("nothing").is_none());
}

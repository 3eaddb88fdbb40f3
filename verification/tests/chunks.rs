use trace::align::AlignmentConfig;
use trace::chunk::{find_line_boundaries, process_chunk, process_line_zero_copy, process_lines};

fn cfg() -> AlignmentConfig {
    AlignmentConfig { alignment_size_kb: 64 }
}

#[test]
fn test_find_line_boundaries() {
    let data = b"line1\nline2\nline3\n";
    let boundaries = find_line_boundaries(data);
    assert_eq!(boundaries, vec![0, 6, 12, 18]);
}

#[test]
fn test_process_line_zero_copy() {
    let line = b"some test line";
    let result = process_line_zero_copy(line, &cfg());
    assert!(result.is_none());
}

#[test]
fn raw_lines_are_trimmed_and_read() {
    let r = process_line_zero_copy(b"  0x28,8,8,1.0,1.5  ", &cfg()).unwrap();
    assert_eq!(r.2.unwrap().lba, 8);
    assert!(process_line_zero_copy(&[0xff, 0xfe], &cfg()).is_none());
    assert!(process_line_zero_copy(b"   ", &cfg()).is_none());
}

#[test]
fn chunks_sort_records_by_kind() {
    let data = b"junk\n0x28,8,8,1.0,1.5\n  a-1 [0] .. 1.0: block_rq_issue: 8,0 R () 8 + 8 [a]\n0x2a,0,8,1,2";
    let (u, b, c) = process_chunk(data, 0, data.len(), &cfg());
    assert_eq!(u.len(), 0);
    assert_eq!(b.len(), 1);
    assert_eq!(c.len(), 1);
    let lines = vec!["0x28,8,8,1.0,1.5".to_string(), "0x2a,0,8,1,2".to_string(), "x".to_string()];
    let (u, b, c) = process_lines(lines, &cfg());
    assert_eq!((u.len(), b.len(), c.len()), (0, 0, 2));
    assert_eq!(c[1].opcode, "0x2a");
}

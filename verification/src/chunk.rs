//! Reading a block of raw log bytes: cutting it into lines, reading each
//! line, and sorting the records into the three kinds.
use vstd::prelude::*;
use vstd::utf8::{decode_utf8, valid_utf8};
use crate::align::{block_alignment_ok, AlignmentConfig};
use crate::log_common::{process_line_optimized, quick_record, record_of, well_shaped, RecordView};
use crate::models::{BlockView, UfsCustomView, UfsView, Block, UFS, UFSCUSTOM};
use crate::scan::{run_end, scan, CharClass};
use crate::text::{chars_of, is_ws, string_from_range};

verus! {

broadcast use vstd::string::group_string_axioms;

/// Start of every line: 0, then the position after each line feed.
pub open spec fn line_starts(data: Seq<u8>) -> Seq<usize>
    decreases data.len(),
{
    if data.len() == 0 {
        seq![0usize]
    } else {
        let prev = line_starts(data.drop_last());
        if data.last() == 10 {
            prev.push(data.len() as usize)
        } else {
            prev
        }
    }
}

/// The start of every line of `data`: 0 and the position after each `\n`.
pub fn find_line_boundaries(data: &[u8]) -> (b: Vec<usize>)
    ensures
        b@ == line_starts(data@),
{
    let mut b: Vec<usize> = Vec::new();
    b.push(0);
    let mut i: usize = 0;
    assert(data@.take(0).len() == 0);
    assert(b@ =~= line_starts(data@.take(0)));
    while i < data.len()
        invariant
            0 <= i <= data@.len(),
            b@ == line_starts(data@.take(i as int)),
        decreases data@.len() - i,
    {
        assert(data@.take(i + 1).drop_last() =~= data@.take(i as int));
        if data[i] == 10 {
            b.push(i + 1);
        }
        i = i + 1;
    }
    assert(data@.take(data@.len() as int) =~= data@);
    b
}

/// `std::str::from_utf8`: the text of valid UTF-8 bytes, nothing otherwise.
#[verifier::external_body]
fn utf8_text(bytes: &[u8]) -> (r: Option<&str>)
    ensures
        match r {
            Some(s) => valid_utf8(bytes@) && s@ == decode_utf8(bytes@),
            None => !valid_utf8(bytes@),
        },
{
    match std::str::from_utf8(bytes) {
        Ok(s) => Some(s),
        Err(_) => None,
    }
}

/// End of the text once trailing white space is dropped, scanning back from `b`.
pub open spec fn trim_back(s: Seq<char>, b: int) -> int
    decreases b,
{
    if 0 < b <= s.len() && is_ws(s[b - 1]) {
        trim_back(s, b - 1)
    } else {
        b
    }
}

/// `str::trim`: leading and trailing white space removed.
pub open spec fn trimmed(s: Seq<char>) -> Seq<char> {
    let a = run_end(s, 0, CharClass::Ws);
    if a >= s.len() {
        Seq::empty()
    } else {
        s.subrange(a, trim_back(s, s.len() as int))
    }
}

proof fn lemma_trim_back(s: Seq<char>, b: int, a: int)
    requires
        0 <= a < b <= s.len(),
        !is_ws(s[a]),
    ensures
        a < trim_back(s, b) <= b,
    decreases b,
{
    if is_ws(s[b - 1]) {
        lemma_trim_back(s, b - 1, a);
    }
}

pub(crate) fn trim_chars(chars: &[char]) -> (r: String)
    ensures
        r@ == trimmed(chars@),
{
    let a = scan(chars, 0, CharClass::Ws);
    if a >= chars.len() {
        return String::new();
    }
    proof {
        crate::scan::lemma_run_end(chars@, 0, CharClass::Ws);
    }
    let mut b = chars.len();
    proof {
        lemma_trim_back(chars@, b as int, a as int);
    }
    while b > a && crate::text::is_ws_exec(chars[b - 1])
        invariant
            a < chars@.len(),
            !is_ws(chars@[a as int]),
            a < b <= chars@.len(),
            trim_back(chars@, chars@.len() as int) == trim_back(chars@, b as int),
        decreases b,
    {
        b = b - 1;
    }
    string_from_range(chars, a, b)
}

/// What the reader of one raw line makes of it: nothing for bytes that
/// are not UTF-8 or a line that is blank once trimmed, else the trimmed line
/// read by the reader its quick look names.
pub open spec fn raw_line_record(bytes: Seq<u8>, config: AlignmentConfig) -> Option<RecordView> {
    if !valid_utf8(bytes) {
        None
    } else {
        let t = trimmed(decode_utf8(bytes));
        if t.len() == 0 {
            None
        } else {
            quick_record(t, config)
        }
    }
}

/// Reads one raw line (see `raw_line_record`).
pub fn process_line_zero_copy(line: &[u8], config: &AlignmentConfig) -> (r: Option<(Option<UFS>, Option<Block>, Option<UFSCUSTOM>)>)
    requires
        block_alignment_ok(*config),
    ensures
        well_shaped(r),
        record_of(r) == raw_line_record(line@, *config),
{
    let text = match utf8_text(line) {
        Some(t) => t,
        None => {
            return None;
        },
    };
    let chars = chars_of(text);
    let t = trim_chars(chars.as_slice());
    if t.as_str().is_empty() {
        return None;
    }
    process_line_optimized(t.as_str(), config)
}

/// The records of a sequence of readings, sorted by kind, in order.
pub open spec fn collect_records(rs: Seq<Option<RecordView>>) -> (Seq<UfsView>, Seq<BlockView>, Seq<UfsCustomView>)
    decreases rs.len(),
{
    if rs.len() == 0 {
        (Seq::empty(), Seq::empty(), Seq::empty())
    } else {
        let prev = collect_records(rs.drop_last());
        match rs.last() {
            Some(RecordView::Ufs(u)) => (prev.0.push(u), prev.1, prev.2),
            Some(RecordView::Block(b)) => (prev.0, prev.1.push(b), prev.2),
            Some(RecordView::Custom(c)) => (prev.0, prev.1, prev.2.push(c)),
            None => prev,
        }
    }
}

pub open spec fn ufs_seq_view(v: Seq<UFS>) -> Seq<UfsView> {
    Seq::new(v.len(), |i: int| v[i]@)
}

pub open spec fn block_seq_view(v: Seq<Block>) -> Seq<BlockView> {
    Seq::new(v.len(), |i: int| v[i]@)
}

pub open spec fn custom_seq_view(v: Seq<UFSCUSTOM>) -> Seq<UfsCustomView> {
    Seq::new(v.len(), |i: int| v[i]@)
}

/// The lines of a chunk that the reader sees: the bytes between one line
/// start and the line feed that ends the line, when there are any.  A last
/// line with no line feed is not read.
pub open spec fn chunk_lines(chunk: Seq<u8>) -> Seq<Seq<u8>> {
    let b = line_starts(chunk);
    Seq::new(
        (if b.len() > 0 { b.len() - 1 } else { 0 }) as nat,
        |k: int| chunk.subrange(b[k] as int, b[k + 1] - 1),
    )
}

/// Whether the reader reads window `k` of the line starts (a nonempty line).
pub open spec fn window_read(b: Seq<usize>, k: int, n: int) -> bool {
    b[k] < b[k + 1] - 1 && b[k + 1] - 1 <= n
}

pub open spec fn chunk_readings(chunk: Seq<u8>, config: AlignmentConfig, upto: int) -> Seq<Option<RecordView>> {
    let b = line_starts(chunk);
    Seq::new(
        upto as nat,
        |k: int|
            if window_read(b, k, chunk.len() as int) {
                raw_line_record(chunk.subrange(b[k] as int, b[k + 1] - 1), config)
            } else {
                None
            },
    )
}

pub(crate) proof fn lemma_collect_push(rs: Seq<Option<RecordView>>, x: Option<RecordView>)
    ensures
        collect_records(rs.push(x)) == (match x {
            Some(RecordView::Ufs(u)) => (collect_records(rs).0.push(u), collect_records(rs).1, collect_records(rs).2),
            Some(RecordView::Block(b)) => (collect_records(rs).0, collect_records(rs).1.push(b), collect_records(rs).2),
            Some(RecordView::Custom(c)) => (collect_records(rs).0, collect_records(rs).1, collect_records(rs).2.push(c)),
            None => collect_records(rs),
        }),
{
    assert(rs.push(x).drop_last() =~= rs);
}

/// Reads the lines of `data[start..end]` (see `chunk_lines`) and sorts the
/// records by kind, keeping their order.
pub fn process_chunk(data: &[u8], start: usize, end: usize, config: &AlignmentConfig) -> (r: (Vec<UFS>, Vec<Block>, Vec<UFSCUSTOM>))
    requires
        start <= end <= data@.len(),
        block_alignment_ok(*config),
    ensures
        ({
            let chunk = data@.subrange(start as int, end as int);
            let b = line_starts(chunk);
            let readings = chunk_readings(chunk, *config, b.len() - 1);
            (ufs_seq_view(r.0@), block_seq_view(r.1@), custom_seq_view(r.2@)) == collect_records(readings)
        }),
{
    let chunk = &data[start..end];
    let boundaries = find_line_boundaries(chunk);
    let ghost b = boundaries@;
    let ghost cs = chunk@;
    let mut ufs: Vec<UFS> = Vec::new();
    let mut blocks: Vec<Block> = Vec::new();
    let mut customs: Vec<UFSCUSTOM> = Vec::new();
    proof {
        lemma_line_starts_shape(cs);
    }
    let mut k: usize = 0;
    assert(boundaries@.len() >= 1);
    while k < boundaries.len() - 1
        invariant
            b == boundaries@,
            b == line_starts(cs),
            cs == chunk@,
            b.len() >= 1,
            0 <= k <= b.len() - 1,
            block_alignment_ok(*config),
            (ufs_seq_view(ufs@), block_seq_view(blocks@), custom_seq_view(customs@)) == collect_records(
                chunk_readings(cs, *config, k as int),
            ),
        decreases b.len() - k,
    {
        let line_start = boundaries[k];
        let next = boundaries[k + 1];
        let line_end = if next > 0 {
            next - 1
        } else {
            0
        };
        let ghost before = chunk_readings(cs, *config, k as int);
        assert(chunk_readings(cs, *config, k + 1) =~= before.push(chunk_readings(cs, *config, k + 1)[k as int]));
        proof {
            lemma_collect_push(before, chunk_readings(cs, *config, k + 1)[k as int]);
        }
        if line_start < line_end && line_end <= chunk.len() {
            let line = &chunk[line_start..line_end];
            assert(line@ == cs.subrange(line_start as int, line_end as int));
            let got = process_line_zero_copy(line, config);
            match got {
                Some((Some(u), None, None)) => {
                    ufs.push(u);
                },
                Some((None, Some(bl), None)) => {
                    blocks.push(bl);
                },
                Some((None, None, Some(c))) => {
                    customs.push(c);
                },
                _ => {},
            }
        }
        assert(ufs_seq_view(ufs@) =~= collect_records(chunk_readings(cs, *config, k + 1)).0);
        assert(block_seq_view(blocks@) =~= collect_records(chunk_readings(cs, *config, k + 1)).1);
        assert(custom_seq_view(customs@) =~= collect_records(chunk_readings(cs, *config, k + 1)).2);
        k = k + 1;
    }
    (ufs, blocks, customs)
}

proof fn lemma_line_starts_shape(data: Seq<u8>)
    ensures
        line_starts(data).len() >= 1,
        line_starts(data).len() <= data.len() + 1,
    decreases data.len(),
{
    if data.len() > 0 {
        lemma_line_starts_shape(data.drop_last());
    }
}

/// The records of a list of text lines, each read by the reader its quick
/// look names, sorted by kind in order.
pub open spec fn lines_readings(lines: Seq<String>, config: AlignmentConfig) -> Seq<Option<RecordView>> {
    Seq::new(lines.len(), |i: int| quick_record(lines[i]@, config))
}

/// Reads text lines and sorts the records by kind, keeping their order.
pub fn process_lines(lines: Vec<String>, config: &AlignmentConfig) -> (r: (Vec<UFS>, Vec<Block>, Vec<UFSCUSTOM>))
    requires
        block_alignment_ok(*config),
    ensures
        (ufs_seq_view(r.0@), block_seq_view(r.1@), custom_seq_view(r.2@)) == collect_records(
            lines_readings(lines@, *config),
        ),
{
    let ghost ls = lines@;
    let mut ufs: Vec<UFS> = Vec::new();
    let mut blocks: Vec<Block> = Vec::new();
    let mut customs: Vec<UFSCUSTOM> = Vec::new();
    let mut i: usize = 0;
    while i < lines.len()
        invariant
            ls == lines@,
            0 <= i <= ls.len(),
            block_alignment_ok(*config),
            (ufs_seq_view(ufs@), block_seq_view(blocks@), custom_seq_view(customs@)) == collect_records(
                lines_readings(ls, *config).take(i as int),
            ),
        decreases ls.len() - i,
    {
        let ghost before = lines_readings(ls, *config).take(i as int);
        assert(lines_readings(ls, *config).take(i + 1) =~= before.push(lines_readings(ls, *config)[i as int]));
        proof {
            lemma_collect_push(before, lines_readings(ls, *config)[i as int]);
        }
        match process_line_optimized(lines[i].as_str(), config) {
            Some((Some(u), None, None)) => {
                ufs.push(u);
            },
            Some((None, Some(b), None)) => {
                blocks.push(b);
            },
            Some((None, None, Some(c))) => {
                customs.push(c);
            },
            _ => {},
        }
        assert(ufs_seq_view(ufs@) =~= collect_records(lines_readings(ls, *config).take(i + 1)).0);
        assert(block_seq_view(blocks@) =~= collect_records(lines_readings(ls, *config).take(i + 1)).1);
        assert(custom_seq_view(customs@) =~= collect_records(lines_readings(ls, *config).take(i + 1)).2);
        i = i + 1;
    }
    assert(lines_readings(ls, *config).take(ls.len() as int) =~= lines_readings(ls, *config));
    (ufs, blocks, customs)
}

} // verus!

//! Reading single trace lines into records.
use vstd::prelude::*;
use crate::align::{
    block_alignment_ok, block_alignment_sectors, is_block_aligned, is_multiple, is_ufs_aligned,
    ufs_alignment_units, AlignmentConfig,
};
use crate::block_line::{block_captures, block_captures_exec};
use crate::custom_line::{custom_captures, custom_captures_exec};
use crate::models::{BlockView, TraceType, UfsCustomView, UfsView, Block, UFS, UFSCUSTOM};
use crate::scan::{caps_match, caps_shape, pairs, run_end, scan, CharClass};
use crate::text::{
    all_lower_hex, chars_of, contains_exec, contains_seq, decimal_text_nanos,
    decimal_text_to_nanos, hex_digits_value, hex_value, is_lower_hex, is_ws, is_ws_exec,
    occurs_at, parse_i64, parse_i64_exec, parse_unsigned, parse_unsigned_exec, starts_with,
    string_from_chars, string_from_range,
};
use crate::ufs_line::{lit_at, ufs_captures, ufs_captures_exec};

verus! {

broadcast use vstd::string::group_string_axioms;

/// LBA value that the UFS driver logs for debug commands (2^61 - 1).
pub const UFS_DEBUG_LBA: u64 = 2305843009213693951;

/// Largest LBA taken as genuine (2^48); larger ones are logged garbage.
pub const MAX_VALID_UFS_LBA: u64 = 0x1_0000_0000_0000;

/// The text of a capture.
pub open spec fn cap_text(s: Seq<char>, p: (int, int)) -> Seq<char> {
    s.subrange(p.0, p.1)
}

/// `text.parse().unwrap_or(0)` into an unsigned type whose largest value is `max`.
pub open spec fn unsigned_or_zero(t: Seq<char>, max: nat) -> nat {
    match parse_unsigned(t, max) {
        Some(v) => v,
        None => 0,
    }
}

/// `u32::from_str_radix(text, 16).unwrap_or(0)` for a text of lower-case hex digits.
pub open spec fn hex_or_zero(t: Seq<char>) -> u32 {
    if t.len() > 0 && all_lower_hex(t) && hex_value(t) <= u32::MAX {
        hex_value(t) as u32
    } else {
        0
    }
}

/// A time text read as nanoseconds, zero where it does not parse.
pub open spec fn nanos_or_zero(t: Seq<char>) -> u64 {
    match decimal_text_nanos(t) {
        Some(n) => n,
        None => 0,
    }
}

/// The UFS address in 4 KiB units: the logged byte address, with the debug
/// value and implausibly large values taken as zero, divided by 4096.
pub open spec fn ufs_lba_units(t: Seq<char>) -> u64 {
    let raw = unsigned_or_zero(t, u64::MAX as nat);
    let cleaned = if raw == UFS_DEBUG_LBA || raw > MAX_VALID_UFS_LBA {
        0
    } else {
        raw
    };
    (cleaned / 4096) as u64
}

/// The UFS request size in 4 KiB units: the absolute byte count rounded up,
/// saturating at `u32::MAX`; zero where the text does not parse, and for
/// `i64::MIN`, whose absolute value is not an `i64`.
pub open spec fn ufs_size_units(t: Seq<char>) -> u32 {
    match parse_i64(t) {
        None => 0,
        Some(v) => if v == -0x8000_0000_0000_0000 {
            0
        } else {
            let a: int = if v < 0 {
                -v
            } else {
                v
            };
            let q: int = (a + 4095) / 4096;
            if q > u32::MAX {
                u32::MAX
            } else {
                q as u32
            }
        },
    }
}

/// Units of a UFS record: a plain logged byte address (neither the debug
/// value nor past the valid range) becomes the whole 4 KiB units below it,
/// and a byte count the fewest 4 KiB units that hold its absolute value,
/// when that many fit in `u32`.
pub proof fn law_ufs_units(t: Seq<char>, u: Seq<char>)
    ensures
        ({
            let raw = unsigned_or_zero(t, u64::MAX as nat);
            raw != UFS_DEBUG_LBA && raw <= MAX_VALID_UFS_LBA ==> ufs_lba_units(t) * 4096 <= raw
                < ufs_lba_units(t) * 4096 + 4096
        }),
        parse_i64(u) matches Some(v) ==> ({
            let a: int = if v < 0 { -v } else { v as int };
            v != -0x8000_0000_0000_0000 && a <= u32::MAX * 4096 ==> ufs_size_units(u) * 4096 >= a && (
            ufs_size_units(u) == 0 || (ufs_size_units(u) - 1) * 4096 < a)
        }),
{
    let raw = unsigned_or_zero(t, u64::MAX as nat);
    if raw != UFS_DEBUG_LBA && raw <= MAX_VALID_UFS_LBA {
        vstd::arithmetic::div_mod::lemma_fundamental_div_mod(raw as int, 4096);
    }
    if let Some(v) = parse_i64(u) {
        let a: int = if v < 0 { -v } else { v as int };
        if v != -0x8000_0000_0000_0000 && a <= u32::MAX * 4096 {
            vstd::arithmetic::div_mod::lemma_fundamental_div_mod(a + 4095, 4096);
            assert((a + 4095) / 4096 <= u32::MAX);
        }
    }
}

/// The record of a UFS line with captures `c` (see `ufs_captures`).
pub open spec fn ufs_record(s: Seq<char>, c: Seq<(int, int)>, config: AlignmentConfig) -> UfsView {
    let lba = ufs_lba_units(cap_text(s, c[3]));
    UfsView {
        time: nanos_or_zero(cap_text(s, c[7])),
        process: cap_text(s, c[9]),
        cpu: unsigned_or_zero(cap_text(s, c[8]), u32::MAX as nat) as u32,
        action: cap_text(s, c[6]),
        tag: unsigned_or_zero(cap_text(s, c[5]), u32::MAX as nat) as u32,
        opcode: cap_text(s, c[2]),
        lba,
        size: ufs_size_units(cap_text(s, c[4])),
        groupid: hex_or_zero(cap_text(s, c[1])),
        hwqid: unsigned_or_zero(cap_text(s, c[0]), u32::MAX as nat) as u32,
        qd: 0,
        dtoc: 0,
        ctoc: 0,
        ctod: 0,
        continuous: false,
        aligned: is_multiple(lba as int, ufs_alignment_units(config)),
    }
}

pub open spec fn ufs_no_match() -> Seq<char> {
    "Line does not match UFS pattern"@
}

fn unsigned_or_zero_exec(chars: &[char], lo: usize, hi: usize, max: u64) -> (r: u64)
    requires
        lo <= hi <= chars@.len(),
    ensures
        r == unsigned_or_zero(chars@.subrange(lo as int, hi as int), max as nat),
{
    match parse_unsigned_exec(chars, lo, hi, max) {
        Some(v) => v,
        None => 0,
    }
}

fn hex_or_zero_exec(chars: &[char], lo: usize, hi: usize) -> (r: u32)
    requires
        lo <= hi <= chars@.len(),
    ensures
        r == hex_or_zero(chars@.subrange(lo as int, hi as int)),
{
    let ghost t = chars@.subrange(lo as int, hi as int);
    if lo == hi {
        return 0;
    }
    let mut i = lo;
    while i < hi
        invariant
            lo <= i <= hi <= chars@.len(),
            t == chars@.subrange(lo as int, hi as int),
            forall|m: int| 0 <= m < i - lo ==> is_lower_hex(#[trigger] t[m]),
        decreases hi - i,
    {
        assert(t[i - lo] == chars@[i as int]);
        let c = chars[i];
        if !(('0' <= c && c <= '9') || ('a' <= c && c <= 'f')) {
            return 0;
        }
        i = i + 1;
    }
    match hex_digits_value(chars, lo, hi, 0xffff_ffff) {
        Some(v) => v as u32,
        None => 0,
    }
}

fn nanos_or_zero_exec(chars: &[char], lo: usize, hi: usize) -> (r: u64)
    requires
        lo <= hi <= chars@.len(),
    ensures
        r == nanos_or_zero(chars@.subrange(lo as int, hi as int)),
{
    match decimal_text_to_nanos(chars, lo, hi) {
        Some(n) => n,
        None => 0,
    }
}

fn ufs_lba_exec(chars: &[char], lo: usize, hi: usize) -> (r: u64)
    requires
        lo <= hi <= chars@.len(),
    ensures
        r == ufs_lba_units(chars@.subrange(lo as int, hi as int)),
{
    let raw = unsigned_or_zero_exec(chars, lo, hi, u64::MAX);
    let cleaned = if raw == UFS_DEBUG_LBA || raw > MAX_VALID_UFS_LBA {
        0
    } else {
        raw
    };
    cleaned / 4096
}

fn ufs_size_exec(chars: &[char], lo: usize, hi: usize) -> (r: u32)
    requires
        lo <= hi <= chars@.len(),
    ensures
        r == ufs_size_units(chars@.subrange(lo as int, hi as int)),
{
    match parse_i64_exec(chars, lo, hi) {
        None => 0,
        Some(v) => {
            if v == i64::MIN {
                0
            } else {
                let a: u64 = if v < 0 {
                    (-v) as u64
                } else {
                    v as u64
                };
                let q: u64 = (a + 4095) / 4096;
                if q > 0xffff_ffff {
                    0xffff_ffff
                } else {
                    q as u32
                }
            }
        },
    }
}

/// Reads a UFS `ufshcd_command` line.  The address alignment is judged with
/// `config`; queue depth, latencies and continuity are left at zero for the
/// latency pass to fill in.
pub fn parse_ufs_event(line: &str, config: &AlignmentConfig) -> (r: Result<UFS, &'static str>)
    ensures
        match ufs_captures(line@) {
            Some(c) => r matches Ok(u) && u@ == ufs_record(line@, c, *config),
            None => r matches Err(m) && m@ == ufs_no_match(),
        },
{
    let chars = chars_of(line);
    let caps = ufs_captures_exec(chars.as_slice());
    match caps {
        None => {
            proof {
                reveal_strlit("Line does not match UFS pattern");
            }
            Err("Line does not match UFS pattern")
        },
        Some(v) => {
            let ghost c = pairs(v@);
            assert(v@[0].0 <= v@[0].1 <= chars@.len());
            assert(v@[1].0 <= v@[1].1 <= chars@.len());
            assert(v@[2].0 <= v@[2].1 <= chars@.len());
            assert(v@[3].0 <= v@[3].1 <= chars@.len());
            assert(v@[4].0 <= v@[4].1 <= chars@.len());
            assert(v@[5].0 <= v@[5].1 <= chars@.len());
            assert(v@[6].0 <= v@[6].1 <= chars@.len());
            assert(v@[7].0 <= v@[7].1 <= chars@.len());
            assert(v@[8].0 <= v@[8].1 <= chars@.len());
            assert(v@[9].0 <= v@[9].1 <= chars@.len());
            let s = chars.as_slice();
            let lba = ufs_lba_exec(s, v[3].0, v[3].1);
            let aligned = is_ufs_aligned(config, lba);
            let u = UFS {
                time: nanos_or_zero_exec(s, v[7].0, v[7].1),
                process: string_from_range(s, v[9].0, v[9].1),
                cpu: unsigned_or_zero_exec(s, v[8].0, v[8].1, 0xffff_ffff) as u32,
                action: string_from_range(s, v[6].0, v[6].1),
                tag: unsigned_or_zero_exec(s, v[5].0, v[5].1, 0xffff_ffff) as u32,
                opcode: string_from_range(s, v[2].0, v[2].1),
                lba,
                size: ufs_size_exec(s, v[4].0, v[4].1),
                groupid: hex_or_zero_exec(s, v[1].0, v[1].1),
                hwqid: unsigned_or_zero_exec(s, v[0].0, v[0].1, 0xffff_ffff) as u32,
                qd: 0,
                dtoc: 0,
                ctoc: 0,
                ctod: 0,
                continuous: false,
                aligned,
            };
            Ok(u)
        },
    }
}


// ---------------------------------------------------------------------------
// Block lines
// ---------------------------------------------------------------------------

/// The start sector: `u64::MAX`, which the block layer logs for requests
/// without a sector, and unparsable texts are taken as zero.
pub open spec fn sector_value(t: Seq<char>) -> u64 {
    match parse_unsigned(t, u64::MAX as nat) {
        Some(v) => if v == u64::MAX {
            0
        } else {
            v as u64
        },
        None => 0,
    }
}

/// The record of a block line with captures `c` (see `block_captures`).
pub open spec fn block_record(s: Seq<char>, c: Seq<(int, int)>, config: AlignmentConfig) -> BlockView {
    let sector = sector_value(cap_text(s, c[2]));
    BlockView {
        time: nanos_or_zero(cap_text(s, c[8])),
        process: cap_text(s, c[11]),
        cpu: unsigned_or_zero(cap_text(s, c[10]), u32::MAX as nat) as u32,
        flags: cap_text(s, c[9]),
        action: cap_text(s, c[7]),
        devmajor: unsigned_or_zero(cap_text(s, c[6]), u32::MAX as nat) as u32,
        devminor: unsigned_or_zero(cap_text(s, c[5]), u32::MAX as nat) as u32,
        io_type: cap_text(s, c[4]),
        extra: unsigned_or_zero(cap_text(s, c[3]), u32::MAX as nat) as u32,
        sector,
        size: unsigned_or_zero(cap_text(s, c[1]), u32::MAX as nat) as u32,
        comm: cap_text(s, c[0]),
        qd: 0,
        dtoc: 0,
        ctoc: 0,
        ctod: 0,
        continuous: false,
        aligned: is_multiple(sector as int, block_alignment_sectors(config)),
    }
}

pub open spec fn block_no_match() -> Seq<char> {
    "Line does not match Block IO pattern"@
}

fn sector_exec(chars: &[char], lo: usize, hi: usize) -> (r: u64)
    requires
        lo <= hi <= chars@.len(),
    ensures
        r == sector_value(chars@.subrange(lo as int, hi as int)),
{
    match parse_unsigned_exec(chars, lo, hi, u64::MAX) {
        Some(v) => if v == u64::MAX {
            0
        } else {
            v
        },
        None => 0,
    }
}

#[verifier::rlimit(40)]
/// Reads a block-layer line.  An absent `extra` field reads as zero.  The
/// sector alignment is judged with `config`.
pub fn parse_block_io_event(line: &str, config: &AlignmentConfig) -> (r: Result<Block, &'static str>)
    requires
        block_alignment_ok(*config),
    ensures
        match block_captures(line@) {
            Some(c) => r matches Ok(b) && b@ == block_record(line@, c, *config),
            None => r matches Err(m) && m@ == block_no_match(),
        },
{
    let chars = chars_of(line);
    let caps = block_captures_exec(chars.as_slice());
    match caps {
        None => {
            proof {
                reveal_strlit("Line does not match Block IO pattern");
            }
            Err("Line does not match Block IO pattern")
        },
        Some(v) => {
            assert(v@[0].0 <= v@[0].1 <= chars@.len());
            assert(v@[1].0 <= v@[1].1 <= chars@.len());
            assert(v@[2].0 <= v@[2].1 <= chars@.len());
            assert(v@[3].0 <= v@[3].1 <= chars@.len());
            assert(v@[4].0 <= v@[4].1 <= chars@.len());
            assert(v@[5].0 <= v@[5].1 <= chars@.len());
            assert(v@[6].0 <= v@[6].1 <= chars@.len());
            assert(v@[7].0 <= v@[7].1 <= chars@.len());
            assert(v@[8].0 <= v@[8].1 <= chars@.len());
            assert(v@[9].0 <= v@[9].1 <= chars@.len());
            assert(v@[10].0 <= v@[10].1 <= chars@.len());
            assert(v@[11].0 <= v@[11].1 <= chars@.len());
            let s = chars.as_slice();
            let sector = sector_exec(s, v[2].0, v[2].1);
            let aligned = is_block_aligned(config, sector);
            let b = Block {
                time: nanos_or_zero_exec(s, v[8].0, v[8].1),
                process: string_from_range(s, v[11].0, v[11].1),
                cpu: unsigned_or_zero_exec(s, v[10].0, v[10].1, 0xffff_ffff) as u32,
                flags: string_from_range(s, v[9].0, v[9].1),
                action: string_from_range(s, v[7].0, v[7].1),
                devmajor: unsigned_or_zero_exec(s, v[6].0, v[6].1, 0xffff_ffff) as u32,
                devminor: unsigned_or_zero_exec(s, v[5].0, v[5].1, 0xffff_ffff) as u32,
                io_type: string_from_range(s, v[4].0, v[4].1),
                extra: unsigned_or_zero_exec(s, v[3].0, v[3].1, 0xffff_ffff) as u32,
                sector,
                size: unsigned_or_zero_exec(s, v[1].0, v[1].1, 0xffff_ffff) as u32,
                comm: string_from_range(s, v[0].0, v[0].1),
                qd: 0,
                dtoc: 0,
                ctoc: 0,
                ctod: 0,
                continuous: false,
                aligned,
            };
            Ok(b)
        },
    }
}

// ---------------------------------------------------------------------------
// Custom UFS lines
// ---------------------------------------------------------------------------

pub open spec fn custom_header() -> Seq<char> {
    "opcode,lba,size,start_time,end_time"@
}

/// Nothing but white space (what `str::trim` removes entirely).
pub open spec fn all_ws(s: Seq<char>) -> bool {
    forall|i: int| 0 <= i < s.len() ==> is_ws(#[trigger] s[i])
}

/// A line that the custom reader skips as a comment or blank.
pub open spec fn is_comment_or_blank(s: Seq<char>) -> bool {
    all_ws(s) || starts_with(s, "//"@) || starts_with(s, "#"@)
}

/// The record of a custom line with captures `c` (see `custom_captures`).
pub open spec fn custom_record(s: Seq<char>, c: Seq<(int, int)>, config: AlignmentConfig) -> UfsCustomView {
    let lba = unsigned_or_zero(cap_text(s, c[3]), u64::MAX as nat) as u64;
    let start = nanos_or_zero(cap_text(s, c[1]));
    let end = nanos_or_zero(cap_text(s, c[0]));
    UfsCustomView {
        opcode: cap_text(s, c[4]),
        lba,
        size: unsigned_or_zero(cap_text(s, c[2]), u32::MAX as nat) as u32,
        start_time: start,
        end_time: end,
        dtoc: (end - start) as i128,
        start_qd: 0,
        end_qd: 0,
        ctoc: 0,
        ctod: 0,
        continuous: false,
        aligned: is_multiple(lba as int, block_alignment_sectors(config)),
    }
}

pub open spec fn custom_header_msg() -> Seq<char> {
    "Header line"@
}

pub open spec fn custom_comment_msg() -> Seq<char> {
    "Comment or empty line"@
}

pub open spec fn custom_no_match() -> Seq<char> {
    "Line does not match UFSCUSTOM pattern"@
}

fn all_ws_exec(chars: &[char]) -> (b: bool)
    ensures
        b == all_ws(chars@),
{
    let mut i: usize = 0;
    while i < chars.len()
        invariant
            0 <= i <= chars@.len(),
            forall|m: int| 0 <= m < i ==> is_ws(#[trigger] chars@[m]),
        decreases chars@.len() - i,
    {
        if !is_ws_exec(chars[i]) {
            return false;
        }
        i = i + 1;
    }
    true
}

#[verifier::rlimit(40)]
/// Reads a custom UFS line (`opcode,lba,size,start_time,end_time`, times in
/// seconds).  The header line, blank lines and comments (`//` or `#`) are
/// refused with their own messages.  The address alignment is judged with
/// `config`, in sectors.
pub fn parse_ufscustom_event(line: &str, config: &AlignmentConfig) -> (r: Result<UFSCUSTOM, &'static str>)
    requires
        block_alignment_ok(*config),
    ensures
        if starts_with(line@, custom_header()) {
            r matches Err(m) && m@ == custom_header_msg()
        } else if is_comment_or_blank(line@) {
            r matches Err(m) && m@ == custom_comment_msg()
        } else {
            match custom_captures(line@) {
                Some(c) => r matches Ok(u) && u@ == custom_record(line@, c, *config),
                None => r matches Err(m) && m@ == custom_no_match(),
            }
        },
{
    let chars = chars_of(line);
    let s = chars.as_slice();
    if lit_at(s, 0, "opcode,lba,size,start_time,end_time") {
        proof {
            reveal_strlit("Header line");
        }
        return Err("Header line");
    }
    if all_ws_exec(s) || lit_at(s, 0, "//") || lit_at(s, 0, "#") {
        proof {
            reveal_strlit("Comment or empty line");
        }
        return Err("Comment or empty line");
    }
    let caps = custom_captures_exec(s);
    match caps {
        None => {
            proof {
                reveal_strlit("Line does not match UFSCUSTOM pattern");
            }
            Err("Line does not match UFSCUSTOM pattern")
        },
        Some(v) => {
            assert(v@[0].0 <= v@[0].1 <= chars@.len());
            assert(v@[1].0 <= v@[1].1 <= chars@.len());
            assert(v@[2].0 <= v@[2].1 <= chars@.len());
            assert(v@[3].0 <= v@[3].1 <= chars@.len());
            assert(v@[4].0 <= v@[4].1 <= chars@.len());
            let lba = unsigned_or_zero_exec(s, v[3].0, v[3].1, u64::MAX);
            let start = nanos_or_zero_exec(s, v[1].0, v[1].1);
            let end = nanos_or_zero_exec(s, v[0].0, v[0].1);
            let aligned = is_block_aligned(config, lba);
            let u = UFSCUSTOM {
                opcode: string_from_range(s, v[4].0, v[4].1),
                lba,
                size: unsigned_or_zero_exec(s, v[2].0, v[2].1, 0xffff_ffff) as u32,
                start_time: start,
                end_time: end,
                dtoc: end as i128 - start as i128,
                start_qd: 0,
                end_qd: 0,
                ctoc: 0,
                ctod: 0,
                continuous: false,
                aligned,
            };
            Ok(u)
        },
    }
}

// ---------------------------------------------------------------------------
// Lines of any kind
// ---------------------------------------------------------------------------

/// A record read from a line.
pub enum RecordView {
    Ufs(UfsView),
    Block(BlockView),
    Custom(UfsCustomView),
}

/// The record that a reader's result holds (one of the three kinds), if any.
pub open spec fn record_of(r: Option<(Option<UFS>, Option<Block>, Option<UFSCUSTOM>)>) -> Option<
    RecordView,
> {
    match r {
        Some((Some(u), None, None)) => Some(RecordView::Ufs(u@)),
        Some((None, Some(b), None)) => Some(RecordView::Block(b@)),
        Some((None, None, Some(c))) => Some(RecordView::Custom(c@)),
        _ => None,
    }
}

/// The result is nothing, or exactly one record.
pub open spec fn well_shaped(r: Option<(Option<UFS>, Option<Block>, Option<UFSCUSTOM>)>) -> bool {
    match r {
        None => true,
        Some((Some(_), None, None)) => true,
        Some((None, Some(_), None)) => true,
        Some((None, None, Some(_))) => true,
        _ => false,
    }
}

/// What the custom reader makes of a line, if it accepts it.
pub open spec fn custom_line_record(line: Seq<char>, config: AlignmentConfig) -> Option<RecordView> {
    if !starts_with(line, custom_header()) && !is_comment_or_blank(line) && custom_captures(line) is Some {
        Some(RecordView::Custom(custom_record(line, custom_captures(line)->Some_0, config)))
    } else {
        None
    }
}

/// What a line of a mixed log holds: the first of the UFS, block and custom
/// readers that accepts it decides.
pub open spec fn full_record(line: Seq<char>, config: AlignmentConfig) -> Option<RecordView> {
    match ufs_captures(line) {
        Some(c) => Some(RecordView::Ufs(ufs_record(line, c, config))),
        None => match block_captures(line) {
            Some(c) => Some(RecordView::Block(block_record(line, c, config))),
            None => custom_line_record(line, config),
        },
    }
}

/// Reads a line of a mixed log: as a UFS line, else as a block line, else
/// as a custom line; `None` where no reader accepts it.
pub fn process_line(line: &str, config: &AlignmentConfig) -> (r: Option<(Option<UFS>, Option<Block>, Option<UFSCUSTOM>)>)
    requires
        block_alignment_ok(*config),
    ensures
        well_shaped(r),
        record_of(r) == full_record(line@, *config),
{
    match parse_ufs_event(line, config) {
        Ok(u) => {
            return Some((Some(u), None, None));
        },
        Err(_) => {},
    }
    match parse_block_io_event(line, config) {
        Ok(b) => {
            return Some((None, Some(b), None));
        },
        Err(_) => {},
    }
    match parse_ufscustom_event(line, config) {
        Ok(u) => Some((None, None, Some(u))),
        Err(_) => None,
    }
}

/// Kind of a line by a quick look at it.
#[derive(Debug, Clone, Copy, PartialEq, Eq, Structural)]
pub enum LineCategory {
    UFS,
    Block,
    UFSCustom,
    Empty,
    Unknown,
}

/// `^0x[0-9a-f]+,\d+,\d+,`: the start of a custom line.
pub open spec fn custom_prefix(s: Seq<char>) -> bool {
    let h = run_end(s, 2, CharClass::LowerHex);
    let l = run_end(s, h + 1, CharClass::Nd);
    let z = run_end(s, l + 1, CharClass::Nd);
    &&& occurs_at(s, 0, "0x"@)
    &&& h > 2 && h < s.len() && s[h] == ','
    &&& l > h + 1 && l < s.len() && s[l] == ','
    &&& z > l + 1 && z < s.len() && s[z] == ','
}

/// A UFS line by its event name.
pub open spec fn ufs_hint(s: Seq<char>) -> bool {
    contains_seq(s, "ufshcd_command:"@)
}

/// A block line by its event name (`blk_` or `block_`).
pub open spec fn block_hint(s: Seq<char>) -> bool {
    contains_seq(s, "blk_"@) || contains_seq(s, "block_"@)
}

pub open spec fn line_category(s: Seq<char>) -> LineCategory {
    if s.len() == 0 {
        LineCategory::Empty
    } else if ufs_hint(s) {
        LineCategory::UFS
    } else if block_hint(s) {
        LineCategory::Block
    } else if custom_prefix(s) {
        LineCategory::UFSCustom
    } else {
        LineCategory::Unknown
    }
}

fn has_text(chars: &[char], needle: &str) -> (b: bool)
    ensures
        b == contains_seq(chars@, needle@),
{
    let n = chars_of(needle);
    contains_exec(chars, n.as_slice())
}

/// Whether the characters start like a custom line (see `custom_prefix`).
pub fn custom_prefix_exec(chars: &[char]) -> (b: bool)
    ensures
        b == custom_prefix(chars@),
{
    proof {
        reveal_strlit("0x");
        assert("0x"@.len() == 2);
    }
    let n = chars.len();
    if !lit_at(chars, 0, "0x") {
        return false;
    }
    let h = scan(chars, 2, CharClass::LowerHex);
    if !(h > 2 && h < n && chars[h] == ',') {
        return false;
    }
    let l = scan(chars, h + 1, CharClass::Nd);
    if !(l > h + 1 && l < n && chars[l] == ',') {
        return false;
    }
    let z = scan(chars, l + 1, CharClass::Nd);
    z > l + 1 && z < n && chars[z] == ','
}

/// The kind of a line by a quick look: empty, the UFS event name, a block
/// event name, the start of a custom line, in that order.
pub fn categorize_line_fast(line: &str) -> (r: LineCategory)
    ensures
        r == line_category(line@),
{
    let chars = chars_of(line);
    let s = chars.as_slice();
    if s.len() == 0 {
        LineCategory::Empty
    } else if has_text(s, "ufshcd_command:") {
        LineCategory::UFS
    } else if has_text(s, "blk_") || has_text(s, "block_") {
        LineCategory::Block
    } else if custom_prefix_exec(s) {
        LineCategory::UFSCustom
    } else {
        LineCategory::Unknown
    }
}

/// What the reader that the quick look names makes of a line.
pub open spec fn quick_record(line: Seq<char>, config: AlignmentConfig) -> Option<RecordView> {
    match line_category(line) {
        LineCategory::UFS => match ufs_captures(line) {
            Some(c) => Some(RecordView::Ufs(ufs_record(line, c, config))),
            None => None,
        },
        LineCategory::Block => match block_captures(line) {
            Some(c) => Some(RecordView::Block(block_record(line, c, config))),
            None => None,
        },
        LineCategory::UFSCustom => custom_line_record(line, config),
        _ => None,
    }
}

/// Reads a line with the one reader that its quick look names; `None`
/// where that reader refuses it, or it names none.
pub fn process_line_optimized(line: &str, config: &AlignmentConfig) -> (r: Option<(Option<UFS>, Option<Block>, Option<UFSCUSTOM>)>)
    requires
        block_alignment_ok(*config),
    ensures
        well_shaped(r),
        record_of(r) == quick_record(line@, *config),
{
    match categorize_line_fast(line) {
        LineCategory::UFS => match parse_ufs_event(line, config) {
            Ok(u) => Some((Some(u), None, None)),
            Err(_) => None,
        },
        LineCategory::Block => match parse_block_io_event(line, config) {
            Ok(b) => Some((None, Some(b), None)),
            Err(_) => None,
        },
        LineCategory::UFSCustom => match parse_ufscustom_event(line, config) {
            Ok(u) => Some((None, None, Some(u))),
            Err(_) => None,
        },
        _ => None,
    }
}

/// The trace kind of a line by a quick look (custom prefix, then the UFS
/// event name, then a block event name), with the line itself.
pub fn parse_log_line(line: &str) -> (r: Option<(TraceType, String)>)
    ensures
        if custom_prefix(line@) {
            r matches Some((t, l)) && t == TraceType::UFSCUSTOM && l@ == line@
        } else if ufs_hint(line@) {
            r matches Some((t, l)) && t == TraceType::UFS && l@ == line@
        } else if block_hint(line@) {
            r matches Some((t, l)) && t == TraceType::Block && l@ == line@
        } else {
            r is None
        },
{
    let chars = chars_of(line);
    let s = chars.as_slice();
    if custom_prefix_exec(s) {
        Some((TraceType::UFSCUSTOM, string_from_chars(s)))
    } else if has_text(s, "ufshcd_command:") {
        Some((TraceType::UFS, string_from_chars(s)))
    } else if has_text(s, "blk_") || has_text(s, "block_") {
        Some((TraceType::Block, string_from_chars(s)))
    } else {
        None
    }
}

/// The read buffer for a file of `file_size` bytes: 32 MiB above 1 GiB,
/// 8 MiB above 100 MB, else 1 MiB.
pub fn get_optimal_buffer_size(file_size: u64) -> (r: usize)
    ensures
        r == (if file_size > 1_073_741_824 {
            33554432
        } else if file_size > 100_000_000 {
            8388608
        } else {
            1048576int
        }),
{
    if file_size > 1_073_741_824 {
        32 * 1024 * 1024
    } else if file_size > 100_000_000 {
        8 * 1024 * 1024
    } else {
        1024 * 1024
    }
}

} // verus!

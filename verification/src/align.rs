//! Alignment of UFS logical block addresses and block-layer sectors.
//!
//! The alignment size is held in a set-once cell: the first configuration
//! stored stays in force, and reading an empty cell fills it with the
//! default of 64 KiB.
use vstd::prelude::*;
use crate::text::{
    chars_of, ends_with, ends_with_exec, parse_unsigned, parse_unsigned_exec, push_text,
    to_uppercase, unicode_uppercase,
};

verus! {

broadcast use vstd::string::group_string_axioms;

/// Alignment size in KiB.
#[derive(Debug, Clone, Copy, PartialEq, Eq, Structural)]
pub struct AlignmentConfig {
    pub alignment_size_kb: u64,
}

pub const DEFAULT_ALIGNMENT_KB: u64 = 64;

impl Default for AlignmentConfig {
    fn default() -> (r: Self)
        ensures
            r.alignment_size_kb == DEFAULT_ALIGNMENT_KB,
    {
        AlignmentConfig { alignment_size_kb: DEFAULT_ALIGNMENT_KB }
    }
}

/// `v.is_multiple_of(m)`: for `m == 0` only zero is a multiple.
pub open spec fn is_multiple(v: int, m: int) -> bool {
    if m == 0 {
        v == 0
    } else {
        v % m == 0
    }
}

/// Alignment in 4 KiB units (the unit of UFS addresses).
pub open spec fn ufs_alignment_units(config: AlignmentConfig) -> int {
    (config.alignment_size_kb / 4) as int
}

/// Alignment in 512-byte sectors.
pub open spec fn block_alignment_sectors(config: AlignmentConfig) -> int {
    (config.alignment_size_kb * 1024) / 512
}

/// The sizes for which the sector count can be computed without overflow.
pub open spec fn block_alignment_ok(config: AlignmentConfig) -> bool {
    config.alignment_size_kb * 1024 <= u64::MAX
}

fn multiple_of(v: u64, m: u64) -> (b: bool)
    ensures
        b == is_multiple(v as int, m as int),
{
    if m == 0 {
        v == 0
    } else {
        v % m == 0
    }
}

proof fn lemma_scaled_multiple(a: int, b: int, c: int)
    requires
        a >= 0,
        b > 0,
        c > 0,
    ensures
        (a * c) % (b * c) == 0 <==> a % b == 0,
{
    let q = a / b;
    let r = a % b;
    vstd::arithmetic::div_mod::lemma_fundamental_div_mod(a, b);
    assert(0 <= r < b);
    assert(a * c == q * (b * c) + r * c) by (nonlinear_arith)
        requires
            a == b * q + r,
    ;
    assert(0 <= r * c < b * c) by (nonlinear_arith)
        requires
            0 <= r < b,
            c > 0,
    ;
    assert(b * c != 0) by (nonlinear_arith)
        requires
            b > 0,
            c > 0,
    ;
    vstd::arithmetic::div_mod::lemma_fundamental_div_mod_converse(a * c, b * c, q, r * c);
    assert(r * c == 0 <==> r == 0) by (nonlinear_arith)
        requires
            c > 0,
    ;
}

/// A UFS address of `lba` 4 KiB units is aligned (as `is_ufs_aligned` and
/// the parsed records' `aligned` flag say) exactly when its byte offset,
/// `lba * 4096`, is a multiple of the alignment size in bytes, for every
/// alignment size that is a whole number of 4 KiB units.
pub proof fn law_ufs_alignment_in_bytes(config: AlignmentConfig, lba: u64)
    requires
        config.alignment_size_kb > 0,
        config.alignment_size_kb % 4 == 0,
    ensures
        is_multiple(lba as int, ufs_alignment_units(config)) <==> (lba * 4096) % (config.alignment_size_kb * 1024) == 0,
{
    let u = config.alignment_size_kb / 4;
    assert(u > 0 && config.alignment_size_kb * 1024 == u * 4096);
    lemma_scaled_multiple(lba as int, u as int, 4096);
}

/// A block-layer sector of 512 bytes is aligned (as `is_block_aligned` and
/// the parsed records' `aligned` flag say) exactly when its byte offset,
/// `sector * 512`, is a multiple of the alignment size in bytes.
pub proof fn law_block_alignment_in_bytes(config: AlignmentConfig, sector: u64)
    requires
        config.alignment_size_kb > 0,
    ensures
        is_multiple(sector as int, block_alignment_sectors(config)) <==> (sector * 512) % (
        config.alignment_size_kb * 1024) == 0,
{
    let u = config.alignment_size_kb * 2;
    assert(u > 0 && config.alignment_size_kb * 1024 == u * 512);
    assert(block_alignment_sectors(config) == u);
    lemma_scaled_multiple(sector as int, u as int, 512);
}

/// Whether a UFS address (4 KiB units) is aligned.
pub fn is_ufs_aligned(config: &AlignmentConfig, lba: u64) -> (b: bool)
    ensures
        b == is_multiple(lba as int, ufs_alignment_units(*config)),
{
    multiple_of(lba, config.alignment_size_kb / 4)
}

/// Whether a block-layer sector is aligned.
pub fn is_block_aligned(config: &AlignmentConfig, sector: u64) -> (b: bool)
    requires
        block_alignment_ok(*config),
    ensures
        b == is_multiple(sector as int, block_alignment_sectors(*config)),
{
    multiple_of(sector, (config.alignment_size_kb * 1024) / 512)
}

/// The cell after a `set`: an empty cell takes the value, a full one keeps its own.
pub open spec fn cell_after_set(cell: Option<AlignmentConfig>, config: AlignmentConfig) -> Option<
    AlignmentConfig,
> {
    match cell {
        Some(c) => Some(c),
        None => Some(config),
    }
}

/// The configuration that a read of the cell gives.
pub open spec fn cell_value(cell: Option<AlignmentConfig>) -> AlignmentConfig {
    match cell {
        Some(c) => c,
        None => AlignmentConfig { alignment_size_kb: DEFAULT_ALIGNMENT_KB },
    }
}

/// Stores the configuration unless one is stored already.
pub fn set_alignment_config(cell: &mut Option<AlignmentConfig>, config: AlignmentConfig)
    ensures
        *final(cell) == cell_after_set(*old(cell), config),
{
    if cell.is_none() {
        *cell = Some(config);
    }
}

/// The configuration in force; an empty cell is filled with the default.
pub fn get_alignment_config(cell: &mut Option<AlignmentConfig>) -> (r: AlignmentConfig)
    ensures
        r == cell_value(*old(cell)),
        *final(cell) == Some(r),
{
    match *cell {
        Some(c) => c,
        None => {
            let d = AlignmentConfig::default();
            *cell = Some(d);
            d
        },
    }
}

/// The first configuration stored stays in force: a later `set` changes
/// nothing, and a read gives the first value.
pub proof fn law_first_setting_wins(first: AlignmentConfig, second: AlignmentConfig)
    ensures
        cell_after_set(cell_after_set(None, first), second) == Some(first),
        cell_value(cell_after_set(cell_after_set(None, first), second)) == first,
{
}

/// A read never changes which configuration is in force.
pub proof fn law_read_is_stable(cell: Option<AlignmentConfig>)
    ensures
        cell_value(Some(cell_value(cell))) == cell_value(cell),
{
}

// ---------------------------------------------------------------------------
// Alignment sizes given as text
// ---------------------------------------------------------------------------

/// The byte count that an upper-cased size text names: a decimal number
/// with a `KB`, `MB` or `GB` suffix, or a plain number of bytes.
pub open spec fn alignment_bytes(up: Seq<char>) -> Option<nat> {
    if ends_with(up, "KB"@) {
        match parse_unsigned(up.take(up.len() - 2), u64::MAX as nat) {
            Some(v) => Some(v * 1024),
            None => None,
        }
    } else if ends_with(up, "MB"@) {
        match parse_unsigned(up.take(up.len() - 2), u64::MAX as nat) {
            Some(v) => Some(v * 1048576),
            None => None,
        }
    } else if ends_with(up, "GB"@) {
        match parse_unsigned(up.take(up.len() - 2), u64::MAX as nat) {
            Some(v) => Some(v * 1073741824),
            None => None,
        }
    } else {
        parse_unsigned(up, u64::MAX as nat)
    }
}

/// The message for a size text that names no byte count.
pub open spec fn alignment_error(up: Seq<char>) -> Seq<char> {
    if ends_with(up, "KB"@) || ends_with(up, "MB"@) || ends_with(up, "GB"@) {
        "Invalid alignment size: '"@ + up + "'"@
    } else {
        "Invalid alignment size: '"@ + up + "'. Use format like '64KB', '1MB'"@
    }
}

fn number_times(chars: &[char], hi: usize, unit: u64, Ghost(up): Ghost<Seq<char>>) -> (r: Option<u64>)
    requires
        hi <= chars@.len(),
        unit == 1 || unit == 1024 || unit == 1048576 || unit == 1073741824,
    ensures
        match parse_unsigned(chars@.subrange(0, hi as int), u64::MAX as nat) {
            Some(v) => if v * unit <= u64::MAX {
                r == Some((v * unit) as u64)
            } else {
                r is None
            },
            None => r is None,
        },
{
    match parse_unsigned_exec(chars, 0, hi, u64::MAX) {
        Some(v) => v.checked_mul(unit),
        None => None,
    }
}

/// The alignment size, in bytes, that a text such as `64KB`, `1MB` or
/// `4096` gives; the text is upper-cased first.  A number whose byte count
/// does not fit in 64 bits is refused like one that does not parse.
pub fn parse_alignment_size(input: &str) -> (r: Result<u64, String>)
    ensures
        match alignment_bytes(unicode_uppercase(input@)) {
            Some(v) => if v <= u64::MAX {
                r == Ok::<u64, String>(v as u64)
            } else {
                r matches Err(m) && m@ == alignment_error(unicode_uppercase(input@))
            },
            None => r matches Err(m) && m@ == alignment_error(unicode_uppercase(input@)),
        },
{
    proof {
        reveal_strlit("KB");
        reveal_strlit("MB");
        reveal_strlit("GB");
    }
    let up = to_uppercase(input);
    let cs = chars_of(up.as_str());
    let s = cs.as_slice();
    let ghost u = up@;
    let n = s.len();
    let kb = ends_with_exec(s, chars_of("KB").as_slice());
    let mb = ends_with_exec(s, chars_of("MB").as_slice());
    let gb = ends_with_exec(s, chars_of("GB").as_slice());
    let unit: u64 = if kb {
        1024
    } else if mb {
        1048576
    } else if gb {
        1073741824
    } else {
        1
    };
    let hi = if kb || mb || gb {
        n - 2
    } else {
        n
    };
    proof {
        assert(u.take(hi as int) =~= cs@.subrange(0, hi as int));
        if !(kb || mb || gb) {
            assert(u =~= cs@.subrange(0, hi as int));
        }
    }
    match number_times(s, hi, unit, Ghost(u)) {
        Some(v) => Ok(v),
        None => {
            let mut m = String::new();
            push_text(&mut m, "Invalid alignment size: '");
            push_text(&mut m, up.as_str());
            if kb || mb || gb {
                push_text(&mut m, "'");
                assert(m@ =~= alignment_error(u));
            } else {
                push_text(&mut m, "'. Use format like '64KB', '1MB'");
                assert(m@ =~= alignment_error(u));
            }
            Err(m)
        },
    }
}

} // verus!

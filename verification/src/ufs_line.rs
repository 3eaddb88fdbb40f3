//! The grammar of a UFS trace line (`ufshcd_command` events):
//!
//! `^\s*(?P<process>.*?)\s+\[(?P<cpu>[0-9]+)\].*?(?P<time>[0-9]+\.[0-9]+):\s+ufshcd_command:\s+(?P<command>send_req|complete_rsp):.*?tag:\s*(?P<tag>\d+).*?size:\s*(?P<size>[-]?\d+).*?LBA:\s*(?P<lba>\d+).*?opcode:\s*(?P<opcode>0x[0-9a-f]+).*?group_id:\s*0x(?P<group_id>[0-9a-f]+).*?hwq_id:\s*(?P<hwq_id>[-]?\d+)`
//!
//! read with the leftmost-first, lazy-first priorities of a regular
//! expression.  Each stage below is one piece of the pattern; the captures
//! are collected from the last group to the first.
use vstd::prelude::*;
use crate::scan::{
    CharClass, Caps, caps_match, caps_shape, in_class, lazy_find, lemma_pairs_push, pairs, push_cap, run_end,
    scan,
};
use crate::text::{chars_of, occurs_at, occurs_at_exec};

verus! {

broadcast use vstd::string::group_string_axioms;

/// Whether the literal `lit` occurs in `chars` at `j`.
pub fn lit_at(chars: &[char], j: usize, lit: &str) -> (b: bool)
    ensures
        b == occurs_at(chars@, j as int, lit@),
        b ==> j + lit@.len() <= usize::MAX,
{
    let _len: usize = chars.len();
    let l = chars_of(lit);
    occurs_at_exec(chars, j, l.as_slice())
}

// `hwq_id:\s*(?P<hwq_id>[-]?\d+)`
pub open spec fn ufs_try_hwq(s: Seq<char>, j: int) -> Option<Caps> {
    if occurs_at(s, j, "hwq_id:"@) {
        let k = run_end(s, j + 7, CharClass::Ws);
        let d0 = if k < s.len() && s[k] == '-' {
            k + 1
        } else {
            k
        };
        let e = run_end(s, d0, CharClass::Nd);
        if e > d0 {
            Some(seq![(k, e)])
        } else {
            None
        }
    } else {
        None
    }
}

pub open spec fn ufs_hwq_fn(s: Seq<char>) -> spec_fn(int) -> Option<Caps> {
    |j: int| ufs_try_hwq(s, j)
}

pub open spec fn ufs_hwq_stage(s: Seq<char>, r: int) -> Option<Caps> {
    lazy_find(s, r, ufs_hwq_fn(s))
}

// `group_id:\s*0x(?P<group_id>[0-9a-f]+)` then the hwq stage
pub open spec fn ufs_try_group(s: Seq<char>, j: int) -> Option<Caps> {
    if occurs_at(s, j, "group_id:"@) {
        let k = run_end(s, j + 9, CharClass::Ws);
        if occurs_at(s, k, "0x"@) {
            let e = run_end(s, k + 2, CharClass::LowerHex);
            if e > k + 2 {
                match ufs_hwq_stage(s, e) {
                    Some(c) => Some(c.push((k + 2, e))),
                    None => None,
                }
            } else {
                None
            }
        } else {
            None
        }
    } else {
        None
    }
}

pub open spec fn ufs_group_fn(s: Seq<char>) -> spec_fn(int) -> Option<Caps> {
    |j: int| ufs_try_group(s, j)
}

pub open spec fn ufs_group_stage(s: Seq<char>, r: int) -> Option<Caps> {
    lazy_find(s, r, ufs_group_fn(s))
}

// `opcode:\s*(?P<opcode>0x[0-9a-f]+)` then the group stage
pub open spec fn ufs_try_opcode(s: Seq<char>, j: int) -> Option<Caps> {
    if occurs_at(s, j, "opcode:"@) {
        let k = run_end(s, j + 7, CharClass::Ws);
        if occurs_at(s, k, "0x"@) {
            let e = run_end(s, k + 2, CharClass::LowerHex);
            if e > k + 2 {
                match ufs_group_stage(s, e) {
                    Some(c) => Some(c.push((k, e))),
                    None => None,
                }
            } else {
                None
            }
        } else {
            None
        }
    } else {
        None
    }
}

pub open spec fn ufs_opcode_fn(s: Seq<char>) -> spec_fn(int) -> Option<Caps> {
    |j: int| ufs_try_opcode(s, j)
}

pub open spec fn ufs_opcode_stage(s: Seq<char>, r: int) -> Option<Caps> {
    lazy_find(s, r, ufs_opcode_fn(s))
}

// `LBA:\s*(?P<lba>\d+)` then the opcode stage
pub open spec fn ufs_try_lba(s: Seq<char>, j: int) -> Option<Caps> {
    if occurs_at(s, j, "LBA:"@) {
        let k = run_end(s, j + 4, CharClass::Ws);
        let e = run_end(s, k, CharClass::Nd);
        if e > k {
            match ufs_opcode_stage(s, e) {
                Some(c) => Some(c.push((k, e))),
                None => None,
            }
        } else {
            None
        }
    } else {
        None
    }
}

pub open spec fn ufs_lba_fn(s: Seq<char>) -> spec_fn(int) -> Option<Caps> {
    |j: int| ufs_try_lba(s, j)
}

pub open spec fn ufs_lba_stage(s: Seq<char>, r: int) -> Option<Caps> {
    lazy_find(s, r, ufs_lba_fn(s))
}

// `size:\s*(?P<size>[-]?\d+)` then the LBA stage
pub open spec fn ufs_try_size(s: Seq<char>, j: int) -> Option<Caps> {
    if occurs_at(s, j, "size:"@) {
        let k = run_end(s, j + 5, CharClass::Ws);
        let d0 = if k < s.len() && s[k] == '-' {
            k + 1
        } else {
            k
        };
        let e = run_end(s, d0, CharClass::Nd);
        if e > d0 {
            match ufs_lba_stage(s, e) {
                Some(c) => Some(c.push((k, e))),
                None => None,
            }
        } else {
            None
        }
    } else {
        None
    }
}

pub open spec fn ufs_size_fn(s: Seq<char>) -> spec_fn(int) -> Option<Caps> {
    |j: int| ufs_try_size(s, j)
}

pub open spec fn ufs_size_stage(s: Seq<char>, r: int) -> Option<Caps> {
    lazy_find(s, r, ufs_size_fn(s))
}

// `tag:\s*(?P<tag>\d+)` then the size stage
pub open spec fn ufs_try_tag(s: Seq<char>, j: int) -> Option<Caps> {
    if occurs_at(s, j, "tag:"@) {
        let k = run_end(s, j + 4, CharClass::Ws);
        let e = run_end(s, k, CharClass::Nd);
        if e > k {
            match ufs_size_stage(s, e) {
                Some(c) => Some(c.push((k, e))),
                None => None,
            }
        } else {
            None
        }
    } else {
        None
    }
}

pub open spec fn ufs_tag_fn(s: Seq<char>) -> spec_fn(int) -> Option<Caps> {
    |j: int| ufs_try_tag(s, j)
}

pub open spec fn ufs_tag_stage(s: Seq<char>, r: int) -> Option<Caps> {
    lazy_find(s, r, ufs_tag_fn(s))
}

/// End of the command word at `d` (`send_req` or `complete_rsp`, followed by
/// `:`), or -1.
pub open spec fn ufs_command_end(s: Seq<char>, d: int) -> int {
    if occurs_at(s, d, "send_req:"@) {
        d + 8
    } else if occurs_at(s, d, "complete_rsp:"@) {
        d + 12
    } else {
        -1
    }
}

// `(?P<time>[0-9]+\.[0-9]+):\s+ufshcd_command:\s+(?P<command>send_req|complete_rsp):`
// then the tag stage
pub open spec fn ufs_try_time(s: Seq<char>, j: int) -> Option<Caps> {
    let a = run_end(s, j, CharClass::AsciiDigit);
    if a > j && a < s.len() && s[a] == '.' {
        let b = run_end(s, a + 1, CharClass::AsciiDigit);
        if b > a + 1 && b < s.len() && s[b] == ':' {
            let c = run_end(s, b + 1, CharClass::Ws);
            if c > b + 1 && occurs_at(s, c, "ufshcd_command:"@) {
                let d = run_end(s, c + 15, CharClass::Ws);
                let ce = ufs_command_end(s, d);
                if d > c + 15 && ce >= 0 {
                    match ufs_tag_stage(s, ce + 1) {
                        Some(cs) => Some(cs.push((d, ce)).push((j, b))),
                        None => None,
                    }
                } else {
                    None
                }
            } else {
                None
            }
        } else {
            None
        }
    } else {
        None
    }
}

pub open spec fn ufs_time_fn(s: Seq<char>) -> spec_fn(int) -> Option<Caps> {
    |j: int| ufs_try_time(s, j)
}

pub open spec fn ufs_time_stage(s: Seq<char>, r: int) -> Option<Caps> {
    lazy_find(s, r, ufs_time_fn(s))
}

// `\s+\[(?P<cpu>[0-9]+)\]` at `e`, then the time stage
pub open spec fn ufs_try_cpu(s: Seq<char>, e: int) -> Option<Caps> {
    let f = run_end(s, e, CharClass::Ws);
    if f > e && f < s.len() && s[f] == '[' {
        let g = run_end(s, f + 1, CharClass::AsciiDigit);
        if g > f + 1 && g < s.len() && s[g] == ']' {
            match ufs_time_stage(s, g + 1) {
                Some(c) => Some(c.push((f + 1, g))),
                None => None,
            }
        } else {
            None
        }
    } else {
        None
    }
}

// `(?P<process>.*?)` from `k`, then the cpu part
pub open spec fn ufs_process_fn(s: Seq<char>, k: int) -> spec_fn(int) -> Option<Caps> {
    |e: int|
        match ufs_try_cpu(s, e) {
            Some(c) => Some(c.push((k, e))),
            None => None,
        }
}

pub open spec fn ufs_process_stage(s: Seq<char>, k: int) -> Option<Caps> {
    lazy_find(s, k, ufs_process_fn(s, k))
}

/// `^\s*` keeps `k` leading white-space characters, from the most down to none.
pub open spec fn ufs_lead(s: Seq<char>, k: int) -> Option<Caps>
    decreases k,
{
    if k < 0 {
        None
    } else {
        match ufs_process_stage(s, k) {
            Some(c) => Some(c),
            None => if k == 0 {
                None
            } else {
                ufs_lead(s, k - 1)
            },
        }
    }
}

/// The captures of a UFS line, from `hwq_id` back to `process`:
/// `[hwq_id, group_id, opcode, lba, size, tag, command, time, cpu, process]`.
pub open spec fn ufs_captures(s: Seq<char>) -> Option<Caps> {
    ufs_lead(s, run_end(s, 0, CharClass::Ws))
}

// ---------------------------------------------------------------------------
// Executable stages
// ---------------------------------------------------------------------------

fn ufs_try_hwq_exec(chars: &[char], j: usize) -> (res: Option<Vec<(usize, usize)>>)
    requires
        j <= chars@.len(),
    ensures
        caps_match(res, ufs_try_hwq(chars@, j as int)),
        caps_shape(res, chars@.len() as int, 1),
{
    proof {
        reveal_strlit("hwq_id:");
        assert("hwq_id:"@.len() == 7);
    }
    if !lit_at(chars, j, "hwq_id:") {
        return None;
    }
    let k = scan(chars, j + 7, CharClass::Ws);
    let d0 = if k < chars.len() && chars[k] == '-' {
        k + 1
    } else {
        k
    };
    let e = scan(chars, d0, CharClass::Nd);
    if e > d0 {
        let mut v: Vec<(usize, usize)> = Vec::new();
        v.push((k, e));
        assert(pairs(v@) =~= seq![(k as int, e as int)]);
        assert(v@[0] == (k, e));
        Some(v)
    } else {
        None
    }
}

fn ufs_hwq_stage_exec(chars: &[char], r: usize) -> (res: Option<Vec<(usize, usize)>>)
    requires
        r <= chars@.len(),
    ensures
        caps_match(res, ufs_hwq_stage(chars@, r as int)),
        caps_shape(res, chars@.len() as int, 1),
{
    let mut j = r;
    loop
        invariant
            r <= j <= chars@.len(),
            ufs_hwq_stage(chars@, r as int) == lazy_find(chars@, j as int, ufs_hwq_fn(chars@)),
        decreases chars@.len() - j,
    {
        let t = ufs_try_hwq_exec(chars, j);
        if t.is_some() {
            return t;
        }
        if j < chars.len() && chars[j] != '\n' {
            j = j + 1;
        } else {
            return None;
        }
    }
}

fn ufs_try_group_exec(chars: &[char], j: usize) -> (res: Option<Vec<(usize, usize)>>)
    requires
        j <= chars@.len(),
    ensures
        caps_match(res, ufs_try_group(chars@, j as int)),
        caps_shape(res, chars@.len() as int, 2),
{
    proof {
        reveal_strlit("group_id:");
        assert("group_id:"@.len() == 9);
        reveal_strlit("0x");
        assert("0x"@.len() == 2);
    }
    if !lit_at(chars, j, "group_id:") {
        return None;
    }
    let k = scan(chars, j + 9, CharClass::Ws);
    if !lit_at(chars, k, "0x") {
        return None;
    }
    let e = scan(chars, k + 2, CharClass::LowerHex);
    if e > k + 2 {
        let rest = ufs_hwq_stage_exec(chars, e);
        push_cap(rest, (k + 2, e), Ghost(ufs_hwq_stage(chars@, e as int)), Ghost(chars@.len() as int), Ghost(1))
    } else {
        None
    }
}

fn ufs_group_stage_exec(chars: &[char], r: usize) -> (res: Option<Vec<(usize, usize)>>)
    requires
        r <= chars@.len(),
    ensures
        caps_match(res, ufs_group_stage(chars@, r as int)),
        caps_shape(res, chars@.len() as int, 2),
{
    let mut j = r;
    loop
        invariant
            r <= j <= chars@.len(),
            ufs_group_stage(chars@, r as int) == lazy_find(chars@, j as int, ufs_group_fn(chars@)),
        decreases chars@.len() - j,
    {
        let t = ufs_try_group_exec(chars, j);
        if t.is_some() {
            return t;
        }
        if j < chars.len() && chars[j] != '\n' {
            j = j + 1;
        } else {
            return None;
        }
    }
}

fn ufs_try_opcode_exec(chars: &[char], j: usize) -> (res: Option<Vec<(usize, usize)>>)
    requires
        j <= chars@.len(),
    ensures
        caps_match(res, ufs_try_opcode(chars@, j as int)),
        caps_shape(res, chars@.len() as int, 3),
{
    proof {
        reveal_strlit("opcode:");
        assert("opcode:"@.len() == 7);
        reveal_strlit("0x");
        assert("0x"@.len() == 2);
    }
    if !lit_at(chars, j, "opcode:") {
        return None;
    }
    let k = scan(chars, j + 7, CharClass::Ws);
    if !lit_at(chars, k, "0x") {
        return None;
    }
    let e = scan(chars, k + 2, CharClass::LowerHex);
    if e > k + 2 {
        let rest = ufs_group_stage_exec(chars, e);
        push_cap(rest, (k, e), Ghost(ufs_group_stage(chars@, e as int)), Ghost(chars@.len() as int), Ghost(2))
    } else {
        None
    }
}

fn ufs_opcode_stage_exec(chars: &[char], r: usize) -> (res: Option<Vec<(usize, usize)>>)
    requires
        r <= chars@.len(),
    ensures
        caps_match(res, ufs_opcode_stage(chars@, r as int)),
        caps_shape(res, chars@.len() as int, 3),
{
    let mut j = r;
    loop
        invariant
            r <= j <= chars@.len(),
            ufs_opcode_stage(chars@, r as int) == lazy_find(
                chars@,
                j as int,
                ufs_opcode_fn(chars@),
            ),
        decreases chars@.len() - j,
    {
        let t = ufs_try_opcode_exec(chars, j);
        if t.is_some() {
            return t;
        }
        if j < chars.len() && chars[j] != '\n' {
            j = j + 1;
        } else {
            return None;
        }
    }
}

fn ufs_try_lba_exec(chars: &[char], j: usize) -> (res: Option<Vec<(usize, usize)>>)
    requires
        j <= chars@.len(),
    ensures
        caps_match(res, ufs_try_lba(chars@, j as int)),
        caps_shape(res, chars@.len() as int, 4),
{
    proof {
        reveal_strlit("LBA:");
        assert("LBA:"@.len() == 4);
    }
    if !lit_at(chars, j, "LBA:") {
        return None;
    }
    let k = scan(chars, j + 4, CharClass::Ws);
    let e = scan(chars, k, CharClass::Nd);
    if e > k {
        let rest = ufs_opcode_stage_exec(chars, e);
        push_cap(rest, (k, e), Ghost(ufs_opcode_stage(chars@, e as int)), Ghost(chars@.len() as int), Ghost(3))
    } else {
        None
    }
}

fn ufs_lba_stage_exec(chars: &[char], r: usize) -> (res: Option<Vec<(usize, usize)>>)
    requires
        r <= chars@.len(),
    ensures
        caps_match(res, ufs_lba_stage(chars@, r as int)),
        caps_shape(res, chars@.len() as int, 4),
{
    let mut j = r;
    loop
        invariant
            r <= j <= chars@.len(),
            ufs_lba_stage(chars@, r as int) == lazy_find(chars@, j as int, ufs_lba_fn(chars@)),
        decreases chars@.len() - j,
    {
        let t = ufs_try_lba_exec(chars, j);
        if t.is_some() {
            return t;
        }
        if j < chars.len() && chars[j] != '\n' {
            j = j + 1;
        } else {
            return None;
        }
    }
}

fn ufs_try_size_exec(chars: &[char], j: usize) -> (res: Option<Vec<(usize, usize)>>)
    requires
        j <= chars@.len(),
    ensures
        caps_match(res, ufs_try_size(chars@, j as int)),
        caps_shape(res, chars@.len() as int, 5),
{
    proof {
        reveal_strlit("size:");
        assert("size:"@.len() == 5);
    }
    if !lit_at(chars, j, "size:") {
        return None;
    }
    let k = scan(chars, j + 5, CharClass::Ws);
    let d0 = if k < chars.len() && chars[k] == '-' {
        k + 1
    } else {
        k
    };
    let e = scan(chars, d0, CharClass::Nd);
    if e > d0 {
        let rest = ufs_lba_stage_exec(chars, e);
        push_cap(rest, (k, e), Ghost(ufs_lba_stage(chars@, e as int)), Ghost(chars@.len() as int), Ghost(4))
    } else {
        None
    }
}

fn ufs_size_stage_exec(chars: &[char], r: usize) -> (res: Option<Vec<(usize, usize)>>)
    requires
        r <= chars@.len(),
    ensures
        caps_match(res, ufs_size_stage(chars@, r as int)),
        caps_shape(res, chars@.len() as int, 5),
{
    let mut j = r;
    loop
        invariant
            r <= j <= chars@.len(),
            ufs_size_stage(chars@, r as int) == lazy_find(chars@, j as int, ufs_size_fn(chars@)),
        decreases chars@.len() - j,
    {
        let t = ufs_try_size_exec(chars, j);
        if t.is_some() {
            return t;
        }
        if j < chars.len() && chars[j] != '\n' {
            j = j + 1;
        } else {
            return None;
        }
    }
}

fn ufs_try_tag_exec(chars: &[char], j: usize) -> (res: Option<Vec<(usize, usize)>>)
    requires
        j <= chars@.len(),
    ensures
        caps_match(res, ufs_try_tag(chars@, j as int)),
        caps_shape(res, chars@.len() as int, 6),
{
    proof {
        reveal_strlit("tag:");
        assert("tag:"@.len() == 4);
    }
    if !lit_at(chars, j, "tag:") {
        return None;
    }
    let k = scan(chars, j + 4, CharClass::Ws);
    let e = scan(chars, k, CharClass::Nd);
    if e > k {
        let rest = ufs_size_stage_exec(chars, e);
        push_cap(rest, (k, e), Ghost(ufs_size_stage(chars@, e as int)), Ghost(chars@.len() as int), Ghost(5))
    } else {
        None
    }
}

fn ufs_tag_stage_exec(chars: &[char], r: usize) -> (res: Option<Vec<(usize, usize)>>)
    requires
        r <= chars@.len(),
    ensures
        caps_match(res, ufs_tag_stage(chars@, r as int)),
        caps_shape(res, chars@.len() as int, 6),
{
    let mut j = r;
    loop
        invariant
            r <= j <= chars@.len(),
            ufs_tag_stage(chars@, r as int) == lazy_find(chars@, j as int, ufs_tag_fn(chars@)),
        decreases chars@.len() - j,
    {
        let t = ufs_try_tag_exec(chars, j);
        if t.is_some() {
            return t;
        }
        if j < chars.len() && chars[j] != '\n' {
            j = j + 1;
        } else {
            return None;
        }
    }
}

fn ufs_try_time_exec(chars: &[char], j: usize) -> (res: Option<Vec<(usize, usize)>>)
    requires
        j <= chars@.len(),
    ensures
        caps_match(res, ufs_try_time(chars@, j as int)),
        caps_shape(res, chars@.len() as int, 8),
{
    proof {
        reveal_strlit("ufshcd_command:");
        reveal_strlit("send_req:");
        reveal_strlit("complete_rsp:");
    }
    let a = scan(chars, j, CharClass::AsciiDigit);
    if !(a > j && a < chars.len() && chars[a] == '.') {
        return None;
    }
    let b = scan(chars, a + 1, CharClass::AsciiDigit);
    if !(b > a + 1 && b < chars.len() && chars[b] == ':') {
        return None;
    }
    let c = scan(chars, b + 1, CharClass::Ws);
    if !(c > b + 1 && lit_at(chars, c, "ufshcd_command:")) {
        return None;
    }
    let d = scan(chars, c + 15, CharClass::Ws);
    if !(d > c + 15) {
        return None;
    }
    let ce: usize = if lit_at(chars, d, "send_req:") {
        d + 8
    } else if lit_at(chars, d, "complete_rsp:") {
        d + 12
    } else {
        return None;
    };
    let rest = ufs_tag_stage_exec(chars, ce + 1);
    let r1 = push_cap(rest, (d, ce), Ghost(ufs_tag_stage(chars@, ce + 1)), Ghost(chars@.len() as int), Ghost(6));
    push_cap(
        r1,
        (j, b),
        Ghost(
            match ufs_tag_stage(chars@, ce + 1) {
                Some(cs) => Some(cs.push((d as int, ce as int))),
                None => None,
            },
        ),
        Ghost(chars@.len() as int),
        Ghost(7),
    )
}

fn ufs_time_stage_exec(chars: &[char], r: usize) -> (res: Option<Vec<(usize, usize)>>)
    requires
        r <= chars@.len(),
    ensures
        caps_match(res, ufs_time_stage(chars@, r as int)),
        caps_shape(res, chars@.len() as int, 8),
{
    let mut j = r;
    loop
        invariant
            r <= j <= chars@.len(),
            ufs_time_stage(chars@, r as int) == lazy_find(chars@, j as int, ufs_time_fn(chars@)),
        decreases chars@.len() - j,
    {
        let t = ufs_try_time_exec(chars, j);
        if t.is_some() {
            return t;
        }
        if j < chars.len() && chars[j] != '\n' {
            j = j + 1;
        } else {
            return None;
        }
    }
}

fn ufs_try_cpu_exec(chars: &[char], e: usize) -> (res: Option<Vec<(usize, usize)>>)
    requires
        e <= chars@.len(),
    ensures
        caps_match(res, ufs_try_cpu(chars@, e as int)),
        caps_shape(res, chars@.len() as int, 9),
{
    let f = scan(chars, e, CharClass::Ws);
    if !(f > e && f < chars.len() && chars[f] == '[') {
        return None;
    }
    let g = scan(chars, f + 1, CharClass::AsciiDigit);
    if !(g > f + 1 && g < chars.len() && chars[g] == ']') {
        return None;
    }
    let rest = ufs_time_stage_exec(chars, g + 1);
    push_cap(rest, (f + 1, g), Ghost(ufs_time_stage(chars@, g + 1)), Ghost(chars@.len() as int), Ghost(8))
}

fn ufs_process_stage_exec(chars: &[char], k: usize) -> (res: Option<Vec<(usize, usize)>>)
    requires
        k <= chars@.len(),
    ensures
        caps_match(res, ufs_process_stage(chars@, k as int)),
        caps_shape(res, chars@.len() as int, 10),
{
    let mut e = k;
    loop
        invariant
            k <= e <= chars@.len(),
            ufs_process_stage(chars@, k as int) == lazy_find(
                chars@,
                e as int,
                ufs_process_fn(chars@, k as int),
            ),
        decreases chars@.len() - e,
    {
        let t = ufs_try_cpu_exec(chars, e);
        if t.is_some() {
            return push_cap(t, (k, e), Ghost(ufs_try_cpu(chars@, e as int)), Ghost(chars@.len() as int), Ghost(9));
        }
        if e < chars.len() && chars[e] != '\n' {
            e = e + 1;
        } else {
            return None;
        }
    }
}

/// The captures of a UFS line (see `ufs_captures`).
pub fn ufs_captures_exec(chars: &[char]) -> (res: Option<Vec<(usize, usize)>>)
    ensures
        caps_match(res, ufs_captures(chars@)),
        caps_shape(res, chars@.len() as int, 10),
{
    let w = scan(chars, 0, CharClass::Ws);
    let mut k = w;
    loop
        invariant
            k <= w <= chars@.len(),
            ufs_captures(chars@) == ufs_lead(chars@, k as int),
        decreases k,
    {
        let t = ufs_process_stage_exec(chars, k);
        if t.is_some() {
            return t;
        }
        if k == 0 {
            return None;
        }
        k = k - 1;
    }
}

} // verus!

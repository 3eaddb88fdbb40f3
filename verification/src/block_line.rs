//! The grammar of a block-layer trace line (`block_rq_*` events):
//!
//! `^\s*(?P<process>.*?)\s+\[(?P<cpu>\d+)\]\s+(?P<flags>.+?)\s+(?P<time>[\d\.]+):\s+(?P<action>\S+):\s+(?P<devmajor>\d+),(?P<devminor>\d+)\s+(?P<io_type>[A-Z]+)(?:\s+(?P<extra>\d+))?\s+\(\)\s+(?P<sector>\d+)\s+\+\s+(?P<size>\d+)(?:\s+\S+)?\s+\[(?P<comm>.*?)\]$`
//!
//! read with the priorities of a backtracking regular expression engine:
//! greedy parts try their longest match first, lazy parts their shortest,
//! optional groups are tried present before absent.  An absent `extra`
//! group is given as an empty capture.
use vstd::prelude::*;
use crate::scan::{CharClass, Caps, caps_match, caps_shape, pairs, push_cap, run_end, scan};
use crate::text::occurs_at;
use crate::ufs_line::lit_at;
use crate::scan::lazy_find;

verus! {

broadcast use vstd::string::group_string_axioms;

pub open spec fn no_newline(s: Seq<char>, lo: int, hi: int) -> bool {
    forall|m: int| lo <= m < hi ==> #[trigger] s[m] != '\n'
}

// `\[(?P<comm>.*?)\]$` after white space at `j`
pub open spec fn block_comm(s: Seq<char>, j: int) -> Option<Caps> {
    let f = run_end(s, j, CharClass::Ws);
    if f > j && f < s.len() && s[f] == '[' && f + 2 <= s.len() && s[s.len() - 1] == ']'
        && no_newline(s, f + 1, s.len() - 1) {
        Some(seq![(f + 1, s.len() - 1)])
    } else {
        None
    }
}

// `(?:\s+\S+)?\s+\[(?P<comm>.*?)\]$`
pub open spec fn block_tail(s: Seq<char>, j: int) -> Option<Caps> {
    let a = run_end(s, j, CharClass::Ws);
    let b = run_end(s, a, CharClass::NotWs);
    let with = if a > j && b > a {
        block_comm(s, b)
    } else {
        None
    };
    match with {
        Some(c) => Some(c),
        None => block_comm(s, j),
    }
}

// `\s+\+\s+(?P<size>\d+)` then the tail
pub open spec fn block_size(s: Seq<char>, j: int) -> Option<Caps> {
    let a = run_end(s, j, CharClass::Ws);
    if a > j && a < s.len() && s[a] == '+' {
        let b = run_end(s, a + 1, CharClass::Ws);
        let e = run_end(s, b, CharClass::Nd);
        if b > a + 1 && e > b {
            match block_tail(s, e) {
                Some(c) => Some(c.push((b, e))),
                None => None,
            }
        } else {
            None
        }
    } else {
        None
    }
}

// `\s+\(\)\s+(?P<sector>\d+)` then the size
pub open spec fn block_sector(s: Seq<char>, j: int) -> Option<Caps> {
    let a = run_end(s, j, CharClass::Ws);
    if a > j && occurs_at(s, a, "()"@) {
        let b = run_end(s, a + 2, CharClass::Ws);
        let e = run_end(s, b, CharClass::Nd);
        if b > a + 2 && e > b {
            match block_size(s, e) {
                Some(c) => Some(c.push((b, e))),
                None => None,
            }
        } else {
            None
        }
    } else {
        None
    }
}

// `(?:\s+(?P<extra>\d+))?` then the sector
pub open spec fn block_extra(s: Seq<char>, j: int) -> Option<Caps> {
    let a = run_end(s, j, CharClass::Ws);
    let e = run_end(s, a, CharClass::Nd);
    let with = if a > j && e > a {
        match block_sector(s, e) {
            Some(c) => Some(c.push((a, e))),
            None => None,
        }
    } else {
        None
    };
    match with {
        Some(c) => Some(c),
        None => match block_sector(s, j) {
            Some(c) => Some(c.push((j, j))),
            None => None,
        },
    }
}

// `:\s+(?P<devmajor>\d+),(?P<devminor>\d+)\s+(?P<io_type>[A-Z]+)` with the
// colon at `j`, then the optional extra
pub open spec fn block_dev(s: Seq<char>, j: int) -> Option<Caps> {
    let a = run_end(s, j + 1, CharClass::Ws);
    let b = run_end(s, a, CharClass::Nd);
    if a > j + 1 && b > a && b < s.len() && s[b] == ',' {
        let c = run_end(s, b + 1, CharClass::Nd);
        let d = run_end(s, c, CharClass::Ws);
        let e = run_end(s, d, CharClass::Upper);
        if c > b + 1 && d > c && e > d {
            match block_extra(s, e) {
                Some(cs) => Some(cs.push((d, e)).push((b + 1, c)).push((a, b))),
                None => None,
            }
        } else {
            None
        }
    } else {
        None
    }
}

/// `(?P<action>\S+):` with the action starting at `a`: the greedy run gives
/// back characters until a colon ends it and the rest matches; `ae` is the
/// candidate position of that colon, tried from the right.
pub open spec fn block_action_search(s: Seq<char>, a: int, ae: int) -> Option<Caps>
    decreases ae - a,
{
    if ae <= a {
        None
    } else {
        let here = if ae < s.len() && s[ae] == ':' {
            match block_dev(s, ae) {
                Some(c) => Some(c.push((a, ae))),
                None => None,
            }
        } else {
            None
        };
        match here {
            Some(c) => Some(c),
            None => block_action_search(s, a, ae - 1),
        }
    }
}

// `:\s+(?P<action>\S+):` with the first colon at `j`
pub open spec fn block_action(s: Seq<char>, j: int) -> Option<Caps> {
    let a = run_end(s, j + 1, CharClass::Ws);
    if a > j + 1 {
        block_action_search(s, a, run_end(s, a, CharClass::NotWs) - 1)
    } else {
        None
    }
}

// `\s+(?P<time>[\d\.]+)` at the end `fe` of the flags, then the action
pub open spec fn block_time(s: Seq<char>, fe: int) -> Option<Caps> {
    let h = run_end(s, fe, CharClass::Ws);
    let t = run_end(s, h, CharClass::NdOrDot);
    if h > fe && t > h && t < s.len() && s[t] == ':' {
        match block_action(s, t) {
            Some(c) => Some(c.push((h, t))),
            None => None,
        }
    } else {
        None
    }
}

pub open spec fn block_flags_fn(s: Seq<char>, a: int) -> spec_fn(int) -> Option<Caps> {
    |fe: int|
        match block_time(s, fe) {
            Some(c) => Some(c.push((a, fe))),
            None => None,
        }
}

/// `(?P<flags>.+?)` starting at `a`: at least one character, then the
/// shortest extension for which the rest matches.
pub open spec fn block_flags(s: Seq<char>, a: int) -> Option<Caps> {
    if 0 <= a < s.len() && s[a] != '\n' {
        lazy_find(s, a + 1, block_flags_fn(s, a))
    } else {
        None
    }
}

/// `\s+` before the flags: the flags start at `a`, tried from the end of the
/// white-space run at `g0` back to one character after `g0`.
pub open spec fn block_flags_start(s: Seq<char>, g0: int, a: int) -> Option<Caps>
    decreases a - g0,
{
    if a <= g0 {
        None
    } else {
        match block_flags(s, a) {
            Some(c) => Some(c),
            None => block_flags_start(s, g0, a - 1),
        }
    }
}

// `\s+\[(?P<cpu>\d+)\]\s+` at `e`, then the flags
pub open spec fn block_cpu(s: Seq<char>, e: int) -> Option<Caps> {
    let f = run_end(s, e, CharClass::Ws);
    if f > e && f < s.len() && s[f] == '[' {
        let g = run_end(s, f + 1, CharClass::Nd);
        if g > f + 1 && g < s.len() && s[g] == ']' {
            match block_flags_start(s, g + 1, run_end(s, g + 1, CharClass::Ws)) {
                Some(c) => Some(c.push((f + 1, g))),
                None => None,
            }
        } else {
            None
        }
    } else {
        None
    }
}

pub open spec fn block_process_fn(s: Seq<char>, k: int) -> spec_fn(int) -> Option<Caps> {
    |e: int|
        match block_cpu(s, e) {
            Some(c) => Some(c.push((k, e))),
            None => None,
        }
}

pub open spec fn block_process(s: Seq<char>, k: int) -> Option<Caps> {
    lazy_find(s, k, block_process_fn(s, k))
}

pub open spec fn block_lead(s: Seq<char>, k: int) -> Option<Caps>
    decreases k,
{
    if k < 0 {
        None
    } else {
        match block_process(s, k) {
            Some(c) => Some(c),
            None => if k == 0 {
                None
            } else {
                block_lead(s, k - 1)
            },
        }
    }
}

/// The captures of a block line, from `comm` back to `process`:
/// `[comm, size, sector, extra, io_type, devminor, devmajor, action, time,
/// flags, cpu, process]`.
pub open spec fn block_captures(s: Seq<char>) -> Option<Caps> {
    block_lead(s, run_end(s, 0, CharClass::Ws))
}

// ---------------------------------------------------------------------------
// Executable stages
// ---------------------------------------------------------------------------

fn block_comm_exec(chars: &[char], j: usize) -> (res: Option<Vec<(usize, usize)>>)
    requires
        j <= chars@.len(),
    ensures
        caps_match(res, block_comm(chars@, j as int)),
        caps_shape(res, chars@.len() as int, 1),
{
    let n = chars.len();
    let f = scan(chars, j, CharClass::Ws);
    if !(f > j && f < n && chars[f] == '[' && n - f >= 2 && chars[n - 1] == ']') {
        return None;
    }
    let mut m = f + 1;
    while m < n - 1
        invariant
            f + 2 <= n,
            n == chars@.len(),
            f == run_end(chars@, j as int, CharClass::Ws),
            f > j,
            chars@[f as int] == '[',
            chars@[n - 1] == ']',
            f + 1 <= m <= n - 1,
            no_newline(chars@, f + 1, m as int),
        decreases n - 1 - m,
    {
        if chars[m] == '\n' {
            assert(chars@[m as int] == '\n');
            assert(!no_newline(chars@, f + 1, chars@.len() - 1));
            return None;
        }
        m = m + 1;
    }
    let mut v: Vec<(usize, usize)> = Vec::new();
    v.push((f + 1, n - 1));
    assert(pairs(v@) =~= seq![((f + 1) as int, (n - 1) as int)]);
    assert(v@[0].0 == f + 1 && v@[0].1 == n - 1);
    Some(v)
}

fn block_tail_exec(chars: &[char], j: usize) -> (res: Option<Vec<(usize, usize)>>)
    requires
        j <= chars@.len(),
    ensures
        caps_match(res, block_tail(chars@, j as int)),
        caps_shape(res, chars@.len() as int, 1),
{
    let a = scan(chars, j, CharClass::Ws);
    let b = scan(chars, a, CharClass::NotWs);
    if a > j && b > a {
        let with = block_comm_exec(chars, b);
        if with.is_some() {
            return with;
        }
    }
    block_comm_exec(chars, j)
}

fn block_size_exec(chars: &[char], j: usize) -> (res: Option<Vec<(usize, usize)>>)
    requires
        j <= chars@.len(),
    ensures
        caps_match(res, block_size(chars@, j as int)),
        caps_shape(res, chars@.len() as int, 2),
{
    let a = scan(chars, j, CharClass::Ws);
    if !(a > j && a < chars.len() && chars[a] == '+') {
        return None;
    }
    let b = scan(chars, a + 1, CharClass::Ws);
    let e = scan(chars, b, CharClass::Nd);
    if !(b > a + 1 && e > b) {
        return None;
    }
    let rest = block_tail_exec(chars, e);
    push_cap(rest, (b, e), Ghost(block_tail(chars@, e as int)), Ghost(chars@.len() as int), Ghost(1))
}

fn block_sector_exec(chars: &[char], j: usize) -> (res: Option<Vec<(usize, usize)>>)
    requires
        j <= chars@.len(),
    ensures
        caps_match(res, block_sector(chars@, j as int)),
        caps_shape(res, chars@.len() as int, 3),
{
    proof {
        reveal_strlit("()");
        assert("()"@.len() == 2);
    }
    let a = scan(chars, j, CharClass::Ws);
    if !(a > j && lit_at(chars, a, "()")) {
        return None;
    }
    let b = scan(chars, a + 2, CharClass::Ws);
    let e = scan(chars, b, CharClass::Nd);
    if !(b > a + 2 && e > b) {
        return None;
    }
    let rest = block_size_exec(chars, e);
    push_cap(rest, (b, e), Ghost(block_size(chars@, e as int)), Ghost(chars@.len() as int), Ghost(2))
}

fn block_extra_exec(chars: &[char], j: usize) -> (res: Option<Vec<(usize, usize)>>)
    requires
        j <= chars@.len(),
    ensures
        caps_match(res, block_extra(chars@, j as int)),
        caps_shape(res, chars@.len() as int, 4),
{
    let a = scan(chars, j, CharClass::Ws);
    let e = scan(chars, a, CharClass::Nd);
    if a > j && e > a {
        let rest = block_sector_exec(chars, e);
        let with = push_cap(
            rest,
            (a, e),
            Ghost(block_sector(chars@, e as int)),
            Ghost(chars@.len() as int),
            Ghost(3),
        );
        if with.is_some() {
            return with;
        }
    }
    let rest = block_sector_exec(chars, j);
    push_cap(rest, (j, j), Ghost(block_sector(chars@, j as int)), Ghost(chars@.len() as int), Ghost(3))
}

fn block_dev_exec(chars: &[char], j: usize) -> (res: Option<Vec<(usize, usize)>>)
    requires
        j < chars@.len() <= usize::MAX,
    ensures
        caps_match(res, block_dev(chars@, j as int)),
        caps_shape(res, chars@.len() as int, 7),
{
    let a = scan(chars, j + 1, CharClass::Ws);
    let b = scan(chars, a, CharClass::Nd);
    if !(a > j + 1 && b > a && b < chars.len() && chars[b] == ',') {
        return None;
    }
    let c = scan(chars, b + 1, CharClass::Nd);
    let d = scan(chars, c, CharClass::Ws);
    let e = scan(chars, d, CharClass::Upper);
    if !(c > b + 1 && d > c && e > d) {
        return None;
    }
    let rest = block_extra_exec(chars, e);
    let ghost g0 = block_extra(chars@, e as int);
    let r1 = push_cap(rest, (d, e), Ghost(g0), Ghost(chars@.len() as int), Ghost(4));
    let ghost g1 = match g0 {
        Some(cs) => Some(cs.push((d as int, e as int))),
        None => None,
    };
    let r2 = push_cap(r1, (b + 1, c), Ghost(g1), Ghost(chars@.len() as int), Ghost(5));
    let ghost g2 = match g1 {
        Some(cs) => Some(cs.push(((b + 1) as int, c as int))),
        None => None,
    };
    push_cap(r2, (a, b), Ghost(g2), Ghost(chars@.len() as int), Ghost(6))
}

fn block_action_exec(chars: &[char], j: usize) -> (res: Option<Vec<(usize, usize)>>)
    requires
        j < chars@.len() <= usize::MAX,
    ensures
        caps_match(res, block_action(chars@, j as int)),
        caps_shape(res, chars@.len() as int, 8),
{
    let a = scan(chars, j + 1, CharClass::Ws);
    if !(a > j + 1) {
        return None;
    }
    let r = scan(chars, a, CharClass::NotWs);
    if r == 0 {
        return None;
    }
    let mut ae: usize = r - 1;
    loop
        invariant
            a <= r <= chars@.len(),
            ae < r,
            block_action(chars@, j as int) == block_action_search(chars@, a as int, ae as int),
        decreases ae,
    {
        if ae <= a {
            return None;
        }
        if ae < chars.len() && chars[ae] == ':' {
            let rest = block_dev_exec(chars, ae);
            let here = push_cap(
                rest,
                (a, ae),
                Ghost(block_dev(chars@, ae as int)),
                Ghost(chars@.len() as int),
                Ghost(7),
            );
            if here.is_some() {
                return here;
            }
        }
        ae = ae - 1;
    }
}

fn block_time_exec(chars: &[char], fe: usize) -> (res: Option<Vec<(usize, usize)>>)
    requires
        fe <= chars@.len(),
    ensures
        caps_match(res, block_time(chars@, fe as int)),
        caps_shape(res, chars@.len() as int, 9),
{
    let h = scan(chars, fe, CharClass::Ws);
    let t = scan(chars, h, CharClass::NdOrDot);
    if !(h > fe && t > h && t < chars.len() && chars[t] == ':') {
        return None;
    }
    let rest = block_action_exec(chars, t);
    push_cap(rest, (h, t), Ghost(block_action(chars@, t as int)), Ghost(chars@.len() as int), Ghost(8))
}

fn block_flags_exec(chars: &[char], a: usize) -> (res: Option<Vec<(usize, usize)>>)
    requires
        a <= chars@.len(),
    ensures
        caps_match(res, block_flags(chars@, a as int)),
        caps_shape(res, chars@.len() as int, 10),
{
    if !(a < chars.len() && chars[a] != '\n') {
        return None;
    }
    let mut fe = a + 1;
    loop
        invariant
            a < chars@.len(),
            a + 1 <= fe <= chars@.len(),
            block_flags(chars@, a as int) == lazy_find(chars@, fe as int, block_flags_fn(chars@, a as int)),
        decreases chars@.len() - fe,
    {
        let t = block_time_exec(chars, fe);
        if t.is_some() {
            return push_cap(t, (a, fe), Ghost(block_time(chars@, fe as int)), Ghost(chars@.len() as int), Ghost(9));
        }
        if fe < chars.len() && chars[fe] != '\n' {
            fe = fe + 1;
        } else {
            return None;
        }
    }
}

fn block_flags_start_exec(chars: &[char], g0: usize, r: usize) -> (res: Option<Vec<(usize, usize)>>)
    requires
        g0 <= r <= chars@.len(),
    ensures
        caps_match(res, block_flags_start(chars@, g0 as int, r as int)),
        caps_shape(res, chars@.len() as int, 10),
{
    let mut a = r;
    loop
        invariant
            g0 <= a <= r <= chars@.len(),
            block_flags_start(chars@, g0 as int, r as int) == block_flags_start(
                chars@,
                g0 as int,
                a as int,
            ),
        decreases a - g0,
    {
        if a <= g0 {
            return None;
        }
        let t = block_flags_exec(chars, a);
        if t.is_some() {
            return t;
        }
        a = a - 1;
    }
}

fn block_cpu_exec(chars: &[char], e: usize) -> (res: Option<Vec<(usize, usize)>>)
    requires
        e <= chars@.len(),
    ensures
        caps_match(res, block_cpu(chars@, e as int)),
        caps_shape(res, chars@.len() as int, 11),
{
    let f = scan(chars, e, CharClass::Ws);
    if !(f > e && f < chars.len() && chars[f] == '[') {
        return None;
    }
    let g = scan(chars, f + 1, CharClass::Nd);
    if !(g > f + 1 && g < chars.len() && chars[g] == ']') {
        return None;
    }
    let r = scan(chars, g + 1, CharClass::Ws);
    let rest = block_flags_start_exec(chars, g + 1, r);
    push_cap(
        rest,
        (f + 1, g),
        Ghost(block_flags_start(chars@, g + 1, r as int)),
        Ghost(chars@.len() as int),
        Ghost(10),
    )
}

fn block_process_exec(chars: &[char], k: usize) -> (res: Option<Vec<(usize, usize)>>)
    requires
        k <= chars@.len(),
    ensures
        caps_match(res, block_process(chars@, k as int)),
        caps_shape(res, chars@.len() as int, 12),
{
    let mut e = k;
    loop
        invariant
            k <= e <= chars@.len(),
            block_process(chars@, k as int) == lazy_find(
                chars@,
                e as int,
                block_process_fn(chars@, k as int),
            ),
        decreases chars@.len() - e,
    {
        let t = block_cpu_exec(chars, e);
        if t.is_some() {
            return push_cap(
                t,
                (k, e),
                Ghost(block_cpu(chars@, e as int)),
                Ghost(chars@.len() as int),
                Ghost(11),
            );
        }
        if e < chars.len() && chars[e] != '\n' {
            e = e + 1;
        } else {
            return None;
        }
    }
}

/// The captures of a block line (see `block_captures`).
pub fn block_captures_exec(chars: &[char]) -> (res: Option<Vec<(usize, usize)>>)
    ensures
        caps_match(res, block_captures(chars@)),
        caps_shape(res, chars@.len() as int, 12),
{
    let w = scan(chars, 0, CharClass::Ws);
    let mut k = w;
    loop
        invariant
            k <= w <= chars@.len(),
            block_captures(chars@) == block_lead(chars@, k as int),
        decreases k,
    {
        let t = block_process_exec(chars, k);
        if t.is_some() {
            return t;
        }
        if k == 0 {
            return None;
        }
        k = k - 1;
    }
}

} // verus!

//! Benchmark logs (FIO, TIOtest, IOzone) with traces interleaved: the
//! results they report, the iteration each belongs to, and the trace lines
//! of each iteration.
//!
//! The line grammars, read with the priorities of a backtracking regular
//! expression engine and searched for from the left:
//!
//! * FIO iteration: `---\s+FIO.*\(Iteration\s+(\d+)\)\s+---`
//! * FIO result: `(WRITE|READ):\s+bw=(\d+\.?\d*)MiB/s`
//! * TIOtest result: `\|\s+(Write|Read|Random Write|Random Read)\s+\d+\s+MBs\s+\|.*\|\s+(\d+\.?\d*)\s+MB/s\s+\|`
//! * IOzone sequential: `^\s+\d+\s+\d+\s+(\d+)\s+\d+\s+(\d+)`
//! * IOzone random: `Parent sees throughput for \d+ random (readers|writers)\s+=\s+(\d+\.?\d*)\s+kB/sec`
//!
//! A bandwidth is kept as the decimal text the log gives, with the divisor
//! that turns it into MB/s (1024 for IOzone's kB/s).
use vstd::prelude::*;
use crate::log_common::{custom_prefix, custom_prefix_exec};
use crate::scan::{CharClass, Caps, lemma_run_end, run_end, scan};
use crate::text::{
    chars_of, contains_exec, contains_seq, decimal_text_nanos, decimal_text_to_nanos, occurs_at,
    parse_unsigned, parse_unsigned_exec, string_from_range,
};
use crate::ufs_line::lit_at;

verus! {

broadcast use {vstd::string::group_string_axioms, vstd::std_specs::hash::group_hash_axioms};

/// A reported bandwidth: `digits / divisor`, in the tool's unit.
#[derive(Debug, Clone)]
pub struct Bandwidth {
    pub digits: String,
    pub divisor: u32,
}

/// Kind of a benchmark log line.
#[derive(Debug, Clone)]
pub enum LogLineType {
    FioResult { iteration: usize, test_type: String, bandwidth: Bandwidth },
    TioTestResult { iteration: usize, test_type: String, bandwidth: Bandwidth },
    IOzoneResult { iteration: usize, test_type: String, bandwidth: Bandwidth },
    UfsTrace,
    BlockTrace,
    UfsCustomTrace,
    Other,
}

pub enum LineTypeView {
    FioResult { iteration: nat, test_type: Seq<char>, digits: Seq<char>, divisor: u32 },
    TioTestResult { iteration: nat, test_type: Seq<char>, digits: Seq<char>, divisor: u32 },
    IOzoneResult { iteration: nat, test_type: Seq<char>, digits: Seq<char>, divisor: u32 },
    UfsTrace,
    BlockTrace,
    UfsCustomTrace,
    Other,
}

pub open spec fn line_type_view(t: LogLineType) -> LineTypeView {
    match t {
        LogLineType::FioResult { iteration, test_type, bandwidth } => LineTypeView::FioResult {
            iteration: iteration as nat,
            test_type: test_type@,
            digits: bandwidth.digits@,
            divisor: bandwidth.divisor,
        },
        LogLineType::TioTestResult { iteration, test_type, bandwidth } => LineTypeView::TioTestResult {
            iteration: iteration as nat,
            test_type: test_type@,
            digits: bandwidth.digits@,
            divisor: bandwidth.divisor,
        },
        LogLineType::IOzoneResult { iteration, test_type, bandwidth } => LineTypeView::IOzoneResult {
            iteration: iteration as nat,
            test_type: test_type@,
            digits: bandwidth.digits@,
            divisor: bandwidth.divisor,
        },
        LogLineType::UfsTrace => LineTypeView::UfsTrace,
        LogLineType::BlockTrace => LineTypeView::BlockTrace,
        LogLineType::UfsCustomTrace => LineTypeView::UfsCustomTrace,
        LogLineType::Other => LineTypeView::Other,
    }
}

// ---------------------------------------------------------------------------
// Searches
// ---------------------------------------------------------------------------

/// Leftmost position from `i` at which `f` matches (a search that is not
/// anchored).
pub open spec fn search(s: Seq<char>, i: int, f: spec_fn(int) -> Option<Caps>) -> Option<Caps>
    decreases s.len() + 1 - i,
{
    if i < 0 || i > s.len() {
        None
    } else {
        match f(i) {
            Some(c) => Some(c),
            None => search(s, i + 1, f),
        }
    }
}

/// What follows a greedy `.*` that starts at `lo`: the rightmost position,
/// from `p` down to `lo`, at which `f` matches.
pub open spec fn back_find(lo: int, p: int, f: spec_fn(int) -> Option<Caps>) -> Option<Caps>
    decreases p + 1 - lo,
{
    if p < lo {
        None
    } else {
        match f(p) {
            Some(c) => Some(c),
            None => back_find(lo, p - 1, f),
        }
    }
}

/// End of `\d+\.?\d*` from `j`, or -1 where no digit starts it.
pub open spec fn bw_number_end(s: Seq<char>, j: int) -> int {
    let d = run_end(s, j, CharClass::Nd);
    if d > j {
        if d < s.len() && s[d] == '.' {
            run_end(s, d + 1, CharClass::Nd)
        } else {
            d
        }
    } else {
        -1
    }
}

// ---------------------------------------------------------------------------
// FIO iteration header
// ---------------------------------------------------------------------------

pub open spec fn fio_iter_tail(s: Seq<char>, p: int) -> Option<Caps> {
    if occurs_at(s, p, "(Iteration"@) {
        let b = run_end(s, p + 10, CharClass::Ws);
        let d = run_end(s, b, CharClass::Nd);
        let e = run_end(s, d + 1, CharClass::Ws);
        if b > p + 10 && d > b && d < s.len() && s[d] == ')' && e > d + 1 && occurs_at(
            s,
            e,
            "---"@,
        ) {
            Some(seq![(b, d)])
        } else {
            None
        }
    } else {
        None
    }
}

pub open spec fn fio_iter_tail_fn(s: Seq<char>) -> spec_fn(int) -> Option<Caps> {
    |p: int| fio_iter_tail(s, p)
}

pub open spec fn fio_iter_at(s: Seq<char>, i: int) -> Option<Caps> {
    if occurs_at(s, i, "---"@) {
        let a = run_end(s, i + 3, CharClass::Ws);
        if a > i + 3 && occurs_at(s, a, "FIO"@) {
            back_find(a + 3, run_end(s, a + 3, CharClass::NotNewline), fio_iter_tail_fn(s))
        } else {
            None
        }
    } else {
        None
    }
}

pub open spec fn fio_iter_fn(s: Seq<char>) -> spec_fn(int) -> Option<Caps> {
    |i: int| fio_iter_at(s, i)
}

/// The captures `[iteration]` of an FIO iteration header.
pub open spec fn fio_iter_caps(s: Seq<char>) -> Option<Caps> {
    search(s, 0, fio_iter_fn(s))
}

// ---------------------------------------------------------------------------
// FIO result
// ---------------------------------------------------------------------------

pub open spec fn fio_result_at(s: Seq<char>, i: int) -> Option<Caps> {
    let kw = if occurs_at(s, i, "WRITE:"@) {
        i + 5
    } else if occurs_at(s, i, "READ:"@) {
        i + 4
    } else {
        -1
    };
    if kw >= 0 {
        let a = run_end(s, kw + 1, CharClass::Ws);
        if a > kw + 1 && occurs_at(s, a, "bw="@) {
            let n = bw_number_end(s, a + 3);
            if n > a + 3 && occurs_at(s, n, "MiB/s"@) {
                Some(seq![(a + 3, n), (i, kw)])
            } else {
                None
            }
        } else {
            None
        }
    } else {
        None
    }
}

pub open spec fn fio_result_fn(s: Seq<char>) -> spec_fn(int) -> Option<Caps> {
    |i: int| fio_result_at(s, i)
}

/// The captures `[bandwidth, test_type]` of an FIO result line.
pub open spec fn fio_result_caps(s: Seq<char>) -> Option<Caps> {
    search(s, 0, fio_result_fn(s))
}

// ---------------------------------------------------------------------------
// TIOtest result
// ---------------------------------------------------------------------------

/// End of the test name at `a`, or -1.
pub open spec fn tio_name_end(s: Seq<char>, a: int) -> int {
    if occurs_at(s, a, "Write"@) {
        a + 5
    } else if occurs_at(s, a, "Read"@) {
        a + 4
    } else if occurs_at(s, a, "Random Write"@) {
        a + 12
    } else if occurs_at(s, a, "Random Read"@) {
        a + 11
    } else {
        -1
    }
}

pub open spec fn tio_tail(s: Seq<char>, q: int) -> Option<Caps> {
    if 0 <= q < s.len() && s[q] == '|' {
        let f = run_end(s, q + 1, CharClass::Ws);
        let n = bw_number_end(s, f);
        let g = run_end(s, n, CharClass::Ws);
        let h = run_end(s, g + 4, CharClass::Ws);
        if f > q + 1 && n > f && g > n && occurs_at(s, g, "MB/s"@) && h > g + 4 && h < s.len()
            && s[h] == '|' {
            Some(seq![(f, n)])
        } else {
            None
        }
    } else {
        None
    }
}

pub open spec fn tio_tail_fn(s: Seq<char>) -> spec_fn(int) -> Option<Caps> {
    |q: int| tio_tail(s, q)
}

pub open spec fn tio_at(s: Seq<char>, i: int) -> Option<Caps> {
    if 0 <= i < s.len() && s[i] == '|' {
        let a = run_end(s, i + 1, CharClass::Ws);
        let te = tio_name_end(s, a);
        if a > i + 1 && te > a {
            let b = run_end(s, te, CharClass::Ws);
            let c = run_end(s, b, CharClass::Nd);
            let d = run_end(s, c, CharClass::Ws);
            let e = run_end(s, d + 3, CharClass::Ws);
            if b > te && c > b && d > c && occurs_at(s, d, "MBs"@) && e > d + 3 && e < s.len()
                && s[e] == '|' {
                match back_find(e + 1, run_end(s, e + 1, CharClass::NotNewline), tio_tail_fn(s)) {
                    Some(cs) => Some(cs.push((a, te))),
                    None => None,
                }
            } else {
                None
            }
        } else {
            None
        }
    } else {
        None
    }
}

pub open spec fn tio_fn(s: Seq<char>) -> spec_fn(int) -> Option<Caps> {
    |i: int| tio_at(s, i)
}

/// The captures `[bandwidth, test_type]` of a TIOtest result line.
pub open spec fn tio_caps(s: Seq<char>) -> Option<Caps> {
    search(s, 0, tio_fn(s))
}

// ---------------------------------------------------------------------------
// IOzone
// ---------------------------------------------------------------------------

/// The captures `[write, read]` of an IOzone sequential line.
pub open spec fn iozone_seq_caps(s: Seq<char>) -> Option<Caps> {
    let a = run_end(s, 0, CharClass::Ws);
    let b = run_end(s, a, CharClass::Nd);
    let c = run_end(s, b, CharClass::Ws);
    let d = run_end(s, c, CharClass::Nd);
    let e = run_end(s, d, CharClass::Ws);
    let f = run_end(s, e, CharClass::Nd);
    let g = run_end(s, f, CharClass::Ws);
    let h = run_end(s, g, CharClass::Nd);
    let k = run_end(s, h, CharClass::Ws);
    let l = run_end(s, k, CharClass::Nd);
    if a > 0 && b > a && c > b && d > c && e > d && f > e && g > f && h > g && k > h && l > k {
        Some(seq![(e, f), (k, l)])
    } else {
        None
    }
}

pub open spec fn iozone_rand_at(s: Seq<char>, i: int) -> Option<Caps> {
    if occurs_at(s, i, "Parent sees throughput for "@) {
        let a = i + 27;
        let b = run_end(s, a, CharClass::Nd);
        let c = b + 8;
        let ke = if occurs_at(s, c, "readers"@) || occurs_at(s, c, "writers"@) {
            c + 7
        } else {
            -1
        };
        if b > a && occurs_at(s, b, " random "@) && ke > 0 {
            let d = run_end(s, ke, CharClass::Ws);
            let f = run_end(s, d + 1, CharClass::Ws);
            let n = bw_number_end(s, f);
            let g = run_end(s, n, CharClass::Ws);
            if d > ke && d < s.len() && s[d] == '=' && f > d + 1 && n > f && g > n && occurs_at(
                s,
                g,
                "kB/sec"@,
            ) {
                Some(seq![(f, n), (c, ke)])
            } else {
                None
            }
        } else {
            None
        }
    } else {
        None
    }
}

pub open spec fn iozone_rand_fn(s: Seq<char>) -> spec_fn(int) -> Option<Caps> {
    |i: int| iozone_rand_at(s, i)
}

/// The captures `[bandwidth, readers|writers]` of an IOzone random line.
pub open spec fn iozone_rand_caps(s: Seq<char>) -> Option<Caps> {
    search(s, 0, iozone_rand_fn(s))
}

// ---------------------------------------------------------------------------
// Line kinds
// ---------------------------------------------------------------------------

pub open spec fn cap_of(s: Seq<char>, p: (int, int)) -> Seq<char> {
    s.subrange(p.0, p.1)
}

/// The captured text of digits and dots reads as a number: at least one
/// digit and at most one dot.
pub open spec fn reads_as_number(t: Seq<char>) -> bool {
    decimal_text_nanos(t) is Some
}

/// The kind of a line and the iteration counter after it.  An FIO header
/// sets the counter; a TIOtest `Write` result and an IOzone sequential
/// result start a new iteration.
pub open spec fn detect(s: Seq<char>, iter: nat) -> (nat, LineTypeView) {
    match fio_iter_caps(s) {
        Some(c) => (
            match parse_unsigned(cap_of(s, c[0]), usize::MAX as nat) {
                Some(v) => v,
                None => iter,
            },
            LineTypeView::Other,
        ),
        None => {
            let fio = fio_result_caps(s);
            let tio = tio_caps(s);
            let ioz = iozone_seq_caps(s);
            let rnd = iozone_rand_caps(s);
            if fio is Some && reads_as_number(cap_of(s, fio->Some_0[0])) {
                (
                    iter,
                    LineTypeView::FioResult {
                        iteration: iter,
                        test_type: cap_of(s, fio->Some_0[1]),
                        digits: cap_of(s, fio->Some_0[0]),
                        divisor: 1,
                    },
                )
            } else if tio is Some && reads_as_number(cap_of(s, tio->Some_0[0])) {
                let t = cap_of(s, tio->Some_0[1]);
                let it = if contains_seq(t, "Write"@) && !contains_seq(t, "Random"@) {
                    iter + 1
                } else {
                    iter
                };
                (
                    it,
                    LineTypeView::TioTestResult {
                        iteration: it,
                        test_type: t,
                        digits: cap_of(s, tio->Some_0[0]),
                        divisor: 1,
                    },
                )
            } else if ioz is Some && reads_as_number(cap_of(s, ioz->Some_0[0])) && reads_as_number(
                cap_of(s, ioz->Some_0[1]),
            ) {
                (
                    iter + 1,
                    LineTypeView::IOzoneResult {
                        iteration: iter + 1,
                        test_type: "Sequential"@,
                        digits: cap_of(s, ioz->Some_0[0]),
                        divisor: 1,
                    },
                )
            } else if rnd is Some && reads_as_number(cap_of(s, rnd->Some_0[0])) {
                (
                    iter,
                    LineTypeView::IOzoneResult {
                        iteration: iter,
                        test_type: if cap_of(s, rnd->Some_0[1]) == "readers"@ {
                            "Random Read"@
                        } else {
                            "Random Write"@
                        },
                        digits: cap_of(s, rnd->Some_0[0]),
                        divisor: 1024,
                    },
                )
            } else if contains_seq(s, "ufshcd_command:"@) {
                (iter, LineTypeView::UfsTrace)
            } else if contains_seq(s, "block_rq_"@) {
                (iter, LineTypeView::BlockTrace)
            } else if custom_prefix(s) {
                (iter, LineTypeView::UfsCustomTrace)
            } else {
                (iter, LineTypeView::Other)
            }
        },
    }
}

/// How each kind of line moves the iteration counter: an FIO iteration
/// header sets it (the line itself is of no other kind); an FIO result, a
/// random IOzone result and every trace or other line keep it; a
/// sequential IOzone result advances it by one.  Every result is reported
/// under the counter as it stands after its line.
pub proof fn law_iteration_counter(s: Seq<char>, iter: nat)
    ensures
        fio_iter_caps(s) is Some ==> detect(s, iter).1 == LineTypeView::Other,
        detect(s, iter).1 matches LineTypeView::FioResult { iteration, .. } ==> iteration == iter
            && detect(s, iter).0 == iter,
        detect(s, iter).1 matches LineTypeView::IOzoneResult { iteration, test_type, .. } ==> iteration
            == detect(s, iter).0 && (test_type == "Sequential"@ ==> detect(s, iter).0 == iter + 1) && (
        test_type != "Sequential"@ ==> detect(s, iter).0 == iter),
        fio_iter_caps(s) is None && (detect(s, iter).1 is UfsTrace || detect(s, iter).1 is BlockTrace
            || detect(s, iter).1 is UfsCustomTrace || detect(s, iter).1 is Other) ==> detect(s, iter).0
            == iter,
{
    reveal_strlit("Sequential");
    reveal_strlit("Random Read");
    reveal_strlit("Random Write");
    assert("Random Read"@[0] != "Sequential"@[0]);
    assert("Random Write"@[0] != "Sequential"@[0]);
}

/// A TIOtest result is reported under the iteration counter as it stands
/// after its line, and only a plain write moves that counter: a result
/// whose test type mentions `Random` (a random read or write) or does not
/// mention `Write` keeps the counter; one that mentions `Write` and not
/// `Random` starts the next iteration.
pub proof fn law_tiotest_iterations(s: Seq<char>, iter: nat)
    ensures
        detect(s, iter).1 matches LineTypeView::TioTestResult { iteration, test_type, .. } ==> {
            &&& iteration == detect(s, iter).0
            &&& contains_seq(test_type, "Random"@) ==> detect(s, iter).0 == iter
            &&& !contains_seq(test_type, "Write"@) ==> detect(s, iter).0 == iter
            &&& contains_seq(test_type, "Write"@) && !contains_seq(test_type, "Random"@) ==> detect(s, iter).0
                == iter + 1
        },
{
}

// ---------------------------------------------------------------------------
// Executable readers
// ---------------------------------------------------------------------------

fn bw_number_end_exec(chars: &[char], j: usize) -> (r: Option<usize>)
    requires
        j <= chars@.len(),
    ensures
        match r {
            Some(e) => e as int == bw_number_end(chars@, j as int) && j < e <= chars@.len(),
            None => bw_number_end(chars@, j as int) == -1,
        },
{
    let d = scan(chars, j, CharClass::Nd);
    if d > j {
        if d < chars.len() && chars[d] == '.' {
            Some(scan(chars, d + 1, CharClass::Nd))
        } else {
            Some(d)
        }
    } else {
        None
    }
}

fn one_cap(a: usize, b: usize) -> (v: Vec<(usize, usize)>)
    ensures
        v@ == seq![(a, b)],
{
    let mut v: Vec<(usize, usize)> = Vec::new();
    v.push((a, b));
    assert(v@ =~= seq![(a, b)]);
    v
}

fn two_caps(a: (usize, usize), b: (usize, usize)) -> (v: Vec<(usize, usize)>)
    ensures
        v@ == seq![a, b],
{
    let mut v: Vec<(usize, usize)> = Vec::new();
    v.push(a);
    v.push(b);
    assert(v@ =~= seq![a, b]);
    v
}

pub open spec fn as_caps(v: Seq<(usize, usize)>) -> Caps {
    Seq::new(v.len(), |i: int| (v[i].0 as int, v[i].1 as int))
}

pub open spec fn caps_ok(r: Option<Vec<(usize, usize)>>, spec: Option<Caps>, n: int, k: int) -> bool {
    match r {
        Some(v) => spec == Some(as_caps(v@)) && v@.len() == k && forall|i: int|
            0 <= i < k ==> (#[trigger] v@[i]).0 <= v@[i].1 <= n,
        None => spec is None,
    }
}

fn fio_iter_tail_exec(chars: &[char], p: usize) -> (r: Option<Vec<(usize, usize)>>)
    requires
        p <= chars@.len(),
    ensures
        caps_ok(r, fio_iter_tail(chars@, p as int), chars@.len() as int, 1),
{
    proof {
        reveal_strlit("(Iteration");
        reveal_strlit("---");
        assert("(Iteration"@.len() == 10);
    }
    if !lit_at(chars, p, "(Iteration") {
        return None;
    }
    let b = scan(chars, p + 10, CharClass::Ws);
    let d = scan(chars, b, CharClass::Nd);
    if !(b > p + 10 && d > b && d < chars.len() && chars[d] == ')') {
        return None;
    }
    let e = scan(chars, d + 1, CharClass::Ws);
    if !(e > d + 1 && lit_at(chars, e, "---")) {
        return None;
    }
    let v = one_cap(b, d);
    assert(as_caps(v@) =~= seq![(b as int, d as int)]);
    Some(v)
}

fn fio_iter_at_exec(chars: &[char], i: usize) -> (r: Option<Vec<(usize, usize)>>)
    requires
        i <= chars@.len(),
    ensures
        caps_ok(r, fio_iter_at(chars@, i as int), chars@.len() as int, 1),
{
    proof {
        reveal_strlit("---");
        reveal_strlit("FIO");
        assert("---"@.len() == 3);
        assert("FIO"@.len() == 3);
    }
    if !lit_at(chars, i, "---") {
        return None;
    }
    let a = scan(chars, i + 3, CharClass::Ws);
    if !(a > i + 3 && lit_at(chars, a, "FIO")) {
        return None;
    }
    let lo = a + 3;
    let mut p = scan(chars, lo, CharClass::NotNewline);
    loop
        invariant
            lo <= p,
            p <= chars@.len(),
            lo <= chars@.len(),
            fio_iter_at(chars@, i as int) == back_find(lo as int, p as int, fio_iter_tail_fn(chars@)),
        decreases p + 1 - lo,
    {
        let t = fio_iter_tail_exec(chars, p);
        if t.is_some() {
            return t;
        }
        if p <= lo {
            assert(back_find(lo as int, p - 1, fio_iter_tail_fn(chars@)) is None);
            return None;
        }
        p = p - 1;
    }
}

fn fio_iter_caps_exec(chars: &[char]) -> (r: Option<Vec<(usize, usize)>>)
    ensures
        caps_ok(r, fio_iter_caps(chars@), chars@.len() as int, 1),
{
    let mut i: usize = 0;
    loop
        invariant
            i <= chars@.len(),
            fio_iter_caps(chars@) == search(chars@, i as int, fio_iter_fn(chars@)),
        decreases chars@.len() - i,
    {
        let t = fio_iter_at_exec(chars, i);
        if t.is_some() {
            return t;
        }
        if i == chars.len() {
            assert(search(chars@, i + 1, fio_iter_fn(chars@)) is None);
            return None;
        }
        i = i + 1;
    }
}

fn fio_result_at_exec(chars: &[char], i: usize) -> (r: Option<Vec<(usize, usize)>>)
    requires
        i <= chars@.len(),
    ensures
        caps_ok(r, fio_result_at(chars@, i as int), chars@.len() as int, 2),
{
    proof {
        reveal_strlit("WRITE:");
        reveal_strlit("READ:");
        reveal_strlit("bw=");
        reveal_strlit("MiB/s");
        assert("WRITE:"@.len() == 6);
        assert("READ:"@.len() == 5);
        assert("bw="@.len() == 3);
    }
    let kw: usize = if lit_at(chars, i, "WRITE:") {
        i + 5
    } else if lit_at(chars, i, "READ:") {
        i + 4
    } else {
        return None;
    };
    let a = scan(chars, kw + 1, CharClass::Ws);
    if !(a > kw + 1 && lit_at(chars, a, "bw=")) {
        return None;
    }
    let n = match bw_number_end_exec(chars, a + 3) {
        Some(n) => n,
        None => {
            return None;
        },
    };
    if !lit_at(chars, n, "MiB/s") {
        return None;
    }
    let v = two_caps((a + 3, n), (i, kw));
    assert(as_caps(v@) =~= seq![((a + 3) as int, n as int), (i as int, kw as int)]);
    Some(v)
}

fn fio_result_caps_exec(chars: &[char]) -> (r: Option<Vec<(usize, usize)>>)
    ensures
        caps_ok(r, fio_result_caps(chars@), chars@.len() as int, 2),
{
    let mut i: usize = 0;
    loop
        invariant
            i <= chars@.len(),
            fio_result_caps(chars@) == search(chars@, i as int, fio_result_fn(chars@)),
        decreases chars@.len() - i,
    {
        let t = fio_result_at_exec(chars, i);
        if t.is_some() {
            return t;
        }
        if i == chars.len() {
            assert(search(chars@, i + 1, fio_result_fn(chars@)) is None);
            return None;
        }
        i = i + 1;
    }
}

fn tio_name_end_exec(chars: &[char], a: usize) -> (r: Option<usize>)
    requires
        a <= chars@.len(),
    ensures
        match r {
            Some(e) => e as int == tio_name_end(chars@, a as int) && a < e <= chars@.len(),
            None => tio_name_end(chars@, a as int) == -1,
        },
{
    proof {
        reveal_strlit("Write");
        reveal_strlit("Read");
        reveal_strlit("Random Write");
        reveal_strlit("Random Read");
        assert("Write"@.len() == 5);
        assert("Read"@.len() == 4);
        assert("Random Write"@.len() == 12);
        assert("Random Read"@.len() == 11);
    }
    if lit_at(chars, a, "Write") {
        Some(a + 5)
    } else if lit_at(chars, a, "Read") {
        Some(a + 4)
    } else if lit_at(chars, a, "Random Write") {
        Some(a + 12)
    } else if lit_at(chars, a, "Random Read") {
        Some(a + 11)
    } else {
        None
    }
}

fn tio_tail_exec(chars: &[char], q: usize) -> (r: Option<Vec<(usize, usize)>>)
    requires
        q <= chars@.len(),
    ensures
        caps_ok(r, tio_tail(chars@, q as int), chars@.len() as int, 1),
{
    proof {
        reveal_strlit("MB/s");
        assert("MB/s"@.len() == 4);
    }
    if !(q < chars.len() && chars[q] == '|') {
        return None;
    }
    let f = scan(chars, q + 1, CharClass::Ws);
    if !(f > q + 1) {
        return None;
    }
    let n = match bw_number_end_exec(chars, f) {
        Some(n) => n,
        None => {
            return None;
        },
    };
    let g = scan(chars, n, CharClass::Ws);
    if !(g > n && lit_at(chars, g, "MB/s")) {
        return None;
    }
    let h = scan(chars, g + 4, CharClass::Ws);
    if !(h > g + 4 && h < chars.len() && chars[h] == '|') {
        return None;
    }
    let v = one_cap(f, n);
    assert(as_caps(v@) =~= seq![(f as int, n as int)]);
    Some(v)
}

fn tio_tail_search(chars: &[char], lo: usize, start: usize) -> (r: Option<Vec<(usize, usize)>>)
    requires
        lo <= start <= chars@.len(),
    ensures
        caps_ok(r, back_find(lo as int, start as int, tio_tail_fn(chars@)), chars@.len() as int, 1),
{
    let mut p = start;
    loop
        invariant
            lo <= p,
            p <= chars@.len(),
            lo <= chars@.len(),
            back_find(lo as int, start as int, tio_tail_fn(chars@)) == back_find(
                lo as int,
                p as int,
                tio_tail_fn(chars@),
            ),
        decreases p + 1 - lo,
    {
        let t = tio_tail_exec(chars, p);
        if t.is_some() {
            return t;
        }
        if p <= lo {
            assert(back_find(lo as int, p - 1, tio_tail_fn(chars@)) is None);
            return None;
        }
        p = p - 1;
    }
}

fn tio_at_exec(chars: &[char], i: usize) -> (r: Option<Vec<(usize, usize)>>)
    requires
        i <= chars@.len(),
    ensures
        caps_ok(r, tio_at(chars@, i as int), chars@.len() as int, 2),
{
    proof {
        reveal_strlit("MBs");
        assert("MBs"@.len() == 3);
    }
    if !(i < chars.len() && chars[i] == '|') {
        return None;
    }
    let a = scan(chars, i + 1, CharClass::Ws);
    if !(a > i + 1) {
        return None;
    }
    let te = match tio_name_end_exec(chars, a) {
        Some(te) => te,
        None => {
            return None;
        },
    };
    let b = scan(chars, te, CharClass::Ws);
    let c = scan(chars, b, CharClass::Nd);
    let d = scan(chars, c, CharClass::Ws);
    if !(b > te && c > b && d > c && lit_at(chars, d, "MBs")) {
        return None;
    }
    let e = scan(chars, d + 3, CharClass::Ws);
    if !(e > d + 3 && e < chars.len() && chars[e] == '|') {
        return None;
    }
    let lo = e + 1;
    let end = scan(chars, lo, CharClass::NotNewline);
    let found = tio_tail_search(chars, lo, end);
    match found {
        Some(mut v) => {
            let ghost before = v@;
            v.push((a, te));
            assert(as_caps(v@) =~= as_caps(before).push((a as int, te as int)));
            Some(v)
        },
        None => None,
    }
}

fn iozone_seq_caps_exec(chars: &[char]) -> (r: Option<Vec<(usize, usize)>>)
    ensures
        caps_ok(r, iozone_seq_caps(chars@), chars@.len() as int, 2),
{
    let a = scan(chars, 0, CharClass::Ws);
    let b = scan(chars, a, CharClass::Nd);
    let c = scan(chars, b, CharClass::Ws);
    let d = scan(chars, c, CharClass::Nd);
    let e = scan(chars, d, CharClass::Ws);
    let f = scan(chars, e, CharClass::Nd);
    let g = scan(chars, f, CharClass::Ws);
    let h = scan(chars, g, CharClass::Nd);
    let k = scan(chars, h, CharClass::Ws);
    let l = scan(chars, k, CharClass::Nd);
    if a > 0 && b > a && c > b && d > c && e > d && f > e && g > f && h > g && k > h && l > k {
        let v = two_caps((e, f), (k, l));
        assert(as_caps(v@) =~= seq![(e as int, f as int), (k as int, l as int)]);
        Some(v)
    } else {
        None
    }
}

fn iozone_rand_at_exec(chars: &[char], i: usize) -> (r: Option<Vec<(usize, usize)>>)
    requires
        i <= chars@.len(),
    ensures
        caps_ok(r, iozone_rand_at(chars@, i as int), chars@.len() as int, 2),
{
    proof {
        reveal_strlit("Parent sees throughput for ");
        reveal_strlit(" random ");
        reveal_strlit("readers");
        reveal_strlit("writers");
        reveal_strlit("kB/sec");
        assert("Parent sees throughput for "@.len() == 27);
        assert(" random "@.len() == 8);
        assert("readers"@.len() == 7);
        assert("writers"@.len() == 7);
    }
    if !lit_at(chars, i, "Parent sees throughput for ") {
        return None;
    }
    let a = i + 27;
    let b = scan(chars, a, CharClass::Nd);
    if !(b > a && lit_at(chars, b, " random ")) {
        return None;
    }
    let c = b + 8;
    if !(lit_at(chars, c, "readers") || lit_at(chars, c, "writers")) {
        return None;
    }
    let ke = c + 7;
    let d = scan(chars, ke, CharClass::Ws);
    if !(d > ke && d < chars.len() && chars[d] == '=') {
        return None;
    }
    let f = scan(chars, d + 1, CharClass::Ws);
    if !(f > d + 1) {
        return None;
    }
    let n = match bw_number_end_exec(chars, f) {
        Some(n) => n,
        None => {
            return None;
        },
    };
    let g = scan(chars, n, CharClass::Ws);
    if !(g > n && lit_at(chars, g, "kB/sec")) {
        return None;
    }
    let v = two_caps((f, n), (c, ke));
    assert(as_caps(v@) =~= seq![(f as int, n as int), (c as int, ke as int)]);
    Some(v)
}

fn iozone_rand_caps_exec(chars: &[char]) -> (r: Option<Vec<(usize, usize)>>)
    ensures
        caps_ok(r, iozone_rand_caps(chars@), chars@.len() as int, 2),
{
    let mut i: usize = 0;
    loop
        invariant
            i <= chars@.len(),
            iozone_rand_caps(chars@) == search(chars@, i as int, iozone_rand_fn(chars@)),
        decreases chars@.len() - i,
    {
        let t = iozone_rand_at_exec(chars, i);
        if t.is_some() {
            return t;
        }
        if i == chars.len() {
            assert(search(chars@, i + 1, iozone_rand_fn(chars@)) is None);
            return None;
        }
        i = i + 1;
    }
}

fn tio_caps_exec(chars: &[char]) -> (r: Option<Vec<(usize, usize)>>)
    ensures
        caps_ok(r, tio_caps(chars@), chars@.len() as int, 2),
{
    let mut i: usize = 0;
    loop
        invariant
            i <= chars@.len(),
            tio_caps(chars@) == search(chars@, i as int, tio_fn(chars@)),
        decreases chars@.len() - i,
    {
        let t = tio_at_exec(chars, i);
        if t.is_some() {
            return t;
        }
        if i == chars.len() {
            assert(search(chars@, i + 1, tio_fn(chars@)) is None);
            return None;
        }
        i = i + 1;
    }
}

fn number_ok_exec(chars: &[char], lo: usize, hi: usize) -> (b: bool)
    requires
        lo <= hi <= chars@.len(),
    ensures
        b == reads_as_number(chars@.subrange(lo as int, hi as int)),
{
    decimal_text_to_nanos(chars, lo, hi).is_some()
}

fn holds_text(chars: &[char], needle: &str) -> (b: bool)
    ensures
        b == contains_seq(chars@, needle@),
{
    let n = chars_of(needle);
    contains_exec(chars, n.as_slice())
}

/// Splits the log parser's work: it keeps no state of its own.
pub struct BenchmarkParser;

impl BenchmarkParser {
    pub fn new() -> (p: Self) {
        BenchmarkParser
    }

    /// The kind of a line (see `detect`), updating the iteration counter.
    pub fn detect_line_type(&self, line: &str, current_iteration: &mut usize) -> (r: LogLineType)
        requires
            detect(line@, *old(current_iteration) as nat).0 <= usize::MAX,
        ensures
            *final(current_iteration) as nat == detect(line@, *old(current_iteration) as nat).0,
            line_type_view(r) == detect(line@, *old(current_iteration) as nat).1,
    {
        proof {
            reveal_strlit("Sequential");
            reveal_strlit("Random Read");
            reveal_strlit("Random Write");
            reveal_strlit("readers");
        }
        let chars = chars_of(line);
        let s = chars.as_slice();
        let ghost it0 = *current_iteration as nat;
        match fio_iter_caps_exec(s) {
            Some(c) => {
                assert(c@[0].0 <= c@[0].1 <= s@.len());
                match parse_unsigned_exec(s, c[0].0, c[0].1, usize::MAX as u64) {
                    Some(v) => {
                        *current_iteration = v as usize;
                    },
                    None => {},
                }
                return LogLineType::Other;
            },
            None => {},
        }
        let fio = fio_result_caps_exec(s);
        match fio {
            Some(c) => {
                assert(c@[0].0 <= c@[0].1 <= s@.len());
                assert(c@[1].0 <= c@[1].1 <= s@.len());
                if number_ok_exec(s, c[0].0, c[0].1) {
                    return LogLineType::FioResult {
                        iteration: *current_iteration,
                        test_type: string_from_range(s, c[1].0, c[1].1),
                        bandwidth: Bandwidth { digits: string_from_range(s, c[0].0, c[0].1), divisor: 1 },
                    };
                }
            },
            None => {},
        }
        let tio = tio_caps_exec(s);
        match tio {
            Some(c) => {
                assert(c@[0].0 <= c@[0].1 <= s@.len());
                assert(c@[1].0 <= c@[1].1 <= s@.len());
                if number_ok_exec(s, c[0].0, c[0].1) {
                    let t = string_from_range(s, c[1].0, c[1].1);
                    let tc = chars_of(t.as_str());
                    if holds_text(tc.as_slice(), "Write") && !holds_text(tc.as_slice(), "Random") {
                        *current_iteration = *current_iteration + 1;
                    }
                    return LogLineType::TioTestResult {
                        iteration: *current_iteration,
                        test_type: t,
                        bandwidth: Bandwidth { digits: string_from_range(s, c[0].0, c[0].1), divisor: 1 },
                    };
                }
            },
            None => {},
        }
        let ioz = iozone_seq_caps_exec(s);
        match ioz {
            Some(c) => {
                assert(c@[0].0 <= c@[0].1 <= s@.len());
                assert(c@[1].0 <= c@[1].1 <= s@.len());
                if number_ok_exec(s, c[0].0, c[0].1) && number_ok_exec(s, c[1].0, c[1].1) {
                    *current_iteration = *current_iteration + 1;
                    return LogLineType::IOzoneResult {
                        iteration: *current_iteration,
                        test_type: "Sequential".to_owned(),
                        bandwidth: Bandwidth { digits: string_from_range(s, c[0].0, c[0].1), divisor: 1 },
                    };
                }
            },
            None => {},
        }
        let rnd = iozone_rand_caps_exec(s);
        match rnd {
            Some(c) => {
                assert(c@[0].0 <= c@[0].1 <= s@.len());
                assert(c@[1].0 <= c@[1].1 <= s@.len());
                if number_ok_exec(s, c[0].0, c[0].1) {
                    let kind = string_from_range(s, c[1].0, c[1].1);
                    let readers = crate::models::seq_eq_str(kind.as_str(), "readers");
                    return LogLineType::IOzoneResult {
                        iteration: *current_iteration,
                        test_type: if readers {
                            "Random Read".to_owned()
                        } else {
                            "Random Write".to_owned()
                        },
                        bandwidth: Bandwidth { digits: string_from_range(s, c[0].0, c[0].1), divisor: 1024 },
                    };
                }
            },
            None => {},
        }
        if holds_text(s, "ufshcd_command:") {
            return LogLineType::UfsTrace;
        }
        if holds_text(s, "block_rq_") {
            return LogLineType::BlockTrace;
        }
        if custom_prefix_exec(s) {
            return LogLineType::UfsCustomTrace;
        }
        LogLineType::Other
    }
}

// ---------------------------------------------------------------------------
// Lines of a text
// ---------------------------------------------------------------------------

/// `str::lines` from position `i`: pieces ended by `\n` (a `\r` just before
/// it dropped too); a last piece with no line feed counts when nonempty.
pub open spec fn lines_from(s: Seq<char>, i: int) -> Seq<Seq<char>>
    decreases s.len() - i,
{
    if i < 0 || i >= s.len() {
        Seq::empty()
    } else {
        let p = run_end(s, i, CharClass::NotNewline);
        proof {
            lemma_run_end(s, i, CharClass::NotNewline);
        }
        if p >= s.len() {
            seq![s.subrange(i, s.len() as int)]
        } else {
            let e = if p > i && s[p - 1] == '\r' {
                p - 1
            } else {
                p
            };
            seq![s.subrange(i, e)] + lines_from(s, p + 1)
        }
    }
}

pub open spec fn text_lines_spec(s: Seq<char>) -> Seq<Seq<char>> {
    lines_from(s, 0)
}

pub open spec fn strings_view(v: Seq<String>) -> Seq<Seq<char>> {
    Seq::new(v.len(), |i: int| v[i]@)
}

/// The lines of a text (`str::lines`).
pub fn text_lines(content: &str) -> (r: Vec<String>)
    ensures
        strings_view(r@) == text_lines_spec(content@),
{
    let chars = chars_of(content);
    let s = chars.as_slice();
    let mut out: Vec<String> = Vec::new();
    let mut i: usize = 0;
    while i < s.len()
        invariant
            0 <= i <= s@.len(),
            strings_view(out@) + lines_from(s@, i as int) == text_lines_spec(s@),
        decreases s@.len() - i,
    {
        let p = scan(s, i, CharClass::NotNewline);
        if p >= s.len() {
            let line = string_from_range(s, i, s.len());
            let ghost before = out@;
            out.push(line);
            assert(strings_view(out@) =~= strings_view(before).push(s@.subrange(i as int, s@.len() as int)));
            assert(lines_from(s@, s@.len() as int) =~= Seq::<Seq<char>>::empty());
            assert(strings_view(out@) + lines_from(s@, s@.len() as int) =~= strings_view(before) + lines_from(s@, i as int));
            i = s.len();
        } else {
            let e = if p > i && s[p - 1] == '\r' {
                p - 1
            } else {
                p
            };
            let line = string_from_range(s, i, e);
            let ghost before = out@;
            out.push(line);
            assert(strings_view(out@) =~= strings_view(before).push(s@.subrange(i as int, e as int)));
            assert(strings_view(out@) + lines_from(s@, p + 1) =~= strings_view(before) + lines_from(s@, i as int));
            i = p + 1;
        }
    }
    assert(lines_from(s@, i as int) =~= Seq::<Seq<char>>::empty());
    assert(strings_view(out@) =~= strings_view(out@) + lines_from(s@, i as int));
    out
}

// ---------------------------------------------------------------------------
// Results of a whole log
// ---------------------------------------------------------------------------

/// A result reported by a benchmark tool.
#[derive(Debug, Clone)]
pub struct BenchmarkResult {
    pub tool: String,
    pub iteration: usize,
    pub test_type: String,
    pub bandwidth: Bandwidth,
}

pub struct ResultView {
    pub tool: Seq<char>,
    pub iteration: nat,
    pub test_type: Seq<char>,
    pub digits: Seq<char>,
    pub divisor: u32,
}

pub open spec fn result_view(r: BenchmarkResult) -> ResultView {
    ResultView {
        tool: r.tool@,
        iteration: r.iteration as nat,
        test_type: r.test_type@,
        digits: r.bandwidth.digits@,
        divisor: r.bandwidth.divisor,
    }
}

/// The result a line reports, with the name of its tool.
pub open spec fn reported(t: LineTypeView) -> Option<ResultView> {
    match t {
        LineTypeView::FioResult { iteration, test_type, digits, divisor } => Some(
            ResultView { tool: "FIO"@, iteration, test_type, digits, divisor },
        ),
        LineTypeView::TioTestResult { iteration, test_type, digits, divisor } => Some(
            ResultView { tool: "TIOtest"@, iteration, test_type, digits, divisor },
        ),
        LineTypeView::IOzoneResult { iteration, test_type, digits, divisor } => Some(
            ResultView { tool: "IOzone"@, iteration, test_type, digits, divisor },
        ),
        _ => None,
    }
}

/// The counter after each line, and the results, over the lines in order.
pub open spec fn scan_results(lines: Seq<Seq<char>>) -> (nat, Seq<ResultView>)
    decreases lines.len(),
{
    if lines.len() == 0 {
        (0, Seq::empty())
    } else {
        let prev = scan_results(lines.drop_last());
        let d = detect(lines.last(), prev.0);
        (d.0, match reported(d.1) {
            Some(r) => prev.1.push(r),
            None => prev.1,
        })
    }
}

/// The counter never passes `usize::MAX`.
pub open spec fn scan_fits(lines: Seq<Seq<char>>) -> bool
    decreases lines.len(),
{
    if lines.len() == 0 {
        true
    } else {
        scan_fits(lines.drop_last()) && detect(lines.last(), scan_results(lines.drop_last()).0).0
            <= usize::MAX
    }
}

proof fn lemma_scan_take(lines: Seq<Seq<char>>, i: int)
    requires
        0 <= i < lines.len(),
    ensures
        scan_results(lines.take(i + 1)) == ({
            let prev = scan_results(lines.take(i));
            let d = detect(lines[i], prev.0);
            (d.0, match reported(d.1) {
                Some(r) => prev.1.push(r),
                None => prev.1,
            })
        }),
        scan_fits(lines.take(i + 1)) == (scan_fits(lines.take(i)) && detect(
            lines[i],
            scan_results(lines.take(i)).0,
        ).0 <= usize::MAX),
{
    assert(lines.take(i + 1).drop_last() =~= lines.take(i));
}

proof fn lemma_scan_fits_prefix(lines: Seq<Seq<char>>, i: int)
    requires
        0 <= i <= lines.len(),
        scan_fits(lines),
    ensures
        scan_fits(lines.take(i)),
    decreases lines.len() - i,
{
    if i == lines.len() {
        assert(lines.take(i) =~= lines);
    } else {
        lemma_scan_fits_prefix(lines, i + 1);
        lemma_scan_take(lines, i);
    }
}

proof fn lemma_detect_shift(s: Seq<char>, a: nat, b: nat)
    requires
        fio_iter_caps(s) is None,
    ensures
        detect(s, a).0 - a == detect(s, b).0 - b,
        a <= detect(s, a).0 <= a + 1,
{
}

proof fn lemma_detect_fio(s: Seq<char>, a: nat)
    requires
        fio_iter_caps(s) is Some,
    ensures
        detect(s, a).0 <= usize::MAX || detect(s, a).0 == a,
{
}

/// Whether the iteration counter stays within `usize` over the lines (the
/// condition for reading them with `classify_benchmark_lines`).
pub fn benchmark_counter_fits(lines: &Vec<String>) -> (b: bool)
    ensures
        b == scan_fits(strings_view(lines@)),
{
    let ghost ls = strings_view(lines@);
    let parser = BenchmarkParser;
    let mut current: usize = 0;
    let mut i: usize = 0;
    while i < lines.len()
        invariant
            ls == strings_view(lines@),
            0 <= i <= ls.len(),
            current as nat == scan_results(ls.take(i as int)).0,
            scan_fits(ls.take(i as int)),
        decreases ls.len() - i,
    {
        proof {
            lemma_scan_take(ls, i as int);
            assert(ls.take(i + 1).drop_last() =~= ls.take(i as int));
            assert(ls[i as int] == lines@[i as int]@);
        }
        let ghost line = ls[i as int];
        let chars = chars_of(lines[i].as_str());
        let fio = fio_iter_caps_exec(chars.as_slice());
        proof {
            if fio_iter_caps(line) is None {
                lemma_detect_shift(line, current as nat, 0);
            } else {
                lemma_detect_fio(line, current as nat);
            }
        }
        if current < usize::MAX || fio.is_some() {
            parser.detect_line_type(lines[i].as_str(), &mut current);
        } else {
            let mut probe: usize = 0;
            parser.detect_line_type(lines[i].as_str(), &mut probe);
            if probe == 1 {
                proof {
                    assert(!scan_fits(ls.take(i + 1)));
                    if scan_fits(ls) {
                        lemma_scan_fits_prefix(ls, i + 1);
                    }
                }
                return false;
            }
        }
        i = i + 1;
    }
    assert(ls.take(ls.len() as int) =~= ls);
    true
}

fn result_of(t: LogLineType) -> (r: Option<BenchmarkResult>)
    ensures
        match r {
            Some(x) => reported(line_type_view(t)) == Some(result_view(x)),
            None => reported(line_type_view(t)) is None,
        },
{
    proof {
        reveal_strlit("FIO");
        reveal_strlit("TIOtest");
        reveal_strlit("IOzone");
    }
    match t {
        LogLineType::FioResult { iteration, test_type, bandwidth } => Some(
            BenchmarkResult { tool: "FIO".to_owned(), iteration, test_type, bandwidth },
        ),
        LogLineType::TioTestResult { iteration, test_type, bandwidth } => Some(
            BenchmarkResult { tool: "TIOtest".to_owned(), iteration, test_type, bandwidth },
        ),
        LogLineType::IOzoneResult { iteration, test_type, bandwidth } => Some(
            BenchmarkResult { tool: "IOzone".to_owned(), iteration, test_type, bandwidth },
        ),
        _ => None,
    }
}

pub open spec fn results_view(v: Seq<BenchmarkResult>) -> Seq<ResultView> {
    Seq::new(v.len(), |i: int| result_view(v[i]))
}

impl BenchmarkParser {
    /// The results that the lines of a log report, in order, with the
    /// iteration counter starting at zero.
    pub fn extract_benchmark_results(&self, log_content: &str) -> (r: Vec<BenchmarkResult>)
        requires
            scan_fits(text_lines_spec(log_content@)),
        ensures
            results_view(r@) == scan_results(text_lines_spec(log_content@)).1,
    {
        let lines = text_lines(log_content);
        let ghost ls = strings_view(lines@);
        let mut results: Vec<BenchmarkResult> = Vec::new();
        let mut current: usize = 0;
        let mut i: usize = 0;
        while i < lines.len()
            invariant
                ls == strings_view(lines@),
                ls == text_lines_spec(log_content@),
                scan_fits(ls),
                0 <= i <= ls.len(),
                current as nat == scan_results(ls.take(i as int)).0,
                results_view(results@) == scan_results(ls.take(i as int)).1,
            decreases ls.len() - i,
        {
            proof {
                lemma_scan_take(ls, i as int);
                lemma_scan_fits_prefix(ls, i + 1);
                assert(ls[i as int] == lines@[i as int]@);
            }
            let t = self.detect_line_type(lines[i].as_str(), &mut current);
            let ghost before = results@;
            match result_of(t) {
                Some(x) => {
                    results.push(x);
                    assert(results_view(results@) =~= results_view(before).push(result_view(x)));
                },
                None => {},
            }
            i = i + 1;
        }
        assert(ls.take(ls.len() as int) =~= ls);
        results
    }
}

impl Default for BenchmarkParser {
    fn default() -> (p: Self) {
        BenchmarkParser
    }
}

// ---------------------------------------------------------------------------
// Trace lines of each iteration
// ---------------------------------------------------------------------------

/// The trace lines of one iteration, by kind, in log order.
#[derive(Debug, Clone)]
pub struct IterationTraces {
    pub ufs_traces: Vec<String>,
    pub block_traces: Vec<String>,
    pub ufscustom_traces: Vec<String>,
}

#[verifier::ext_equal]
pub struct TracesView {
    pub ufs: Seq<Seq<char>>,
    pub block: Seq<Seq<char>>,
    pub custom: Seq<Seq<char>>,
}

pub open spec fn traces_view(t: IterationTraces) -> TracesView {
    TracesView {
        ufs: strings_view(t.ufs_traces@),
        block: strings_view(t.block_traces@),
        custom: strings_view(t.ufscustom_traces@),
    }
}

pub open spec fn no_traces() -> TracesView {
    TracesView { ufs: Seq::empty(), block: Seq::empty(), custom: Seq::empty() }
}

impl IterationTraces {
    pub fn new() -> (t: Self)
        ensures
            traces_view(t) == no_traces(),
    {
        let t = IterationTraces { ufs_traces: Vec::new(), block_traces: Vec::new(), ufscustom_traces: Vec::new() };
        assert(traces_view(t) =~= no_traces());
        t
    }
}

/// The traces of the iterations after one more line of kind `t`: a trace
/// line goes to the current iteration, when there is one (counter above zero).
pub open spec fn add_trace(m: Map<nat, TracesView>, iter: nat, t: LineTypeView, line: Seq<char>) -> Map<nat, TracesView> {
    let cur = if m.contains_key(iter) {
        m[iter]
    } else {
        no_traces()
    };
    if iter == 0 {
        m
    } else {
        match t {
            LineTypeView::UfsTrace => m.insert(iter, TracesView { ufs: cur.ufs.push(line), ..cur }),
            LineTypeView::BlockTrace => m.insert(iter, TracesView { block: cur.block.push(line), ..cur }),
            LineTypeView::UfsCustomTrace => m.insert(iter, TracesView { custom: cur.custom.push(line), ..cur }),
            _ => m,
        }
    }
}

pub open spec fn classify(lines: Seq<Seq<char>>) -> Map<nat, TracesView>
    decreases lines.len(),
{
    if lines.len() == 0 {
        Map::empty()
    } else {
        let prev = classify(lines.drop_last());
        let d = detect(lines.last(), scan_results(lines.drop_last()).0);
        add_trace(prev, d.0, d.1, lines.last())
    }
}

pub open spec fn table_matches(m: Map<usize, IterationTraces>, t: Map<nat, TracesView>) -> bool {
    &&& forall|k: nat| #[trigger] t.contains_key(k) ==> k <= usize::MAX && m.contains_key(k as usize)
    &&& forall|k: usize| #[trigger] m.contains_key(k) ==> t.contains_key(k as nat) && traces_view(m[k]) == t[k as nat]
}

impl BenchmarkParser {
    /// The results of a log's lines and, per iteration, its trace lines.
    pub fn classify_benchmark_lines(&self, lines: &Vec<String>) -> (r: (Vec<BenchmarkResult>, std::collections::HashMap<usize, IterationTraces>))
        requires
            scan_fits(strings_view(lines@)),
        ensures
            results_view(r.0@) == scan_results(strings_view(lines@)).1,
            table_matches(r.1@, classify(strings_view(lines@))),
    {
        let ghost ls = strings_view(lines@);
        let mut results: Vec<BenchmarkResult> = Vec::new();
        let mut table: std::collections::HashMap<usize, IterationTraces> = std::collections::HashMap::new();
        let mut current: usize = 0;
        let mut i: usize = 0;
        assert(table_matches(table@, classify(ls.take(0))));
        while i < lines.len()
            invariant
                ls == strings_view(lines@),
                scan_fits(ls),
                0 <= i <= ls.len(),
                current as nat == scan_results(ls.take(i as int)).0,
                results_view(results@) == scan_results(ls.take(i as int)).1,
                table_matches(table@, classify(ls.take(i as int))),
            decreases ls.len() - i,
        {
            proof {
                lemma_scan_take(ls, i as int);
                lemma_scan_fits_prefix(ls, i + 1);
                assert(ls[i as int] == lines@[i as int]@);
                assert(ls.take(i + 1).drop_last() =~= ls.take(i as int));
            }
            let line = &lines[i];
            let t = self.detect_line_type(line.as_str(), &mut current);
            let ghost tv = line_type_view(t);
            let ghost before_t = classify(ls.take(i as int));
            let is_trace = match t {
                LogLineType::UfsTrace => 0u8,
                LogLineType::BlockTrace => 1u8,
                LogLineType::UfsCustomTrace => 2u8,
                _ => 3u8,
            };
            if is_trace < 3 && current > 0 {
                let mut entry = match table.remove(&current) {
                    Some(e) => e,
                    None => IterationTraces::new(),
                };
                let ghost cur = traces_view(entry);
                if is_trace == 0 {
                    entry.ufs_traces.push(line.clone());
                    assert(strings_view(entry.ufs_traces@) =~= cur.ufs.push(ls[i as int]));
                } else if is_trace == 1 {
                    entry.block_traces.push(line.clone());
                    assert(strings_view(entry.block_traces@) =~= cur.block.push(ls[i as int]));
                } else {
                    entry.ufscustom_traces.push(line.clone());
                    assert(strings_view(entry.ufscustom_traces@) =~= cur.custom.push(ls[i as int]));
                }
                table.insert(current, entry);
            }
            match result_of(t) {
                Some(x) => {
                    let ghost before = results@;
                    results.push(x);
                    assert(results_view(results@) =~= results_view(before).push(result_view(x)));
                },
                None => {},
            }
            i = i + 1;
        }
        assert(ls.take(ls.len() as int) =~= ls);
        (results, table)
    }
}

} // verus!

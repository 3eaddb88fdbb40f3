//! Building blocks for reading the trace line grammars: runs of characters of
//! one class, and the lazy left-to-right search that a `.*?` performs.
use vstd::prelude::*;
use crate::text::{is_ascii_digit, is_lower_hex, is_nd, is_nd_exec, is_ws, is_ws_exec};

verus! {

/// Character classes of the trace line grammars.
#[derive(Clone, Copy, PartialEq, Eq, Structural)]
pub enum CharClass {
    /// `\s`
    Ws,
    /// `\S`
    NotWs,
    /// `\d` (Unicode decimal digits)
    Nd,
    /// `[0-9]`
    AsciiDigit,
    /// `[0-9a-f]`
    LowerHex,
    /// `[A-Z]`
    Upper,
    /// `[\d\.]`
    NdOrDot,
    /// `.` (anything but a line feed)
    NotNewline,
}

pub open spec fn in_class(k: CharClass, c: char) -> bool {
    match k {
        CharClass::Ws => is_ws(c),
        CharClass::NotWs => !is_ws(c),
        CharClass::Nd => is_nd(c),
        CharClass::AsciiDigit => is_ascii_digit(c),
        CharClass::LowerHex => is_lower_hex(c),
        CharClass::Upper => 'A' <= c <= 'Z',
        CharClass::NdOrDot => is_nd(c) || c == '.',
        CharClass::NotNewline => c != '\n',
    }
}

pub fn in_class_exec(k: CharClass, c: char) -> (b: bool)
    ensures
        b == in_class(k, c),
{
    match k {
        CharClass::Ws => is_ws_exec(c),
        CharClass::NotWs => !is_ws_exec(c),
        CharClass::Nd => is_nd_exec(c),
        CharClass::AsciiDigit => '0' <= c && c <= '9',
        CharClass::LowerHex => ('0' <= c && c <= '9') || ('a' <= c && c <= 'f'),
        CharClass::Upper => 'A' <= c && c <= 'Z',
        CharClass::NdOrDot => c == '.' || is_nd_exec(c),
        CharClass::NotNewline => c != '\n',
    }
}

/// End of the longest run of class-`k` characters starting at `i`.
pub open spec fn run_end(s: Seq<char>, i: int, k: CharClass) -> int
    decreases s.len() - i,
{
    if 0 <= i < s.len() && in_class(k, s[i]) {
        run_end(s, i + 1, k)
    } else {
        i
    }
}

pub proof fn lemma_run_end(s: Seq<char>, i: int, k: CharClass)
    requires
        0 <= i <= s.len(),
    ensures
        i <= run_end(s, i, k) <= s.len(),
        forall|m: int| i <= m < run_end(s, i, k) ==> in_class(k, #[trigger] s[m]),
        run_end(s, i, k) < s.len() ==> !in_class(k, s[run_end(s, i, k)]),
    decreases s.len() - i,
{
    if i < s.len() && in_class(k, s[i]) {
        lemma_run_end(s, i + 1, k);
    }
}

pub fn scan(chars: &[char], i: usize, k: CharClass) -> (j: usize)
    requires
        i <= chars@.len(),
    ensures
        j == run_end(chars@, i as int, k),
        i <= j <= chars@.len(),
{
    let mut j = i;
    while j < chars.len() && in_class_exec(k, chars[j])
        invariant
            i <= j <= chars@.len(),
            run_end(chars@, i as int, k) == run_end(chars@, j as int, k),
        decreases chars@.len() - j,
    {
        j = j + 1;
    }
    j
}

/// Captures: `(start, end)` positions of the groups, listed from the last
/// group of the pattern to the first.
pub type Caps = Seq<(int, int)>;

/// The search that `.*?X` performs from `j`: the first position, not beyond
/// a line feed, at which `f` (X and all that follows it) succeeds.
pub open spec fn lazy_find(s: Seq<char>, j: int, f: spec_fn(int) -> Option<Caps>) -> Option<Caps>
    decreases s.len() - j,
{
    if j < 0 || j > s.len() {
        None
    } else {
        match f(j) {
            Some(c) => Some(c),
            None => if j < s.len() && s[j] != '\n' {
                lazy_find(s, j + 1, f)
            } else {
                None
            },
        }
    }
}

pub open spec fn pairs(v: Seq<(usize, usize)>) -> Caps {
    Seq::new(v.len(), |i: int| (v[i].0 as int, v[i].1 as int))
}

pub open spec fn caps_match(r: Option<Vec<(usize, usize)>>, spec: Option<Caps>) -> bool {
    match r {
        Some(v) => spec == Some(pairs(v@)),
        None => spec.is_none(),
    }
}

pub proof fn lemma_pairs_push(v: Seq<(usize, usize)>, x: (usize, usize))
    ensures
        pairs(v.push(x)) == pairs(v).push((x.0 as int, x.1 as int)),
{
    assert(pairs(v.push(x)) =~= pairs(v).push((x.0 as int, x.1 as int)));
}

/// A list of captures of `k` groups, each a range inside `0..n`.
pub open spec fn caps_shape(r: Option<Vec<(usize, usize)>>, n: int, k: int) -> bool {
    match r {
        Some(v) => v@.len() == k && forall|i: int|
            0 <= i < v@.len() ==> (#[trigger] v@[i]).0 <= v@[i].1 && v@[i].1 <= n,
        None => true,
    }
}

/// Adds a capture to an optional list of captures.
pub(crate) fn push_cap(
    r: Option<Vec<(usize, usize)>>,
    x: (usize, usize),
    Ghost(spec): Ghost<Option<Caps>>,
    Ghost(n): Ghost<int>,
    Ghost(k): Ghost<int>,
) -> (out: Option<Vec<(usize, usize)>>)
    requires
        caps_match(r, spec),
        caps_shape(r, n, k),
        x.0 <= x.1 <= n,
    ensures
        caps_match(
            out,
            match spec {
                Some(c) => Some(c.push((x.0 as int, x.1 as int))),
                None => None,
            },
        ),
        caps_shape(out, n, k + 1),
{
    match r {
        Some(mut v) => {
            proof {
                lemma_pairs_push(v@, x);
            }
            v.push(x);
            Some(v)
        },
        None => None,
    }
}

} // verus!

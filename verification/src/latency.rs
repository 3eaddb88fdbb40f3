//! User latency bounds given on the command line: comma-separated
//! milliseconds, read by the grammar of Rust's `f64` text and kept in
//! nanoseconds.
use vstd::prelude::*;
use crate::chunk::{trim_chars, trimmed};
use crate::filter::{comma_pieces, lemma_comma_pieces_nonempty, pieces_view, split_commas};
use crate::text::{
    all_ascii_digits, ascii_lower, ascii_lower_char, chars_of, decimal_text_nanos, decimal_text_to_nanos,
    decimal_value, digit_value, digits_value, dot_count, is_ascii_digit, is_digit_or_dot,
    lemma_decimal_value_push, lemma_pow10_le, parse_unsigned, parse_unsigned_exec, pow10, saturate_u64,
};

verus! {

broadcast use vstd::string::group_string_axioms;

pub open spec fn negative_message() -> Seq<char> {
    "Latency range values must be non-negative"@
}

pub open spec fn ascending_message() -> Seq<char> {
    "Latency range values must be in ascending order"@
}

// ---------------------------------------------------------------------------
// The text of an `f64`, by the grammar in the documentation of Rust's
// `f64::from_str` (letters compared without regard to ASCII case):
//   Float  ::= Sign? ( 'inf' | 'infinity' | 'nan' | Number )
//   Number ::= ( Digit+ | Digit+ '.' Digit* | Digit* '.' Digit+ ) Exp?
//   Exp    ::= 'e' Sign? Digit+
// ---------------------------------------------------------------------------

pub open spec fn is_exp_mark(c: char) -> bool {
    c == 'e' || c == 'E'
}

/// Length of the sign (`+` or `-`) at the front of `t`: 0 or 1.
pub open spec fn sign_len(t: Seq<char>) -> int {
    if t.len() > 0 && (t[0] == '+' || t[0] == '-') {
        1
    } else {
        0
    }
}

/// `t` without its sign.
pub open spec fn unsigned_part(t: Seq<char>) -> Seq<char> {
    t.subrange(sign_len(t), t.len() as int)
}

/// Position of the first exponent mark of `r` at or after `i`, or `r.len()`.
pub open spec fn exp_pos(r: Seq<char>, i: int) -> int
    decreases r.len() - i,
{
    if 0 <= i < r.len() && !is_exp_mark(r[i]) {
        exp_pos(r, i + 1)
    } else {
        i
    }
}

/// Digits with at most one `.` and at least one digit.
pub open spec fn is_decimal(m: Seq<char>) -> bool {
    (forall|i: int| 0 <= i < m.len() ==> is_digit_or_dot(#[trigger] m[i])) && dot_count(m) <= 1
        && dot_count(m) < m.len()
}

/// The part of `r` before its exponent.
pub open spec fn mantissa(r: Seq<char>) -> Seq<char> {
    r.take(exp_pos(r, 0))
}

/// The part of `r` after its exponent mark.
pub open spec fn exponent_text(r: Seq<char>) -> Seq<char> {
    r.subrange(exp_pos(r, 0) + 1, r.len() as int)
}

/// An optional sign and at least one digit.
pub open spec fn is_exponent(x: Seq<char>) -> bool {
    unsigned_part(x).len() > 0 && all_ascii_digits(unsigned_part(x))
}

pub open spec fn exponent_value(x: Seq<char>) -> int {
    if x.len() > 0 && x[0] == '-' {
        -decimal_value(unsigned_part(x))
    } else {
        decimal_value(unsigned_part(x)) as int
    }
}

/// `r` (without sign) is a number: a decimal, then an optional exponent.
pub open spec fn is_number(r: Seq<char>) -> bool {
    is_decimal(mantissa(r)) && (exp_pos(r, 0) < r.len() ==> is_exponent(exponent_text(r)))
}

/// The power of ten that the exponent of the number `r` gives (0 without one).
pub open spec fn number_exp(r: Seq<char>) -> int {
    if exp_pos(r, 0) < r.len() {
        exponent_value(exponent_text(r))
    } else {
        0
    }
}

pub open spec fn not_dot(c: char) -> bool {
    c != '.'
}

/// The digits of a decimal, the dot left out.
pub open spec fn digits_of(m: Seq<char>) -> Seq<char> {
    m.filter(|c: char| not_dot(c))
}

/// How many digits of a decimal follow its dot.
pub open spec fn frac_len(m: Seq<char>) -> nat
    decreases m.len(),
{
    if m.len() == 0 {
        0
    } else if m.drop_last().contains('.') {
        frac_len(m.drop_last()) + 1
    } else {
        0
    }
}

/// The integer that the digits `d` write, with the point moved `k` places
/// to the right (to the left for a negative `k`) and the digits after the
/// point dropped.
pub open spec fn shifted_value(d: Seq<char>, k: int) -> nat {
    if k >= 0 {
        decimal_value(d) * pow10(k as nat)
    } else if d.len() + k <= 0 {
        0
    } else {
        decimal_value(d.take(d.len() + k))
    }
}

/// The nanoseconds of the number `r` (without sign) of milliseconds.
pub open spec fn number_nanos(r: Seq<char>) -> u64 {
    saturate_u64(
        shifted_value(digits_of(mantissa(r)), number_exp(r) - frac_len(mantissa(r)) + 6),
    )
}

/// One comma-separated piece `p`, trimmed, read by the grammar of Rust's
/// `f64` text and then tested as the bounds are (`v >= 0.0`): a number of
/// milliseconds gives its whole nanoseconds (digits beyond the nanosecond
/// are dropped, and what passes `u64` saturates, infinity too); a negative
/// number is refused unless its digits are all zero (`-0` reads as zero),
/// and so is NaN, which is not `>= 0`; any other text is refused with the
/// piece quoted.  The value is exact: no rounding to the nearest `f64`.
pub open spec fn range_piece(p: Seq<char>) -> Result<u64, Seq<char>> {
    let t = trimmed(p);
    let negative = t.len() > 0 && t[0] == '-';
    let r = unsigned_part(t);
    if ascii_lower(r) == "inf"@ || ascii_lower(r) == "infinity"@ {
        if negative {
            Err(negative_message())
        } else {
            Ok(u64::MAX)
        }
    } else if ascii_lower(r) == "nan"@ {
        Err(negative_message())
    } else if is_number(r) {
        if negative {
            if decimal_value(digits_of(mantissa(r))) == 0 {
                Ok(0)
            } else {
                Err(negative_message())
            }
        } else {
            Ok(number_nanos(r))
        }
    } else {
        Err("Invalid latency range value: "@ + p)
    }
}

/// The values of the pieces in order, or the error of the first piece
/// refused.
pub open spec fn range_pieces(ps: Seq<Seq<char>>) -> Result<Seq<u64>, Seq<char>>
    decreases ps.len(),
{
    if ps.len() == 0 {
        Ok(Seq::empty())
    } else {
        match range_pieces(ps.drop_last()) {
            Err(e) => Err(e),
            Ok(v) => match range_piece(ps.last()) {
                Ok(x) => Ok(v.push(x)),
                Err(e) => Err(e),
            },
        }
    }
}

pub open spec fn strictly_ascending(v: Seq<u64>) -> bool {
    forall|i: int| 1 <= i < v.len() ==> #[trigger] v[i - 1] < v[i]
}

/// The bounds that `text` gives, or the message with which it is refused.
pub open spec fn latency_ranges_of(text: Seq<char>) -> Result<Seq<u64>, Seq<char>> {
    match range_pieces(comma_pieces(text)) {
        Err(e) => Err(e),
        Ok(v) => if strictly_ascending(v) {
            Ok(v)
        } else {
            Err(ascending_message())
        },
    }
}

proof fn lemma_first_error_stays(ps: Seq<Seq<char>>, k: int, e: Seq<char>)
    requires
        0 <= k <= ps.len(),
        range_pieces(ps.take(k)) == Err::<Seq<u64>, Seq<char>>(e),
    ensures
        range_pieces(ps) == Err::<Seq<u64>, Seq<char>>(e),
    decreases ps.len() - k,
{
    if k == ps.len() {
        assert(ps.take(k) =~= ps);
    } else {
        assert(ps.take(k + 1).drop_last() =~= ps.take(k));
        lemma_first_error_stays(ps, k + 1, e);
    }
}

/// Whether `chars[lo..]`, lower-cased in ASCII, is `word` (lower-case
/// letters).
fn lower_eq(chars: &[char], lo: usize, word: &str) -> (b: bool)
    requires
        lo <= chars@.len(),
        forall|i: int| 0 <= i < word@.len() ==> 'a' <= #[trigger] word@[i] <= 'z',
    ensures
        b == (ascii_lower(chars@.subrange(lo as int, chars@.len() as int)) == word@),
{
    let ghost t = chars@.subrange(lo as int, chars@.len() as int);
    let w = chars_of(word);
    if chars.len() - lo != w.len() {
        assert(ascii_lower(t).len() != word@.len());
        return false;
    }
    let len = chars.len();
    let mut i: usize = 0;
    while i < w.len()
        invariant
            len == chars@.len(),
            w@ == word@,
            t == chars@.subrange(lo as int, chars@.len() as int),
            t.len() == w@.len(),
            lo + w@.len() == len,
            forall|k: int| 0 <= k < w@.len() ==> 'a' <= #[trigger] w@[k] <= 'z',
            0 <= i <= w@.len(),
            forall|k: int| 0 <= k < i ==> #[trigger] ascii_lower_char(t[k]) == w@[k],
        decreases w@.len() - i,
    {
        assert(lo + i < len);
        let idx = lo + i;
        let c = chars[idx];
        let x = w[i];
        assert(t[i as int] == c);
        let same = c == x || ('A' <= c && c <= 'Z' && (c as u32) + 32 == (x as u32));
        proof {
            if 'A' <= c <= 'Z' {
                assert(ascii_lower_char(c) == ((c as u32) + 32) as char);
                if (c as u32) + 32 == (x as u32) {
                    assert(ascii_lower_char(c) == x);
                } else {
                    assert((ascii_lower_char(c) as u32) == (c as u32) + 32);
                }
            }
        }
        if !same {
            assert(ascii_lower(t)[i as int] != word@[i as int]);
            return false;
        }
        i = i + 1;
    }
    assert(ascii_lower(t) =~= word@);
    true
}

/// The first position at or after `lo` (and before `hi`) of an exponent
/// mark in `chars`, or `hi`.
fn find_exp(chars: &[char], lo: usize) -> (e: usize)
    requires
        lo <= chars@.len(),
    ensures
        lo <= e <= chars@.len(),
        e - lo == exp_pos(chars@.subrange(lo as int, chars@.len() as int), 0),
{
    let ghost r = chars@.subrange(lo as int, chars@.len() as int);
    let mut e = lo;
    while e < chars.len() && !(chars[e] == 'e' || chars[e] == 'E')
        invariant
            lo <= e <= chars@.len(),
            r == chars@.subrange(lo as int, chars@.len() as int),
            exp_pos(r, 0) == exp_pos(r, e - lo),
        decreases chars@.len() - e,
    {
        assert(r[e - lo] == chars@[e as int]);
        e = e + 1;
    }
    if e < chars.len() {
        assert(r[e - lo] == chars@[e as int]);
    }
    e
}

/// A bound above any exponent that still changes a result.
pub open spec fn exp_cap() -> nat {
    0x40_0000_0000_0000_0000
}

pub open spec fn capped(v: nat) -> nat {
    if v < exp_cap() {
        v
    } else {
        exp_cap()
    }
}

/// Reads the exponent `chars[lo..hi]`: whether it is negative, and its
/// magnitude (held at `exp_cap()` at most); `None` where it is no exponent.
fn read_exponent(chars: &[char], lo: usize, hi: usize) -> (r: Option<(bool, u128)>)
    requires
        lo <= hi <= chars@.len(),
    ensures
        ({
            let x = chars@.subrange(lo as int, hi as int);
            match r {
                None => !is_exponent(x),
                Some((neg, v)) => is_exponent(x) && neg == (x.len() > 0 && x[0] == '-') && v as nat
                    == capped(decimal_value(unsigned_part(x))),
            }
        }),
{
    let ghost x = chars@.subrange(lo as int, hi as int);
    let mut start = lo;
    let mut neg = false;
    if lo < hi && (chars[lo] == '+' || chars[lo] == '-') {
        neg = chars[lo] == '-';
        start = lo + 1;
    }
    assert(x.len() > 0 ==> x[0] == chars@[lo as int]);
    let ghost u = unsigned_part(x);
    assert(u =~= chars@.subrange(start as int, hi as int));
    if start >= hi {
        return None;
    }
    let mut v: u128 = 0;
    let mut i = start;
    while i < hi
        invariant
            lo <= start <= i <= hi <= chars@.len(),
            x == chars@.subrange(lo as int, hi as int),
            u == unsigned_part(x),
            u == chars@.subrange(start as int, hi as int),
            all_ascii_digits(u.take(i - start)),
            v as nat == capped(decimal_value(u.take(i - start))),
        decreases hi - i,
    {
        let c = chars[i];
        assert(u[i - start] == c);
        if !('0' <= c && c <= '9') {
            assert(!is_ascii_digit(u[i - start]));
            return None;
        }
        let dv = (c as u32) - ('0' as u32);
        proof {
            assert(u.take(i - start + 1) =~= u.take(i - start).push(c));
            lemma_decimal_value_push(u.take(i - start), c);
            assert(digit_value(c) == dv);
        }
        if v >= 0x40_0000_0000_0000_0000 {
            v = 0x40_0000_0000_0000_0000;
        } else {
            let nv = v * 10 + dv as u128;
            v = if nv >= 0x40_0000_0000_0000_0000 {
                0x40_0000_0000_0000_0000
            } else {
                nv
            };
        }
        i = i + 1;
    }
    assert(u.take(hi - start) =~= u);
    Some((neg, v))
}

/// The digits of the decimal `chars[lo..hi]` without its dot, and how many
/// follow the dot.
fn decimal_digits(chars: &[char], lo: usize, hi: usize) -> (r: (Vec<char>, usize))
    requires
        lo <= hi <= chars@.len(),
        forall|i: int| lo <= i < hi ==> is_digit_or_dot(#[trigger] chars@[i]),
    ensures
        r.0@ == digits_of(chars@.subrange(lo as int, hi as int)),
        r.1 == frac_len(chars@.subrange(lo as int, hi as int)),
        all_ascii_digits(r.0@),
{
    let ghost m = chars@.subrange(lo as int, hi as int);
    let ghost pred = |c: char| not_dot(c);
    let mut d: Vec<char> = Vec::new();
    let mut f: usize = 0;
    let mut seen = false;
    let mut i = lo;
    assert(m.take(0) =~= Seq::<char>::empty());
    proof {
        reveal(Seq::filter);
    }
    while i < hi
        invariant
            lo <= i <= hi <= chars@.len(),
            m == chars@.subrange(lo as int, hi as int),
            pred == (|c: char| not_dot(c)),
            forall|k: int| lo <= k < hi ==> is_digit_or_dot(#[trigger] chars@[k]),
            d@ == m.take(i - lo).filter(pred),
            f == frac_len(m.take(i - lo)),
            f <= i - lo,
            seen == m.take(i - lo).contains('.'),
            all_ascii_digits(d@),
        decreases hi - i,
    {
        let c = chars[i];
        let ghost k = i - lo;
        proof {
            assert(m[k] == c);
            assert(m.take(k + 1).drop_last() =~= m.take(k));
            assert(m.take(k + 1).last() == c);
            reveal(Seq::filter);
            if m.take(k + 1).contains('.') && !m.take(k).contains('.') {
                let j = choose|j: int| 0 <= j < k + 1 && #[trigger] m.take(k + 1)[j] == '.';
                if j < k {
                    assert(m.take(k)[j] == '.');
                }
            }
            if m.take(k).contains('.') {
                let j = choose|j: int| 0 <= j < k && #[trigger] m.take(k)[j] == '.';
                assert(m.take(k + 1)[j] == '.');
            }
            if c == '.' {
                assert(m.take(k + 1)[k] == '.');
            }
        }
        if c != '.' {
            d.push(c);
            assert(is_ascii_digit(chars@[i as int]));
            assert(d@ =~= m.take(k).filter(pred).push(c));
        }
        if seen {
            f = f + 1;
        }
        if c == '.' {
            seen = true;
        }
        i = i + 1;
    }
    assert(m.take(hi - lo) =~= m);
    (d, f)
}

proof fn lemma_pow10_values()
    ensures
        pow10(0) == 1,
        pow10(19) == 10_000_000_000_000_000_000,
        pow10(20) == 100_000_000_000_000_000_000,
{
    reveal_with_fuel(pow10, 21);
}

/// `saturate_u64(shifted_value(d, k))` for the digits `d`, where `k` is
/// `e - f + 6` and `e` the exponent (`neg`, magnitude `eabs`, held at
/// `exp_cap()` in `ev`).
fn shifted_nanos(d: &Vec<char>, f: usize, neg: bool, ev: u128, Ghost(eabs): Ghost<nat>) -> (r: u64)
    requires
        all_ascii_digits(d@),
        ev as nat == capped(eabs),
    ensures
        r == saturate_u64(shifted_value(d@, (if neg { -eabs } else { eabs as int }) - f + 6)),
{
    let ghost k_true: int = (if neg { -eabs } else { eabs as int }) - f + 6;
    let n = d.len();
    let e: i128 = if neg {
        -(ev as i128)
    } else {
        ev as i128
    };
    let k: i128 = e - f as i128 + 6;
    assert(d@.subrange(0, n as int) =~= d@);
    proof {
        lemma_pow10_values();
    }
    if k >= 0 {
        assert(f <= 0xffff_ffff_ffff_ffff);
        assert(k_true >= k && (k_true != k ==> k >= 20)) by {
            if neg && eabs >= exp_cap() {
                assert(k < 0);
            }
        }
        match digits_value(d.as_slice(), 0, n, u64::MAX) {
            None => {
                proof {
                    lemma_pow10_le(0, k_true as nat);
                    let m = decimal_value(d@);
                    let p = pow10(k_true as nat);
                    assert(m * p >= m) by (nonlinear_arith)
                        requires
                            p >= 1,
                            m >= 0,
                    ;
                }
                u64::MAX
            },
            Some(m) => {
                if m == 0 {
                    let ghost pk = pow10(k_true as nat);
                    assert(decimal_value(d@) * pk == 0) by (nonlinear_arith)
                        requires
                            decimal_value(d@) == 0,
                    ;
                    0
                } else if k >= 20 {
                    proof {
                        lemma_pow10_le(20, k_true as nat);
                        let p = pow10(k_true as nat);
                        let mm = decimal_value(d@);
                        assert(mm * p >= p) by (nonlinear_arith)
                            requires
                                mm >= 1,
                                p >= 0,
                        ;
                    }
                    u64::MAX
                } else {
                    let kk = k as u32;
                    let mut p: u128 = 1;
                    let mut j: u32 = 0;
                    while j < kk
                        invariant
                            0 <= j <= kk,
                            kk < 20,
                            p as nat == pow10(j as nat),
                            pow10(19) == 10_000_000_000_000_000_000,
                        decreases kk - j,
                    {
                        proof {
                            lemma_pow10_le(j as nat, 18);
                            assert(pow10(18) == 1_000_000_000_000_000_000) by {
                                reveal_with_fuel(pow10, 19);
                            }
                        }
                        p = p * 10;
                        j = j + 1;
                    }
                    proof {
                        lemma_pow10_le(kk as nat, 19);
                    }
                    assert(m as u128 * p <= 0xffff_ffff_ffff_ffff * 10_000_000_000_000_000_000u128)
                        by (nonlinear_arith)
                        requires
                            m <= 0xffff_ffff_ffff_ffff,
                            p <= 10_000_000_000_000_000_000u128,
                    ;
                    let prod: u128 = m as u128 * p;
                    if prod > 0xffff_ffff_ffff_ffff {
                        u64::MAX
                    } else {
                        prod as u64
                    }
                }
            },
        }
    } else {
        let j: i128 = -k;
        assert(f <= 0xffff_ffff_ffff_ffff);
        assert(n <= 0xffff_ffff_ffff_ffff);
        assert(k_true <= k && (k_true != k ==> k + n <= 0)) by {
            if !neg && eabs >= exp_cap() {
                assert(k >= 20);
            }
        }
        assert(k_true < 0);
        if j >= n as i128 {
            assert(d@.len() + k_true <= 0);
            0
        } else {
            assert(k_true == k);
            let keep = n - j as usize;
            assert(d@.subrange(0, keep as int) =~= d@.take(d@.len() + k_true));
            assert forall|i: int| 0 <= i < keep implies is_ascii_digit(#[trigger] d@.subrange(0, keep as int)[i]) by {
                assert(d@.subrange(0, keep as int)[i] == d@[i]);
            }
            match digits_value(d.as_slice(), 0, keep, u64::MAX) {
                None => u64::MAX,
                Some(v) => v,
            }
        }
    }
}

proof fn lemma_range_pieces_len(ps: Seq<Seq<char>>)
    ensures
        range_pieces(ps) matches Ok(v) ==> v.len() == ps.len(),
    decreases ps.len(),
{
    if ps.len() > 0 {
        lemma_range_pieces_len(ps.drop_last());
    }
}

fn range_piece_value(p: &str) -> (r: Result<u64, String>)
    ensures
        match range_piece(p@) {
            Ok(v) => r matches Ok(x) && x == v,
            Err(e) => r matches Err(m) && m@ == e,
        },
{
    proof {
        reveal_strlit("inf");
        reveal_strlit("infinity");
        reveal_strlit("nan");
    }
    let cs = chars_of(p);
    let t = trim_chars(cs.as_slice());
    let tc = chars_of(t.as_str());
    let n = tc.len();
    let ghost tv = tc@;
    assert(tv == trimmed(p@));
    let negative = n > 0 && tc[0] == '-';
    let s: usize = if n > 0 && (tc[0] == '+' || tc[0] == '-') {
        1
    } else {
        0
    };
    let ghost r = unsigned_part(tv);
    assert(r == tv.subrange(s as int, n as int));
    if lower_eq(tc.as_slice(), s, "inf") || lower_eq(tc.as_slice(), s, "infinity") {
        if negative {
            return Err(String::from_str("Latency range values must be non-negative"));
        }
        return Ok(u64::MAX);
    }
    if lower_eq(tc.as_slice(), s, "nan") {
        return Err(String::from_str("Latency range values must be non-negative"));
    }
    let e = find_exp(tc.as_slice(), s);
    assert(mantissa(r) =~= tv.subrange(s as int, e as int));
    let valid = decimal_text_to_nanos(tc.as_slice(), s, e).is_some();
    let exp: Option<(bool, u128)> = if e < n {
        assert(exponent_text(r) =~= tv.subrange(e + 1, n as int));
        read_exponent(tc.as_slice(), e + 1, n)
    } else {
        Some((false, 0))
    };
    if !valid || exp.is_none() {
        let mut m = String::from_str("Invalid latency range value: ");
        m.append(p);
        return Err(m);
    }
    let (eneg, ev) = exp.unwrap();
    let ghost eabs: nat = if e < n {
        decimal_value(unsigned_part(exponent_text(r)))
    } else {
        0
    };
    assert(number_exp(r) == if eneg { -eabs } else { eabs as int });
    assert forall|i: int| s <= i < e implies is_digit_or_dot(#[trigger] tc@[i]) by {
        assert(tv.subrange(s as int, e as int)[i - s] == tc@[i]);
    }
    let (d, f) = decimal_digits(tc.as_slice(), s, e);
    if negative {
        assert(d@.subrange(0, d@.len() as int) =~= d@);
        match digits_value(d.as_slice(), 0, d.len(), 0) {
            Some(_) => Ok(0),
            None => Err(String::from_str("Latency range values must be non-negative")),
        }
    } else {
        Ok(shifted_nanos(&d, f, eneg, ev, Ghost(eabs)))
    }
}

/// A bound in milliseconds answered to a prompt, in nanoseconds: read as a
/// latency bound is (`range_piece`), and 0 (no bound) where it is refused,
/// NaN or a negative number.
pub fn ms_answer(text: &str) -> (r: u64)
    ensures
        r == match range_piece(text@) {
            Ok(v) => v,
            Err(_) => 0,
        },
{
    match range_piece_value(text) {
        Ok(v) => v,
        Err(_) => 0,
    }
}

/// A whole number answered to a prompt (`str::parse` of the trimmed text
/// for a type whose largest value is `max`), 0 (no bound) where it is none.
pub fn unsigned_answer(text: &str, max: u64) -> (r: u64)
    ensures
        r as nat == match parse_unsigned(trimmed(text@), max as nat) {
            Some(v) => v,
            None => 0,
        },
{
    let cs = chars_of(text);
    let t = trim_chars(cs.as_slice());
    let tc = chars_of(t.as_str());
    assert(tc@.subrange(0, tc@.len() as int) =~= tc@);
    match parse_unsigned_exec(tc.as_slice(), 0, tc.len(), max) {
        Some(v) => v,
        None => 0,
    }
}

/// Reads comma-separated latency bounds in milliseconds (each trimmed), in
/// nanoseconds; they must be non-negative and strictly ascending.
pub fn parse_latency_ranges(value_str: &str) -> (r: Result<Vec<u64>, String>)
    ensures
        match latency_ranges_of(value_str@) {
            Ok(v) => r matches Ok(x) && x@ == v,
            Err(e) => r matches Err(m) && m@ == e,
        },
        r matches Ok(v) ==> v@.len() > 0 && strictly_ascending(v@),
{
    proof {
        lemma_comma_pieces_nonempty(value_str@);
        lemma_range_pieces_len(comma_pieces(value_str@));
    }
    let cs = chars_of(value_str);
    let pieces = split_commas(cs.as_slice());
    let ghost ps = comma_pieces(value_str@);
    let mut out: Vec<u64> = Vec::new();
    let mut i: usize = 0;
    assert(ps.take(0) =~= Seq::<Seq<char>>::empty());
    while i < pieces.len()
        invariant
            pieces_view(pieces@) == ps,
            ps == comma_pieces(value_str@),
            0 <= i <= ps.len(),
            range_pieces(ps.take(i as int)) == Ok::<Seq<u64>, Seq<char>>(out@),
        decreases ps.len() - i,
    {
        assert(ps[i as int] == pieces@[i as int]@);
        assert(ps.take(i + 1).drop_last() =~= ps.take(i as int));
        assert(ps.take(i + 1).last() == ps[i as int]);
        match range_piece_value(pieces[i].as_str()) {
            Ok(v) => {
                out.push(v);
            },
            Err(m) => {
                proof {
                    lemma_first_error_stays(ps, i + 1, m@);
                }
                return Err(m);
            },
        }
        i = i + 1;
    }
    assert(ps.take(ps.len() as int) =~= ps);
    let mut k: usize = 1;
    while k < out.len()
        invariant
            1 <= k,
            k <= out@.len() || out@.len() == 0,
            range_pieces(comma_pieces(value_str@)) == Ok::<Seq<u64>, Seq<char>>(out@),
            forall|j: int| 1 <= j < k && j < out@.len() ==> #[trigger] out@[j - 1] < out@[j],
        decreases out@.len() - k,
    {
        if out[k] <= out[k - 1] {
            assert(!strictly_ascending(out@)) by {
                assert(out@[k - 1] >= out@[k as int]);
            }
            return Err(String::from_str("Latency range values must be in ascending order"));
        }
        k = k + 1;
    }
    Ok(out)
}

} // verus!

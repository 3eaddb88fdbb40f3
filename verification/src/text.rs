use vstd::prelude::*;

verus! {

broadcast use vstd::string::group_string_axioms;

// ---------------------------------------------------------------------------
// Character classes
// ---------------------------------------------------------------------------

/// The Unicode `White_Space` property (what `char::is_whitespace` and the
/// `\s` class of a regular expression accept).
pub open spec fn is_ws(c: char) -> bool {
    let u = c as u32;
    (0x09 <= u <= 0x0d) || u == 0x20 || u == 0x85 || u == 0xa0 || u == 0x1680 || (0x2000 <= u
        <= 0x200a) || u == 0x2028 || u == 0x2029 || u == 0x202f || u == 0x205f || u == 0x3000
}

pub fn is_ws_exec(c: char) -> (b: bool)
    ensures
        b == is_ws(c),
{
    let u = c as u32;
    (0x09 <= u && u <= 0x0d) || u == 0x20 || u == 0x85 || u == 0xa0 || u == 0x1680 || (0x2000
        <= u && u <= 0x200a) || u == 0x2028 || u == 0x2029 || u == 0x202f || u == 0x205f || u
        == 0x3000
}

pub open spec fn is_ascii_digit(c: char) -> bool {
    '0' <= c <= '9'
}

pub open spec fn digit_value(c: char) -> nat {
    (c as u32 - '0' as u32) as nat
}

/// Lower-case hexadecimal digit, the class `[0-9a-f]`.
pub open spec fn is_lower_hex(c: char) -> bool {
    ('0' <= c <= '9') || ('a' <= c <= 'f')
}

pub open spec fn in_ten(u: u32, lo: u32) -> bool {
    lo <= u < lo + 10
}

/// The Unicode general category `Nd` (decimal digit, Unicode 15.0): the
/// `\d` class of a regular expression.  Every block of decimal digits is ten
/// consecutive code points, except the mathematical digits at U+1D7CE..U+1D7FF.
pub open spec fn is_nd(c: char) -> bool {
    let u = c as u32;
    in_ten(u, 0x30) || in_ten(u, 0x660) || in_ten(u, 0x6f0) || in_ten(u, 0x7c0) || in_ten(u, 0x966)
        || in_ten(u, 0x9e6) || in_ten(u, 0xa66) || in_ten(u, 0xae6) || in_ten(u, 0xb66) || in_ten(
        u,
        0xbe6,
    ) || in_ten(u, 0xc66) || in_ten(u, 0xce6) || in_ten(u, 0xd66) || in_ten(u, 0xde6) || in_ten(
        u,
        0xe50,
    ) || in_ten(u, 0xed0) || in_ten(u, 0xf20) || in_ten(u, 0x1040) || in_ten(u, 0x1090) || in_ten(
        u,
        0x17e0,
    ) || in_ten(u, 0x1810) || in_ten(u, 0x1946) || in_ten(u, 0x19d0) || in_ten(u, 0x1a80)
        || in_ten(u, 0x1a90) || in_ten(u, 0x1b50) || in_ten(u, 0x1bb0) || in_ten(u, 0x1c40)
        || in_ten(u, 0x1c50) || in_ten(u, 0xa620) || in_ten(u, 0xa8d0) || in_ten(u, 0xa900)
        || in_ten(u, 0xa9d0) || in_ten(u, 0xa9f0) || in_ten(u, 0xaa50) || in_ten(u, 0xabf0)
        || in_ten(u, 0xff10) || in_ten(u, 0x104a0) || in_ten(u, 0x10d30) || in_ten(u, 0x11066)
        || in_ten(u, 0x110f0) || in_ten(u, 0x11136) || in_ten(u, 0x111d0) || in_ten(u, 0x112f0)
        || in_ten(u, 0x11450) || in_ten(u, 0x114d0) || in_ten(u, 0x11650) || in_ten(u, 0x116c0)
        || in_ten(u, 0x11730) || in_ten(u, 0x118e0) || in_ten(u, 0x11950) || in_ten(u, 0x11c50)
        || in_ten(u, 0x11d50) || in_ten(u, 0x11da0) || in_ten(u, 0x11f50) || in_ten(u, 0x16a60)
        || in_ten(u, 0x16ac0) || in_ten(u, 0x16b50) || (0x1d7ce <= u <= 0x1d7ff) || in_ten(
        u,
        0x1e140,
    ) || in_ten(u, 0x1e2f0) || in_ten(u, 0x1e4f0) || in_ten(u, 0x1e950) || in_ten(u, 0x1fbf0)
}

pub fn is_nd_exec(c: char) -> (b: bool)
    ensures
        b == is_nd(c),
{
    let u = c as u32;
    let starts: [u32; 60] = [
        0x30,
        0x660,
        0x6f0,
        0x7c0,
        0x966,
        0x9e6,
        0xa66,
        0xae6,
        0xb66,
        0xbe6,
        0xc66,
        0xce6,
        0xd66,
        0xde6,
        0xe50,
        0xed0,
        0xf20,
        0x1040,
        0x1090,
        0x17e0,
        0x1810,
        0x1946,
        0x19d0,
        0x1a80,
        0x1a90,
        0x1b50,
        0x1bb0,
        0x1c40,
        0x1c50,
        0xa620,
        0xa8d0,
        0xa900,
        0xa9d0,
        0xa9f0,
        0xaa50,
        0xabf0,
        0xff10,
        0x104a0,
        0x10d30,
        0x11066,
        0x110f0,
        0x11136,
        0x111d0,
        0x112f0,
        0x11450,
        0x114d0,
        0x11650,
        0x116c0,
        0x11730,
        0x118e0,
        0x11950,
        0x11c50,
        0x11d50,
        0x11da0,
        0x11f50,
        0x16a60,
        0x16ac0,
        0x16b50,
        0x1e140,
        0x1e2f0,
    ];
    let mut i: usize = 0;
    let mut found = false;
    while i < 60
        invariant
            0 <= i <= 60,
            found == exists|j: int| 0 <= j < i && in_ten(u, #[trigger] starts@[j]),
            starts@ == seq![
                0x30u32,
                0x660,
                0x6f0,
                0x7c0,
                0x966,
                0x9e6,
                0xa66,
                0xae6,
                0xb66,
                0xbe6,
                0xc66,
                0xce6,
                0xd66,
                0xde6,
                0xe50,
                0xed0,
                0xf20,
                0x1040,
                0x1090,
                0x17e0,
                0x1810,
                0x1946,
                0x19d0,
                0x1a80,
                0x1a90,
                0x1b50,
                0x1bb0,
                0x1c40,
                0x1c50,
                0xa620,
                0xa8d0,
                0xa900,
                0xa9d0,
                0xa9f0,
                0xaa50,
                0xabf0,
                0xff10,
                0x104a0,
                0x10d30,
                0x11066,
                0x110f0,
                0x11136,
                0x111d0,
                0x112f0,
                0x11450,
                0x114d0,
                0x11650,
                0x116c0,
                0x11730,
                0x118e0,
                0x11950,
                0x11c50,
                0x11d50,
                0x11da0,
                0x11f50,
                0x16a60,
                0x16ac0,
                0x16b50,
                0x1e140,
                0x1e2f0,
            ],
        decreases 60 - i,
    {
        let lo = starts[i];
        if lo <= u && u < lo + 10 {
            found = true;
        }
        i = i + 1;
    }
    let rest = (0x1d7ce <= u && u <= 0x1d7ff) || (0x1e4f0 <= u && u < 0x1e4fa) || (0x1e950 <= u
        && u < 0x1e95a) || (0x1fbf0 <= u && u < 0x1fbfa);
    proof {
        if found {
            let j = choose|j: int| 0 <= j < 60 && in_ten(u, #[trigger] starts@[j]);
            assert(is_nd(c));
        }
        if is_nd(c) && !rest {
            assert(exists|j: int| 0 <= j < 60 && in_ten(u, #[trigger] starts@[j])) by {
                if in_ten(u, 0x30) { assert(in_ten(u, starts@[0])); }
                else if in_ten(u, 0x660) { assert(in_ten(u, starts@[1])); }
                else if in_ten(u, 0x6f0) { assert(in_ten(u, starts@[2])); }
                else if in_ten(u, 0x7c0) { assert(in_ten(u, starts@[3])); }
                else if in_ten(u, 0x966) { assert(in_ten(u, starts@[4])); }
                else if in_ten(u, 0x9e6) { assert(in_ten(u, starts@[5])); }
                else if in_ten(u, 0xa66) { assert(in_ten(u, starts@[6])); }
                else if in_ten(u, 0xae6) { assert(in_ten(u, starts@[7])); }
                else if in_ten(u, 0xb66) { assert(in_ten(u, starts@[8])); }
                else if in_ten(u, 0xbe6) { assert(in_ten(u, starts@[9])); }
                else if in_ten(u, 0xc66) { assert(in_ten(u, starts@[10])); }
                else if in_ten(u, 0xce6) { assert(in_ten(u, starts@[11])); }
                else if in_ten(u, 0xd66) { assert(in_ten(u, starts@[12])); }
                else if in_ten(u, 0xde6) { assert(in_ten(u, starts@[13])); }
                else if in_ten(u, 0xe50) { assert(in_ten(u, starts@[14])); }
                else if in_ten(u, 0xed0) { assert(in_ten(u, starts@[15])); }
                else if in_ten(u, 0xf20) { assert(in_ten(u, starts@[16])); }
                else if in_ten(u, 0x1040) { assert(in_ten(u, starts@[17])); }
                else if in_ten(u, 0x1090) { assert(in_ten(u, starts@[18])); }
                else if in_ten(u, 0x17e0) { assert(in_ten(u, starts@[19])); }
                else if in_ten(u, 0x1810) { assert(in_ten(u, starts@[20])); }
                else if in_ten(u, 0x1946) { assert(in_ten(u, starts@[21])); }
                else if in_ten(u, 0x19d0) { assert(in_ten(u, starts@[22])); }
                else if in_ten(u, 0x1a80) { assert(in_ten(u, starts@[23])); }
                else if in_ten(u, 0x1a90) { assert(in_ten(u, starts@[24])); }
                else if in_ten(u, 0x1b50) { assert(in_ten(u, starts@[25])); }
                else if in_ten(u, 0x1bb0) { assert(in_ten(u, starts@[26])); }
                else if in_ten(u, 0x1c40) { assert(in_ten(u, starts@[27])); }
                else if in_ten(u, 0x1c50) { assert(in_ten(u, starts@[28])); }
                else if in_ten(u, 0xa620) { assert(in_ten(u, starts@[29])); }
                else if in_ten(u, 0xa8d0) { assert(in_ten(u, starts@[30])); }
                else if in_ten(u, 0xa900) { assert(in_ten(u, starts@[31])); }
                else if in_ten(u, 0xa9d0) { assert(in_ten(u, starts@[32])); }
                else if in_ten(u, 0xa9f0) { assert(in_ten(u, starts@[33])); }
                else if in_ten(u, 0xaa50) { assert(in_ten(u, starts@[34])); }
                else if in_ten(u, 0xabf0) { assert(in_ten(u, starts@[35])); }
                else if in_ten(u, 0xff10) { assert(in_ten(u, starts@[36])); }
                else if in_ten(u, 0x104a0) { assert(in_ten(u, starts@[37])); }
                else if in_ten(u, 0x10d30) { assert(in_ten(u, starts@[38])); }
                else if in_ten(u, 0x11066) { assert(in_ten(u, starts@[39])); }
                else if in_ten(u, 0x110f0) { assert(in_ten(u, starts@[40])); }
                else if in_ten(u, 0x11136) { assert(in_ten(u, starts@[41])); }
                else if in_ten(u, 0x111d0) { assert(in_ten(u, starts@[42])); }
                else if in_ten(u, 0x112f0) { assert(in_ten(u, starts@[43])); }
                else if in_ten(u, 0x11450) { assert(in_ten(u, starts@[44])); }
                else if in_ten(u, 0x114d0) { assert(in_ten(u, starts@[45])); }
                else if in_ten(u, 0x11650) { assert(in_ten(u, starts@[46])); }
                else if in_ten(u, 0x116c0) { assert(in_ten(u, starts@[47])); }
                else if in_ten(u, 0x11730) { assert(in_ten(u, starts@[48])); }
                else if in_ten(u, 0x118e0) { assert(in_ten(u, starts@[49])); }
                else if in_ten(u, 0x11950) { assert(in_ten(u, starts@[50])); }
                else if in_ten(u, 0x11c50) { assert(in_ten(u, starts@[51])); }
                else if in_ten(u, 0x11d50) { assert(in_ten(u, starts@[52])); }
                else if in_ten(u, 0x11da0) { assert(in_ten(u, starts@[53])); }
                else if in_ten(u, 0x11f50) { assert(in_ten(u, starts@[54])); }
                else if in_ten(u, 0x16a60) { assert(in_ten(u, starts@[55])); }
                else if in_ten(u, 0x16ac0) { assert(in_ten(u, starts@[56])); }
                else if in_ten(u, 0x16b50) { assert(in_ten(u, starts@[57])); }
                else if in_ten(u, 0x1e140) { assert(in_ten(u, starts@[58])); }
                else { assert(in_ten(u, starts@[59])); }
            }
        }
    }
    found || rest
}

// ---------------------------------------------------------------------------
// Conversions between strings and character sequences
// ---------------------------------------------------------------------------

/// `String::push`: the documentation of the method says it appends the
/// character to the end of the string, which is what is stated.
#[verifier::external_body]
pub(crate) fn push_char(s: &mut String, c: char)
    ensures
        final(s)@ == old(s)@.push(c),
{
    s.push(c);
}

/// The characters of a string slice, in order.
pub fn chars_of(s: &str) -> (v: Vec<char>)
    ensures
        v@ == s@,
{
    let mut v: Vec<char> = Vec::new();
    for c in iter: s.chars()
        invariant
            iter.seq() == s@,
            v@ == iter.seq().take(iter.index()),
    {
        v.push(c);
    }
    v
}

/// The string made of `chars[lo..hi]`.
pub fn string_from_range(chars: &[char], lo: usize, hi: usize) -> (s: String)
    requires
        lo <= hi <= chars@.len(),
    ensures
        s@ == chars@.subrange(lo as int, hi as int),
{
    let mut s = String::new();
    let mut i = lo;
    while i < hi
        invariant
            lo <= i <= hi <= chars@.len(),
            s@ == chars@.subrange(lo as int, i as int),
        decreases hi - i,
    {
        push_char(&mut s, chars[i]);
        assert(chars@.subrange(lo as int, i + 1) == chars@.subrange(lo as int, i as int).push(
            chars@[i as int],
        ));
        i = i + 1;
    }
    s
}

/// Appends the characters of `t`.
pub fn push_text(s: &mut String, t: &str)
    ensures
        final(s)@ == old(s)@ + t@,
{
    let cs = chars_of(t);
    let mut i: usize = 0;
    while i < cs.len()
        invariant
            0 <= i <= cs@.len(),
            cs@ == t@,
            s@ == old(s)@ + cs@.take(i as int),
        decreases cs@.len() - i,
    {
        push_char(s, cs[i]);
        assert(cs@.take(i + 1) =~= cs@.take(i as int).push(cs@[i as int]));
        assert(s@ =~= old(s)@ + cs@.take(i + 1));
        i = i + 1;
    }
    assert(cs@.take(cs@.len() as int) =~= cs@);
}

/// The string made of all of `chars`.
pub fn string_from_chars(chars: &[char]) -> (s: String)
    ensures
        s@ == chars@,
{
    let s = string_from_range(chars, 0, chars.len());
    assert(chars@.subrange(0, chars@.len() as int) == chars@);
    s
}

/// Whether `needle` occurs in `hay` starting at position `i`.
pub open spec fn occurs_at(hay: Seq<char>, i: int, needle: Seq<char>) -> bool {
    0 <= i && i + needle.len() <= hay.len() && hay.subrange(i, i + needle.len() as int) == needle
}

pub fn occurs_at_exec(hay: &[char], i: usize, needle: &[char]) -> (b: bool)
    ensures
        b == occurs_at(hay@, i as int, needle@),
{
    if i > hay.len() || needle.len() > hay.len() - i {
        return false;
    }
    let mut k: usize = 0;
    while k < needle.len()
        invariant
            i + needle@.len() <= hay@.len(),
            i + needle.len() <= hay.len(),
            0 <= k <= needle@.len(),
            forall|m: int| 0 <= m < k ==> hay@[i + m] == needle@[m],
        decreases needle@.len() - k,
    {
        if hay[i + k] != needle[k] {
            proof {
                assert(hay@.subrange(i as int, i + needle@.len())[k as int] != needle@[k as int]);
            }
            return false;
        }
        k = k + 1;
    }
    assert(hay@.subrange(i as int, i + needle@.len()) =~= needle@);
    true
}

/// Whether `needle` occurs anywhere in `hay`.
pub open spec fn contains_seq(hay: Seq<char>, needle: Seq<char>) -> bool {
    exists|i: int| occurs_at(hay, i, needle)
}

pub fn contains_exec(hay: &[char], needle: &[char]) -> (b: bool)
    ensures
        b == contains_seq(hay@, needle@),
{
    if needle.len() > hay.len() {
        return false;
    }
    let last = hay.len() - needle.len();
    let mut i: usize = 0;
    while i < last
        invariant
            last == hay@.len() - needle@.len(),
            0 <= i <= last,
            forall|j: int| 0 <= j < i ==> !occurs_at(hay@, j, needle@),
        decreases last - i,
    {
        if occurs_at_exec(hay, i, needle) {
            return true;
        }
        i = i + 1;
    }
    if occurs_at_exec(hay, last, needle) {
        return true;
    }
    assert forall|j: int| !occurs_at(hay@, j, needle@) by {
        if 0 <= j && j <= last {
        }
    }
    false
}

/// Whether `s` starts with `p`.
pub open spec fn starts_with(s: Seq<char>, p: Seq<char>) -> bool {
    occurs_at(s, 0, p)
}

/// Whether `s` ends with `p`.
pub open spec fn ends_with(s: Seq<char>, p: Seq<char>) -> bool {
    p.len() <= s.len() && occurs_at(s, s.len() - p.len(), p)
}

pub fn ends_with_exec(s: &[char], p: &[char]) -> (b: bool)
    ensures
        b == ends_with(s@, p@),
{
    if p.len() > s.len() {
        false
    } else {
        occurs_at_exec(s, s.len() - p.len(), p)
    }
}

// ---------------------------------------------------------------------------
// Lower-casing
// ---------------------------------------------------------------------------

/// ASCII lower-casing of one character.
pub open spec fn ascii_lower_char(c: char) -> char {
    if 'A' <= c <= 'Z' {
        ((c as u32) + 32) as char
    } else {
        c
    }
}

pub open spec fn ascii_lower(s: Seq<char>) -> Seq<char> {
    Seq::new(s.len(), |i: int| ascii_lower_char(s[i]))
}

pub open spec fn is_ascii_seq(s: Seq<char>) -> bool {
    forall|i: int| 0 <= i < s.len() ==> (s[i] as u32) < 128
}

/// What `str::to_lowercase` returns for a string with the given characters.
pub uninterp spec fn unicode_lowercase(s: Seq<char>) -> Seq<char>;

/// `str::to_lowercase`.  Its result is the Unicode lower-case mapping of the
/// input, named `unicode_lowercase`; for ASCII input the documentation of the
/// method gives the plain ASCII mapping (`A`..`Z` to `a`..`z`, all else kept),
/// which is the one further fact stated here.
#[verifier::external_body]
pub(crate) fn to_lowercase(s: &str) -> (r: String)
    ensures
        r@ == unicode_lowercase(s@),
        is_ascii_seq(s@) ==> r@ == ascii_lower(s@),
{
    s.to_lowercase()
}

/// ASCII upper-casing of one character.
pub open spec fn ascii_upper_char(c: char) -> char {
    if 'a' <= c <= 'z' {
        ((c as u32) - 32) as char
    } else {
        c
    }
}

pub open spec fn ascii_upper(s: Seq<char>) -> Seq<char> {
    Seq::new(s.len(), |i: int| ascii_upper_char(s[i]))
}

/// What `str::to_uppercase` returns for a string with the given characters.
pub uninterp spec fn unicode_uppercase(s: Seq<char>) -> Seq<char>;

/// `str::to_uppercase`.  Its result is the Unicode upper-case mapping of the
/// input, named `unicode_uppercase`; for ASCII input the documentation of the
/// method gives the plain ASCII mapping (`a`..`z` to `A`..`Z`, all else kept),
/// which is the one further fact stated here.
#[verifier::external_body]
pub(crate) fn to_uppercase(s: &str) -> (r: String)
    ensures
        r@ == unicode_uppercase(s@),
        is_ascii_seq(s@) ==> r@ == ascii_upper(s@),
{
    s.to_uppercase()
}

// ---------------------------------------------------------------------------
// Decimal numbers
// ---------------------------------------------------------------------------

pub open spec fn all_ascii_digits(s: Seq<char>) -> bool {
    forall|i: int| 0 <= i < s.len() ==> is_ascii_digit(#[trigger] s[i])
}

/// The value of a string of ASCII decimal digits.
pub open spec fn decimal_value(s: Seq<char>) -> nat
    decreases s.len(),
{
    if s.len() == 0 {
        0
    } else {
        decimal_value(s.drop_last()) * 10 + digit_value(s.last())
    }
}

/// The unsigned value that Rust's `str::parse` gives for `s` with an upper
/// bound `max` (that of the target type): an optional `+`, then one or more
/// ASCII digits, and a value that fits.
pub open spec fn parse_unsigned(s: Seq<char>, max: nat) -> Option<nat> {
    let digits = if s.len() > 1 && s[0] == '+' {
        s.drop_first()
    } else {
        s
    };
    if digits.len() > 0 && all_ascii_digits(digits) && decimal_value(digits) <= max {
        Some(decimal_value(digits))
    } else {
        None
    }
}

/// The signed value that `str::parse::<i64>` gives for `s`.
pub open spec fn parse_i64(s: Seq<char>) -> Option<int> {
    if s.len() > 1 && s[0] == '-' {
        let d = s.drop_first();
        if all_ascii_digits(d) && decimal_value(d) <= 0x8000_0000_0000_0000 {
            Some(-(decimal_value(d) as int))
        } else {
            None
        }
    } else {
        match parse_unsigned(s, 0x7fff_ffff_ffff_ffff) {
            Some(v) => Some(v as int),
            None => None,
        }
    }
}

pub proof fn lemma_decimal_value_push(s: Seq<char>, c: char)
    ensures
        decimal_value(s.push(c)) == decimal_value(s) * 10 + digit_value(c),
{
    assert(s.push(c).drop_last() =~= s);
}

/// Value of the ASCII digits `chars[lo..hi]`, or `None` when it exceeds `max`.
pub fn digits_value(chars: &[char], lo: usize, hi: usize, max: u64) -> (r: Option<u64>)
    requires
        lo <= hi <= chars@.len(),
        all_ascii_digits(chars@.subrange(lo as int, hi as int)),
    ensures
        match r {
            Some(v) => v == decimal_value(chars@.subrange(lo as int, hi as int)) && v <= max,
            None => decimal_value(chars@.subrange(lo as int, hi as int)) > max,
        },
{
    let mut acc: u64 = 0;
    let mut i = lo;
    while i < hi
        invariant
            lo <= i <= hi <= chars@.len(),
            all_ascii_digits(chars@.subrange(lo as int, hi as int)),
            acc == decimal_value(chars@.subrange(lo as int, i as int)),
            acc <= max,
        decreases hi - i,
    {
        let c = chars[i];
        assert(chars@.subrange(lo as int, hi as int)[i - lo] == c);
        let d = (c as u32 - '0' as u32) as u64;
        assert(chars@.subrange(lo as int, i + 1) == chars@.subrange(lo as int, i as int).push(c));
        proof {
            lemma_decimal_value_push(chars@.subrange(lo as int, i as int), c);
        }
        let next: u128 = acc as u128 * 10 + d as u128;
        if next > max as u128 {
            proof {
                lemma_decimal_grows(chars@, lo as int, i + 1, hi as int);
            }
            return None;
        }
        acc = next as u64;
        i = i + 1;
    }
    Some(acc)
}

/// Whether `chars[lo..hi]` is made of ASCII digits only.
pub fn all_ascii_digits_exec(chars: &[char], lo: usize, hi: usize) -> (b: bool)
    requires
        lo <= hi <= chars@.len(),
    ensures
        b == all_ascii_digits(chars@.subrange(lo as int, hi as int)),
{
    let mut i = lo;
    while i < hi
        invariant
            lo <= i <= hi <= chars@.len(),
            forall|m: int| 0 <= m < i - lo ==> is_ascii_digit(
                #[trigger] chars@.subrange(lo as int, hi as int)[m],
            ),
        decreases hi - i,
    {
        assert(chars@.subrange(lo as int, hi as int)[i - lo] == chars@[i as int]);
        if !('0' <= chars[i] && chars[i] <= '9') {
            return false;
        }
        i = i + 1;
    }
    true
}

/// `str::parse` of `chars[lo..hi]` into an unsigned type whose largest value
/// is `max`.
pub fn parse_unsigned_exec(chars: &[char], lo: usize, hi: usize, max: u64) -> (r: Option<u64>)
    requires
        lo <= hi <= chars@.len(),
    ensures
        match r {
            Some(v) => parse_unsigned(chars@.subrange(lo as int, hi as int), max as nat) == Some(
                v as nat,
            ),
            None => parse_unsigned(chars@.subrange(lo as int, hi as int), max as nat) is None,
        },
{
    let ghost s = chars@.subrange(lo as int, hi as int);
    let start = if hi - lo > 1 && chars[lo] == '+' {
        lo + 1
    } else {
        lo
    };
    proof {
        if start == lo + 1 {
            assert(s.drop_first() =~= chars@.subrange(start as int, hi as int));
        } else {
            assert(s =~= chars@.subrange(start as int, hi as int));
        }
    }
    if start == hi || !all_ascii_digits_exec(chars, start, hi) {
        return None;
    }
    digits_value(chars, start, hi, max)
}

/// `str::parse::<i64>` of `chars[lo..hi]`.
pub fn parse_i64_exec(chars: &[char], lo: usize, hi: usize) -> (r: Option<i64>)
    requires
        lo <= hi <= chars@.len(),
    ensures
        match r {
            Some(v) => parse_i64(chars@.subrange(lo as int, hi as int)) == Some(v as int),
            None => parse_i64(chars@.subrange(lo as int, hi as int)) is None,
        },
{
    let ghost s = chars@.subrange(lo as int, hi as int);
    if hi - lo > 1 && chars[lo] == '-' {
        assert(s.drop_first() =~= chars@.subrange(lo + 1, hi as int));
        if !all_ascii_digits_exec(chars, lo + 1, hi) {
            return None;
        }
        match digits_value(chars, lo + 1, hi, 0x8000_0000_0000_0000) {
            Some(v) => {
                if v == 0x8000_0000_0000_0000 {
                    Some(i64::MIN)
                } else {
                    Some(-(v as i64))
                }
            },
            None => None,
        }
    } else {
        match parse_unsigned_exec(chars, lo, hi, 0x7fff_ffff_ffff_ffff) {
            Some(v) => Some(v as i64),
            None => None,
        }
    }
}

/// A longer run of digits never has a smaller value.
pub proof fn lemma_decimal_grows(s: Seq<char>, lo: int, mid: int, hi: int)
    requires
        0 <= lo <= mid <= hi <= s.len(),
        all_ascii_digits(s.subrange(lo, hi)),
    ensures
        decimal_value(s.subrange(lo, mid)) <= decimal_value(s.subrange(lo, hi)),
    decreases hi - mid,
{
    if mid < hi {
        assert(s.subrange(lo, hi).drop_last() =~= s.subrange(lo, hi - 1));
        assert forall|i: int| 0 <= i < s.subrange(lo, hi - 1).len() implies is_ascii_digit(
            #[trigger] s.subrange(lo, hi - 1)[i],
        ) by {
            assert(s.subrange(lo, hi - 1)[i] == s.subrange(lo, hi)[i]);
        }
        lemma_decimal_grows(s, lo, mid, hi - 1);
    }
}


// ---------------------------------------------------------------------------
// Hexadecimal numbers
// ---------------------------------------------------------------------------

pub open spec fn hex_digit_value(c: char) -> nat {
    if '0' <= c <= '9' {
        (c as u32 - '0' as u32) as nat
    } else {
        (c as u32 - 'a' as u32 + 10) as nat
    }
}

pub open spec fn all_lower_hex(s: Seq<char>) -> bool {
    forall|i: int| 0 <= i < s.len() ==> is_lower_hex(#[trigger] s[i])
}

/// The value of a string of lower-case hexadecimal digits.
pub open spec fn hex_value(s: Seq<char>) -> nat
    decreases s.len(),
{
    if s.len() == 0 {
        0
    } else {
        hex_value(s.drop_last()) * 16 + hex_digit_value(s.last())
    }
}

pub proof fn lemma_hex_grows(s: Seq<char>, lo: int, mid: int, hi: int)
    requires
        0 <= lo <= mid <= hi <= s.len(),
    ensures
        hex_value(s.subrange(lo, mid)) <= hex_value(s.subrange(lo, hi)),
    decreases hi - mid,
{
    if mid < hi {
        assert(s.subrange(lo, hi).drop_last() =~= s.subrange(lo, hi - 1));
        lemma_hex_grows(s, lo, mid, hi - 1);
    }
}

/// Value of the lower-case hex digits `chars[lo..hi]` (what `u32::from_str_radix(_, 16)`
/// gives for them), or `None` when it exceeds `max`.
pub fn hex_digits_value(chars: &[char], lo: usize, hi: usize, max: u64) -> (r: Option<u64>)
    requires
        lo <= hi <= chars@.len(),
        all_lower_hex(chars@.subrange(lo as int, hi as int)),
    ensures
        match r {
            Some(v) => v == hex_value(chars@.subrange(lo as int, hi as int)) && v <= max,
            None => hex_value(chars@.subrange(lo as int, hi as int)) > max,
        },
{
    let mut acc: u64 = 0;
    let mut i = lo;
    while i < hi
        invariant
            lo <= i <= hi <= chars@.len(),
            all_lower_hex(chars@.subrange(lo as int, hi as int)),
            acc == hex_value(chars@.subrange(lo as int, i as int)),
            acc <= max,
        decreases hi - i,
    {
        let c = chars[i];
        assert(chars@.subrange(lo as int, hi as int)[i - lo] == c);
        let d: u64 = if c <= '9' {
            (c as u32 - '0' as u32) as u64
        } else {
            (c as u32 - 'a' as u32 + 10) as u64
        };
        assert(chars@.subrange(lo as int, i + 1).drop_last() == chars@.subrange(lo as int, i as int));
        let next: u128 = acc as u128 * 16 + d as u128;
        if next > max as u128 {
            proof {
                lemma_hex_grows(chars@, lo as int, i + 1, hi as int);
            }
            return None;
        }
        acc = next as u64;
        i = i + 1;
    }
    Some(acc)
}

// ---------------------------------------------------------------------------
// Times: decimal seconds read as whole nanoseconds
// ---------------------------------------------------------------------------

pub open spec fn pow10(k: nat) -> nat
    decreases k,
{
    if k == 0 {
        1
    } else {
        10 * pow10((k - 1) as nat)
    }
}

/// `f` followed by `k` zero digits.
pub open spec fn pad_zeros(f: Seq<char>, k: nat) -> Seq<char>
    decreases k,
{
    if k == 0 {
        f
    } else {
        pad_zeros(f, (k - 1) as nat).push('0')
    }
}

/// The first nine digits of a fraction, padded with zeros: its value in units
/// of 10^-9.
pub open spec fn nanos_of_fraction(frac: Seq<char>) -> nat {
    if frac.len() >= 9 {
        decimal_value(frac.take(9))
    } else {
        decimal_value(pad_zeros(frac, (9 - frac.len()) as nat))
    }
}

/// A count of nanoseconds held in a `u64`, saturating at `u64::MAX`.
pub open spec fn saturate_u64(n: nat) -> u64 {
    if n > u64::MAX {
        u64::MAX
    } else {
        n as u64
    }
}

/// The whole nanoseconds of the decimal number `int_part.frac` (seconds),
/// further digits of the fraction dropped, saturating at `u64::MAX`.
pub open spec fn seconds_to_nanos(int_part: Seq<char>, frac: Seq<char>) -> u64 {
    saturate_u64(decimal_value(int_part) * 1_000_000_000 + nanos_of_fraction(frac))
}

pub open spec fn is_digit_or_dot(c: char) -> bool {
    is_ascii_digit(c) || c == '.'
}

pub open spec fn dot_count(t: Seq<char>) -> nat
    decreases t.len(),
{
    if t.len() == 0 {
        0
    } else {
        dot_count(t.drop_last()) + if t.last() == '.' {
            1nat
        } else {
            0nat
        }
    }
}

/// Position of the first `.` in `t`, or `t.len()` when there is none.
pub open spec fn dot_pos(t: Seq<char>, i: int) -> int
    decreases t.len() - i,
{
    if 0 <= i < t.len() && t[i] != '.' {
        dot_pos(t, i + 1)
    } else {
        i
    }
}

/// The time, in nanoseconds, that a decimal number of seconds written `t`
/// denotes: ASCII digits with at most one `.` and at least one digit (of
/// texts made of digits and dots, exactly those that Rust's `f64` parser
/// accepts).  `None` for any other text, signs and exponents included.
pub open spec fn decimal_text_nanos(t: Seq<char>) -> Option<u64> {
    if (forall|i: int| 0 <= i < t.len() ==> is_digit_or_dot(#[trigger] t[i])) && dot_count(t) <= 1
        && dot_count(t) < t.len() {
        let d = dot_pos(t, 0);
        let frac = if d < t.len() {
            t.subrange(d + 1, t.len() as int)
        } else {
            Seq::empty()
        };
        Some(seconds_to_nanos(t.take(d), frac))
    } else {
        None
    }
}

pub proof fn lemma_pad_zeros(f: Seq<char>, k: nat)
    ensures
        decimal_value(pad_zeros(f, k)) == decimal_value(f) * pow10(k),
        pad_zeros(f, k).len() == f.len() + k,
        all_ascii_digits(f) ==> all_ascii_digits(pad_zeros(f, k)),
    decreases k,
{
    if k == 0 {
        assert(pow10(0) == 1);
    } else {
        lemma_pad_zeros(f, (k - 1) as nat);
        assert(pad_zeros(f, k) == pad_zeros(f, (k - 1) as nat).push('0'));
        lemma_decimal_value_push(pad_zeros(f, (k - 1) as nat), '0');
        assert(digit_value('0') == 0);
        assert(decimal_value(f) * pow10((k - 1) as nat) * 10 == decimal_value(f) * pow10(k))
            by (nonlinear_arith)
            requires
                pow10(k) == 10 * pow10((k - 1) as nat),
        ;
        if all_ascii_digits(f) {
            assert forall|i: int| 0 <= i < pad_zeros(f, k).len() implies is_ascii_digit(
                #[trigger] pad_zeros(f, k)[i],
            ) by {
                if i < pad_zeros(f, (k - 1) as nat).len() {
                    assert(pad_zeros(f, k)[i] == pad_zeros(f, (k - 1) as nat)[i]);
                }
            }
        }
    }
}

pub proof fn lemma_dot_count_prefix(t: Seq<char>, i: int)
    requires
        0 <= i <= t.len(),
    ensures
        dot_count(t.take(i)) <= dot_count(t),
    decreases t.len() - i,
{
    if i < t.len() {
        lemma_dot_count_prefix(t, i + 1);
        assert(t.take(i + 1).drop_last() =~= t.take(i));
    } else {
        assert(t.take(i) =~= t);
    }
}

/// The integer part of `t` (before its dot, if any).
pub open spec fn int_digits(t: Seq<char>) -> Seq<char> {
    t.take(dot_pos(t, 0))
}

/// The fraction digits of `t` (after its dot, if any).
pub open spec fn frac_digits(t: Seq<char>) -> Seq<char> {
    let d = dot_pos(t, 0);
    if d < t.len() {
        t.subrange(d + 1, t.len() as int)
    } else {
        Seq::empty()
    }
}

/// The parts of the number `chars[lo..hi]`: its integer part (when at most
/// `cap`) and its fraction in nanoseconds; `None` where `decimal_text_nanos`
/// refuses the text.
fn decimal_parts(chars: &[char], lo: usize, hi: usize, cap: u64) -> (r: Option<(Option<u64>, u64)>)
    requires
        lo <= hi <= chars@.len(),
    ensures
        match r {
            None => decimal_text_nanos(chars@.subrange(lo as int, hi as int)) is None,
            Some((iv, f)) => {
                let t = chars@.subrange(lo as int, hi as int);
                &&& decimal_text_nanos(t) is Some
                &&& f == nanos_of_fraction(frac_digits(t))
                &&& f < 1_000_000_000
                &&& match iv {
                    Some(v) => v == decimal_value(int_digits(t)) && v <= cap,
                    None => decimal_value(int_digits(t)) > cap,
                }
            },
        },
{
    let ghost t = chars@.subrange(lo as int, hi as int);
    proof {
        lemma_dot_pos_bounds(t, 0);
    }
    // Validity: only digits and dots, at most one dot, at least one digit.
    let mut i = lo;
    let mut dots: usize = 0;
    let mut dot_at: usize = hi;
    while i < hi
        invariant
            lo <= i <= hi <= chars@.len(),
            t == chars@.subrange(lo as int, hi as int),
            0 <= dot_pos(t, 0) <= t.len(),
            forall|m: int| 0 <= m < i - lo ==> is_digit_or_dot(#[trigger] t[m]),
            dots == dot_count(t.take(i - lo)),
            dots <= 1,
            dots == 0 ==> dot_at == hi && dot_pos(t, 0) >= i - lo && (forall|m: int|
                0 <= m < i - lo ==> #[trigger] t[m] != '.'),
            dots == 1 ==> lo <= dot_at < i && dot_pos(t, 0) == dot_at - lo && t[dot_at - lo]
                == '.' && (forall|m: int| 0 <= m < i - lo && m != dot_at - lo ==> #[trigger] t[m]
                != '.'),
        decreases hi - i,
    {
        let c = chars[i];
        assert(t[i - lo] == c);
        assert(t.take(i - lo + 1).drop_last() =~= t.take(i - lo));
        if !(('0' <= c && c <= '9') || c == '.') {
            return None;
        }
        if c == '.' {
            if dots == 1 {
                proof {
                    lemma_dot_count_prefix(t, i - lo + 1);
                }
                return None;
            }
            proof {
                lemma_dot_pos_first(t, 0, i - lo);
            }
            dots = 1;
            dot_at = i;
        } else if dots == 0 {
            proof {
                lemma_dot_pos_skip(t, 0, i - lo);
            }
        }
        i = i + 1;
    }
    assert(t.take(hi - lo) =~= t);
    if dots >= hi - lo {
        return None;
    }
    // Integer part.
    assert forall|m: int| lo <= m < dot_at implies is_digit_or_dot(#[trigger] chars@[m])
        && chars@[m] != '.' by {
        assert(chars@[m] == t[m - lo]);
    }
    assert forall|m: int| 0 <= m < dot_at - lo implies is_ascii_digit(
        #[trigger] chars@.subrange(lo as int, dot_at as int)[m],
    ) by {
        assert(chars@.subrange(lo as int, dot_at as int)[m] == chars@[lo + m]);
    }
    let int_value = digits_value(chars, lo, dot_at, cap);
    proof {
        assert(t.take(dot_at - lo) =~= chars@.subrange(lo as int, dot_at as int));
    }
    // Fraction.
    let (flo, fhi) = if dot_at < hi {
        (dot_at + 1, hi)
    } else {
        (hi, hi)
    };
    assert forall|m: int| flo <= m < fhi implies is_digit_or_dot(#[trigger] chars@[m])
        && chars@[m] != '.' by {
        assert(chars@[m] == t[m - lo]);
    }
    let frac_nanos = fraction_nanos(chars, flo, fhi);
    proof {
        if dot_at < hi {
            assert(t.subrange(dot_at - lo + 1, t.len() as int) =~= chars@.subrange(
                flo as int,
                fhi as int,
            ));
        } else {
            assert(chars@.subrange(flo as int, fhi as int) =~= Seq::<char>::empty());
        }
    }
    Some((int_value, frac_nanos))
}

/// Nanoseconds denoted by `chars[lo..hi]` read as decimal seconds (see
/// `decimal_text_nanos`); `None` for any text that is not digits with at
/// most one dot and at least one digit.
pub fn decimal_text_to_nanos(chars: &[char], lo: usize, hi: usize) -> (r: Option<u64>)
    requires
        lo <= hi <= chars@.len(),
    ensures
        r == decimal_text_nanos(chars@.subrange(lo as int, hi as int)),
{
    match decimal_parts(chars, lo, hi, 18446744073) {
        None => None,
        Some((int_value, frac_nanos)) => match int_value {
            None => Some(u64::MAX),
            Some(v) => {
                let total: u128 = v as u128 * 1_000_000_000 + frac_nanos as u128;
                if total > u64::MAX as u128 {
                    Some(u64::MAX)
                } else {
                    Some(total as u64)
                }
            },
        },
    }
}

pub proof fn lemma_dot_pos_bounds(t: Seq<char>, i: int)
    requires
        0 <= i <= t.len(),
    ensures
        i <= dot_pos(t, i) <= t.len(),
        forall|m: int| i <= m < dot_pos(t, i) ==> #[trigger] t[m] != '.',
    decreases t.len() - i,
{
    if i < t.len() && t[i] != '.' {
        lemma_dot_pos_bounds(t, i + 1);
    }
}

pub proof fn lemma_dot_pos_skip(t: Seq<char>, i: int, j: int)
    requires
        0 <= i <= j < t.len(),
        dot_pos(t, i) >= j,
        t[j] != '.',
    ensures
        dot_pos(t, i) >= j + 1,
    decreases j - i,
{
    lemma_dot_pos_bounds(t, i);
    if i < j {
        lemma_dot_pos_skip(t, i + 1, j);
    } else {
        lemma_dot_pos_bounds(t, i + 1);
    }
}

pub proof fn lemma_dot_pos_first(t: Seq<char>, i: int, j: int)
    requires
        0 <= i <= j < t.len(),
        dot_pos(t, i) >= j,
        t[j] == '.',
    ensures
        dot_pos(t, i) == j,
    decreases j - i,
{
    if i < j {
        lemma_dot_pos_first(t, i + 1, j);
    }
}

/// `nanos_of_fraction` of the ASCII digits `chars[lo..hi]`.
fn fraction_nanos(chars: &[char], lo: usize, hi: usize) -> (r: u64)
    requires
        lo <= hi <= chars@.len(),
        forall|m: int| lo <= m < hi ==> is_digit_or_dot(#[trigger] chars@[m]) && chars@[m] != '.',
    ensures
        r == nanos_of_fraction(chars@.subrange(lo as int, hi as int)),
        r < 1_000_000_000,
{
    let ghost f = chars@.subrange(lo as int, hi as int);
    let n: usize = if hi - lo >= 9 {
        9
    } else {
        hi - lo
    };
    assert forall|m: int| 0 <= m < n implies is_ascii_digit(
        #[trigger] chars@.subrange(lo as int, lo + n)[m],
    ) by {
        assert(chars@.subrange(lo as int, lo + n)[m] == chars@[lo + m]);
    }
    let v = digits_value(chars, lo, lo + n, 999_999_999);
    let mut acc: u64 = match v {
        Some(x) => x,
        None => 0,
    };
    proof {
        lemma_decimal_bound(chars@.subrange(lo as int, lo + n));
        lemma_pow10_le(n as nat, 9);
        assert(pow10(9) == 1_000_000_000) by {
            reveal_with_fuel(pow10, 10);
        }
        assert(v.is_some());
        assert(f.take(n as int) =~= chars@.subrange(lo as int, lo + n));
        assert(pow10(0) == 1);
        assert(acc == decimal_value(f.take(n as int)));
        assert(acc == decimal_value(f.take(n as int)) * pow10(0));
    }
    let mut k: usize = n;
    while k < 9
        invariant
            n <= k <= 9,
            n <= 9,
            n == if f.len() >= 9 { 9 } else { f.len() },
            acc == decimal_value(f.take(n as int)) * pow10((k - n) as nat),
            acc < pow10(k as nat),
        decreases 9 - k,
    {
        assert(pow10((k + 1 - n) as nat) == 10 * pow10((k - n) as nat));
        assert(pow10((k + 1) as nat) == 10 * pow10(k as nat));
        assert(acc * 10 == decimal_value(f.take(n as int)) * pow10((k + 1 - n) as nat))
            by (nonlinear_arith)
            requires
                acc == decimal_value(f.take(n as int)) * pow10((k - n) as nat),
                pow10((k + 1 - n) as nat) == 10 * pow10((k - n) as nat),
        ;
        assert(pow10(k as nat) <= 100_000_000) by {
            lemma_pow10_le(k as nat, 8);
            reveal_with_fuel(pow10, 9);
        }
        acc = acc * 10;
        k = k + 1;
    }
    proof {
        assert(pow10(9) == 1_000_000_000) by {
            reveal_with_fuel(pow10, 10);
        }
        assert(pow10(0) == 1);
        if f.len() < 9 {
            assert(f.take(n as int) =~= f);
            lemma_pad_zeros(f, (9 - f.len()) as nat);
        }
    }
    acc
}

pub proof fn lemma_pow10_le(a: nat, b: nat)
    requires
        a <= b,
    ensures
        pow10(a) <= pow10(b),
    decreases b,
{
    if a < b {
        lemma_pow10_le(a, (b - 1) as nat);
    }
}

/// A string of `n` digits has a value below `10^n`.
pub proof fn lemma_decimal_bound(s: Seq<char>)
    requires
        all_ascii_digits(s),
    ensures
        decimal_value(s) < pow10(s.len()),
    decreases s.len(),
{
    if s.len() > 0 {
        assert forall|i: int| 0 <= i < s.drop_last().len() implies is_ascii_digit(
            #[trigger] s.drop_last()[i],
        ) by {
            assert(s.drop_last()[i] == s[i]);
        }
        lemma_decimal_bound(s.drop_last());
        assert(is_ascii_digit(s[s.len() - 1]));
        assert(decimal_value(s) < pow10(s.len())) by (nonlinear_arith)
            requires
                decimal_value(s) == decimal_value(s.drop_last()) * 10 + digit_value(s.last()),
                decimal_value(s.drop_last()) < pow10(s.drop_last().len()),
                digit_value(s.last()) <= 9,
                pow10(s.len()) == 10 * pow10(s.drop_last().len()),
        ;
    }
}

} // verus!

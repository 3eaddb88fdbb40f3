//! Vocabulary and text formatting of the real-time monitor: metric kinds,
//! alert levels, display settings, durations and fixed-width columns.
use vstd::prelude::*;
use crate::text::{chars_of, push_char, string_from_chars, string_from_range};

verus! {

broadcast use vstd::string::group_string_axioms;

/// Metrics that the real-time analyser follows.
#[derive(Debug, Clone, Copy, PartialEq, Eq, Structural)]
pub enum MetricType {
    EntriesPerSecond,
    AverageLatency,
    MaxLatency,
    BlockRatio,
    UFSRatio,
    UFSCustomRatio,
    TotalEntries,
}

/// How an alert rule compares a metric with its threshold.
#[derive(Debug, Clone, Copy, PartialEq, Eq, Structural)]
pub enum ComparisonType {
    GreaterThan,
    LessThan,
    Equal,
}

/// Severity of an alert.
#[derive(Debug, Clone, Copy, PartialEq, Eq, Structural)]
pub enum AlertSeverity {
    Info,
    Warning,
    Critical,
}

/// Direction of a metric's trend.
#[derive(Debug, Clone, Copy, PartialEq, Eq, Structural)]
pub enum TrendDirection {
    Increasing,
    Decreasing,
    Stable,
}

/// Events of a followed log file.
#[derive(Debug, Clone)]
pub enum LogEvent {
    NewLine(String),
    FileRotated,
    Error(String),
    Shutdown,
}

pub open spec fn metric_type_label(m: MetricType) -> Seq<char> {
    match m {
        MetricType::EntriesPerSecond => "Entries/Second"@,
        MetricType::AverageLatency => "Average Latency"@,
        MetricType::MaxLatency => "Max Latency"@,
        MetricType::BlockRatio => "Block Ratio"@,
        MetricType::UFSRatio => "UFS Ratio"@,
        MetricType::UFSCustomRatio => "UFS Custom Ratio"@,
        MetricType::TotalEntries => "Total Entries"@,
    }
}

/// English label of a metric, as alerts print it.
pub fn format_metric_type(metric: &MetricType) -> (r: &'static str)
    ensures
        r@ == metric_type_label(*metric),
{
    match metric {
        MetricType::EntriesPerSecond => "Entries/Second",
        MetricType::AverageLatency => "Average Latency",
        MetricType::MaxLatency => "Max Latency",
        MetricType::BlockRatio => "Block Ratio",
        MetricType::UFSRatio => "UFS Ratio",
        MetricType::UFSCustomRatio => "UFS Custom Ratio",
        MetricType::TotalEntries => "Total Entries",
    }
}

pub open spec fn metric_name_label(m: MetricType) -> Seq<char> {
    match m {
        MetricType::EntriesPerSecond => "처리율"@,
        MetricType::AverageLatency => "평균 레이턴시"@,
        MetricType::MaxLatency => "최대 레이턴시"@,
        MetricType::BlockRatio => "Block 비율"@,
        MetricType::UFSRatio => "UFS 비율"@,
        MetricType::UFSCustomRatio => "UFS Custom 비율"@,
        MetricType::TotalEntries => "총 엔트리"@,
    }
}

/// Korean label of a metric, as the dashboard prints it.
pub fn format_metric_name(metric: &MetricType) -> (r: &'static str)
    ensures
        r@ == metric_name_label(*metric),
{
    match metric {
        MetricType::EntriesPerSecond => "처리율",
        MetricType::AverageLatency => "평균 레이턴시",
        MetricType::MaxLatency => "최대 레이턴시",
        MetricType::BlockRatio => "Block 비율",
        MetricType::UFSRatio => "UFS 비율",
        MetricType::UFSCustomRatio => "UFS Custom 비율",
        MetricType::TotalEntries => "총 엔트리",
    }
}

/// What the dashboard shows, and how often it redraws.
#[derive(Debug, Clone)]
pub struct DisplayConfig {
    pub show_stats: bool,
    pub show_alerts: bool,
    pub show_trends: bool,
    pub show_anomalies: bool,
    pub show_recent_entries: bool,
    pub max_recent_entries: usize,
    /// Redraw period, milliseconds.
    pub refresh_rate: u64,
    pub compact_mode: bool,
}

impl Default for DisplayConfig {
    /// Everything shown, ten recent entries, one redraw per second.
    fn default() -> (r: Self)
        ensures
            r.show_stats && r.show_alerts && r.show_trends && r.show_anomalies
                && r.show_recent_entries,
            r.max_recent_entries == 10,
            r.refresh_rate == 1000,
            !r.compact_mode,
    {
        DisplayConfig {
            show_stats: true,
            show_alerts: true,
            show_trends: true,
            show_anomalies: true,
            show_recent_entries: true,
            max_recent_entries: 10,
            refresh_rate: 1000,
            compact_mode: false,
        }
    }
}

impl DisplayConfig {
    /// Statistics and alerts only, five recent entries, two redraws per second.
    pub fn compact() -> (r: Self)
        ensures
            r.show_stats && r.show_alerts,
            !r.show_trends && !r.show_anomalies && !r.show_recent_entries,
            r.max_recent_entries == 5,
            r.refresh_rate == 500,
            r.compact_mode,
    {
        DisplayConfig {
            show_stats: true,
            show_alerts: true,
            show_trends: false,
            show_anomalies: false,
            show_recent_entries: false,
            max_recent_entries: 5,
            refresh_rate: 500,
            compact_mode: true,
        }
    }

    /// Everything shown, twenty recent entries, two redraws per second.
    pub fn detailed() -> (r: Self)
        ensures
            r.show_stats && r.show_alerts && r.show_trends && r.show_anomalies
                && r.show_recent_entries,
            r.max_recent_entries == 20,
            r.refresh_rate == 500,
            !r.compact_mode,
    {
        DisplayConfig {
            show_stats: true,
            show_alerts: true,
            show_trends: true,
            show_anomalies: true,
            show_recent_entries: true,
            max_recent_entries: 20,
            refresh_rate: 500,
            compact_mode: false,
        }
    }
}

/// The decimal digit character of `d < 10`.
pub open spec fn digit_char(d: nat) -> char {
    (48 + d) as char
}

/// The decimal representation of `n`, without leading zeros.
pub open spec fn dec_digits(n: nat) -> Seq<char>
    decreases n,
{
    if n < 10 {
        seq![digit_char(n)]
    } else {
        dec_digits(n / 10).push(digit_char(n % 10))
    }
}

/// `{:02}`: at least two digits, zero-padded.
pub open spec fn pad2(n: nat) -> Seq<char> {
    if n < 10 {
        seq!['0'] + dec_digits(n)
    } else {
        dec_digits(n)
    }
}

/// `HH:MM:SS` when there is at least one hour, else `MM:SS`.
pub open spec fn duration_text(secs: nat) -> Seq<char> {
    let hours = secs / 3600;
    let minutes = (secs % 3600) / 60;
    let seconds = secs % 60;
    if hours > 0 {
        pad2(hours) + seq![':'] + pad2(minutes) + seq![':'] + pad2(seconds)
    } else {
        pad2(minutes) + seq![':'] + pad2(seconds)
    }
}

pub(crate) fn digit_of(d: u64) -> (c: char)
    requires
        d < 10,
    ensures
        c == digit_char(d as nat),
{
    let b: u8 = 48 + d as u8;
    b as char
}

/// Appends the decimal digits of `n`.
pub fn push_decimal(s: &mut String, n: u64)
    ensures
        final(s)@ == old(s)@ + dec_digits(n as nat),
    decreases n,
{
    if n >= 10 {
        push_decimal(s, n / 10);
    }
    let c = digit_of(n % 10);
    push_char(s, c);
    proof {
        if n >= 10 {
            assert(old(s)@ + dec_digits(n as nat) =~= old(s)@ + dec_digits((n / 10) as nat) + seq![c]);
        } else {
            assert(old(s)@ + dec_digits(n as nat) =~= old(s)@.push(c));
        }
    }
}

fn push_pad2(s: &mut String, n: u64)
    ensures
        final(s)@ == old(s)@ + pad2(n as nat),
{
    if n < 10 {
        push_char(s, '0');
    }
    push_decimal(s, n);
    proof {
        if n < 10 {
            assert(old(s)@ + pad2(n as nat) =~= old(s)@.push('0') + dec_digits(n as nat));
        }
    }
}

/// A duration of `secs` seconds as `MM:SS`, or `HH:MM:SS` from one hour on.
pub fn format_duration(secs: u64) -> (r: String)
    ensures
        r@ == duration_text(secs as nat),
{
    let hours = secs / 3600;
    let minutes = (secs % 3600) / 60;
    let seconds = secs % 60;
    let mut s = String::new();
    if hours > 0 {
        push_pad2(&mut s, hours);
        push_char(&mut s, ':');
    }
    push_pad2(&mut s, minutes);
    push_char(&mut s, ':');
    push_pad2(&mut s, seconds);
    proof {
        if hours > 0 {
            assert(s@ =~= duration_text(secs as nat));
        } else {
            assert(s@ =~= duration_text(secs as nat));
        }
    }
    s
}

/// Bytes of the UTF-8 encoding of one character.
pub open spec fn char_width(c: char) -> nat {
    let u = c as u32;
    if u < 0x80 {
        1
    } else if u < 0x800 {
        2
    } else if u < 0x10000 {
        3
    } else {
        4
    }
}

/// Bytes of the UTF-8 encoding of a character sequence (`str::len`).
pub open spec fn utf8_len(s: Seq<char>) -> nat
    decreases s.len(),
{
    if s.len() == 0 {
        0
    } else {
        utf8_len(s.drop_last()) + char_width(s.last())
    }
}

/// Byte offset `k` falls between two characters of `s`.
pub open spec fn is_byte_boundary(s: Seq<char>, k: nat) -> bool {
    exists|n: int| 0 <= n <= s.len() && utf8_len(#[trigger] s.take(n)) == k
}

/// The characters of `s` in its first `k` bytes.
pub open spec fn byte_prefix(s: Seq<char>, k: nat) -> Seq<char> {
    s.take(choose|n: int| 0 <= n <= s.len() && utf8_len(#[trigger] s.take(n)) == k)
}

/// `t` padded on the right with spaces to `width` characters (`{:<width$}`).
pub open spec fn pad_right(t: Seq<char>, width: nat) -> Seq<char> {
    if t.len() >= width {
        t
    } else {
        t + Seq::new((width - t.len()) as nat, |i: int| ' ')
    }
}

/// A column of `max_len` characters: the string padded with spaces when its
/// byte length fits, else its first `max_len - 3` bytes (saturating) and `...`.
pub open spec fn truncated_text(s: Seq<char>, max_len: nat) -> Seq<char> {
    if utf8_len(s) <= max_len {
        pad_right(s, max_len)
    } else {
        let k: nat = if max_len >= 3 {
            (max_len - 3) as nat
        } else {
            0
        };
        pad_right(byte_prefix(s, k) + "..."@, max_len)
    }
}

proof fn lemma_utf8_len_take_grows(s: Seq<char>, a: int, b: int)
    requires
        0 <= a < b <= s.len(),
    ensures
        utf8_len(s.take(a)) < utf8_len(s.take(b)),
    decreases b - a,
{
    assert(s.take(b).drop_last() =~= s.take(b - 1));
    if a < b - 1 {
        lemma_utf8_len_take_grows(s, a, b - 1);
    }
}

fn char_width_exec(c: char) -> (w: usize)
    ensures
        w == char_width(c),
{
    let u = c as u32;
    if u < 0x80 {
        1
    } else if u < 0x800 {
        2
    } else if u < 0x10000 {
        3
    } else {
        4
    }
}

fn append_padding(s: &mut String, cur: usize, width: usize)
    requires
        cur == old(s)@.len(),
    ensures
        final(s)@ == pad_right(old(s)@, width as nat),
{
    let ghost start = s@;
    let mut n: usize = cur;
    if cur >= width {
        return;
    }
    proof {
        assert(s@.len() < width);
    }
    while n < width
        invariant
            start.len() <= n <= width,
            start.len() < width,
            s@ == start + Seq::new((n - start.len()) as nat, |i: int| ' '),
        decreases width - n,
    {
        push_char(s, ' ');
        proof {
            assert(s@ =~= start + Seq::new((n + 1 - start.len()) as nat, |i: int| ' '));
        }
        n = n + 1;
    }
}

fn utf8_len_exec(chars: &[char]) -> (n: usize)
    requires
        utf8_len(chars@) <= usize::MAX,
    ensures
        n == utf8_len(chars@),
{
    let mut n: usize = 0;
    let mut i: usize = 0;
    while i < chars.len()
        invariant
            0 <= i <= chars@.len(),
            utf8_len(chars@) <= usize::MAX,
            n == utf8_len(chars@.take(i as int)),
        decreases chars@.len() - i,
    {
        assert(chars@.take(i + 1).drop_last() =~= chars@.take(i as int));
        proof {
            lemma_utf8_len_take_le(chars@, i + 1);
        }
        n = n + char_width_exec(chars[i]);
        i = i + 1;
    }
    assert(chars@.take(i as int) =~= chars@);
    n
}

proof fn lemma_utf8_len_ge_len(s: Seq<char>)
    ensures
        utf8_len(s) >= s.len(),
    decreases s.len(),
{
    if s.len() > 0 {
        lemma_utf8_len_ge_len(s.drop_last());
    }
}

proof fn lemma_utf8_len_take_le(s: Seq<char>, a: int)
    requires
        0 <= a <= s.len(),
    ensures
        utf8_len(s.take(a)) <= utf8_len(s),
{
    if a < s.len() {
        lemma_utf8_len_take_grows(s, a, s.len() as int);
    }
    assert(s.take(s.len() as int) =~= s);
}

/// Fits a string into a column of `max_len` characters (see `truncated_text`).
/// The cut falls between two characters.
pub fn truncate_string(s: &str, max_len: usize) -> (r: String)
    requires
        utf8_len(s@) <= usize::MAX,
        utf8_len(s@) > max_len ==> is_byte_boundary(
            s@,
            if max_len >= 3 {
                (max_len - 3) as nat
            } else {
                0
            },
        ),
    ensures
        r@ == truncated_text(s@, max_len as nat),
{
    let chars = chars_of(s);
    let total = utf8_len_exec(chars.as_slice());
    if total <= max_len {
        let mut out = string_from_chars(chars.as_slice());
        append_padding(&mut out, chars.len(), max_len);
        return out;
    }
    let k: usize = if max_len >= 3 {
        max_len - 3
    } else {
        0
    };
    let ghost t = chars@;
    let mut i: usize = 0;
    let mut bytes: usize = 0;
    while bytes < k
        invariant
            t == chars@,
            t == s@,
            utf8_len(t) == total,
            total > max_len,
            k <= max_len,
            0 <= i <= t.len(),
            bytes == utf8_len(t.take(i as int)),
            forall|j: int| 0 <= j < i ==> utf8_len(#[trigger] t.take(j)) < k,
        decreases t.len() - i,
    {
        if i == chars.len() {
            assert(t.take(i as int) =~= t);
        }
        assert(t.take(i + 1).drop_last() =~= t.take(i as int));
        proof {
            lemma_utf8_len_take_le(t, i + 1);
        }
        let w = char_width_exec(chars[i]);
        assert(w >= 1);
        bytes = bytes + w;
        i = i + 1;
    }
    proof {
        lemma_utf8_len_ge_len(t.take(i as int));
        let n = choose|n: int| 0 <= n <= t.len() && utf8_len(#[trigger] t.take(n)) == k;
        if n < i {
            assert(utf8_len(t.take(n)) < k);
        }
        if n > i {
            lemma_utf8_len_take_grows(t, i as int, n);
        }
        assert(n == i);
        assert(byte_prefix(s@, k as nat) == t.take(i as int));
    }
    let mut out = string_from_range(chars.as_slice(), 0, i);
    push_char(&mut out, '.');
    push_char(&mut out, '.');
    push_char(&mut out, '.');
    proof {
        reveal_strlit("...");
        assert(out@ =~= t.take(i as int) + "..."@);
    }
    append_padding(&mut out, i + 3, max_len);
    out
}

} // verus!

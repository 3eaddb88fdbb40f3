//! Entries of a followed trace log, as the real-time monitor reads them:
//! the words of an ftrace line give the process id, the CPU, the time
//! stamp and the message; the event names give the level and the kind.
use vstd::prelude::*;
use crate::models::seq_eq_str;
use crate::text::{
    chars_of, contains_exec, contains_seq, is_ws, is_ws_exec, parse_unsigned, parse_unsigned_exec,
    push_char, string_from_range, to_lowercase, unicode_lowercase,
};

verus! {

broadcast use vstd::string::group_string_axioms;

/// One entry of a followed log.
#[derive(Debug, Clone)]
pub struct ParsedLogEntry {
    pub timestamp: String,
    pub level: String,
    pub process_id: u32,
    pub thread_id: u32,
    pub message: String,
    pub file_name: Option<String>,
    pub line_number: Option<u32>,
    /// Latency, nanoseconds.
    pub latency: Option<u64>,
    pub trace_type: String,
}

impl ParsedLogEntry {
    /// An entry with no file, line or latency, of unknown kind.
    pub fn new(timestamp: String, level: String, process_id: u32, thread_id: u32, message: String) -> (e: Self)
        ensures
            e.timestamp@ == timestamp@,
            e.level@ == level@,
            e.process_id == process_id,
            e.thread_id == thread_id,
            e.message@ == message@,
            e.file_name is None,
            e.line_number is None,
            e.latency is None,
            e.trace_type@ == "Unknown"@,
    {
        let mut t = String::new();
        crate::text::push_text(&mut t, "Unknown");
        assert(t@ =~= "Unknown"@);
        ParsedLogEntry {
            timestamp,
            level,
            process_id,
            thread_id,
            message,
            file_name: None,
            line_number: None,
            latency: None,
            trace_type: t,
        }
    }
}

// ---------------------------------------------------------------------------
// Words of a line
// ---------------------------------------------------------------------------

/// The finished words and the word being read after the characters of `s`.
pub open spec fn ws_split(s: Seq<char>) -> (Seq<Seq<char>>, Seq<char>)
    decreases s.len(),
{
    if s.len() == 0 {
        (Seq::empty(), Seq::empty())
    } else {
        let (ws, cur) = ws_split(s.drop_last());
        if is_ws(s.last()) {
            if cur.len() > 0 {
                (ws.push(cur), Seq::empty())
            } else {
                (ws, Seq::empty())
            }
        } else {
            (ws, cur.push(s.last()))
        }
    }
}

/// `str::split_whitespace`: the maximal runs of characters other than
/// white space.
pub open spec fn words(s: Seq<char>) -> Seq<Seq<char>> {
    let (ws, cur) = ws_split(s);
    if cur.len() > 0 {
        ws.push(cur)
    } else {
        ws
    }
}

pub open spec fn strings_of(v: Seq<String>) -> Seq<Seq<char>> {
    Seq::new(v.len(), |i: int| v[i]@)
}

fn split_words(chars: &[char]) -> (r: Vec<String>)
    ensures
        strings_of(r@) == words(chars@),
{
    let mut done: Vec<String> = Vec::new();
    let mut start: usize = 0;
    let mut i: usize = 0;
    while i < chars.len()
        invariant
            0 <= start <= i <= chars@.len(),
            strings_of(done@) == ws_split(chars@.take(i as int)).0,
            chars@.subrange(start as int, i as int) == ws_split(chars@.take(i as int)).1,
        decreases chars@.len() - i,
    {
        proof {
            assert(chars@.take(i + 1).drop_last() =~= chars@.take(i as int));
            assert(chars@.take(i + 1).last() == chars@[i as int]);
        }
        if is_ws_exec(chars[i]) {
            if start < i {
                let w = string_from_range(chars, start, i);
                let ghost before = strings_of(done@);
                done.push(w);
                assert(strings_of(done@) =~= before.push(w@));
            }
            start = i + 1;
            assert(chars@.subrange(start as int, i + 1) =~= Seq::<char>::empty());
        } else {
            assert(chars@.subrange(start as int, i + 1) =~= chars@.subrange(start as int, i as int).push(
                chars@[i as int],
            ));
        }
        i = i + 1;
    }
    assert(chars@.take(chars@.len() as int) =~= chars@);
    if start < chars.len() {
        let w = string_from_range(chars, start, chars.len());
        let ghost before = strings_of(done@);
        done.push(w);
        assert(strings_of(done@) =~= before.push(w@));
    }
    done
}

/// The words from `k` on, joined by single spaces.
pub open spec fn join_from(ws: Seq<Seq<char>>, k: int) -> Seq<char>
    decreases ws.len() - k,
{
    if k >= ws.len() {
        Seq::empty()
    } else if k + 1 == ws.len() {
        ws[k]
    } else {
        ws[k] + seq![' '] + join_from(ws, k + 1)
    }
}

fn join_words(ws: &Vec<String>, k: usize) -> (r: String)
    ensures
        r@ == join_from(strings_of(ws@), k as int),
    decreases ws@.len() - k,
{
    if k >= ws.len() {
        return String::new();
    }
    let mut r = String::new();
    crate::text::push_text(&mut r, ws[k].as_str());
    if k + 1 < ws.len() {
        push_char(&mut r, ' ');
        let rest = join_words(ws, k + 1);
        crate::text::push_text(&mut r, rest.as_str());
        assert(r@ =~= ws@[k as int]@ + seq![' '] + join_from(strings_of(ws@), k + 1));
    } else {
        assert(r@ =~= ws@[k as int]@);
    }
    r
}

// ---------------------------------------------------------------------------
// Entries
// ---------------------------------------------------------------------------

/// The position of the last `-` in `w`, if any.
pub open spec fn last_dash(w: Seq<char>) -> Option<int>
    decreases w.len(),
{
    if w.len() == 0 {
        None
    } else if w.last() == '-' {
        Some(w.len() - 1)
    } else {
        last_dash(w.drop_last())
    }
}

proof fn lemma_last_dash_range(w: Seq<char>)
    ensures
        match last_dash(w) {
            Some(p) => 0 <= p < w.len() && w[p] == '-',
            None => true,
        },
    decreases w.len(),
{
    if w.len() > 0 && w.last() != '-' {
        lemma_last_dash_range(w.drop_last());
        assert(w.drop_last().len() < w.len());
    }
}

/// `text.parse::<u32>().unwrap_or(0)`.
pub open spec fn u32_or_zero(t: Seq<char>) -> u32 {
    match parse_unsigned(t, u32::MAX as nat) {
        Some(v) => v as u32,
        None => 0,
    }
}

/// The process id: the number after the last `-` of the first word.
pub open spec fn pid_of(w: Seq<char>) -> u32 {
    match last_dash(w) {
        Some(p) => u32_or_zero(w.subrange(p + 1, w.len() as int)),
        None => 0,
    }
}

/// The CPU number of a word such as `[003]`.
pub open spec fn cpu_of(w: Seq<char>) -> u32 {
    if w.len() > 0 && w[0] == '[' && w.last() == ']' && w.len() >= 2 {
        u32_or_zero(w.subrange(1, w.len() - 1))
    } else {
        0
    }
}

pub open spec fn level_of(line: Seq<char>) -> Seq<char> {
    if contains_seq(line, "ufshcd_command"@) {
        "UFS"@
    } else if contains_seq(line, "block_rq"@) {
        "BLOCK"@
    } else {
        "INFO"@
    }
}

pub open spec fn kind_of(line: Seq<char>) -> Seq<char> {
    if contains_seq(line, "ufshcd_command"@) {
        "UFS"@
    } else if contains_seq(line, "block_rq"@) {
        "Block"@
    } else {
        "Other"@
    }
}

/// The entry of a line of at least four words: time stamp from the fourth
/// word, message from the fifth on.
pub open spec fn entry_ok(e: ParsedLogEntry, line: Seq<char>) -> bool {
    let ws = words(line);
    &&& e.timestamp@ == ws[3]
    &&& e.level@ == level_of(line)
    &&& e.process_id == pid_of(ws[0])
    &&& e.thread_id == cpu_of(ws[1])
    &&& e.message@ == join_from(ws, 4)
    &&& e.file_name is None
    &&& e.line_number is None
    &&& e.latency is None
    &&& e.trace_type@ == kind_of(line)
}

fn u32_or_zero_exec(chars: &[char], lo: usize, hi: usize) -> (v: u32)
    requires
        lo <= hi <= chars@.len(),
    ensures
        v == u32_or_zero(chars@.subrange(lo as int, hi as int)),
{
    match parse_unsigned_exec(chars, lo, hi, 0xffff_ffff) {
        Some(v) => v as u32,
        None => 0,
    }
}

fn pid_exec(w: &str) -> (v: u32)
    ensures
        v == pid_of(w@),
{
    let cs = chars_of(w);
    let mut k: usize = cs.len();
    assert(cs@.take(cs@.len() as int) =~= cs@);
    while k > 0 && cs[k - 1] != '-'
        invariant
            0 <= k <= cs@.len(),
            last_dash(cs@) == last_dash(cs@.take(k as int)),
        decreases k,
    {
        assert(cs@.take(k as int).drop_last() =~= cs@.take(k - 1));
        k = k - 1;
    }
    assert(cs@.take(cs@.len() as int) =~= cs@);
    if k == 0 {
        assert(cs@.take(0) =~= Seq::<char>::empty());
        0
    } else {
        assert(cs@.take(k as int).last() == '-');
        u32_or_zero_exec(cs.as_slice(), k, cs.len())
    }
}

fn cpu_exec(w: &str) -> (v: u32)
    ensures
        v == cpu_of(w@),
{
    let cs = chars_of(w);
    let n = cs.len();
    if n > 0 && cs[0] == '[' && cs[n - 1] == ']' && n >= 2 {
        u32_or_zero_exec(cs.as_slice(), 1, n - 1)
    } else {
        0
    }
}

fn holds(line: &[char], w: &str) -> (b: bool)
    ensures
        b == contains_seq(line@, w@),
{
    let n = chars_of(w);
    contains_exec(line, n.as_slice())
}

/// Reads an ftrace line as a log entry; `None` for a blank line or one of
/// fewer than four words.
pub fn parse_log_entry(line: &str) -> (r: Option<ParsedLogEntry>)
    ensures
        match r {
            Some(e) => words(line@).len() >= 4 && entry_ok(e, line@),
            None => words(line@).len() < 4,
        },
{
    let cs = chars_of(line);
    let parts = split_words(cs.as_slice());
    if parts.len() < 4 {
        return None;
    }
    let ghost ws = words(line@);
    assert(ws[0] == parts@[0]@ && ws[1] == parts@[1]@ && ws[3] == parts@[3]@);
    let process_id = pid_exec(parts[0].as_str());
    let thread_id = cpu_exec(parts[1].as_str());
    let timestamp = parts[3].clone();
    let ufs = holds(cs.as_slice(), "ufshcd_command");
    let blk = holds(cs.as_slice(), "block_rq");
    let mut level = String::new();
    let mut kind = String::new();
    if ufs {
        crate::text::push_text(&mut level, "UFS");
        crate::text::push_text(&mut kind, "UFS");
    } else if blk {
        crate::text::push_text(&mut level, "BLOCK");
        crate::text::push_text(&mut kind, "Block");
    } else {
        crate::text::push_text(&mut level, "INFO");
        crate::text::push_text(&mut kind, "Other");
    }
    assert(level@ =~= level_of(line@));
    assert(kind@ =~= kind_of(line@));
    let message = join_words(&parts, 4);
    let mut e = ParsedLogEntry::new(timestamp, level, process_id, thread_id, message);
    e.trace_type = kind;
    Some(e)
}

// ---------------------------------------------------------------------------
// Counts by level
// ---------------------------------------------------------------------------

/// Entries counted by their level.
#[derive(Debug, Clone, Copy, PartialEq, Eq, Structural)]
pub struct LevelCounts {
    pub total_entries: u64,
    pub error_count: u64,
    pub warning_count: u64,
    pub info_count: u64,
    pub debug_count: u64,
    pub trace_count: u64,
}

/// Which counter a level (lower-cased) adds to: 0 error, 1 warning, 2 info,
/// 3 debug, 4 trace, 5 none.
pub open spec fn level_slot(lower: Seq<char>) -> int {
    if lower == "error"@ {
        0
    } else if lower == "warning"@ || lower == "warn"@ {
        1
    } else if lower == "info"@ {
        2
    } else if lower == "debug"@ {
        3
    } else if lower == "trace"@ {
        4
    } else {
        5
    }
}

impl LevelCounts {
    pub open spec fn new_spec() -> LevelCounts {
        LevelCounts {
            total_entries: 0,
            error_count: 0,
            warning_count: 0,
            info_count: 0,
            debug_count: 0,
            trace_count: 0,
        }
    }

    /// The counts after one more entry of the (lower-cased) level.
    pub open spec fn after(self, lower: Seq<char>) -> LevelCounts {
        let k = level_slot(lower);
        LevelCounts {
            total_entries: (self.total_entries + 1) as u64,
            error_count: (self.error_count + if k == 0 { 1int } else { 0int }) as u64,
            warning_count: (self.warning_count + if k == 1 { 1int } else { 0int }) as u64,
            info_count: (self.info_count + if k == 2 { 1int } else { 0int }) as u64,
            debug_count: (self.debug_count + if k == 3 { 1int } else { 0int }) as u64,
            trace_count: (self.trace_count + if k == 4 { 1int } else { 0int }) as u64,
        }
    }

    pub fn new() -> (c: Self)
        ensures
            c == Self::new_spec(),
    {
        LevelCounts {
            total_entries: 0,
            error_count: 0,
            warning_count: 0,
            info_count: 0,
            debug_count: 0,
            trace_count: 0,
        }
    }

    /// Counts one entry of the given level (compared case-insensitively).
    pub fn add_entry(&mut self, level: &str)
        requires
            old(self).total_entries < u64::MAX,
            old(self).error_count < u64::MAX,
            old(self).warning_count < u64::MAX,
            old(self).info_count < u64::MAX,
            old(self).debug_count < u64::MAX,
            old(self).trace_count < u64::MAX,
        ensures
            final(self).total_entries == old(self).total_entries + 1,
            final(self).error_count == old(self).error_count + if level_slot(unicode_lowercase(level@)) == 0 { 1int } else { 0int },
            final(self).warning_count == old(self).warning_count + if level_slot(unicode_lowercase(level@)) == 1 { 1int } else { 0int },
            final(self).info_count == old(self).info_count + if level_slot(unicode_lowercase(level@)) == 2 { 1int } else { 0int },
            final(self).debug_count == old(self).debug_count + if level_slot(unicode_lowercase(level@)) == 3 { 1int } else { 0int },
            final(self).trace_count == old(self).trace_count + if level_slot(unicode_lowercase(level@)) == 4 { 1int } else { 0int },
    {
        self.total_entries = self.total_entries + 1;
        let lower = to_lowercase(level);
        let l = lower.as_str();
        if seq_eq_str(l, "error") {
            self.error_count = self.error_count + 1;
        } else if seq_eq_str(l, "warning") || seq_eq_str(l, "warn") {
            self.warning_count = self.warning_count + 1;
        } else if seq_eq_str(l, "info") {
            self.info_count = self.info_count + 1;
        } else if seq_eq_str(l, "debug") {
            self.debug_count = self.debug_count + 1;
        } else if seq_eq_str(l, "trace") {
            self.trace_count = self.trace_count + 1;
        }
    }
}

// ---------------------------------------------------------------------------
// The monitor
// ---------------------------------------------------------------------------

/// Entries kept for display.
pub const RECENT_ENTRIES: usize = 100;

#[verifier::ext_equal]
pub struct EntryView {
    pub timestamp: Seq<char>,
    pub level: Seq<char>,
    pub process_id: u32,
    pub thread_id: u32,
    pub message: Seq<char>,
    pub file_name: Option<Seq<char>>,
    pub line_number: Option<u32>,
    pub latency: Option<u64>,
    pub trace_type: Seq<char>,
}

pub open spec fn opt_text(o: Option<String>) -> Option<Seq<char>> {
    match o {
        Some(s) => Some(s@),
        None => None,
    }
}

impl View for ParsedLogEntry {
    type V = EntryView;

    open spec fn view(&self) -> EntryView {
        EntryView {
            timestamp: self.timestamp@,
            level: self.level@,
            process_id: self.process_id,
            thread_id: self.thread_id,
            message: self.message@,
            file_name: opt_text(self.file_name),
            line_number: self.line_number,
            latency: self.latency,
            trace_type: self.trace_type@,
        }
    }
}

fn copy_entry(e: &ParsedLogEntry) -> (r: ParsedLogEntry)
    ensures
        r@ == e@,
{
    let file_name = match &e.file_name {
        Some(f) => Some(f.clone()),
        None => None,
    };
    ParsedLogEntry {
        timestamp: e.timestamp.clone(),
        level: e.level.clone(),
        process_id: e.process_id,
        thread_id: e.thread_id,
        message: e.message.clone(),
        file_name,
        line_number: e.line_number,
        latency: e.latency,
        trace_type: e.trace_type.clone(),
    }
}

pub open spec fn entries_view(v: Seq<ParsedLogEntry>) -> Seq<EntryView> {
    Seq::new(v.len(), |i: int| v[i]@)
}

/// The last `RECENT_ENTRIES` of a sequence of entries.
pub open spec fn keep_recent(s: Seq<EntryView>) -> Seq<EntryView> {
    if s.len() > RECENT_ENTRIES {
        s.subrange(s.len() - RECENT_ENTRIES, s.len() as int)
    } else {
        s
    }
}

/// The bookkeeping of a followed log: entries by level, the processes and
/// threads seen, the extremes of the latencies and the recent entries.
pub struct LogMonitor {
    pub counts: LevelCounts,
    /// The process ids seen, each once.
    pub processes: Vec<u32>,
    /// The thread (CPU) ids seen, each once.
    pub threads: Vec<u32>,
    /// Largest latency seen, nanoseconds (0 before any).
    pub max_latency: u64,
    /// Smallest nonzero latency seen, nanoseconds (0 before any).
    pub min_latency: u64,
    /// The most recent entries, oldest first.
    pub recent: Vec<ParsedLogEntry>,
}

impl LogMonitor {
    /// The process ids seen.
    pub closed spec fn seen_processes(&self) -> Set<u32> {
        self.processes@.to_set()
    }

    /// The thread (CPU) ids seen.
    pub closed spec fn seen_threads(&self) -> Set<u32> {
        self.threads@.to_set()
    }

    /// The most recent entries, oldest first.
    pub closed spec fn recent_entries(&self) -> Seq<EntryView> {
        entries_view(self.recent@)
    }

    pub closed spec fn wf(&self) -> bool {
        &&& self.processes@.no_duplicates()
        &&& self.threads@.no_duplicates()
        &&& self.recent@.len() <= RECENT_ENTRIES
    }

    pub fn new() -> (m: Self)
        ensures
            m.wf(),
            m.counts == LevelCounts::new_spec(),
            m.seen_processes() == Set::<u32>::empty(),
            m.seen_threads() == Set::<u32>::empty(),
            m.max_latency == 0,
            m.min_latency == 0,
            m.recent_entries() == Seq::<EntryView>::empty(),
    {
        let m = LogMonitor {
            counts: LevelCounts::new(),
            processes: Vec::new(),
            threads: Vec::new(),
            max_latency: 0,
            min_latency: 0,
            recent: Vec::new(),
        };
        assert(m.seen_processes() =~= Set::<u32>::empty());
        assert(m.seen_threads() =~= Set::<u32>::empty());
        assert(m.recent_entries() =~= Seq::<EntryView>::empty());
        m
    }

    /// How many distinct processes were seen.
    pub fn unique_processes(&self) -> (n: u64)
        requires
            self.wf(),
        ensures
            n == self.seen_processes().len(),
    {
        proof {
            self.processes@.unique_seq_to_set();
        }
        self.processes.len() as u64
    }

    /// How many distinct threads were seen.
    pub fn unique_threads(&self) -> (n: u64)
        requires
            self.wf(),
        ensures
            n == self.seen_threads().len(),
    {
        proof {
            self.threads@.unique_seq_to_set();
        }
        self.threads.len() as u64
    }

    /// The recent entries, oldest first.
    pub fn get_recent_entries(&self) -> (r: Vec<ParsedLogEntry>)
        ensures
            entries_view(r@) == self.recent_entries(),
    {
        let mut r: Vec<ParsedLogEntry> = Vec::new();
        let mut i: usize = 0;
        while i < self.recent.len()
            invariant
                0 <= i <= self.recent@.len(),
                entries_view(r@) == entries_view(self.recent@).take(i as int),
            decreases self.recent@.len() - i,
        {
            let e = copy_entry(&self.recent[i]);
            let ghost before = entries_view(r@);
            let ghost ev = e@;
            r.push(e);
            assert(entries_view(r@) =~= before.push(ev));
            assert(entries_view(r@) =~= entries_view(self.recent@).take(i + 1));
            i = i + 1;
        }
        assert(entries_view(self.recent@).take(self.recent@.len() as int) =~= entries_view(self.recent@));
        r
    }

    /// Takes one entry into account.
    pub fn process_entry(&mut self, entry: &ParsedLogEntry)
        requires
            old(self).wf(),
            old(self).counts.total_entries < u64::MAX,
            old(self).counts.error_count < u64::MAX,
            old(self).counts.warning_count < u64::MAX,
            old(self).counts.info_count < u64::MAX,
            old(self).counts.debug_count < u64::MAX,
            old(self).counts.trace_count < u64::MAX,
        ensures
            final(self).wf(),
            final(self).counts == old(self).counts.after(unicode_lowercase(entry.level@)),
            final(self).seen_processes() == old(self).seen_processes().insert(entry.process_id),
            final(self).seen_threads() == old(self).seen_threads().insert(entry.thread_id),
            final(self).max_latency == match entry.latency {
                Some(l) => if l > old(self).max_latency { l } else { old(self).max_latency },
                None => old(self).max_latency,
            },
            final(self).min_latency == match entry.latency {
                Some(l) => if old(self).min_latency == 0 || old(self).min_latency > l { l } else { old(self).min_latency },
                None => old(self).min_latency,
            },
            final(self).recent_entries() == keep_recent(old(self).recent_entries().push(entry@)),
    {
        self.counts.add_entry(entry.level.as_str());
        let ghost op = self.processes@;
        if !contains_u32(&self.processes, entry.process_id) {
            self.processes.push(entry.process_id);
            proof {
                assert(self.processes@.no_duplicates()) by {
                    assert forall|a: int, b: int| 0 <= a < b < self.processes@.len() implies self.processes@[a] != self.processes@[b] by {
                        if b == op.len() {
                            assert(op[a] == self.processes@[a]);
                        }
                    }
                }
                op.lemma_push_to_set_commute(entry.process_id);
                assert(self.processes@ == op.push(entry.process_id));
            }
        } else {
            assert(op.to_set() =~= op.to_set().insert(entry.process_id));
        }
        let ghost ot = self.threads@;
        if !contains_u32(&self.threads, entry.thread_id) {
            self.threads.push(entry.thread_id);
            proof {
                assert(self.threads@.no_duplicates()) by {
                    assert forall|a: int, b: int| 0 <= a < b < self.threads@.len() implies self.threads@[a] != self.threads@[b] by {
                        if b == ot.len() {
                            assert(ot[a] == self.threads@[a]);
                        }
                    }
                }
                ot.lemma_push_to_set_commute(entry.thread_id);
                assert(self.threads@ == ot.push(entry.thread_id));
            }
        } else {
            assert(ot.to_set() =~= ot.to_set().insert(entry.thread_id));
        }
        match entry.latency {
            Some(l) => {
                if self.max_latency < l {
                    self.max_latency = l;
                }
                if self.min_latency == 0 || self.min_latency > l {
                    self.min_latency = l;
                }
            },
            None => {},
        }
        let ghost or = entries_view(self.recent@);
        let e = copy_entry(entry);
        self.recent.push(e);
        assert(entries_view(self.recent@) =~= or.push(entry@));
        if self.recent.len() > RECENT_ENTRIES {
            let ghost pushed = entries_view(self.recent@);
            self.recent.remove(0);
            assert(entries_view(self.recent@) =~= pushed.subrange(1, pushed.len() as int));
        }
    }
}

fn contains_u32(v: &Vec<u32>, x: u32) -> (b: bool)
    ensures
        b == v@.contains(x),
{
    let mut i: usize = 0;
    while i < v.len()
        invariant
            0 <= i <= v@.len(),
            forall|j: int| 0 <= j < i ==> v@[j] != x,
        decreases v@.len() - i,
    {
        if v[i] == x {
            return true;
        }
        i = i + 1;
    }
    false
}

} // verus!

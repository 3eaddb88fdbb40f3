//! The integer side of trace statistics: what each request contributes,
//! which events count as requests and completions, counts and sums over
//! them, requests grouped by type, latencies in ascending order, latency
//! ranges and size distributions.  Averages, medians and percentiles are
//! taken from these by the caller.
use vstd::prelude::*;
use crate::models::{seq_eq_str, Block, UFS, UFSCUSTOM};
use crate::order::{is_stable_order, permute, stable_order, usize_seq_as_int};
use crate::realtime::{dec_digits, digit_char, digit_of, push_decimal};
use crate::text::{chars_of, contains_exec, contains_seq, push_char, unicode_lowercase, to_lowercase};

verus! {

broadcast use vstd::string::group_string_axioms;

// ---------------------------------------------------------------------------
// What a request contributes
// ---------------------------------------------------------------------------

/// The values of one request that the statistics read.
#[derive(Debug, Clone)]
pub struct StatRecord {
    pub req_type: String,
    pub action: String,
    /// Dispatch to complete latency, nanoseconds.
    pub dtoc: i128,
    /// Complete to complete latency, nanoseconds.
    pub ctoc: u64,
    /// Complete to dispatch latency, nanoseconds.
    pub ctod: u64,
    pub size: u32,
    pub qd: u32,
    pub continuous: bool,
    pub aligned: bool,
}

pub struct StatView {
    pub req_type: Seq<char>,
    pub action: Seq<char>,
    pub dtoc: i128,
    pub ctoc: u64,
    pub ctod: u64,
    pub size: u32,
    pub qd: u32,
    pub continuous: bool,
    pub aligned: bool,
}

impl View for StatRecord {
    type V = StatView;

    open spec fn view(&self) -> StatView {
        StatView {
            req_type: self.req_type@,
            action: self.action@,
            dtoc: self.dtoc,
            ctoc: self.ctoc,
            ctod: self.ctod,
            size: self.size,
            qd: self.qd,
            continuous: self.continuous,
            aligned: self.aligned,
        }
    }
}

pub open spec fn stat_views(rs: Seq<StatRecord>) -> Seq<StatView> {
    Seq::new(rs.len(), |i: int| rs[i]@)
}

/// A dispatch to complete latency no longer than the span of two event
/// times, forward or backward.
pub open spec fn dtoc_in_span(d: i128) -> bool {
    -(u64::MAX as int) <= d <= u64::MAX
}

pub open spec fn records_ok(rs: Seq<StatView>) -> bool {
    forall|i: int| 0 <= i < rs.len() ==> dtoc_in_span(#[trigger] rs[i].dtoc)
}

/// `R`, `W` or `O` by what a lower-cased opcode holds.
pub open spec fn io_letter(lower: Seq<char>, read: Seq<char>, write: Seq<char>) -> Seq<char> {
    if contains_seq(lower, read) {
        "R"@
    } else if contains_seq(lower, write) {
        "W"@
    } else {
        "O"@
    }
}

fn io_letter_exec(opcode: &str, read: &str, write: &str) -> (r: String)
    ensures
        r@ == io_letter(unicode_lowercase(opcode@), read@, write@),
{
    let lower = to_lowercase(opcode);
    let l = chars_of(lower.as_str());
    let rd = chars_of(read);
    let wr = chars_of(write);
    let mut r = String::new();
    if contains_exec(l.as_slice(), rd.as_slice()) {
        push_char(&mut r, 'R');
        proof {
            reveal_strlit("R");
        }
        assert(r@ =~= "R"@);
    } else if contains_exec(l.as_slice(), wr.as_slice()) {
        push_char(&mut r, 'W');
        proof {
            reveal_strlit("W");
        }
        assert(r@ =~= "W"@);
    } else {
        push_char(&mut r, 'O');
        proof {
            reveal_strlit("O");
        }
        assert(r@ =~= "O"@);
    }
    r
}

/// The type of a block request: the first letter of its I/O type, or `?`.
pub open spec fn block_type_of(io_type: Seq<char>) -> Seq<char> {
    if io_type.len() > 0 {
        seq![io_type[0]]
    } else {
        seq!['?']
    }
}

impl UFS {
    /// The request type: the opcode.
    pub fn get_type(&self) -> (r: String)
        ensures
            r@ == self.opcode@,
    {
        self.opcode.clone()
    }

    /// `R` for a read opcode (`0x28`), `W` for a write (`0x2a`), `O` else.
    pub fn get_io_type(&self) -> (r: String)
        ensures
            r@ == io_letter(unicode_lowercase(self.opcode@), "0x28"@, "0x2a"@),
    {
        io_letter_exec(self.opcode.as_str(), "0x28", "0x2a")
    }

    /// What the statistics read of this request.
    pub fn stat_record(&self) -> (r: StatRecord)
        ensures
            r@ == (StatView {
                req_type: self.opcode@,
                action: self.action@,
                dtoc: self.dtoc as i128,
                ctoc: self.ctoc,
                ctod: self.ctod,
                size: self.size,
                qd: self.qd,
                continuous: self.continuous,
                aligned: self.aligned,
            }),
            dtoc_in_span(r.dtoc),
    {
        StatRecord {
            req_type: self.get_type(),
            action: self.action.clone(),
            dtoc: self.dtoc as i128,
            ctoc: self.ctoc,
            ctod: self.ctod,
            size: self.size,
            qd: self.qd,
            continuous: self.continuous,
            aligned: self.aligned,
        }
    }
}

impl Block {
    /// The request type: the first letter of the I/O type, or `?`.
    pub fn get_type(&self) -> (r: String)
        ensures
            r@ == block_type_of(self.io_type@),
    {
        let cs = chars_of(self.io_type.as_str());
        let mut r = String::new();
        if cs.len() > 0 {
            push_char(&mut r, cs[0]);
        } else {
            push_char(&mut r, '?');
        }
        assert(r@ =~= block_type_of(self.io_type@));
        r
    }

    /// The I/O type as recorded.
    pub fn get_io_type(&self) -> (r: String)
        ensures
            r@ == self.io_type@,
    {
        self.io_type.clone()
    }

    /// What the statistics read of this request.
    pub fn stat_record(&self) -> (r: StatRecord)
        ensures
            r@ == (StatView {
                req_type: block_type_of(self.io_type@),
                action: self.action@,
                dtoc: self.dtoc as i128,
                ctoc: self.ctoc,
                ctod: self.ctod,
                size: self.size,
                qd: self.qd,
                continuous: self.continuous,
                aligned: self.aligned,
            }),
            dtoc_in_span(r.dtoc),
    {
        StatRecord {
            req_type: self.get_type(),
            action: self.action.clone(),
            dtoc: self.dtoc as i128,
            ctoc: self.ctoc,
            ctod: self.ctod,
            size: self.size,
            qd: self.qd,
            continuous: self.continuous,
            aligned: self.aligned,
        }
    }
}

impl UFSCUSTOM {
    /// The request type: the opcode.
    pub fn get_type(&self) -> (r: String)
        ensures
            r@ == self.opcode@,
    {
        self.opcode.clone()
    }

    /// `R` for an opcode naming a read, `W` for a write, `O` else.
    pub fn get_io_type(&self) -> (r: String)
        ensures
            r@ == io_letter(unicode_lowercase(self.opcode@), "read"@, "write"@),
    {
        io_letter_exec(self.opcode.as_str(), "read", "write")
    }

    /// What the statistics read of this request: every custom request is a
    /// completion, and its queue depth is the one at its start.
    pub fn stat_record(&self) -> (r: StatRecord)
        requires
            dtoc_in_span(self.dtoc),
        ensures
            r@ == (StatView {
                req_type: self.opcode@,
                action: "complete"@,
                dtoc: self.dtoc,
                ctoc: self.ctoc,
                ctod: self.ctod,
                size: self.size,
                qd: self.start_qd,
                continuous: self.continuous,
                aligned: self.aligned,
            }),
            dtoc_in_span(r.dtoc),
    {
        let mut action = String::new();
        crate::text::push_text(&mut action, "complete");
        assert(action@ =~= "complete"@);
        StatRecord {
            req_type: self.get_type(),
            action,
            dtoc: self.dtoc,
            ctoc: self.ctoc,
            ctod: self.ctod,
            size: self.size,
            qd: self.start_qd,
            continuous: self.continuous,
            aligned: self.aligned,
        }
    }
}

// ---------------------------------------------------------------------------
// Which events are requests and completions
// ---------------------------------------------------------------------------

pub open spec fn has_action(rs: Seq<StatView>, a: Seq<char>) -> bool {
    exists|i: int| 0 <= i < rs.len() && #[trigger] rs[i].action == a
}

/// The action that marks a completion in a trace of the named kind.  Block
/// traces come as ftrace events or as blktrace letters; the letters are
/// used when no ftrace completion occurs.
pub open spec fn complete_action_for(name: Seq<char>, rs: Seq<StatView>) -> Seq<char> {
    if name == "UFS"@ {
        "complete_rsp"@
    } else if name == "UFSCustom"@ {
        "complete"@
    } else if name == "Block"@ && !has_action(rs, "block_rq_complete"@) {
        "C"@
    } else {
        "block_rq_complete"@
    }
}

/// The action that marks a request sent in a trace of the named kind.
pub open spec fn request_action_for(name: Seq<char>, rs: Seq<StatView>) -> Seq<char> {
    if name == "UFS"@ {
        "send_req"@
    } else if name == "Block"@ && !has_action(rs, "block_rq_issue"@) {
        "Q"@
    } else {
        "block_rq_issue"@
    }
}

fn find_action(rs: &[StatRecord], a: &str) -> (b: bool)
    ensures
        b == has_action(stat_views(rs@), a@),
{
    let mut i: usize = 0;
    while i < rs.len()
        invariant
            0 <= i <= rs@.len(),
            forall|j: int| 0 <= j < i ==> rs@[j].action@ != a@,
        decreases rs@.len() - i,
    {
        if seq_eq_str(rs[i].action.as_str(), a) {
            assert(stat_views(rs@)[i as int].action == a@);
            return true;
        }
        i = i + 1;
    }
    assert forall|j: int| 0 <= j < stat_views(rs@).len() implies #[trigger] stat_views(rs@)[j].action
        != a@ by {
        assert(rs@[j].action@ != a@);
    }
    false
}

/// The completion action of a trace of the named kind.
pub fn complete_action(trace_type_name: &str, rs: &[StatRecord]) -> (a: &'static str)
    ensures
        a@ == complete_action_for(trace_type_name@, stat_views(rs@)),
{
    if seq_eq_str(trace_type_name, "UFS") {
        "complete_rsp"
    } else if seq_eq_str(trace_type_name, "UFSCustom") {
        "complete"
    } else if seq_eq_str(trace_type_name, "Block") && !find_action(rs, "block_rq_complete") {
        "C"
    } else {
        "block_rq_complete"
    }
}

/// The request action of a trace of the named kind.
pub fn request_action(trace_type_name: &str, rs: &[StatRecord]) -> (a: &'static str)
    ensures
        a@ == request_action_for(trace_type_name@, stat_views(rs@)),
{
    if seq_eq_str(trace_type_name, "UFS") {
        "send_req"
    } else if seq_eq_str(trace_type_name, "Block") && !find_action(rs, "block_rq_issue") {
        "Q"
    } else {
        "block_rq_issue"
    }
}

// ---------------------------------------------------------------------------
// Counts and sums
// ---------------------------------------------------------------------------

/// One of the three latencies of a request.
#[derive(Debug, Clone, Copy, PartialEq, Eq, Structural)]
pub enum LatencyField {
    Dtoc,
    Ctoc,
    Ctod,
}

pub open spec fn latency_of(r: StatView, f: LatencyField) -> int {
    match f {
        LatencyField::Dtoc => r.dtoc as int,
        LatencyField::Ctoc => r.ctoc as int,
        LatencyField::Ctod => r.ctod as int,
    }
}

/// Whether a request has the given action (any request when there is none).
pub open spec fn selected(r: StatView, action: Option<Seq<char>>) -> bool {
    match action {
        Some(a) => r.action == a,
        None => true,
    }
}

/// How many selected requests have a positive latency.
pub open spec fn positive_count(rs: Seq<StatView>, action: Option<Seq<char>>, f: LatencyField) -> nat
    decreases rs.len(),
{
    if rs.len() == 0 {
        0
    } else {
        positive_count(rs.drop_last(), action, f) + if selected(rs.last(), action) && latency_of(
            rs.last(),
            f,
        ) > 0 {
            1nat
        } else {
            0nat
        }
    }
}

/// The sum of the positive latencies of the selected requests.
pub open spec fn positive_sum(rs: Seq<StatView>, action: Option<Seq<char>>, f: LatencyField) -> nat
    decreases rs.len(),
{
    if rs.len() == 0 {
        0
    } else {
        positive_sum(rs.drop_last(), action, f) + if selected(rs.last(), action) && latency_of(
            rs.last(),
            f,
        ) > 0 {
            latency_of(rs.last(), f) as nat
        } else {
            0nat
        }
    }
}

/// The sum of the magnitudes of the negative latencies of the selected
/// requests.
pub open spec fn negative_sum(rs: Seq<StatView>, action: Option<Seq<char>>, f: LatencyField) -> nat
    decreases rs.len(),
{
    if rs.len() == 0 {
        0
    } else {
        negative_sum(rs.drop_last(), action, f) + if selected(rs.last(), action) && latency_of(
            rs.last(),
            f,
        ) < 0 {
            (-latency_of(rs.last(), f)) as nat
        } else {
            0nat
        }
    }
}

/// How many requests are selected.
pub open spec fn selected_count(rs: Seq<StatView>, action: Option<Seq<char>>) -> nat
    decreases rs.len(),
{
    if rs.len() == 0 {
        0
    } else {
        selected_count(rs.drop_last(), action) + if selected(rs.last(), action) {
            1nat
        } else {
            0nat
        }
    }
}

/// Totals of one latency over the selected requests.
pub struct LatencyTotals {
    /// Selected requests.
    pub selected: usize,
    /// Selected requests whose latency is positive.
    pub positive: usize,
    /// Sum of the positive latencies.
    pub positive_sum: u128,
    /// Sum of the magnitudes of the negative latencies.
    pub negative_sum: u128,
}

fn latency_exec(r: &StatRecord, f: LatencyField) -> (v: i128)
    ensures
        v == latency_of(r@, f),
{
    match f {
        LatencyField::Dtoc => r.dtoc,
        LatencyField::Ctoc => r.ctoc as i128,
        LatencyField::Ctod => r.ctod as i128,
    }
}

fn selected_exec(r: &StatRecord, action: Option<&str>) -> (b: bool)
    ensures
        b == selected(r@, match action {
            Some(a) => Some(a@),
            None => None,
        }),
{
    match action {
        Some(a) => seq_eq_str(r.action.as_str(), a),
        None => true,
    }
}

pub open spec fn opt_str(o: Option<&str>) -> Option<Seq<char>> {
    match o {
        Some(a) => Some(a@),
        None => None,
    }
}

/// Count and sum one latency over the requests with the given action (all
/// requests when there is none).
pub fn latency_totals(rs: &[StatRecord], action: Option<&str>, f: LatencyField) -> (t: LatencyTotals)
    requires
        records_ok(stat_views(rs@)),
    ensures
        t.selected == selected_count(stat_views(rs@), opt_str(action)),
        t.positive == positive_count(stat_views(rs@), opt_str(action), f),
        t.positive_sum == positive_sum(stat_views(rs@), opt_str(action), f),
        t.negative_sum == negative_sum(stat_views(rs@), opt_str(action), f),
{
    let ghost vs = stat_views(rs@);
    let ghost act = opt_str(action);
    let mut sel: usize = 0;
    let mut pos: usize = 0;
    let mut psum: u128 = 0;
    let mut nsum: u128 = 0;
    let mut i: usize = 0;
    while i < rs.len()
        invariant
            vs == stat_views(rs@),
            act == opt_str(action),
            records_ok(vs),
            0 <= i <= rs@.len(),
            sel == selected_count(vs.take(i as int), act),
            pos == positive_count(vs.take(i as int), act, f),
            psum == positive_sum(vs.take(i as int), act, f),
            nsum == negative_sum(vs.take(i as int), act, f),
            sel <= i,
            pos <= i,
            psum <= i * 0xFFFF_FFFF_FFFF_FFFFu128,
            nsum <= i * 0xFFFF_FFFF_FFFF_FFFFu128,
        decreases rs@.len() - i,
    {
        proof {
            assert(vs.take(i + 1).drop_last() =~= vs.take(i as int));
            assert(vs.take(i + 1).last() == vs[i as int]);
            assert(dtoc_in_span(vs[i as int].dtoc));
        }
        if selected_exec(&rs[i], action) {
            sel = sel + 1;
            let v = latency_exec(&rs[i], f);
            if v > 0 {
                pos = pos + 1;
                psum = psum + v as u128;
            } else if v < 0 {
                nsum = nsum + (-v) as u128;
            }
        }
        i = i + 1;
    }
    proof {
        assert(vs.take(rs@.len() as int) =~= vs);
    }
    LatencyTotals { selected: sel, positive: pos, positive_sum: psum, negative_sum: nsum }
}

/// How many requests have each flag set.
pub open spec fn continuous_count(rs: Seq<StatView>) -> nat
    decreases rs.len(),
{
    if rs.len() == 0 {
        0
    } else {
        continuous_count(rs.drop_last()) + if rs.last().continuous {
            1nat
        } else {
            0nat
        }
    }
}

pub open spec fn aligned_count(rs: Seq<StatView>) -> nat
    decreases rs.len(),
{
    if rs.len() == 0 {
        0
    } else {
        aligned_count(rs.drop_last()) + if rs.last().aligned {
            1nat
        } else {
            0nat
        }
    }
}

/// The largest queue depth, 0 for no requests.
pub open spec fn max_qd_of(rs: Seq<StatView>) -> u32
    decreases rs.len(),
{
    if rs.len() == 0 {
        0
    } else {
        let m = max_qd_of(rs.drop_last());
        if rs.last().qd > m {
            rs.last().qd
        } else {
            m
        }
    }
}

pub open spec fn qd_sum_of(rs: Seq<StatView>) -> nat
    decreases rs.len(),
{
    if rs.len() == 0 {
        0
    } else {
        qd_sum_of(rs.drop_last()) + rs.last().qd as nat
    }
}

/// Queue depths and flags over all requests.
pub struct RequestTotals {
    pub total: usize,
    pub max_qd: u32,
    pub qd_sum: u128,
    pub continuous: usize,
    pub aligned: usize,
}

/// Totals of queue depths and flags over all requests.
pub fn request_totals(rs: &[StatRecord]) -> (t: RequestTotals)
    ensures
        t.total == rs@.len(),
        t.max_qd == max_qd_of(stat_views(rs@)),
        t.qd_sum == qd_sum_of(stat_views(rs@)),
        t.continuous == continuous_count(stat_views(rs@)),
        t.aligned == aligned_count(stat_views(rs@)),
{
    let ghost vs = stat_views(rs@);
    let mut max_qd: u32 = 0;
    let mut qd_sum: u128 = 0;
    let mut cont: usize = 0;
    let mut al: usize = 0;
    let mut i: usize = 0;
    while i < rs.len()
        invariant
            vs == stat_views(rs@),
            0 <= i <= rs@.len(),
            max_qd == max_qd_of(vs.take(i as int)),
            qd_sum == qd_sum_of(vs.take(i as int)),
            cont == continuous_count(vs.take(i as int)),
            al == aligned_count(vs.take(i as int)),
            cont <= i,
            al <= i,
            qd_sum <= i * 0xFFFF_FFFFu128,
        decreases rs@.len() - i,
    {
        proof {
            assert(vs.take(i + 1).drop_last() =~= vs.take(i as int));
            assert(vs.take(i + 1).last() == vs[i as int]);
        }
        let r = &rs[i];
        if r.qd > max_qd {
            max_qd = r.qd;
        }
        qd_sum = qd_sum + r.qd as u128;
        if r.continuous {
            cont = cont + 1;
        }
        if r.aligned {
            al = al + 1;
        }
        i = i + 1;
    }
    proof {
        assert(vs.take(rs@.len() as int) =~= vs);
    }
    RequestTotals { total: rs.len(), max_qd, qd_sum, continuous: cont, aligned: al }
}

// ---------------------------------------------------------------------------
// Order of type names
// ---------------------------------------------------------------------------

/// `a` sorts before `b`: the order of strings, by code point.
pub open spec fn lex_lt(a: Seq<char>, b: Seq<char>) -> bool
    decreases a.len(),
{
    if a.len() == 0 {
        b.len() > 0
    } else if b.len() == 0 {
        false
    } else if a[0] != b[0] {
        (a[0] as int) < (b[0] as int)
    } else {
        lex_lt(a.drop_first(), b.drop_first())
    }
}

pub proof fn lemma_lex_irreflexive(a: Seq<char>)
    ensures
        !lex_lt(a, a),
    decreases a.len(),
{
    if a.len() > 0 {
        lemma_lex_irreflexive(a.drop_first());
    }
}

pub proof fn lemma_lex_total(a: Seq<char>, b: Seq<char>)
    ensures
        a == b || lex_lt(a, b) || lex_lt(b, a),
        !(lex_lt(a, b) && lex_lt(b, a)),
    decreases a.len(),
{
    if a.len() > 0 && b.len() > 0 {
        if a[0] == b[0] {
            lemma_lex_total(a.drop_first(), b.drop_first());
            if a.drop_first() == b.drop_first() {
                assert(a =~= seq![a[0]] + a.drop_first());
                assert(b =~= seq![b[0]] + b.drop_first());
            }
        } else {
        }
    } else if a.len() == 0 && b.len() == 0 {
        assert(a =~= b);
    }
}

pub proof fn lemma_lex_transitive(a: Seq<char>, b: Seq<char>, c: Seq<char>)
    requires
        lex_lt(a, b),
        lex_lt(b, c),
    ensures
        lex_lt(a, c),
    decreases a.len(),
{
    if a.len() > 0 && b.len() > 0 && c.len() > 0 {
        if a[0] == b[0] && b[0] == c[0] {
            lemma_lex_transitive(a.drop_first(), b.drop_first(), c.drop_first());
        }
    }
}

pub fn lex_less(a: &[char], b: &[char]) -> (r: bool)
    ensures
        r == lex_lt(a@, b@),
{
    let mut i: usize = 0;
    assert(a@.skip(0) =~= a@);
    assert(b@.skip(0) =~= b@);
    while i < a.len() && i < b.len() && a[i] == b[i]
        invariant
            0 <= i <= a@.len(),
            i <= b@.len(),
            lex_lt(a@, b@) == lex_lt(a@.skip(i as int), b@.skip(i as int)),
        decreases a@.len() - i,
    {
        proof {
            assert(a@.skip(i as int).drop_first() =~= a@.skip(i + 1));
            assert(b@.skip(i as int).drop_first() =~= b@.skip(i + 1));
        }
        i = i + 1;
    }
    if i == a.len() {
        i < b.len()
    } else if i == b.len() {
        false
    } else {
        proof {
            assert(a@.skip(i as int)[0] == a@[i as int]);
            assert(b@.skip(i as int)[0] == b@[i as int]);
        }
        a[i] < b[i]
    }
}

/// Names in strictly ascending order (so no name twice).
pub open spec fn names_sorted(ns: Seq<Seq<char>>) -> bool {
    forall|i: int, j: int| 0 <= i < j < ns.len() ==> lex_lt(#[trigger] ns[i], #[trigger] ns[j])
}

// ---------------------------------------------------------------------------
// Requests grouped by type
// ---------------------------------------------------------------------------

/// The positions of the selected requests of type `t`, in order.
pub open spec fn members_of(rs: Seq<StatView>, t: Seq<char>, act: Option<Seq<char>>) -> Seq<int>
    decreases rs.len(),
{
    if rs.len() == 0 {
        Seq::empty()
    } else {
        let m = members_of(rs.drop_last(), t, act);
        if selected(rs.last(), act) && rs.last().req_type == t {
            m.push(rs.len() - 1)
        } else {
            m
        }
    }
}

proof fn lemma_members_none(rs: Seq<StatView>, t: Seq<char>, act: Option<Seq<char>>)
    requires
        forall|j: int| 0 <= j < rs.len() && selected(rs[j], act) ==> rs[j].req_type != t,
    ensures
        members_of(rs, t, act) == Seq::<int>::empty(),
    decreases rs.len(),
{
    if rs.len() > 0 {
        let d = rs.drop_last();
        assert forall|j: int| 0 <= j < d.len() && selected(d[j], act) implies d[j].req_type != t by {
            assert(d[j] == rs[j]);
        }
        lemma_members_none(d, t, act);
    }
}

/// The selected requests of one type.
#[derive(Debug, Clone)]
pub struct TypeGroup {
    pub req_type: String,
    /// Positions of the requests, ascending.
    pub members: Vec<usize>,
}

pub open spec fn group_names(gs: Seq<TypeGroup>) -> Seq<Seq<char>> {
    Seq::new(gs.len(), |g: int| gs[g].req_type@)
}

pub open spec fn names_of(ns: Seq<String>) -> Seq<Seq<char>> {
    Seq::new(ns.len(), |g: int| ns[g]@)
}

pub open spec fn members_view(ms: Seq<Vec<usize>>) -> Seq<Seq<int>> {
    Seq::new(ms.len(), |g: int| usize_seq_as_int(ms[g]@))
}

/// The grouping of the selected requests by type: one group per type that
/// occurs, in ascending order of type names, each listing exactly the
/// positions of its requests in order.
pub open spec fn is_type_grouping(rs: Seq<StatView>, act: Option<Seq<char>>, gs: Seq<TypeGroup>) -> bool {
    &&& names_sorted(group_names(gs))
    &&& forall|g: int|
        0 <= g < gs.len() ==> usize_seq_as_int(#[trigger] gs[g].members@) == members_of(
            rs,
            gs[g].req_type@,
            act,
        ) && gs[g].members@.len() > 0
    &&& forall|i: int|
        0 <= i < rs.len() && selected(rs[i], act) ==> exists|g: int|
            0 <= g < gs.len() && #[trigger] group_names(gs)[g] == rs[i].req_type
}

fn assemble_groups(names: Vec<String>, mems: Vec<Vec<usize>>) -> (gs: Vec<TypeGroup>)
    requires
        names@.len() == mems@.len(),
    ensures
        gs@.len() == names@.len(),
        forall|g: int|
            0 <= g < gs@.len() ==> #[trigger] gs@[g].req_type@ == names_of(names@)[g] && usize_seq_as_int(
                gs@[g].members@,
            ) == members_view(mems@)[g],
{
    let ghost nv = names_of(names@);
    let ghost mv = members_view(mems@);
    let mut names = names;
    let mut mems = mems;
    let mut gs: Vec<TypeGroup> = Vec::new();
    let mut k: usize = 0;
    let n = names.len();
    while k < n
        invariant
            n == names@.len() + k,
            n == mems@.len() + k,
            gs@.len() == k,
            nv.len() == n,
            mv.len() == n,
            forall|g: int| 0 <= g < k ==> #[trigger] gs@[g].req_type@ == nv[g] && usize_seq_as_int(gs@[g].members@) == mv[g],
            forall|g: int| 0 <= g < names@.len() ==> #[trigger] names_of(names@)[g] == nv[g + k] && members_view(mems@)[g] == mv[g + k],
        decreases n - k,
    {
        let ghost on = names@;
        let ghost om = mems@;
        let name = names.remove(0);
        let m = mems.remove(0);
        proof {
            assert(name@ == names_of(on)[0]);
            assert(usize_seq_as_int(m@) == members_view(om)[0]);
            assert(names_of(on)[0] == nv[k as int]);
            assert(members_view(om)[0] == mv[k as int]);
            assert forall|g: int| 0 <= g < names@.len() implies #[trigger] names_of(names@)[g] == nv[g + k + 1] && members_view(mems@)[g] == mv[g + k + 1] by {
                assert(names@[g] == on[g + 1]);
                assert(mems@[g] == om[g + 1]);
                assert(names_of(on)[g + 1] == nv[g + 1 + k]);
                assert(members_view(om)[g + 1] == mv[g + 1 + k]);
            }
        }
        let ghost og = gs@;
        gs.push(TypeGroup { req_type: name, members: m });
        proof {
            assert forall|g: int| 0 <= g < k + 1 implies #[trigger] gs@[g].req_type@ == nv[g]
                && usize_seq_as_int(gs@[g].members@) == mv[g] by {
                if g < k {
                    assert(gs@[g] == og[g]);
                }
            }
        }
        k = k + 1;
    }
    gs
}

/// Groups the requests with the given action (all requests when there is
/// none) by type.
pub fn group_by_type(rs: &[StatRecord], action: Option<&str>) -> (gs: Vec<TypeGroup>)
    ensures
        is_type_grouping(stat_views(rs@), opt_str(action), gs@),
{
    let ghost vs = stat_views(rs@);
    let ghost act = opt_str(action);
    let mut names: Vec<String> = Vec::new();
    let mut mems: Vec<Vec<usize>> = Vec::new();
    let mut i: usize = 0;
    while i < rs.len()
        invariant
            vs == stat_views(rs@),
            act == opt_str(action),
            0 <= i <= rs@.len(),
            names@.len() == mems@.len(),
            names_sorted(names_of(names@)),
            forall|g: int|
                0 <= g < mems@.len() ==> #[trigger] members_view(mems@)[g] == members_of(
                    vs.take(i as int),
                    names_of(names@)[g],
                    act,
                ) && members_view(mems@)[g].len() > 0,
            forall|j: int|
                0 <= j < i && selected(vs[j], act) ==> exists|g: int|
                    0 <= g < names@.len() && #[trigger] names_of(names@)[g] == vs[j].req_type,
        decreases rs@.len() - i,
    {
        let ghost pv = vs.take(i as int);
        let ghost nv = names_of(names@);
        let ghost mv = members_view(mems@);
        proof {
            assert(vs.take(i + 1).drop_last() =~= pv);
            assert(vs.take(i + 1).last() == vs[i as int]);
        }
        if selected_exec(&rs[i], action) {
            let t = chars_of(rs[i].req_type.as_str());
            let mut p: usize = 0;
            while p < names.len() && lex_less(chars_of(names[p].as_str()).as_slice(), t.as_slice())
                invariant
                    0 <= p <= names@.len(),
                    nv == names_of(names@),
                    forall|q: int| 0 <= q < p ==> lex_lt(#[trigger] nv[q], t@),
                decreases names@.len() - p,
            {
                p = p + 1;
            }
            let found = p < names.len() && seq_eq_str(names[p].as_str(), rs[i].req_type.as_str());
            if found {
                let ghost om = mems@;
                let mut m = mems.remove(p);
                m.push(i);
                proof {
                    assert(usize_seq_as_int(m@) =~= mv[p as int].push(i as int));
                }
                mems.insert(p, m);
                proof {
                    assert(mems@ =~= om.update(p as int, m));
                    assert(members_view(mems@) =~= mv.update(p as int, mv[p as int].push(i as int)));
                    assert forall|g: int| 0 <= g < mems@.len() implies #[trigger] members_view(mems@)[g]
                        == members_of(vs.take(i + 1), names_of(names@)[g], act) && members_view(
                        mems@,
                    )[g].len() > 0 by {
                        if g != p {
                            if lex_lt(nv[g], nv[p as int]) || lex_lt(nv[p as int], nv[g]) {
                                lemma_lex_irreflexive(nv[g]);
                            }
                            if g < p {
                                assert(lex_lt(nv[g], nv[p as int]));
                            } else {
                                assert(lex_lt(nv[p as int], nv[g]));
                            }
                            lemma_lex_total(nv[g], nv[p as int]);
                        }
                    }
                    assert forall|j: int| 0 <= j < i + 1 && selected(vs[j], act) implies exists|g: int|
                        0 <= g < names@.len() && #[trigger] names_of(names@)[g] == vs[j].req_type by {
                        if j == i {
                            assert(names_of(names@)[p as int] == vs[j].req_type);
                        }
                    }
                }
            } else {
                proof {
                    if p < names@.len() {
                        lemma_lex_total(nv[p as int], t@);
                    }
                    assert forall|j: int| 0 <= j < pv.len() && selected(pv[j], act) implies pv[j].req_type
                        != t@ by {
                        assert(pv[j] == vs[j]);
                        let g = choose|g: int| 0 <= g < names@.len() && #[trigger] nv[g] == vs[j].req_type;
                        if g < p {
                            lemma_lex_irreflexive(t@);
                        } else {
                            if g > p {
                                assert(lex_lt(nv[p as int], nv[g]));
                                lemma_lex_transitive(t@, nv[p as int], nv[g]);
                            }
                            lemma_lex_irreflexive(t@);
                        }
                    }
                    lemma_members_none(pv, t@, act);
                }
                let name = rs[i].req_type.clone();
                names.insert(p, name);
                let mut m: Vec<usize> = Vec::new();
                m.push(i);
                mems.insert(p, m);
                proof {
                    assert(names_of(names@) =~= nv.insert(p as int, t@));
                    assert(usize_seq_as_int(m@) =~= seq![i as int]);
                    assert(members_view(mems@) =~= mv.insert(p as int, seq![i as int]));
                    let nn = names_of(names@);
                    assert forall|a: int, b: int| 0 <= a < b < nn.len() implies lex_lt(
                        #[trigger] nn[a],
                        #[trigger] nn[b],
                    ) by {
                        if b == p {
                        } else if a == p {
                            if b - 1 > p {
                                lemma_lex_transitive(t@, nv[p as int], nv[b - 1]);
                            }
                        } else if a < p && b > p {
                            assert(lex_lt(nv[a], t@));
                            if b - 1 > p {
                                lemma_lex_transitive(t@, nv[p as int], nv[b - 1]);
                            }
                            lemma_lex_transitive(nv[a], t@, nv[b - 1]);
                        }
                    }
                    assert forall|g: int| 0 <= g < mems@.len() implies #[trigger] members_view(mems@)[g]
                        == members_of(vs.take(i + 1), names_of(names@)[g], act) && members_view(
                        mems@,
                    )[g].len() > 0 by {
                        if g != p {
                            let og = if g < p { g } else { g - 1 };
                            assert(nn[g] == nv[og]);
                            if nv[og] == t@ {
                                if og < p {
                                    lemma_lex_irreflexive(t@);
                                } else {
                                    if og > p {
                                        lemma_lex_transitive(t@, nv[p as int], nv[og]);
                                    }
                                    lemma_lex_irreflexive(t@);
                                }
                            }
                        }
                    }
                    assert forall|j: int| 0 <= j < i + 1 && selected(vs[j], act) implies exists|g: int|
                        0 <= g < names@.len() && #[trigger] names_of(names@)[g] == vs[j].req_type by {
                        if j == i {
                            assert(nn[p as int] == vs[j].req_type);
                        } else {
                            let og = choose|g: int| 0 <= g < nv.len() && #[trigger] nv[g] == vs[j].req_type;
                            if og < p {
                                assert(nn[og] == vs[j].req_type);
                            } else {
                                assert(nn[og + 1] == vs[j].req_type);
                            }
                        }
                    }
                }
            }
        } else {
            proof {
                assert forall|g: int| 0 <= g < mems@.len() implies #[trigger] members_view(mems@)[g]
                    == members_of(vs.take(i + 1), names_of(names@)[g], act) && members_view(mems@)[g].len()
                    > 0 by {
                    assert(members_view(mems@)[g] == mv[g]);
                }
            }
        }
        i = i + 1;
    }
    proof {
        assert(vs.take(rs@.len() as int) =~= vs);
    }
    let ghost nv = names_of(names@);
    let ghost mv = members_view(mems@);
    let gs = assemble_groups(names, mems);
    proof {
        assert(group_names(gs@) =~= nv);
        assert forall|g: int| 0 <= g < gs@.len() implies usize_seq_as_int(#[trigger] gs@[g].members@)
            == members_of(vs, gs@[g].req_type@, act) && gs@[g].members@.len() > 0 by {
            assert(usize_seq_as_int(gs@[g].members@).len() == gs@[g].members@.len());
        }
        assert forall|i: int| 0 <= i < vs.len() && selected(vs[i], act) implies exists|g: int|
            0 <= g < gs@.len() && #[trigger] group_names(gs@)[g] == vs[i].req_type by {
            let g = choose|g: int| 0 <= g < nv.len() && #[trigger] nv[g] == vs[i].req_type;
            assert(group_names(gs@)[g] == nv[g]);
        }
    }
    gs
}

// ---------------------------------------------------------------------------
// Latencies of a group, ranges, sizes
// ---------------------------------------------------------------------------

pub open spec fn members_ok(rs: Seq<StatView>, ms: Seq<int>) -> bool {
    forall|k: int| 0 <= k < ms.len() ==> 0 <= #[trigger] ms[k] < rs.len()
}

/// The positive values of one latency over the given requests, in their
/// order.
pub open spec fn positive_values(rs: Seq<StatView>, ms: Seq<int>, f: LatencyField) -> Seq<u64>
    decreases ms.len(),
{
    if ms.len() == 0 {
        Seq::empty()
    } else {
        let v = positive_values(rs, ms.drop_last(), f);
        let x = latency_of(rs[ms.last()], f);
        if x > 0 {
            v.push(x as u64)
        } else {
            v
        }
    }
}

/// The positive values of one latency over the given requests, in
/// ascending order (the order a stable sort gives them).
pub fn sorted_latencies(rs: &[StatRecord], members: &[usize], f: LatencyField) -> (r: Vec<u64>)
    requires
        records_ok(stat_views(rs@)),
        members_ok(stat_views(rs@), usize_seq_as_int(members@)),
    ensures
        exists|p: Seq<int>|
            is_stable_order(positive_values(stat_views(rs@), usize_seq_as_int(members@), f), p)
                && r@ == permute(positive_values(stat_views(rs@), usize_seq_as_int(members@), f), p),
        forall|a: int, b: int| 0 <= a <= b < r@.len() ==> #[trigger] r@[a] <= #[trigger] r@[b],
{
    let ghost vs = stat_views(rs@);
    let ghost ms = usize_seq_as_int(members@);
    let mut vals: Vec<u64> = Vec::new();
    let mut k: usize = 0;
    while k < members.len()
        invariant
            vs == stat_views(rs@),
            ms == usize_seq_as_int(members@),
            records_ok(vs),
            members_ok(vs, ms),
            0 <= k <= members@.len(),
            vals@ == positive_values(vs, ms.take(k as int), f),
        decreases members@.len() - k,
    {
        proof {
            assert(ms.take(k + 1).drop_last() =~= ms.take(k as int));
            assert(ms.take(k + 1).last() == ms[k as int]);
            assert(0 <= ms[k as int] < vs.len());
            assert(dtoc_in_span(vs[ms[k as int]].dtoc));
        }
        let m = members[k];
        let x = latency_exec(&rs[m], f);
        if x > 0 {
            vals.push(x as u64);
        }
        k = k + 1;
    }
    proof {
        assert(ms.take(members@.len() as int) =~= ms);
    }
    let p = stable_order(&vals);
    let ghost pi = usize_seq_as_int(p@);
    let mut r: Vec<u64> = Vec::new();
    let mut j: usize = 0;
    while j < p.len()
        invariant
            is_stable_order(vals@, pi),
            pi == usize_seq_as_int(p@),
            0 <= j <= p@.len(),
            r@ == permute(vals@, pi).take(j as int),
        decreases p@.len() - j,
    {
        assert(0 <= pi[j as int] < vals@.len());
        r.push(vals[p[j]]);
        assert(r@ =~= permute(vals@, pi).take(j + 1));
        j = j + 1;
    }
    assert(r@ =~= permute(vals@, pi));
    assert forall|a: int, b: int| 0 <= a <= b < r@.len() implies #[trigger] r@[a] <= #[trigger] r@[b] by {
        if a < b {
            assert(vals@[pi[a]] < vals@[pi[b]] || vals@[pi[a]] == vals@[pi[b]]);
        }
    }
    r
}

/// Whether `v` falls in range `k` of `bounds`: above `bounds[k]` (the first
/// range has no lower end, so it holds zero) and, but for the last range, at
/// most `bounds[k + 1]`.
pub open spec fn in_range(v: u64, bounds: Seq<u64>, k: int) -> bool {
    (k == 0 || bounds[k] < v) && (k + 1 < bounds.len() ==> v <= bounds[k + 1])
}

pub open spec fn range_count(vals: Seq<u64>, bounds: Seq<u64>, k: int) -> nat
    decreases vals.len(),
{
    if vals.len() == 0 {
        0
    } else {
        range_count(vals.drop_last(), bounds, k) + if in_range(vals.last(), bounds, k) {
            1nat
        } else {
            0nat
        }
    }
}

pub open spec fn bounds_ascending(bounds: Seq<u64>) -> bool {
    forall|a: int, b: int| 0 <= a <= b < bounds.len() ==> #[trigger] bounds[a] <= #[trigger] bounds[b]
}

/// How many values fall in each range of `bounds`.
pub fn range_counts(vals: &[u64], bounds: &[u64]) -> (c: Vec<usize>)
    requires
        bounds_ascending(bounds@),
    ensures
        c@.len() == bounds@.len(),
        forall|k: int| 0 <= k < bounds@.len() ==> #[trigger] c@[k] == range_count(vals@, bounds@, k),
{
    let nb = bounds.len();
    let mut c: Vec<usize> = Vec::new();
    let mut k: usize = 0;
    while k < nb
        invariant
            nb == bounds@.len(),
            0 <= k <= nb,
            c@.len() == k,
            forall|q: int| 0 <= q < k ==> #[trigger] c@[q] == 0,
        decreases nb - k,
    {
        c.push(0);
        k = k + 1;
    }
    let mut i: usize = 0;
    while i < vals.len()
        invariant
            nb == bounds@.len(),
            bounds_ascending(bounds@),
            0 <= i <= vals@.len(),
            c@.len() == nb,
            forall|q: int| 0 <= q < nb ==> #[trigger] c@[q] == range_count(vals@.take(i as int), bounds@, q),
            forall|q: int| 0 <= q < nb ==> #[trigger] c@[q] <= i,
        decreases vals@.len() - i,
    {
        proof {
            assert(vals@.take(i + 1).drop_last() =~= vals@.take(i as int));
            assert(vals@.take(i + 1).last() == vals@[i as int]);
        }
        let v = vals[i];
        let mut k: usize = 0;
        while k < nb && !((k == 0 || bounds[k] < v) && (k + 1 >= nb || v <= bounds[k + 1]))
            invariant
                nb == bounds@.len(),
                0 <= k <= nb,
                forall|q: int| 0 <= q < k ==> !in_range(v, bounds@, q),
            decreases nb - k,
        {
            k = k + 1;
        }
        if k < nb {
            let old_c = c[k];
            c.set(k, old_c + 1);
            proof {
                assert forall|q: int| 0 <= q < nb && q != k implies !in_range(v, bounds@, q) by {
                    if q > k {
                        assert(bounds@[k + 1] <= bounds@[q]);
                    }
                }
            }
        }
        i = i + 1;
    }
    assert(vals@.take(vals@.len() as int) =~= vals@);
    c
}

/// How many of the given requests have size `sz`.
pub open spec fn size_count(rs: Seq<StatView>, ms: Seq<int>, sz: u32) -> nat
    decreases ms.len(),
{
    if ms.len() == 0 {
        0
    } else {
        size_count(rs, ms.drop_last(), sz) + if rs[ms.last()].size == sz {
            1nat
        } else {
            0nat
        }
    }
}

proof fn lemma_size_count_none(rs: Seq<StatView>, ms: Seq<int>, sz: u32)
    requires
        forall|k: int| 0 <= k < ms.len() ==> rs[ms[k]].size != sz,
    ensures
        size_count(rs, ms, sz) == 0,
    decreases ms.len(),
{
    if ms.len() > 0 {
        lemma_size_count_none(rs, ms.drop_last(), sz);
    }
}

/// The sizes of the given requests, ascending, each with how many requests
/// have it.
pub open spec fn is_size_distribution(rs: Seq<StatView>, ms: Seq<int>, d: Seq<(u32, usize)>) -> bool {
    &&& forall|a: int, b: int| 0 <= a < b < d.len() ==> (#[trigger] d[a]).0 < (#[trigger] d[b]).0
    &&& forall|a: int| 0 <= a < d.len() ==> (#[trigger] d[a]).1 == size_count(rs, ms, d[a].0) && d[a].1 > 0
    &&& forall|k: int|
        0 <= k < ms.len() ==> exists|a: int| 0 <= a < d.len() && (#[trigger] d[a]).0 == rs[#[trigger] ms[k]].size
}

/// The size distribution of the given requests.
pub fn size_counts(rs: &[StatRecord], members: &[usize]) -> (d: Vec<(u32, usize)>)
    requires
        members_ok(stat_views(rs@), usize_seq_as_int(members@)),
    ensures
        is_size_distribution(stat_views(rs@), usize_seq_as_int(members@), d@),
{
    let ghost vs = stat_views(rs@);
    let ghost ms = usize_seq_as_int(members@);
    let mut d: Vec<(u32, usize)> = Vec::new();
    let mut k: usize = 0;
    while k < members.len()
        invariant
            vs == stat_views(rs@),
            ms == usize_seq_as_int(members@),
            members_ok(vs, ms),
            0 <= k <= members@.len(),
            is_size_distribution(vs, ms.take(k as int), d@),
            forall|a: int| 0 <= a < d@.len() ==> (#[trigger] d@[a]).1 <= k,
        decreases members@.len() - k,
    {
        let ghost pm = ms.take(k as int);
        let ghost od = d@;
        proof {
            assert(ms.take(k + 1).drop_last() =~= pm);
            assert(ms.take(k + 1).last() == ms[k as int]);
            assert(0 <= ms[k as int] < vs.len());
        }
        let sz = rs[members[k]].size;
        let mut p: usize = 0;
        while p < d.len() && d[p].0 < sz
            invariant
                0 <= p <= d@.len(),
                d@ == od,
                forall|q: int| 0 <= q < p ==> (#[trigger] od[q]).0 < sz,
            decreases d@.len() - p,
        {
            p = p + 1;
        }
        if p < d.len() && d[p].0 == sz {
            let cnt = d[p].1;
            d.set(p, (sz, cnt + 1));
            proof {
                assert forall|a: int| 0 <= a < d@.len() implies (#[trigger] d@[a]).1 == size_count(
                    vs,
                    ms.take(k + 1),
                    d@[a].0,
                ) && d@[a].1 > 0 by {
                    assert(d@[a].0 == od[a].0);
                }
                assert forall|j: int| 0 <= j < k + 1 implies exists|a: int|
                    0 <= a < d@.len() && (#[trigger] d@[a]).0 == vs[#[trigger] ms.take(k + 1)[j]].size by {
                    if j < k {
                        assert(ms.take(k + 1)[j] == pm[j]);
                        let a = choose|a: int| 0 <= a < od.len() && (#[trigger] od[a]).0 == vs[pm[j]].size;
                        assert(d@[a].0 == od[a].0);
                    } else {
                        assert(d@[p as int].0 == sz);
                    }
                }
            }
        } else {
            proof {
                assert forall|j: int| 0 <= j < pm.len() implies vs[pm[j]].size != sz by {
                    let a = choose|a: int| 0 <= a < od.len() && (#[trigger] od[a]).0 == vs[pm[j]].size;
                    if a >= p && p < od.len() {
                        assert(od[p as int].0 <= od[a].0);
                    }
                }
                lemma_size_count_none(vs, pm, sz);
            }
            d.insert(p, (sz, 1));
            proof {
                assert(d@ =~= od.insert(p as int, (sz, 1usize)));
                assert forall|a: int, b: int| 0 <= a < b < d@.len() implies (#[trigger] d@[a]).0 < (
                #[trigger] d@[b]).0 by {
                    if a < p && b > p {
                        assert(od[a].0 < sz);
                        if b - 1 > p {
                            assert(od[p as int].0 < od[b - 1].0);
                        }
                    } else if a == p && b - 1 > p {
                        assert(od[p as int].0 < od[b - 1].0);
                    }
                }
                assert forall|a: int| 0 <= a < d@.len() implies (#[trigger] d@[a]).1 == size_count(
                    vs,
                    ms.take(k + 1),
                    d@[a].0,
                ) && d@[a].1 > 0 by {
                    if a != p {
                        let oa = if a < p { a } else { a - 1 };
                        assert(d@[a] == od[oa]);
                        if od[oa].0 == sz {
                            if oa >= p {
                                assert(false);
                            }
                        }
                    }
                }
                assert forall|j: int| 0 <= j < k + 1 implies exists|a: int|
                    0 <= a < d@.len() && (#[trigger] d@[a]).0 == vs[#[trigger] ms.take(k + 1)[j]].size by {
                    if j < k {
                        assert(ms.take(k + 1)[j] == pm[j]);
                        let a = choose|a: int| 0 <= a < od.len() && (#[trigger] od[a]).0 == vs[pm[j]].size;
                        if a < p {
                            assert(d@[a] == od[a]);
                        } else {
                            assert(d@[a + 1] == od[a]);
                        }
                    } else {
                        assert(d@[p as int].0 == sz);
                    }
                }
            }
        }
        k = k + 1;
    }
    proof {
        assert(ms.take(members@.len() as int) =~= ms);
    }
    d
}

// ---------------------------------------------------------------------------
// Latency ranges
// ---------------------------------------------------------------------------

/// Ranges of latencies: range `k` holds the values above `bounds[k]` and,
/// but for the last, at most `bounds[k + 1]`; `labels[k]` names it.
pub struct LatencyRanges {
    pub bounds: Vec<u64>,
    pub labels: Vec<String>,
}

pub open spec fn default_bounds() -> Seq<u64> {
    seq![
        0u64,
        100_000,
        500_000,
        1_000_000,
        5_000_000,
        10_000_000,
        50_000_000,
        100_000_000,
        500_000_000,
        1_000_000_000,
        5_000_000_000,
        10_000_000_000,
        50_000_000_000,
        100_000_000_000,
        500_000_000_000,
        1_000_000_000_000,
    ]
}

pub open spec fn default_labels() -> Seq<Seq<char>> {
    seq![
        "≤ 0.1ms"@,
        "0.1ms < v ≤ 0.5ms"@,
        "0.5ms < v ≤ 1ms"@,
        "1ms < v ≤ 5ms"@,
        "5ms < v ≤ 10ms"@,
        "10ms < v ≤ 50ms"@,
        "50ms < v ≤ 100ms"@,
        "100ms < v ≤ 500ms"@,
        "500ms < v ≤ 1s"@,
        "1s < v ≤ 5s"@,
        "5s < v ≤ 10s"@,
        "10s < v ≤ 50s"@,
        "50s < v ≤ 100s"@,
        "100s < v ≤ 500s"@,
        "500s < v ≤ 1000s"@,
        "> 1000s"@,
    ]
}

pub open spec fn labels_view(v: Seq<String>) -> Seq<Seq<char>> {
    Seq::new(v.len(), |i: int| v[i]@)
}

fn push_label(v: &mut Vec<String>, t: &str)
    ensures
        labels_view(final(v)@) == labels_view(old(v)@).push(t@),
{
    let mut s = String::new();
    crate::text::push_text(&mut s, t);
    v.push(s);
    assert(labels_view(v@) =~= labels_view(old(v)@).push(t@));
}

/// The ranges used when the user gave none, in nanoseconds.
pub fn default_latency_ranges() -> (r: LatencyRanges)
    ensures
        r.bounds@ == default_bounds(),
        labels_view(r.labels@) == default_labels(),
{
    let mut bounds: Vec<u64> = Vec::new();
    bounds.push(0);
    bounds.push(100_000);
    bounds.push(500_000);
    bounds.push(1_000_000);
    bounds.push(5_000_000);
    bounds.push(10_000_000);
    bounds.push(50_000_000);
    bounds.push(100_000_000);
    bounds.push(500_000_000);
    bounds.push(1_000_000_000);
    bounds.push(5_000_000_000);
    bounds.push(10_000_000_000);
    bounds.push(50_000_000_000);
    bounds.push(100_000_000_000);
    bounds.push(500_000_000_000);
    bounds.push(1_000_000_000_000);
    let mut labels: Vec<String> = Vec::new();
    assert(labels_view(labels@) =~= Seq::<Seq<char>>::empty());
    push_label(&mut labels, "≤ 0.1ms");
    push_label(&mut labels, "0.1ms < v ≤ 0.5ms");
    push_label(&mut labels, "0.5ms < v ≤ 1ms");
    push_label(&mut labels, "1ms < v ≤ 5ms");
    push_label(&mut labels, "5ms < v ≤ 10ms");
    push_label(&mut labels, "10ms < v ≤ 50ms");
    push_label(&mut labels, "50ms < v ≤ 100ms");
    push_label(&mut labels, "100ms < v ≤ 500ms");
    push_label(&mut labels, "500ms < v ≤ 1s");
    push_label(&mut labels, "1s < v ≤ 5s");
    push_label(&mut labels, "5s < v ≤ 10s");
    push_label(&mut labels, "10s < v ≤ 50s");
    push_label(&mut labels, "50s < v ≤ 100s");
    push_label(&mut labels, "100s < v ≤ 500s");
    push_label(&mut labels, "500s < v ≤ 1000s");
    push_label(&mut labels, "> 1000s");
    assert(bounds@ =~= default_bounds());
    assert(labels_view(labels@) =~= default_labels());
    LatencyRanges { bounds, labels }
}

/// The six digits of a fraction below one million, zero-padded.
pub open spec fn six_digits(f: nat) -> Seq<char> {
    Seq::new(6, |i: int| digit_char(((f / crate::text::pow10((5 - i) as nat)) % 10) as nat))
}

/// `s` without its trailing zeros.
pub open spec fn strip_zeros(s: Seq<char>) -> Seq<char>
    decreases s.len(),
{
    if s.len() > 0 && s.last() == '0' {
        strip_zeros(s.drop_last())
    } else {
        s
    }
}

/// A number of nanoseconds written in milliseconds: the whole part, and
/// the fraction without trailing zeros when there is one.
pub open spec fn ms_text(ns: u64) -> Seq<char> {
    let whole = (ns / 1_000_000) as nat;
    let frac = (ns % 1_000_000) as nat;
    if frac == 0 {
        dec_digits(whole)
    } else {
        dec_digits(whole) + seq!['.'] + strip_zeros(six_digits(frac))
    }
}

fn push_ms(s: &mut String, ns: u64)
    ensures
        final(s)@ == old(s)@ + ms_text(ns),
{
    push_decimal(s, ns / 1_000_000);
    let frac = ns % 1_000_000;
    if frac != 0 {
        let mut digits: Vec<char> = Vec::new();
        let mut div: u64 = 100_000;
        let mut i: usize = 0;
        proof {
            reveal_with_fuel(crate::text::pow10, 7);
        }
        while i < 6
            invariant
                0 <= i <= 6,
                frac < 1_000_000,
                div == crate::text::pow10((5 - i) as nat) || i == 6,
                i < 6 ==> div > 0,
                digits@ == six_digits(frac as nat).take(i as int),
            decreases 6 - i,
        {
            proof {
                reveal_with_fuel(crate::text::pow10, 7);
            }
            let d = (frac / div) % 10;
            digits.push(digit_of(d));
            assert(digits@ =~= six_digits(frac as nat).take(i + 1));
            if i < 5 {
                div = div / 10;
            }
            i = i + 1;
        }
        let mut e: usize = 6;
        assert(digits@.take(6) =~= digits@);
        assert(digits@ =~= six_digits(frac as nat));
        while e > 0 && digits[e - 1] == '0'
            invariant
                0 <= e <= 6,
                digits@.len() == 6,
                strip_zeros(digits@) == strip_zeros(digits@.take(e as int)),
            decreases e,
        {
            assert(digits@.take(e as int).drop_last() =~= digits@.take(e - 1));
            e = e - 1;
        }
        push_char(s, '.');
        let mut k: usize = 0;
        let ghost base = s@;
        while k < e
            invariant
                0 <= k <= e <= 6,
                digits@.len() == 6,
                s@ == base + digits@.take(k as int),
            decreases e - k,
        {
            push_char(s, digits[k]);
            assert(digits@.take(k + 1) =~= digits@.take(k as int).push(digits@[k as int]));
            k = k + 1;
        }
        proof {
            assert(strip_zeros(digits@.take(e as int)) == digits@.take(e as int));
            assert(s@ =~= old(s)@ + ms_text(ns));
        }
    }
}

/// The label of range `k` of user bounds `[0, r0, r1, ...]`.
pub open spec fn user_label(bounds: Seq<u64>, k: int) -> Seq<char> {
    if k == 0 {
        "≤ "@ + ms_text(bounds[1]) + "ms"@
    } else if k + 1 < bounds.len() {
        ms_text(bounds[k]) + "ms < v ≤ "@ + ms_text(bounds[k + 1]) + "ms"@
    } else {
        "> "@ + ms_text(bounds[k]) + "ms"@
    }
}

/// The ranges for user bounds `ranges` (nanoseconds, ascending): up to the
/// first, between each two, and above the last.
pub fn user_latency_ranges(ranges: &[u64]) -> (r: LatencyRanges)
    requires
        ranges@.len() > 0,
        forall|a: int, b: int| 0 <= a < b < ranges@.len() ==> #[trigger] ranges@[a] < #[trigger] ranges@[b],
    ensures
        r.bounds@ == seq![0u64] + ranges@,
        labels_view(r.labels@).len() == r.bounds@.len(),
        forall|k: int| 0 <= k < r.bounds@.len() ==> #[trigger] labels_view(r.labels@)[k] == user_label(r.bounds@, k),
        bounds_ascending(r.bounds@),
{
    let mut bounds: Vec<u64> = Vec::new();
    bounds.push(0);
    let mut i: usize = 0;
    while i < ranges.len()
        invariant
            0 <= i <= ranges@.len(),
            bounds@ == seq![0u64] + ranges@.take(i as int),
        decreases ranges@.len() - i,
    {
        bounds.push(ranges[i]);
        assert(bounds@ =~= seq![0u64] + ranges@.take(i + 1));
        i = i + 1;
    }
    assert(ranges@.take(ranges@.len() as int) =~= ranges@);
    let ghost bv = bounds@;
    let n = bounds.len();
    let mut labels: Vec<String> = Vec::new();
    let mut k: usize = 0;
    while k < n
        invariant
            bv == bounds@,
            n == bv.len(),
            n >= 2,
            0 <= k <= n,
            labels_view(labels@).len() == k,
            forall|q: int| 0 <= q < k ==> #[trigger] labels_view(labels@)[q] == user_label(bv, q),
        decreases n - k,
    {
        let mut s = String::new();
        if k == 0 {
            crate::text::push_text(&mut s, "≤ ");
            push_ms(&mut s, bounds[1]);
            crate::text::push_text(&mut s, "ms");
        } else if k + 1 < n {
            push_ms(&mut s, bounds[k]);
            crate::text::push_text(&mut s, "ms < v ≤ ");
            push_ms(&mut s, bounds[k + 1]);
            crate::text::push_text(&mut s, "ms");
        } else {
            crate::text::push_text(&mut s, "> ");
            push_ms(&mut s, bounds[k]);
            crate::text::push_text(&mut s, "ms");
        }
        assert(s@ =~= user_label(bv, k as int));
        let ghost old_labels = labels@;
        let ghost sv = s@;
        labels.push(s);
        assert forall|q: int| 0 <= q < k + 1 implies #[trigger] labels_view(labels@)[q] == user_label(bv, q) by {
            if q < k {
                assert(labels@[q] == old_labels[q]);
                assert(labels_view(old_labels)[q] == user_label(bv, q));
            } else {
                assert(labels@[q]@ == sv);
            }
        }
        k = k + 1;
    }
    assert forall|a: int, b: int| 0 <= a <= b < bv.len() implies #[trigger] bv[a] <= #[trigger] bv[b] by {
        if a > 0 && a < b {
            assert(bv[a] == ranges@[a - 1]);
            assert(bv[b] == ranges@[b - 1]);
        }
    }
    LatencyRanges { bounds, labels }
}

/// The counts of the first `n` ranges, added up.
pub open spec fn counts_total(vals: Seq<u64>, bounds: Seq<u64>, n: int) -> nat
    decreases n,
{
    if n <= 0 {
        0
    } else {
        counts_total(vals, bounds, n - 1) + range_count(vals, bounds, n - 1)
    }
}

/// In how many of the first `n` ranges `v` falls.
pub open spec fn ranges_holding(v: u64, bounds: Seq<u64>, n: int) -> nat
    decreases n,
{
    if n <= 0 {
        0
    } else {
        ranges_holding(v, bounds, n - 1) + if in_range(v, bounds, n - 1) {
            1nat
        } else {
            0nat
        }
    }
}

proof fn lemma_ranges_holding(v: u64, bounds: Seq<u64>, n: int)
    requires
        bounds_ascending(bounds),
        0 <= n <= bounds.len(),
        bounds.len() > 0,
    ensures
        0 < n < bounds.len() ==> ranges_holding(v, bounds, n) == if v <= bounds[n] {
            1nat
        } else {
            0nat
        },
        n == bounds.len() ==> ranges_holding(v, bounds, n) == 1,
    decreases n,
{
    if n == 1 {
        assert(ranges_holding(v, bounds, 0) == 0);
    } else if n > 1 {
        lemma_ranges_holding(v, bounds, n - 1);
        if n < bounds.len() {
            assert(bounds[n - 1] <= bounds[n]);
        }
    }
}

proof fn lemma_counts_total_push(vals: Seq<u64>, v: u64, bounds: Seq<u64>, n: int)
    requires
        0 <= n <= bounds.len(),
    ensures
        counts_total(vals.push(v), bounds, n) == counts_total(vals, bounds, n) + ranges_holding(v, bounds, n),
    decreases n,
{
    if n > 0 {
        lemma_counts_total_push(vals, v, bounds, n - 1);
        assert(vals.push(v).drop_last() =~= vals);
    }
}

/// With ascending bounds the ranges do not overlap and leave no gap: every
/// value, zero included, is counted in exactly one range.
pub proof fn law_ranges_partition(vals: Seq<u64>, bounds: Seq<u64>)
    requires
        bounds_ascending(bounds),
        bounds.len() > 0,
    ensures
        counts_total(vals, bounds, bounds.len() as int) == vals.len(),
    decreases vals.len(),
{
    if vals.len() == 0 {
        assert forall|n: int| 0 <= n <= bounds.len() implies counts_total(vals, bounds, n) == 0 by {
            lemma_counts_total_zero(vals, bounds, n);
        }
    } else {
        let d = vals.drop_last();
        law_ranges_partition(d, bounds);
        assert(d.push(vals.last()) =~= vals);
        lemma_counts_total_push(d, vals.last(), bounds, bounds.len() as int);
        lemma_ranges_holding(vals.last(), bounds, bounds.len() as int);
    }
}

proof fn lemma_counts_total_zero(vals: Seq<u64>, bounds: Seq<u64>, n: int)
    requires
        vals.len() == 0,
    ensures
        counts_total(vals, bounds, n) == 0,
    decreases n,
{
    if n > 0 {
        lemma_counts_total_zero(vals, bounds, n - 1);
    }
}

proof fn lemma_members_of_contains(rs: Seq<StatView>, t: Seq<char>, act: Option<Seq<char>>, i: int)
    ensures
        members_of(rs, t, act).contains(i) <==> (0 <= i < rs.len() && selected(rs[i], act)
            && rs[i].req_type == t),
    decreases rs.len(),
{
    if rs.len() > 0 {
        let d = rs.drop_last();
        lemma_members_of_contains(d, t, act, i);
        let m = members_of(d, t, act);
        if selected(rs.last(), act) && rs.last().req_type == t {
            if m.push(rs.len() - 1).contains(i) {
                if i != rs.len() - 1 {
                    let k = choose|k: int| 0 <= k < m.push(rs.len() - 1).len() && #[trigger] m.push(rs.len() - 1)[k] == i;
                    assert(m[k] == i);
                }
            }
            if i == rs.len() - 1 {
                assert(m.push(rs.len() - 1)[m.len() as int] == i);
            } else if m.contains(i) {
                let k = choose|k: int| 0 <= k < m.len() && #[trigger] m[k] == i;
                assert(m.push(rs.len() - 1)[k] == i);
            }
        }
    }
}

/// Grouping by type sorts each selected request into the group of its type
/// and into no other; requests not selected are in no group.
pub proof fn law_grouping_partitions(rs: Seq<StatView>, act: Option<Seq<char>>, gs: Seq<TypeGroup>, g: int, i: int)
    requires
        is_type_grouping(rs, act, gs),
        0 <= g < gs.len(),
    ensures
        usize_seq_as_int(gs[g].members@).contains(i) <==> (0 <= i < rs.len() && selected(rs[i], act)
            && rs[i].req_type == gs[g].req_type@),
        0 <= i < rs.len() && selected(rs[i], act) ==> exists|h: int|
            0 <= h < gs.len() && #[trigger] group_names(gs)[h] == rs[i].req_type,
{
    assert(usize_seq_as_int(gs[g].members@) == members_of(rs, gs[g].req_type@, act));
    lemma_members_of_contains(rs, gs[g].req_type@, act, i);
}

// ---------------------------------------------------------------------------
// Counting texts
// ---------------------------------------------------------------------------

pub open spec fn texts_view(v: Seq<String>) -> Seq<Seq<char>> {
    Seq::new(v.len(), |i: int| v[i]@)
}

/// How many of the texts hold `needle`.
pub open spec fn holding_count(ts: Seq<Seq<char>>, needle: Seq<char>) -> nat
    decreases ts.len(),
{
    if ts.len() == 0 {
        0
    } else {
        holding_count(ts.drop_last(), needle) + if contains_seq(ts.last(), needle) {
            1nat
        } else {
            0nat
        }
    }
}

/// How many of the texts hold `needle` (such as opcodes holding `READ`).
pub fn count_containing(texts: &[String], needle: &str) -> (n: usize)
    ensures
        n == holding_count(texts_view(texts@), needle@),
{
    let ghost tv = texts_view(texts@);
    let nd = chars_of(needle);
    let mut n: usize = 0;
    let mut i: usize = 0;
    while i < texts.len()
        invariant
            tv == texts_view(texts@),
            nd@ == needle@,
            0 <= i <= texts@.len(),
            n == holding_count(tv.take(i as int), needle@),
            n <= i,
        decreases texts@.len() - i,
    {
        proof {
            assert(tv.take(i + 1).drop_last() =~= tv.take(i as int));
            assert(tv.take(i + 1).last() == texts@[i as int]@);
        }
        let t = chars_of(texts[i].as_str());
        if contains_exec(t.as_slice(), nd.as_slice()) {
            n = n + 1;
        }
        i = i + 1;
    }
    assert(tv.take(texts@.len() as int) =~= tv);
    n
}

// ---------------------------------------------------------------------------
// Opcode names
// ---------------------------------------------------------------------------

/// The SCSI name of a UFS opcode, or the opcode itself when it has none.
pub open spec fn opcode_name(op: Seq<char>) -> Seq<char> {
    if op == "0x28"@ {
        "READ_10"@
    } else if op == "0x2a"@ {
        "WRITE_10"@
    } else if op == "0x35"@ {
        "SYNCHRONIZE_CACHE_10"@
    } else if op == "0x42"@ {
        "UNMAP"@
    } else {
        op
    }
}

pub fn get_ufs_opcode_name(opcode: &str) -> (r: String)
    ensures
        r@ == opcode_name(opcode@),
{
    let name: &str = if seq_eq_str(opcode, "0x28") {
        "READ_10"
    } else if seq_eq_str(opcode, "0x2a") {
        "WRITE_10"
    } else if seq_eq_str(opcode, "0x35") {
        "SYNCHRONIZE_CACHE_10"
    } else if seq_eq_str(opcode, "0x42") {
        "UNMAP"
    } else {
        opcode
    };
    let mut r = String::new();
    crate::text::push_text(&mut r, name);
    assert(r@ =~= opcode_name(opcode@));
    r
}

} // verus!

//! Reading a whole custom UFS trace (`opcode,lba,size,start_time,end_time`
//! lines): the header, comments and blank lines are skipped, and so are
//! lines of another shape.
use vstd::prelude::*;
use crate::align::{block_alignment_ok, AlignmentConfig};
use crate::benchmark::{lines_from, strings_view, text_lines, text_lines_spec};
use crate::scan::{lemma_run_end, run_end, CharClass};
use crate::custom_latency::custom_views;
use crate::log_common::{custom_header, custom_line_record, parse_ufscustom_event, RecordView};
use crate::models::{UfsCustomView, UFSCUSTOM};
use crate::text::{chars_of, starts_with};

verus! {

/// The records of the lines that the custom reader accepts, in order.
pub open spec fn custom_accepted(ls: Seq<Seq<char>>, config: AlignmentConfig) -> Seq<UfsCustomView>
    decreases ls.len(),
{
    if ls.len() == 0 {
        Seq::empty()
    } else {
        let r = custom_accepted(ls.drop_last(), config);
        match custom_line_record(ls.last(), config) {
            Some(RecordView::Custom(u)) => r.push(u),
            _ => r,
        }
    }
}

proof fn lemma_lines_bound(s: Seq<char>, i: int)
    requires
        0 <= i,
    ensures
        lines_from(s, i).len() <= if i < s.len() { s.len() - i } else { 0 },
    decreases s.len() - i,
{
    if i < s.len() {
        let p = run_end(s, i, CharClass::NotNewline);
        lemma_run_end(s, i, CharClass::NotNewline);
        if p < s.len() {
            lemma_lines_bound(s, p + 1);
        }
    }
}

/// What reading a custom trace gave.
pub struct CustomContent {
    pub traces: Vec<UFSCUSTOM>,
    pub total_lines: usize,
    pub parsed_lines: usize,
    /// Lines not read as records; a header on the first line is counted
    /// twice, once when it is recognised up front and once when it is
    /// passed over.
    pub skipped_lines: usize,
}

/// Reads every line of a custom UFS trace.
pub fn process_ufscustom_content(content: &str, config: &AlignmentConfig) -> (r: CustomContent)
    requires
        block_alignment_ok(*config),
        content@.len() < usize::MAX,
    ensures
        r.total_lines == text_lines_spec(content@).len(),
        custom_views(r.traces@) == custom_accepted(text_lines_spec(content@), *config),
        r.parsed_lines == r.traces@.len(),
        r.skipped_lines == r.total_lines - r.parsed_lines + if text_lines_spec(content@).len() > 0
            && starts_with(text_lines_spec(content@)[0], custom_header()) {
            1int
        } else {
            0int
        },
{
    let lines = text_lines(content);
    let ghost ls = text_lines_spec(content@);
    proof {
        lemma_lines_bound(content@, 0);
    }
    let mut header: usize = 0;
    if lines.len() > 0 {
        let first = chars_of(lines[0].as_str());
        let h = chars_of("opcode,lba,size,start_time,end_time");
        if first.len() >= h.len() && crate::text::occurs_at_exec(first.as_slice(), 0, h.as_slice()) {
            header = 1;
        }
        assert(strings_view(lines@)[0] == lines@[0]@);
    }
    assert(header == (if ls.len() > 0 && starts_with(ls[0], custom_header()) { 1int } else { 0int }));
    let mut traces: Vec<UFSCUSTOM> = Vec::new();
    let mut i: usize = 0;
    while i < lines.len()
        invariant
            block_alignment_ok(*config),
            strings_view(lines@) == ls,
            0 <= i <= lines@.len(),
            custom_views(traces@) == custom_accepted(ls.take(i as int), *config),
            traces@.len() <= i,
            header == 1 ==> ls.len() > 0 && starts_with(ls[0], custom_header()),
            header == 1 && i >= 1 ==> traces@.len() < i,
            header <= 1,
        decreases lines@.len() - i,
    {
        proof {
            assert(ls.take(i + 1).drop_last() =~= ls.take(i as int));
            assert(ls.take(i + 1).last() == lines@[i as int]@);
        }
        match parse_ufscustom_event(lines[i].as_str(), config) {
            Ok(u) => {
                let ghost before = traces@;
                traces.push(u);
                assert(custom_views(traces@) =~= custom_views(before).push(u@));
            },
            Err(_) => {},
        }
        i = i + 1;
    }
    proof {
        assert(ls.take(lines@.len() as int) =~= ls);
    }
    let parsed = traces.len();
    let total = lines.len();
    CustomContent { traces, total_lines: total, parsed_lines: parsed, skipped_lines: total - parsed + header }
}

} // verus!

//! The decisions of following a growing log: lines are read in batches and
//! their records kept by kind; the accumulated records are written out once
//! enough lines were read or enough time passed; and only the most recent
//! records are kept when too many pile up.  Reading the file, waiting and
//! writing are the caller's.
use vstd::prelude::*;
use crate::align::{block_alignment_ok, AlignmentConfig};
use crate::chunk::{block_seq_view, collect_records, custom_seq_view, lemma_collect_push, ufs_seq_view};
use crate::log_common::{full_record, process_line, RecordView};
use crate::models::{Block, UFS, UFSCUSTOM};

verus! {

broadcast use vstd::string::group_string_axioms;

/// Lines read before the accumulated records are written out.
pub const FLUSH_LINES: u64 = 100_000;
/// Time after which the accumulated records are written out, nanoseconds.
pub const FLUSH_INTERVAL_NS: u64 = 5_000_000_000;
/// Records of one kind above which the oldest are dropped.
pub const MAX_TRACES: usize = 20_000;
/// Records of one kind kept after dropping.
pub const TARGET_TRACES: usize = 15_000;

/// The state of a followed log.
pub struct StreamingProcessor {
    pub block_traces: Vec<Block>,
    pub ufs_traces: Vec<UFS>,
    pub ufscustom_traces: Vec<UFSCUSTOM>,
    /// Lines read since the records were last written out.
    pub parsed_lines: u64,
    /// When the records were last written out, nanoseconds.
    pub last_processed_time: u64,
    pub output_prefix: Option<String>,
}

/// What the full reader makes of each line.
pub open spec fn full_readings(lines: Seq<String>, config: AlignmentConfig) -> Seq<Option<RecordView>> {
    Seq::new(lines.len(), |i: int| full_record(lines[i]@, config))
}

/// The most recent records when there are too many.
pub open spec fn trimmed_traces<T>(s: Seq<T>) -> Seq<T> {
    if s.len() > MAX_TRACES {
        s.subrange(s.len() - TARGET_TRACES, s.len() as int)
    } else {
        s
    }
}

/// After trimming, no kind holds more than `MAX_TRACES` records, and what
/// is kept is the most recent part of what was there.
pub proof fn law_trim_keeps_recent<T>(s: Seq<T>)
    ensures
        trimmed_traces(s).len() <= MAX_TRACES,
        trimmed_traces(s).len() <= s.len(),
        trimmed_traces(s) == s.subrange(s.len() - trimmed_traces(s).len(), s.len() as int),
{
    assert(s.subrange(0, s.len() as int) =~= s);
}

fn trim_front<T>(v: &mut Vec<T>)
    ensures
        final(v)@ == trimmed_traces(old(v)@),
{
    if v.len() > MAX_TRACES {
        let remove = v.len() - TARGET_TRACES;
        let kept = v.split_off(remove);
        *v = kept;
    }
}

impl StreamingProcessor {
    /// A processor with no records, last written out at `now`.
    pub fn new(output_prefix: Option<&str>, now: u64) -> (p: Self)
        ensures
            p.block_traces@.len() == 0,
            p.ufs_traces@.len() == 0,
            p.ufscustom_traces@.len() == 0,
            p.parsed_lines == 0,
            p.last_processed_time == now,
            match output_prefix {
                Some(s) => p.output_prefix matches Some(o) && o@ == s@,
                None => p.output_prefix is None,
            },
    {
        let prefix = match output_prefix {
            Some(s) => Some(s.to_owned()),
            None => None,
        };
        StreamingProcessor {
            block_traces: Vec::new(),
            ufs_traces: Vec::new(),
            ufscustom_traces: Vec::new(),
            parsed_lines: 0,
            last_processed_time: now,
            output_prefix: prefix,
        }
    }

    /// Reads a batch of lines, adding their records after those kept, by
    /// kind and in order, and counts the lines.
    pub fn process_batch(&mut self, lines: &Vec<String>, config: &AlignmentConfig)
        requires
            block_alignment_ok(*config),
            old(self).parsed_lines + lines@.len() <= u64::MAX,
        ensures
            ufs_seq_view(final(self).ufs_traces@) == ufs_seq_view(old(self).ufs_traces@)
                + collect_records(full_readings(lines@, *config)).0,
            block_seq_view(final(self).block_traces@) == block_seq_view(old(self).block_traces@)
                + collect_records(full_readings(lines@, *config)).1,
            custom_seq_view(final(self).ufscustom_traces@) == custom_seq_view(old(self).ufscustom_traces@)
                + collect_records(full_readings(lines@, *config)).2,
            final(self).parsed_lines == old(self).parsed_lines + lines@.len(),
            final(self).last_processed_time == old(self).last_processed_time,
    {
        let ghost ls = lines@;
        let ghost u0 = ufs_seq_view(self.ufs_traces@);
        let ghost b0 = block_seq_view(self.block_traces@);
        let ghost c0 = custom_seq_view(self.ufscustom_traces@);
        let mut i: usize = 0;
        while i < lines.len()
            invariant
                ls == lines@,
                0 <= i <= ls.len(),
                block_alignment_ok(*config),
                self.parsed_lines == old(self).parsed_lines,
                self.last_processed_time == old(self).last_processed_time,
                ufs_seq_view(self.ufs_traces@) == u0 + collect_records(full_readings(ls, *config).take(i as int)).0,
                block_seq_view(self.block_traces@) == b0 + collect_records(full_readings(ls, *config).take(i as int)).1,
                custom_seq_view(self.ufscustom_traces@) == c0 + collect_records(full_readings(ls, *config).take(i as int)).2,
            decreases ls.len() - i,
        {
            let ghost before = full_readings(ls, *config).take(i as int);
            assert(full_readings(ls, *config).take(i + 1) =~= before.push(full_readings(ls, *config)[i as int]));
            proof {
                lemma_collect_push(before, full_readings(ls, *config)[i as int]);
            }
            let ghost ou = ufs_seq_view(self.ufs_traces@);
            let ghost ob = block_seq_view(self.block_traces@);
            let ghost oc = custom_seq_view(self.ufscustom_traces@);
            match process_line(lines[i].as_str(), config) {
                Some((Some(u), None, None)) => {
                    self.ufs_traces.push(u);
                    assert(ufs_seq_view(self.ufs_traces@) =~= ou.push(u@));
                },
                Some((None, Some(b), None)) => {
                    self.block_traces.push(b);
                    assert(block_seq_view(self.block_traces@) =~= ob.push(b@));
                },
                Some((None, None, Some(c))) => {
                    self.ufscustom_traces.push(c);
                    assert(custom_seq_view(self.ufscustom_traces@) =~= oc.push(c@));
                },
                _ => {},
            }
            assert(ufs_seq_view(self.ufs_traces@) =~= u0 + collect_records(full_readings(ls, *config).take(i + 1)).0);
            assert(block_seq_view(self.block_traces@) =~= b0 + collect_records(full_readings(ls, *config).take(i + 1)).1);
            assert(custom_seq_view(self.ufscustom_traces@) =~= c0 + collect_records(full_readings(ls, *config).take(i + 1)).2);
            i = i + 1;
        }
        assert(full_readings(ls, *config).take(ls.len() as int) =~= full_readings(ls, *config));
        self.parsed_lines = self.parsed_lines + lines.len() as u64;
    }

    /// Lines read since the records were last written out.
    pub fn get_parsed_lines(&self) -> (n: u64)
        ensures
            n == self.parsed_lines,
    {
        self.parsed_lines
    }

    /// Whether to write the records out at time `now`: some lines were
    /// read, and either many lines or a long enough time passed.
    pub fn should_process(&self, now: u64) -> (b: bool)
        ensures
            b == (self.parsed_lines > 0 && (self.parsed_lines >= FLUSH_LINES || now
                - self.last_processed_time >= FLUSH_INTERVAL_NS)),
    {
        self.parsed_lines > 0 && (self.parsed_lines >= FLUSH_LINES || (now >= self.last_processed_time
            && now - self.last_processed_time >= FLUSH_INTERVAL_NS))
    }

    /// Notes that the records were written out at `now`, and drops the
    /// oldest records of each kind that has too many.
    pub fn mark_processed(&mut self, now: u64)
        ensures
            final(self).parsed_lines == 0,
            final(self).last_processed_time == now,
            final(self).ufs_traces@ == trimmed_traces(old(self).ufs_traces@),
            final(self).block_traces@ == trimmed_traces(old(self).block_traces@),
            final(self).ufscustom_traces@ == trimmed_traces(old(self).ufscustom_traces@),
    {
        self.manage_memory();
        self.parsed_lines = 0;
        self.last_processed_time = now;
    }

    /// Keeps only the most recent records of each kind that has too many.
    pub fn manage_memory(&mut self)
        ensures
            final(self).ufs_traces@ == trimmed_traces(old(self).ufs_traces@),
            final(self).block_traces@ == trimmed_traces(old(self).block_traces@),
            final(self).ufscustom_traces@ == trimmed_traces(old(self).ufscustom_traces@),
            final(self).parsed_lines == old(self).parsed_lines,
            final(self).last_processed_time == old(self).last_processed_time,
    {
        trim_front(&mut self.block_traces);
        trim_front(&mut self.ufs_traces);
        trim_front(&mut self.ufscustom_traces);
    }
}

} // verus!

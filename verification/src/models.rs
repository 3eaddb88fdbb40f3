//! Trace records and trace kinds.
//!
//! Times are whole nanoseconds since the trace clock's origin, and latencies
//! are whole nanoseconds: the logs give times as decimal seconds, which are
//! read exactly down to the nanosecond.
use vstd::prelude::*;
use crate::text::{
    ascii_lower, ascii_lower_char, ascii_upper, ascii_upper_char, chars_of, is_ascii_seq, to_lowercase,
    unicode_lowercase,
};

verus! {

/// The kind of a trace.
#[derive(Debug, Clone, Copy, PartialEq, Eq, Structural)]
pub enum TraceType {
    UFS,
    Block,
    UFSCUSTOM,
}

/// The kind named by an already lower-cased name.
pub open spec fn trace_type_of_lower(s: Seq<char>) -> Option<TraceType> {
    if s == "ufs"@ {
        Some(TraceType::UFS)
    } else if s == "block"@ {
        Some(TraceType::Block)
    } else if s == "ufscustom"@ {
        Some(TraceType::UFSCUSTOM)
    } else {
        None
    }
}

pub fn seq_eq_str(a: &str, b: &str) -> (r: bool)
    ensures
        r == (a@ == b@),
{
    let x = chars_of(a);
    let y = chars_of(b);
    if x.len() != y.len() {
        return false;
    }
    let mut i: usize = 0;
    while i < x.len()
        invariant
            x@ == a@,
            y@ == b@,
            x@.len() == y@.len(),
            0 <= i <= x@.len(),
            forall|k: int| 0 <= k < i ==> x@[k] == y@[k],
        decreases x@.len() - i,
    {
        if x[i] != y[i] {
            return false;
        }
        i = i + 1;
    }
    assert(x@ =~= y@);
    true
}

impl TraceType {
    /// The kind named by `lower`, a name already in lower case.
    pub fn from_lowercase_name(lower: &str) -> (r: Option<TraceType>)
        ensures
            r == trace_type_of_lower(lower@),
    {
        proof {
            reveal_strlit("ufs");
            reveal_strlit("block");
            reveal_strlit("ufscustom");
        }
        if seq_eq_str(lower, "ufs") {
            Some(TraceType::UFS)
        } else if seq_eq_str(lower, "block") {
            Some(TraceType::Block)
        } else if seq_eq_str(lower, "ufscustom") {
            Some(TraceType::UFSCUSTOM)
        } else {
            None
        }
    }

    /// The kind named by `s`, compared without regard to case.
    pub fn parse_str(s: &str) -> (r: Option<TraceType>)
        ensures
            r == trace_type_of_lower(unicode_lowercase(s@)),
            is_ascii_seq(s@) ==> r == trace_type_of_lower(ascii_lower(s@)),
    {
        let lower = to_lowercase(s);
        Self::from_lowercase_name(lower.as_str())
    }

    /// The kind named by `s`, or the message `Unknown trace type: <s>`.
    pub fn from_name(s: &str) -> (r: Result<TraceType, String>)
        ensures
            match r {
                Ok(t) => trace_type_of_lower(unicode_lowercase(s@)) == Some(t),
                Err(m) => trace_type_of_lower(unicode_lowercase(s@)).is_none() && m@
                    == "Unknown trace type: "@ + s@,
            },
    {
        match Self::parse_str(s) {
            Some(t) => Ok(t),
            None => {
                let mut m = String::from_str("Unknown trace type: ");
                m.append(s);
                Err(m)
            },
        }
    }

    /// The name shown for the kind.
    pub fn display_name(&self) -> (r: &'static str)
        ensures
            r@ == match *self {
                TraceType::UFS => "UFS"@,
                TraceType::Block => "Block I/O"@,
                TraceType::UFSCUSTOM => "UFSCustom"@,
            },
    {
        match self {
            TraceType::UFS => "UFS",
            TraceType::Block => "Block I/O",
            TraceType::UFSCUSTOM => "UFSCustom",
        }
    }
}

impl std::str::FromStr for TraceType {
    type Err = String;

    /// `TraceType::from_name`.
    fn from_str(s: &str) -> Result<TraceType, String> {
        TraceType::from_name(s)
    }
}

/// The name that `Debug` writes for each kind (the variant's name).
pub open spec fn debug_name(t: TraceType) -> Seq<char> {
    match t {
        TraceType::UFS => "UFS"@,
        TraceType::Block => "Block"@,
        TraceType::UFSCUSTOM => "UFSCUSTOM"@,
    }
}

proof fn lemma_ascii_lower_upper_char(c: char)
    requires
        (c as u32) < 128,
    ensures
        ascii_lower_char(ascii_upper_char(c)) == ascii_lower_char(c),
        (ascii_upper_char(c) as u32) < 128,
{
    if 'a' <= c <= 'z' {
        assert('A' <= ascii_upper_char(c) <= 'Z');
        assert(((ascii_upper_char(c) as u32) + 32) as char == c);
    }
}

/// `TraceType::parse_str` reads each kind's `Debug` name back as that kind,
/// and on ASCII text letter case does not matter: the upper-cased text is
/// ASCII too and names the same kind (`parse_str` gives
/// `trace_type_of_lower(ascii_lower(s))` on ASCII text).
pub proof fn law_parse_str_round_trip(t: TraceType, s: Seq<char>)
    ensures
        is_ascii_seq(debug_name(t)),
        trace_type_of_lower(ascii_lower(debug_name(t))) == Some(t),
        is_ascii_seq(s) ==> is_ascii_seq(ascii_upper(s)) && trace_type_of_lower(ascii_lower(ascii_upper(s)))
            == trace_type_of_lower(ascii_lower(s)),
{
    reveal_strlit("UFS");
    reveal_strlit("Block");
    reveal_strlit("UFSCUSTOM");
    reveal_strlit("ufs");
    reveal_strlit("block");
    reveal_strlit("ufscustom");
    assert(ascii_lower("UFS"@) =~= "ufs"@);
    assert(ascii_lower("Block"@) =~= "block"@);
    assert(ascii_lower("UFSCUSTOM"@) =~= "ufscustom"@);
    if is_ascii_seq(s) {
        assert forall|i: int| 0 <= i < s.len() implies ascii_lower(ascii_upper(s))[i] == ascii_lower(s)[i]
            && (ascii_upper(s)[i] as u32) < 128 by {
            lemma_ascii_lower_upper_char(s[i]);
        }
        assert(ascii_lower(ascii_upper(s)) =~= ascii_lower(s));
    }
}

/// A UFS command event (`ufshcd_command` trace line).
#[derive(Debug, Clone)]
pub struct UFS {
    /// Event time, nanoseconds.
    pub time: u64,
    pub process: String,
    pub cpu: u32,
    pub action: String,
    pub tag: u32,
    pub opcode: String,
    /// Logical block address in 4 KiB units.
    pub lba: u64,
    /// Request size in 4 KiB units.
    pub size: u32,
    pub groupid: u32,
    pub hwqid: u32,
    /// Queue depth after the event.
    pub qd: u32,
    /// Dispatch to complete latency, nanoseconds.
    pub dtoc: u64,
    /// Complete to complete latency, nanoseconds.
    pub ctoc: u64,
    /// Complete to dispatch latency, nanoseconds.
    pub ctod: u64,
    pub continuous: bool,
    pub aligned: bool,
}

pub struct UfsView {
    pub time: u64,
    pub process: Seq<char>,
    pub cpu: u32,
    pub action: Seq<char>,
    pub tag: u32,
    pub opcode: Seq<char>,
    pub lba: u64,
    pub size: u32,
    pub groupid: u32,
    pub hwqid: u32,
    pub qd: u32,
    pub dtoc: u64,
    pub ctoc: u64,
    pub ctod: u64,
    pub continuous: bool,
    pub aligned: bool,
}

impl View for UFS {
    type V = UfsView;

    open spec fn view(&self) -> UfsView {
        UfsView {
            time: self.time,
            process: self.process@,
            cpu: self.cpu,
            action: self.action@,
            tag: self.tag,
            opcode: self.opcode@,
            lba: self.lba,
            size: self.size,
            groupid: self.groupid,
            hwqid: self.hwqid,
            qd: self.qd,
            dtoc: self.dtoc,
            ctoc: self.ctoc,
            ctod: self.ctod,
            continuous: self.continuous,
            aligned: self.aligned,
        }
    }
}

/// A block layer request event (`block_rq_*` trace line).
#[derive(Debug, Clone)]
pub struct Block {
    /// Event time, nanoseconds.
    pub time: u64,
    pub process: String,
    pub cpu: u32,
    pub flags: String,
    pub action: String,
    pub devmajor: u32,
    pub devminor: u32,
    pub io_type: String,
    pub extra: u32,
    /// Start sector (512-byte units).
    pub sector: u64,
    /// Request size in sectors.
    pub size: u32,
    pub comm: String,
    /// Queue depth after the event.
    pub qd: u32,
    /// Dispatch to complete latency, nanoseconds.
    pub dtoc: u64,
    /// Complete to complete latency, nanoseconds.
    pub ctoc: u64,
    /// Complete to dispatch latency, nanoseconds.
    pub ctod: u64,
    pub continuous: bool,
    pub aligned: bool,
}

pub struct BlockView {
    pub time: u64,
    pub process: Seq<char>,
    pub cpu: u32,
    pub flags: Seq<char>,
    pub action: Seq<char>,
    pub devmajor: u32,
    pub devminor: u32,
    pub io_type: Seq<char>,
    pub extra: u32,
    pub sector: u64,
    pub size: u32,
    pub comm: Seq<char>,
    pub qd: u32,
    pub dtoc: u64,
    pub ctoc: u64,
    pub ctod: u64,
    pub continuous: bool,
    pub aligned: bool,
}

impl View for Block {
    type V = BlockView;

    open spec fn view(&self) -> BlockView {
        BlockView {
            time: self.time,
            process: self.process@,
            cpu: self.cpu,
            flags: self.flags@,
            action: self.action@,
            devmajor: self.devmajor,
            devminor: self.devminor,
            io_type: self.io_type@,
            extra: self.extra,
            sector: self.sector,
            size: self.size,
            comm: self.comm@,
            qd: self.qd,
            dtoc: self.dtoc,
            ctoc: self.ctoc,
            ctod: self.ctod,
            continuous: self.continuous,
            aligned: self.aligned,
        }
    }
}

/// One request of a custom UFS trace (CSV line
/// `opcode,lba,size,start_time,end_time`).
#[derive(Debug, Clone)]
pub struct UFSCUSTOM {
    pub opcode: String,
    pub lba: u64,
    pub size: u32,
    /// Request start, nanoseconds.
    pub start_time: u64,
    /// Request end, nanoseconds.
    pub end_time: u64,
    /// `end_time - start_time`, nanoseconds (negative when the end precedes the start).
    pub dtoc: i128,
    /// Queue depth right after the request started.
    pub start_qd: u32,
    /// Queue depth right after the request ended.
    pub end_qd: u32,
    /// Complete to complete latency, nanoseconds.
    pub ctoc: u64,
    /// Complete to dispatch latency, nanoseconds.
    pub ctod: u64,
    pub continuous: bool,
    pub aligned: bool,
}

pub struct UfsCustomView {
    pub opcode: Seq<char>,
    pub lba: u64,
    pub size: u32,
    pub start_time: u64,
    pub end_time: u64,
    pub dtoc: i128,
    pub start_qd: u32,
    pub end_qd: u32,
    pub ctoc: u64,
    pub ctod: u64,
    pub continuous: bool,
    pub aligned: bool,
}

impl View for UFSCUSTOM {
    type V = UfsCustomView;

    open spec fn view(&self) -> UfsCustomView {
        UfsCustomView {
            opcode: self.opcode@,
            lba: self.lba,
            size: self.size,
            start_time: self.start_time,
            end_time: self.end_time,
            dtoc: self.dtoc,
            start_qd: self.start_qd,
            end_qd: self.end_qd,
            ctoc: self.ctoc,
            ctod: self.ctod,
            continuous: self.continuous,
            aligned: self.aligned,
        }
    }
}

} // verus!

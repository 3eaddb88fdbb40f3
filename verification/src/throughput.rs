//! Throughput per second of trace: the bytes and operations read and
//! written in each whole second after the first request.
use vstd::prelude::*;
use crate::models::seq_eq_str;
use crate::text::{chars_of, to_uppercase, unicode_uppercase};

verus! {

broadcast use vstd::string::group_string_axioms;

/// What throughput reads of a request.
#[derive(Debug, Clone)]
pub struct PerfSample {
    /// Request time, nanoseconds.
    pub time: u64,
    /// Size in the trace's unit (see `size_unit`).
    pub size: u32,
    /// The I/O type as the trace gives it (`R`, `W`, `RA`, `WS`, ...).
    pub io_type: String,
}

pub struct SampleView {
    pub time: u64,
    pub size: u32,
    pub io_type: Seq<char>,
}

impl View for PerfSample {
    type V = SampleView;

    open spec fn view(&self) -> SampleView {
        SampleView { time: self.time, size: self.size, io_type: self.io_type@ }
    }
}

pub open spec fn samples_view(v: Seq<PerfSample>) -> Seq<SampleView> {
    Seq::new(v.len(), |i: int| v[i]@)
}

/// One second of throughput.
#[derive(Debug, Clone, Copy, PartialEq, Eq, Structural)]
pub struct PerSecondPerformance {
    pub second: u64,
    pub read_bytes: u128,
    pub write_bytes: u128,
    pub read_ops: u64,
    pub write_ops: u64,
}

/// Bytes per size unit: sectors for block and custom traces, 4 KiB blocks
/// for UFS traces, bytes otherwise.
pub open spec fn size_unit(trace_type: Seq<char>) -> nat {
    if trace_type == "Block"@ || trace_type == "UFSCustom"@ {
        512
    } else if trace_type == "UFS"@ {
        4096
    } else {
        1
    }
}

/// 0 for a read, 1 for a write (by the first letter of the upper-cased I/O
/// type), 2 for anything else.
pub open spec fn io_class(io: Seq<char>) -> int {
    let up = unicode_uppercase(io);
    if up.len() > 0 && up[0] == 'R' {
        0
    } else if up.len() > 0 && up[0] == 'W' {
        1
    } else {
        2
    }
}

/// The earliest time.
pub open spec fn start_of(s: Seq<SampleView>) -> u64
    decreases s.len(),
{
    if s.len() == 0 {
        0
    } else if s.len() == 1 {
        s[0].time
    } else {
        let m = start_of(s.drop_last());
        if s.last().time < m {
            s.last().time
        } else {
            m
        }
    }
}

pub open spec fn second_of(t: u64, start: u64) -> int {
    (t - start) / 1_000_000_000
}

/// The bytes (`bytes`) or operations of class `class` in second `sec`.
pub open spec fn total_in(s: Seq<SampleView>, start: u64, sec: int, class: int, unit: nat, bytes: bool) -> nat
    decreases s.len(),
{
    if s.len() == 0 {
        0
    } else {
        let x = s.last();
        total_in(s.drop_last(), start, sec, class, unit, bytes) + if io_class(x.io_type) == class
            && second_of(x.time, start) == sec {
            if bytes {
                (x.size * unit) as nat
            } else {
                1nat
            }
        } else {
            0nat
        }
    }
}

/// Whether some read or write falls in second `sec`.
pub open spec fn second_used(s: Seq<SampleView>, start: u64, sec: int) -> bool {
    exists|i: int| 0 <= i < s.len() && io_class(#[trigger] s[i].io_type) != 2 && second_of(s[i].time, start) == sec
}

pub open spec fn entry_matches(s: Seq<SampleView>, start: u64, unit: nat, e: PerSecondPerformance) -> bool {
    &&& second_used(s, start, e.second as int)
    &&& e.read_bytes == total_in(s, start, e.second as int, 0, unit, true)
    &&& e.write_bytes == total_in(s, start, e.second as int, 1, unit, true)
    &&& e.read_ops == total_in(s, start, e.second as int, 0, unit, false)
    &&& e.write_ops == total_in(s, start, e.second as int, 1, unit, false)
}

/// One entry per second that holds a read or a write, ascending.
pub open spec fn is_throughput(s: Seq<SampleView>, start: u64, unit: nat, r: Seq<PerSecondPerformance>) -> bool {
    &&& forall|a: int, b: int| 0 <= a < b < r.len() ==> (#[trigger] r[a]).second < (#[trigger] r[b]).second
    &&& forall|a: int| 0 <= a < r.len() ==> entry_matches(s, start, unit, #[trigger] r[a])
    &&& forall|i: int|
        0 <= i < s.len() && io_class(#[trigger] s[i].io_type) != 2 ==> exists|a: int|
            0 <= a < r.len() && (#[trigger] r[a]).second == second_of(s[i].time, start)
}

fn io_class_exec(io: &str) -> (c: u8)
    ensures
        c as int == io_class(io@),
{
    let up = to_uppercase(io);
    let cs = chars_of(up.as_str());
    if cs.len() > 0 && cs[0] == 'R' {
        0
    } else if cs.len() > 0 && cs[0] == 'W' {
        1
    } else {
        2
    }
}

fn start_exec(s: &[PerfSample]) -> (m: u64)
    ensures
        m == start_of(samples_view(s@)),
        forall|i: int| 0 <= i < s@.len() ==> m <= #[trigger] s@[i].time,
{
    let ghost sv = samples_view(s@);
    if s.len() == 0 {
        return 0;
    }
    let mut m = s[0].time;
    let mut i: usize = 1;
    assert(sv.take(1).len() == 1);
    while i < s.len()
        invariant
            sv == samples_view(s@),
            1 <= i <= s@.len(),
            m == start_of(sv.take(i as int)),
            forall|j: int| 0 <= j < i ==> m <= #[trigger] s@[j].time,
        decreases s@.len() - i,
    {
        proof {
            assert(sv.take(i + 1).drop_last() =~= sv.take(i as int));
            assert(sv.take(i + 1).last() == sv[i as int]);
        }
        if s[i].time < m {
            m = s[i].time;
        }
        i = i + 1;
    }
    assert(sv.take(s@.len() as int) =~= sv);
    m
}

proof fn lemma_total_absent(s: Seq<SampleView>, start: u64, sec: int, class: int, unit: nat, bytes: bool)
    requires
        class != 2,
        !second_used(s, start, sec),
    ensures
        total_in(s, start, sec, class, unit, bytes) == 0,
    decreases s.len(),
{
    if s.len() > 0 {
        let d = s.drop_last();
        assert(!second_used(d, start, sec)) by {
            if second_used(d, start, sec) {
                let i = choose|i: int| 0 <= i < d.len() && io_class(#[trigger] d[i].io_type) != 2 && second_of(d[i].time, start) == sec;
                assert(s[i] == d[i]);
            }
        }
        assert(s[s.len() - 1] == s.last());
        lemma_total_absent(d, start, sec, class, unit, bytes);
    }
}

proof fn lemma_total_bound(s: Seq<SampleView>, start: u64, sec: int, class: int, unit: nat, bytes: bool)
    requires
        unit <= 4096,
    ensures
        total_in(s, start, sec, class, unit, bytes) <= s.len() * (if bytes { 0x1000_0000_0000int } else { 1int }),
    decreases s.len(),
{
    if s.len() > 0 {
        lemma_total_bound(s.drop_last(), start, sec, class, unit, bytes);
        let x = s.last();
        if bytes {
            assert(x.size * unit <= 0xffff_ffff * 4096) by (nonlinear_arith)
                requires
                    x.size <= 0xffff_ffff,
                    unit <= 4096,
            ;
        }
    }
}

/// `n` is entry `o` after a request of class `class` and `bytes` bytes.
pub open spec fn entry_after(o: PerSecondPerformance, n: PerSecondPerformance, class: int, bytes: nat) -> bool {
    &&& n.second == o.second
    &&& n.read_bytes == o.read_bytes + if class == 0 { bytes } else { 0 }
    &&& n.write_bytes == o.write_bytes + if class == 1 { bytes } else { 0 }
    &&& n.read_ops == o.read_ops + if class == 0 { 1int } else { 0int }
    &&& n.write_ops == o.write_ops + if class == 1 { 1int } else { 0int }
}

proof fn lemma_entry_update(
    pv: Seq<SampleView>,
    start: u64,
    u: nat,
    r: Seq<PerSecondPerformance>,
    k: int,
    x: SampleView,
    n: PerSecondPerformance,
)
    requires
        is_throughput(pv, start, u, r),
        0 <= k < r.len(),
        start <= x.time,
        io_class(x.io_type) != 2,
        r[k].second == second_of(x.time, start),
        entry_after(r[k], n, io_class(x.io_type), (x.size * u) as nat),
    ensures
        is_throughput(pv.push(x), start, u, r.update(k, n)),
{
    let nt = pv.push(x);
    let nr = r.update(k, n);
    assert(nt.drop_last() =~= pv);
    assert forall|a: int, b: int| 0 <= a < b < nr.len() implies (#[trigger] nr[a]).second < (#[trigger] nr[b]).second by {
        assert(nr[a].second == r[a].second);
        assert(nr[b].second == r[b].second);
    }
    assert forall|a: int| 0 <= a < nr.len() implies entry_matches(nt, start, u, #[trigger] nr[a]) by {
        let o = r[a];
        let j = choose|j: int| 0 <= j < pv.len() && io_class(#[trigger] pv[j].io_type) != 2 && second_of(pv[j].time, start) == o.second as int;
        assert(nt[j] == pv[j]);
        if a != k {
            assert(nr[a] == o);
            assert(o.second != r[k].second) by {
                if a < k {
                    assert(r[a].second < r[k].second);
                } else {
                    assert(r[k].second < r[a].second);
                }
            }
        }
    }
    assert forall|j: int| 0 <= j < nt.len() && io_class(#[trigger] nt[j].io_type) != 2 implies exists|a: int|
        0 <= a < nr.len() && (#[trigger] nr[a]).second == second_of(nt[j].time, start) by {
        if j < pv.len() {
            assert(nt[j] == pv[j]);
            let a = choose|a: int| 0 <= a < r.len() && (#[trigger] r[a]).second == second_of(pv[j].time, start);
            assert(nr[a].second == r[a].second);
        } else {
            assert(nr[k].second == second_of(x.time, start));
        }
    }
}

proof fn lemma_entry_insert(
    pv: Seq<SampleView>,
    start: u64,
    u: nat,
    r: Seq<PerSecondPerformance>,
    k: int,
    x: SampleView,
    n: PerSecondPerformance,
)
    requires
        is_throughput(pv, start, u, r),
        0 <= k <= r.len(),
        start <= x.time,
        io_class(x.io_type) != 2,
        n.second == second_of(x.time, start),
        forall|a: int| 0 <= a < k ==> (#[trigger] r[a]).second < n.second,
        forall|a: int| k <= a < r.len() ==> (#[trigger] r[a]).second > n.second,
        entry_after(
            PerSecondPerformance { second: n.second, read_bytes: 0, write_bytes: 0, read_ops: 0, write_ops: 0 },
            n,
            io_class(x.io_type),
            (x.size * u) as nat,
        ),
    ensures
        is_throughput(pv.push(x), start, u, r.insert(k, n)),
{
    let nt = pv.push(x);
    let nr = r.insert(k, n);
    let sec = n.second as int;
    assert(nt.drop_last() =~= pv);
    assert(!second_used(pv, start, sec)) by {
        if second_used(pv, start, sec) {
            let j = choose|j: int| 0 <= j < pv.len() && io_class(#[trigger] pv[j].io_type) != 2 && second_of(pv[j].time, start) == sec;
            let a = choose|a: int| 0 <= a < r.len() && (#[trigger] r[a]).second == second_of(pv[j].time, start);
        }
    }
    lemma_total_absent(pv, start, sec, 0, u, true);
    lemma_total_absent(pv, start, sec, 1, u, true);
    lemma_total_absent(pv, start, sec, 0, u, false);
    lemma_total_absent(pv, start, sec, 1, u, false);
    assert forall|a: int, b: int| 0 <= a < b < nr.len() implies (#[trigger] nr[a]).second < (#[trigger] nr[b]).second by {
        if a < k && b > k {
            assert(r[a].second < n.second);
            assert(r[b - 1].second > n.second);
        } else if a == k && b > k {
            assert(r[b - 1].second > n.second);
        } else if a < k && b == k {
        } else if b < k {
            assert(nr[a] == r[a] && nr[b] == r[b]);
        } else {
            assert(nr[a] == r[a - 1] && nr[b] == r[b - 1]);
        }
    }
    assert forall|a: int| 0 <= a < nr.len() implies entry_matches(nt, start, u, #[trigger] nr[a]) by {
        if a != k {
            let oa = if a < k { a } else { a - 1 };
            let o = r[oa];
            assert(nr[a] == o);
            let j = choose|j: int| 0 <= j < pv.len() && io_class(#[trigger] pv[j].io_type) != 2 && second_of(pv[j].time, start) == o.second as int;
            assert(nt[j] == pv[j]);
        } else {
            assert(nt[pv.len() as int] == x);
        }
    }
    assert forall|j: int| 0 <= j < nt.len() && io_class(#[trigger] nt[j].io_type) != 2 implies exists|a: int|
        0 <= a < nr.len() && (#[trigger] nr[a]).second == second_of(nt[j].time, start) by {
        if j < pv.len() {
            assert(nt[j] == pv[j]);
            let a = choose|a: int| 0 <= a < r.len() && (#[trigger] r[a]).second == second_of(pv[j].time, start);
            if a < k {
                assert(nr[a] == r[a]);
            } else {
                assert(nr[a + 1] == r[a]);
            }
        } else {
            assert(nr[k].second == second_of(x.time, start));
        }
    }
}

proof fn lemma_skip(pv: Seq<SampleView>, start: u64, u: nat, r: Seq<PerSecondPerformance>, x: SampleView)
    requires
        is_throughput(pv, start, u, r),
        io_class(x.io_type) == 2,
    ensures
        is_throughput(pv.push(x), start, u, r),
{
    let nt = pv.push(x);
    assert(nt.drop_last() =~= pv);
    assert forall|a: int| 0 <= a < r.len() implies entry_matches(nt, start, u, #[trigger] r[a]) by {
        let o = r[a];
        let j = choose|j: int| 0 <= j < pv.len() && io_class(#[trigger] pv[j].io_type) != 2 && second_of(pv[j].time, start) == o.second as int;
        assert(nt[j] == pv[j]);
    }
    assert forall|j: int| 0 <= j < nt.len() && io_class(#[trigger] nt[j].io_type) != 2 implies exists|a: int|
        0 <= a < r.len() && (#[trigger] r[a]).second == second_of(nt[j].time, start) by {
        assert(nt[j] == pv[j]);
    }
}

fn add_sample(
    r: &mut Vec<PerSecondPerformance>,
    x: &PerfSample,
    start: u64,
    unit: u64,
    Ghost(pv): Ghost<Seq<SampleView>>,
)
    requires
        is_throughput(pv, start, unit as nat, old(r)@),
        start <= x.time,
        unit <= 4096,
        pv.len() < 0x1_0000_0000_0000,
    ensures
        is_throughput(pv.push(x@), start, unit as nat, final(r)@),
{
    let ghost u = unit as nat;
    let ghost old_r = r@;
    let class = io_class_exec(x.io_type.as_str());
    if class == 2 {
        proof {
            lemma_skip(pv, start, u, old_r, x@);
        }
        return;
    }
    let sec: u64 = (x.time - start) / 1_000_000_000;
    assert(x.size as u128 * unit as u128 <= 0xffff_ffff * 4096) by (nonlinear_arith)
        requires
            x.size <= 0xffff_ffff,
            unit <= 4096,
    ;
    let bytes: u128 = x.size as u128 * unit as u128;
    let mut lo: usize = 0;
    let mut hi: usize = r.len();
    while lo < hi
        invariant
            0 <= lo <= hi <= r@.len(),
            r@ == old_r,
            forall|a: int, b: int| 0 <= a < b < old_r.len() ==> (#[trigger] old_r[a]).second < (#[trigger] old_r[b]).second,
            forall|a: int| 0 <= a < lo ==> (#[trigger] old_r[a]).second < sec,
            forall|a: int| hi <= a < old_r.len() ==> (#[trigger] old_r[a]).second >= sec,
        decreases hi - lo,
    {
        let mid = lo + (hi - lo) / 2;
        if r[mid].second < sec {
            lo = mid + 1;
        } else {
            hi = mid;
        }
    }
    proof {
        lemma_total_bound(pv, start, sec as int, 0, u, true);
        lemma_total_bound(pv, start, sec as int, 1, u, true);
        lemma_total_bound(pv, start, sec as int, 0, u, false);
        lemma_total_bound(pv, start, sec as int, 1, u, false);
    }
    if lo < r.len() && r[lo].second == sec {
        let e = r[lo];
        proof {
            assert(entry_matches(pv, start, u, e));
        }
        let ne = PerSecondPerformance {
            second: sec,
            read_bytes: if class == 0 { e.read_bytes + bytes } else { e.read_bytes },
            write_bytes: if class == 1 { e.write_bytes + bytes } else { e.write_bytes },
            read_ops: if class == 0 { e.read_ops + 1 } else { e.read_ops },
            write_ops: if class == 1 { e.write_ops + 1 } else { e.write_ops },
        };
        r.set(lo, ne);
        proof {
            lemma_entry_update(pv, start, u, old_r, lo as int, x@, ne);
        }
    } else {
        let ne = PerSecondPerformance {
            second: sec,
            read_bytes: if class == 0 { bytes } else { 0 },
            write_bytes: if class == 1 { bytes } else { 0 },
            read_ops: if class == 0 { 1 } else { 0 },
            write_ops: if class == 1 { 1 } else { 0 },
        };
        r.insert(lo, ne);
        proof {
            lemma_entry_insert(pv, start, u, old_r, lo as int, x@, ne);
        }
    }
}

/// Per second after the earliest request, the bytes and operations read and
/// written, for the requests of a trace of the named kind.
pub fn analyze_performance(samples: &[PerfSample], trace_type: &str) -> (r: Vec<PerSecondPerformance>)
    requires
        samples@.len() < 0x1_0000_0000_0000,
    ensures
        is_throughput(
            samples_view(samples@),
            start_of(samples_view(samples@)),
            size_unit(trace_type@),
            r@,
        ),
{
    let ghost sv = samples_view(samples@);
    let unit: u64 = if seq_eq_str(trace_type, "Block") || seq_eq_str(trace_type, "UFSCustom") {
        512
    } else if seq_eq_str(trace_type, "UFS") {
        4096
    } else {
        1
    };
    assert(unit as nat == size_unit(trace_type@));
    let start = start_exec(samples);
    let mut r: Vec<PerSecondPerformance> = Vec::new();
    let mut i: usize = 0;
    while i < samples.len()
        invariant
            sv == samples_view(samples@),
            samples@.len() < 0x1_0000_0000_0000,
            unit <= 4096,
            start == start_of(sv),
            forall|j: int| 0 <= j < samples@.len() ==> start <= #[trigger] samples@[j].time,
            0 <= i <= samples@.len(),
            is_throughput(sv.take(i as int), start, unit as nat, r@),
        decreases samples@.len() - i,
    {
        proof {
            assert(sv.take(i + 1) =~= sv.take(i as int).push(samples@[i as int]@));
        }
        add_sample(&mut r, &samples[i], start, unit, Ghost(sv.take(i as int)));
        i = i + 1;
    }
    assert(sv.take(samples@.len() as int) =~= sv);
    r
}

} // verus!

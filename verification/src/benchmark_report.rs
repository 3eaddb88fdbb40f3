//! The benchmark results arranged for the reports: one row per iteration
//! and tool with its write and read bandwidth, and per tool the read and
//! write bandwidths in iteration order.
use vstd::prelude::*;
use crate::benchmark::{result_view, results_view, Bandwidth, BenchmarkResult, ResultView};
use crate::order::{is_stable_order, permute, stable_order, usize_seq_as_int};
use crate::statistics::{lemma_lex_irreflexive, lemma_lex_total, lemma_lex_transitive, lex_lt};
use crate::text::{chars_of, contains_exec, contains_seq};

verus! {

broadcast use vstd::string::group_string_axioms;

pub open spec fn has_write(t: Seq<char>) -> bool {
    contains_seq(t, "WRITE"@)
}

pub open spec fn has_read(t: Seq<char>) -> bool {
    contains_seq(t, "READ"@)
}

fn holds(t: &str, w: &str) -> (b: bool)
    ensures
        b == contains_seq(t@, w@),
{
    let a = chars_of(t);
    let b = chars_of(w);
    contains_exec(a.as_slice(), b.as_slice())
}

fn copy_bandwidth(b: &Bandwidth) -> (r: Bandwidth)
    ensures
        r.digits@ == b.digits@,
        r.divisor == b.divisor,
{
    Bandwidth { digits: b.digits.clone(), divisor: b.divisor }
}

pub open spec fn bw_of(r: ResultView) -> (Seq<char>, u32) {
    (r.digits, r.divisor)
}

pub open spec fn opt_bw(b: Option<Bandwidth>) -> Option<(Seq<char>, u32)> {
    match b {
        Some(x) => Some((x.digits@, x.divisor)),
        None => None,
    }
}

// ---------------------------------------------------------------------------
// Rows by iteration and tool
// ---------------------------------------------------------------------------

/// One row of the table: the last write and read bandwidth reported for an
/// iteration and tool.
#[derive(Debug, Clone)]
pub struct BenchmarkRow {
    pub iteration: usize,
    pub tool: String,
    pub write: Option<Bandwidth>,
    pub read: Option<Bandwidth>,
}

pub open spec fn key_lt(a_it: nat, a_tool: Seq<char>, b_it: nat, b_tool: Seq<char>) -> bool {
    a_it < b_it || (a_it == b_it && lex_lt(a_tool, b_tool))
}

/// Whether a result fills the write slot (`write`) or the read slot of its
/// row: a test type naming a write fills the write slot, else one naming a
/// read fills the read slot.
pub open spec fn fills(r: ResultView, write: bool) -> bool {
    if write {
        has_write(r.test_type)
    } else {
        !has_write(r.test_type) && has_read(r.test_type)
    }
}

/// The bandwidth of the last result for an iteration and tool that fills a
/// slot.
pub open spec fn last_slot(rs: Seq<ResultView>, it: nat, tool: Seq<char>, write: bool) -> Option<(Seq<char>, u32)>
    decreases rs.len(),
{
    if rs.len() == 0 {
        None
    } else {
        let r = rs.last();
        if r.iteration == it && r.tool == tool && fills(r, write) {
            Some(bw_of(r))
        } else {
            last_slot(rs.drop_last(), it, tool, write)
        }
    }
}

pub open spec fn key_occurs(rs: Seq<ResultView>, it: nat, tool: Seq<char>) -> bool {
    exists|i: int| 0 <= i < rs.len() && (#[trigger] rs[i]).iteration == it && rs[i].tool == tool
}

proof fn lemma_last_slot_absent(rs: Seq<ResultView>, it: nat, tool: Seq<char>, write: bool)
    requires
        !key_occurs(rs, it, tool),
    ensures
        last_slot(rs, it, tool, write) is None,
    decreases rs.len(),
{
    if rs.len() > 0 {
        let d = rs.drop_last();
        assert(!key_occurs(d, it, tool)) by {
            if key_occurs(d, it, tool) {
                let i = choose|i: int| 0 <= i < d.len() && (#[trigger] d[i]).iteration == it && d[i].tool == tool;
                assert(rs[i] == d[i]);
            }
        }
        assert(rs[rs.len() - 1] == rs.last());
        lemma_last_slot_absent(d, it, tool, write);
    }
}

pub open spec fn row_key(r: BenchmarkRow) -> (nat, Seq<char>) {
    (r.iteration as nat, r.tool@)
}

/// The rows of a table of results: one per iteration and tool that occur,
/// ascending by iteration and then by tool, each with its last write and
/// read bandwidth.
pub open spec fn is_result_table(rs: Seq<ResultView>, rows: Seq<BenchmarkRow>) -> bool {
    &&& forall|a: int, b: int|
        0 <= a < b < rows.len() ==> key_lt(
            (#[trigger] rows[a]).iteration as nat,
            rows[a].tool@,
            (#[trigger] rows[b]).iteration as nat,
            rows[b].tool@,
        )
    &&& forall|a: int|
        0 <= a < rows.len() ==> {
            let r = #[trigger] rows[a];
            &&& key_occurs(rs, r.iteration as nat, r.tool@)
            &&& opt_bw(r.write) == last_slot(rs, r.iteration as nat, r.tool@, true)
            &&& opt_bw(r.read) == last_slot(rs, r.iteration as nat, r.tool@, false)
        }
    &&& forall|i: int|
        0 <= i < rs.len() ==> exists|a: int|
            0 <= a < rows.len() && row_key(#[trigger] rows[a]) == ((#[trigger] rs[i]).iteration, rs[i].tool)
}

proof fn lemma_key_order(a_it: nat, a_tool: Seq<char>, b_it: nat, b_tool: Seq<char>)
    ensures
        !key_lt(a_it, a_tool, a_it, a_tool),
        (a_it == b_it && a_tool == b_tool) || key_lt(a_it, a_tool, b_it, b_tool) || key_lt(
            b_it,
            b_tool,
            a_it,
            a_tool,
        ),
        !(key_lt(a_it, a_tool, b_it, b_tool) && key_lt(b_it, b_tool, a_it, a_tool)),
{
    lemma_lex_irreflexive(a_tool);
    lemma_lex_total(a_tool, b_tool);
}

proof fn lemma_key_transitive(
    a_it: nat,
    a_tool: Seq<char>,
    b_it: nat,
    b_tool: Seq<char>,
    c_it: nat,
    c_tool: Seq<char>,
)
    requires
        key_lt(a_it, a_tool, b_it, b_tool),
        key_lt(b_it, b_tool, c_it, c_tool),
    ensures
        key_lt(a_it, a_tool, c_it, c_tool),
{
    if a_it == b_it && b_it == c_it {
        lemma_lex_transitive(a_tool, b_tool, c_tool);
    }
}

fn key_less(it: usize, tool: &str, row: &BenchmarkRow) -> (b: bool)
    ensures
        b == key_lt(row.iteration as nat, row.tool@, it as nat, tool@),
{
    if row.iteration < it {
        true
    } else if row.iteration > it {
        false
    } else {
        let a = chars_of(row.tool.as_str());
        let t = chars_of(tool);
        crate::statistics::lex_less(a.as_slice(), t.as_slice())
    }
}

/// `x` is row `o` after result `r`, of the same iteration and tool.
pub open spec fn row_after(o: BenchmarkRow, x: BenchmarkRow, r: ResultView) -> bool {
    &&& row_key(x) == row_key(o)
    &&& opt_bw(x.write) == if fills(r, true) {
        Some(bw_of(r))
    } else {
        opt_bw(o.write)
    }
    &&& opt_bw(x.read) == if fills(r, false) {
        Some(bw_of(r))
    } else {
        opt_bw(o.read)
    }
}

/// `x` is the first row of result `r`.
pub open spec fn row_new(x: BenchmarkRow, r: ResultView) -> bool {
    &&& row_key(x) == (r.iteration, r.tool)
    &&& opt_bw(x.write) == if fills(r, true) {
        Some(bw_of(r))
    } else {
        None
    }
    &&& opt_bw(x.read) == if fills(r, false) {
        Some(bw_of(r))
    } else {
        None
    }
}

proof fn lemma_table_update(pv: Seq<ResultView>, rows: Seq<BenchmarkRow>, p: int, r: ResultView, x: BenchmarkRow)
    requires
        is_result_table(pv, rows),
        0 <= p < rows.len(),
        row_key(rows[p]) == (r.iteration, r.tool),
        row_after(rows[p], x, r),
    ensures
        is_result_table(pv.push(r), rows.update(p, x)),
{
    let nt = pv.push(r);
    let nr = rows.update(p, x);
    assert(nt.drop_last() =~= pv);
    assert forall|a: int, b: int| 0 <= a < b < nr.len() implies key_lt(
        (#[trigger] nr[a]).iteration as nat,
        nr[a].tool@,
        (#[trigger] nr[b]).iteration as nat,
        nr[b].tool@,
    ) by {
        assert(row_key(nr[a]) == row_key(rows[a]));
        assert(row_key(nr[b]) == row_key(rows[b]));
    }
    assert forall|a: int| 0 <= a < nr.len() implies {
        let y = #[trigger] nr[a];
        &&& key_occurs(nt, y.iteration as nat, y.tool@)
        &&& opt_bw(y.write) == last_slot(nt, y.iteration as nat, y.tool@, true)
        &&& opt_bw(y.read) == last_slot(nt, y.iteration as nat, y.tool@, false)
    } by {
        let o = rows[a];
        assert(row_key(nr[a]) == row_key(o));
        let j = choose|j: int| 0 <= j < pv.len() && (#[trigger] pv[j]).iteration == o.iteration as nat && pv[j].tool == o.tool@;
        assert(nt[j] == pv[j]);
        if a != p {
            lemma_key_order(o.iteration as nat, o.tool@, rows[p].iteration as nat, rows[p].tool@);
            assert(nr[a] == o);
        }
    }
    assert forall|k: int| 0 <= k < nt.len() implies exists|a: int|
        0 <= a < nr.len() && row_key(#[trigger] nr[a]) == ((#[trigger] nt[k]).iteration, nt[k].tool) by {
        if k < pv.len() {
            assert(nt[k] == pv[k]);
            let a = choose|a: int| 0 <= a < rows.len() && row_key(#[trigger] rows[a]) == ((#[trigger] pv[k]).iteration, pv[k].tool);
            assert(row_key(nr[a]) == row_key(rows[a]));
        } else {
            assert(row_key(nr[p]) == (nt[k].iteration, nt[k].tool));
        }
    }
}

proof fn lemma_table_insert(pv: Seq<ResultView>, rows: Seq<BenchmarkRow>, p: int, r: ResultView, x: BenchmarkRow)
    requires
        is_result_table(pv, rows),
        0 <= p <= rows.len(),
        forall|q: int| 0 <= q < p ==> key_lt((#[trigger] rows[q]).iteration as nat, rows[q].tool@, r.iteration, r.tool),
        p < rows.len() ==> key_lt(r.iteration, r.tool, rows[p].iteration as nat, rows[p].tool@),
        row_new(x, r),
    ensures
        is_result_table(pv.push(r), rows.insert(p, x)),
{
    let nt = pv.push(r);
    let nr = rows.insert(p, x);
    assert(nt.drop_last() =~= pv);
    assert(!key_occurs(pv, r.iteration, r.tool)) by {
        if key_occurs(pv, r.iteration, r.tool) {
            let j = choose|j: int| 0 <= j < pv.len() && (#[trigger] pv[j]).iteration == r.iteration && pv[j].tool == r.tool;
            let a = choose|a: int| 0 <= a < rows.len() && row_key(#[trigger] rows[a]) == ((#[trigger] pv[j]).iteration, pv[j].tool);
            lemma_key_order(r.iteration, r.tool, r.iteration, r.tool);
            if a > p {
                lemma_key_transitive(
                    r.iteration, r.tool,
                    rows[p].iteration as nat, rows[p].tool@,
                    rows[a].iteration as nat, rows[a].tool@,
                );
            }
        }
    }
    lemma_last_slot_absent(pv, r.iteration, r.tool, true);
    lemma_last_slot_absent(pv, r.iteration, r.tool, false);
    assert forall|a: int, b: int| 0 <= a < b < nr.len() implies key_lt(
        (#[trigger] nr[a]).iteration as nat,
        nr[a].tool@,
        (#[trigger] nr[b]).iteration as nat,
        nr[b].tool@,
    ) by {
        if b == p {
        } else if a == p {
            if b - 1 > p {
                lemma_key_transitive(
                    r.iteration, r.tool,
                    rows[p].iteration as nat, rows[p].tool@,
                    rows[b - 1].iteration as nat, rows[b - 1].tool@,
                );
            }
        } else if a < p && b > p {
            if b - 1 > p {
                lemma_key_transitive(
                    r.iteration, r.tool,
                    rows[p].iteration as nat, rows[p].tool@,
                    rows[b - 1].iteration as nat, rows[b - 1].tool@,
                );
            }
            lemma_key_transitive(
                rows[a].iteration as nat, rows[a].tool@,
                r.iteration, r.tool,
                rows[b - 1].iteration as nat, rows[b - 1].tool@,
            );
        }
    }
    assert forall|a: int| 0 <= a < nr.len() implies {
        let y = #[trigger] nr[a];
        &&& key_occurs(nt, y.iteration as nat, y.tool@)
        &&& opt_bw(y.write) == last_slot(nt, y.iteration as nat, y.tool@, true)
        &&& opt_bw(y.read) == last_slot(nt, y.iteration as nat, y.tool@, false)
    } by {
        if a == p {
            assert(nt[pv.len() as int] == r);
        } else {
            let oa = if a < p { a } else { a - 1 };
            let o = rows[oa];
            assert(nr[a] == o);
            let j = choose|j: int| 0 <= j < pv.len() && (#[trigger] pv[j]).iteration == o.iteration as nat && pv[j].tool == o.tool@;
            assert(nt[j] == pv[j]);
            if o.iteration == r.iteration && o.tool@ == r.tool {
                lemma_key_order(r.iteration, r.tool, r.iteration, r.tool);
                if oa > p {
                    lemma_key_transitive(
                        r.iteration, r.tool,
                        rows[p].iteration as nat, rows[p].tool@,
                        o.iteration as nat, o.tool@,
                    );
                }
            }
        }
    }
    assert forall|k: int| 0 <= k < nt.len() implies exists|a: int|
        0 <= a < nr.len() && row_key(#[trigger] nr[a]) == ((#[trigger] nt[k]).iteration, nt[k].tool) by {
        if k < pv.len() {
            assert(nt[k] == pv[k]);
            let a = choose|a: int| 0 <= a < rows.len() && row_key(#[trigger] rows[a]) == ((#[trigger] pv[k]).iteration, pv[k].tool);
            if a < p {
                assert(nr[a] == rows[a]);
            } else {
                assert(nr[a + 1] == rows[a]);
            }
        } else {
            assert(row_key(nr[p]) == (nt[k].iteration, nt[k].tool));
        }
    }
}

fn add_result(rows: &mut Vec<BenchmarkRow>, r: &BenchmarkResult, Ghost(pv): Ghost<Seq<ResultView>>)
    requires
        is_result_table(pv, old(rows)@),
    ensures
        is_result_table(pv.push(result_view(*r)), final(rows)@),
{
    let ghost rv = result_view(*r);
    let ghost old_rows = rows@;
    let w = holds(r.test_type.as_str(), "WRITE");
    let rd = holds(r.test_type.as_str(), "READ");
    let mut p: usize = 0;
    while p < rows.len() && key_less(r.iteration, r.tool.as_str(), &rows[p])
        invariant
            0 <= p <= rows@.len(),
            rows@ == old_rows,
            forall|q: int|
                0 <= q < p ==> key_lt(
                    (#[trigger] old_rows[q]).iteration as nat,
                    old_rows[q].tool@,
                    r.iteration as nat,
                    r.tool@,
                ),
        decreases rows@.len() - p,
    {
        p = p + 1;
    }
    let found = p < rows.len() && rows[p].iteration == r.iteration && crate::models::seq_eq_str(
        rows[p].tool.as_str(),
        r.tool.as_str(),
    );
    if found {
        let mut row = rows.remove(p);
        if w {
            row.write = Some(copy_bandwidth(&r.bandwidth));
        } else if rd {
            row.read = Some(copy_bandwidth(&r.bandwidth));
        }
        proof {
            assert(row_after(old_rows[p as int], row, rv));
        }
        rows.insert(p, row);
        proof {
            assert(rows@ =~= old_rows.update(p as int, row));
            lemma_table_update(pv, old_rows, p as int, rv, row);
        }
    } else {
        proof {
            if p < old_rows.len() {
                lemma_key_order(old_rows[p as int].iteration as nat, old_rows[p as int].tool@, rv.iteration, rv.tool);
            }
        }
        let row = BenchmarkRow {
            iteration: r.iteration,
            tool: r.tool.clone(),
            write: if w {
                Some(copy_bandwidth(&r.bandwidth))
            } else {
                None
            },
            read: if !w && rd {
                Some(copy_bandwidth(&r.bandwidth))
            } else {
                None
            },
        };
        proof {
            assert(row_new(row, rv));
        }
        rows.insert(p, row);
        proof {
            lemma_table_insert(pv, old_rows, p as int, rv, row);
        }
    }
}

/// The results as table rows, one per iteration and tool.
pub fn group_results(results: &[BenchmarkResult]) -> (rows: Vec<BenchmarkRow>)
    ensures
        is_result_table(results_view(results@), rows@),
{
    let ghost rv = results_view(results@);
    let mut rows: Vec<BenchmarkRow> = Vec::new();
    let mut i: usize = 0;
    while i < results.len()
        invariant
            rv == results_view(results@),
            0 <= i <= results@.len(),
            is_result_table(rv.take(i as int), rows@),
        decreases results@.len() - i,
    {
        proof {
            assert(rv.take(i + 1) =~= rv.take(i as int).push(result_view(results@[i as int])));
        }
        add_result(&mut rows, &results[i], Ghost(rv.take(i as int)));
        i = i + 1;
    }
    proof {
        assert(rv.take(results@.len() as int) =~= rv);
    }
    rows
}

// ---------------------------------------------------------------------------
// Series by tool
// ---------------------------------------------------------------------------

/// The read and write bandwidths of one tool, in iteration order.
#[derive(Debug, Clone)]
pub struct ToolSeries {
    pub tool: String,
    pub reads: Vec<Bandwidth>,
    pub writes: Vec<Bandwidth>,
}

pub open spec fn bws(v: Seq<Bandwidth>) -> Seq<(Seq<char>, u32)> {
    Seq::new(v.len(), |i: int| (v[i].digits@, v[i].divisor))
}

/// Whether a result of a numbered iteration belongs to the read series
/// (`read`) or the write series of `tool`: a test type naming a read goes
/// to the read series, else one naming a write to the write series.
pub open spec fn in_series(r: ResultView, tool: Seq<char>, read: bool) -> bool {
    &&& r.iteration >= 1
    &&& r.tool == tool
    &&& if read {
        has_read(r.test_type)
    } else {
        !has_read(r.test_type) && has_write(r.test_type)
    }
}

pub open spec fn series(os: Seq<ResultView>, tool: Seq<char>, read: bool) -> Seq<(Seq<char>, u32)>
    decreases os.len(),
{
    if os.len() == 0 {
        Seq::empty()
    } else {
        let s = series(os.drop_last(), tool, read);
        if in_series(os.last(), tool, read) {
            s.push(bw_of(os.last()))
        } else {
            s
        }
    }
}

pub open spec fn tool_present(os: Seq<ResultView>, tool: Seq<char>) -> bool {
    exists|i: int| 0 <= i < os.len() && (#[trigger] os[i]).iteration >= 1 && os[i].tool == tool
}

proof fn lemma_series_absent(os: Seq<ResultView>, tool: Seq<char>, read: bool)
    requires
        !tool_present(os, tool),
    ensures
        series(os, tool, read) == Seq::<(Seq<char>, u32)>::empty(),
    decreases os.len(),
{
    if os.len() > 0 {
        let d = os.drop_last();
        assert(!tool_present(d, tool)) by {
            if tool_present(d, tool) {
                let i = choose|i: int| 0 <= i < d.len() && (#[trigger] d[i]).iteration >= 1 && d[i].tool == tool;
                assert(os[i] == d[i]);
            }
        }
        assert(os[os.len() - 1] == os.last());
        lemma_series_absent(d, tool, read);
    }
}

/// One entry per tool with a result of a numbered iteration, ascending by
/// tool, with its read and write series.
pub open spec fn is_series_table(os: Seq<ResultView>, ts: Seq<ToolSeries>) -> bool {
    &&& forall|a: int, b: int| 0 <= a < b < ts.len() ==> lex_lt((#[trigger] ts[a]).tool@, (#[trigger] ts[b]).tool@)
    &&& forall|a: int|
        0 <= a < ts.len() ==> {
            let t = #[trigger] ts[a];
            &&& tool_present(os, t.tool@)
            &&& bws(t.reads@) == series(os, t.tool@, true)
            &&& bws(t.writes@) == series(os, t.tool@, false)
        }
    &&& forall|i: int|
        0 <= i < os.len() && (#[trigger] os[i]).iteration >= 1 ==> exists|a: int|
            0 <= a < ts.len() && (#[trigger] ts[a]).tool@ == os[i].tool
}

#[verifier::rlimit(30)]
proof fn lemma_series_skip(os: Seq<ResultView>, ts: Seq<ToolSeries>, r: ResultView)
    requires
        is_series_table(os, ts),
        r.iteration == 0,
    ensures
        is_series_table(os.push(r), ts),
{
    let nt = os.push(r);
    assert(nt.drop_last() =~= os);
    assert forall|a: int| 0 <= a < ts.len() implies {
        let t = #[trigger] ts[a];
        &&& tool_present(nt, t.tool@)
        &&& bws(t.reads@) == series(nt, t.tool@, true)
        &&& bws(t.writes@) == series(nt, t.tool@, false)
    } by {
        let i = choose|i: int| 0 <= i < os.len() && (#[trigger] os[i]).iteration >= 1 && os[i].tool == ts[a].tool@;
        assert(nt[i] == os[i]);
        assert(!in_series(r, ts[a].tool@, true));
        assert(!in_series(r, ts[a].tool@, false));
        assert(series(nt, ts[a].tool@, true) == series(os, ts[a].tool@, true));
        assert(series(nt, ts[a].tool@, false) == series(os, ts[a].tool@, false));
    }
    assert forall|i: int| 0 <= i < nt.len() && (#[trigger] nt[i]).iteration >= 1 implies exists|a: int|
        0 <= a < ts.len() && (#[trigger] ts[a]).tool@ == nt[i].tool by {
        assert(nt[i] == os[i]);
    }
}

proof fn lemma_series_update(os: Seq<ResultView>, ts: Seq<ToolSeries>, p: int, r: ResultView, x: ToolSeries)
    requires
        is_series_table(os, ts),
        0 <= p < ts.len(),
        r.iteration >= 1,
        ts[p].tool@ == r.tool,
        x.tool@ == r.tool,
        bws(x.reads@) == if in_series(r, r.tool, true) {
            bws(ts[p].reads@).push(bw_of(r))
        } else {
            bws(ts[p].reads@)
        },
        bws(x.writes@) == if in_series(r, r.tool, false) {
            bws(ts[p].writes@).push(bw_of(r))
        } else {
            bws(ts[p].writes@)
        },
    ensures
        is_series_table(os.push(r), ts.update(p, x)),
{
    let nt = os.push(r);
    let nts = ts.update(p, x);
    assert(nt.drop_last() =~= os);
    assert forall|a: int, b: int| 0 <= a < b < nts.len() implies lex_lt((#[trigger] nts[a]).tool@, (#[trigger] nts[b]).tool@) by {
        assert(nts[a].tool@ == ts[a].tool@);
        assert(nts[b].tool@ == ts[b].tool@);
    }
    assert forall|a: int| 0 <= a < nts.len() implies {
        let t = #[trigger] nts[a];
        &&& tool_present(nt, t.tool@)
        &&& bws(t.reads@) == series(nt, t.tool@, true)
        &&& bws(t.writes@) == series(nt, t.tool@, false)
    } by {
        let o = ts[a];
        let i = choose|i: int| 0 <= i < os.len() && (#[trigger] os[i]).iteration >= 1 && os[i].tool == o.tool@;
        assert(nt[i] == os[i]);
        if a != p {
            assert(nts[a] == o);
            if o.tool@ == r.tool {
                if a < p {
                    assert(lex_lt(o.tool@, ts[p].tool@));
                } else {
                    assert(lex_lt(ts[p].tool@, o.tool@));
                }
                lemma_lex_irreflexive(r.tool);
            }
        }
    }
    assert forall|i: int| 0 <= i < nt.len() && (#[trigger] nt[i]).iteration >= 1 implies exists|a: int|
        0 <= a < nts.len() && (#[trigger] nts[a]).tool@ == nt[i].tool by {
        if i < os.len() {
            assert(nt[i] == os[i]);
            let a = choose|a: int| 0 <= a < ts.len() && (#[trigger] ts[a]).tool@ == os[i].tool;
            assert(nts[a].tool@ == ts[a].tool@);
        } else {
            assert(nts[p].tool@ == nt[i].tool);
        }
    }
}

proof fn lemma_series_insert(os: Seq<ResultView>, ts: Seq<ToolSeries>, p: int, r: ResultView, x: ToolSeries)
    requires
        is_series_table(os, ts),
        0 <= p <= ts.len(),
        r.iteration >= 1,
        forall|q: int| 0 <= q < p ==> lex_lt((#[trigger] ts[q]).tool@, r.tool),
        p < ts.len() ==> lex_lt(r.tool, ts[p].tool@),
        x.tool@ == r.tool,
        bws(x.reads@) == if in_series(r, r.tool, true) {
            seq![bw_of(r)]
        } else {
            Seq::<(Seq<char>, u32)>::empty()
        },
        bws(x.writes@) == if in_series(r, r.tool, false) {
            seq![bw_of(r)]
        } else {
            Seq::<(Seq<char>, u32)>::empty()
        },
    ensures
        is_series_table(os.push(r), ts.insert(p, x)),
{
    let nt = os.push(r);
    let nts = ts.insert(p, x);
    assert(nt.drop_last() =~= os);
    assert(!tool_present(os, r.tool)) by {
        if tool_present(os, r.tool) {
            let i = choose|i: int| 0 <= i < os.len() && (#[trigger] os[i]).iteration >= 1 && os[i].tool == r.tool;
            let a = choose|a: int| 0 <= a < ts.len() && (#[trigger] ts[a]).tool@ == os[i].tool;
            lemma_lex_irreflexive(r.tool);
            if a > p {
                lemma_lex_transitive(r.tool, ts[p].tool@, ts[a].tool@);
            }
        }
    }
    lemma_series_absent(os, r.tool, true);
    lemma_series_absent(os, r.tool, false);
    assert forall|a: int, b: int| 0 <= a < b < nts.len() implies lex_lt((#[trigger] nts[a]).tool@, (#[trigger] nts[b]).tool@) by {
        if b == p {
        } else if a == p {
            if b - 1 > p {
                lemma_lex_transitive(r.tool, ts[p].tool@, ts[b - 1].tool@);
            }
        } else if a < p && b > p {
            if b - 1 > p {
                lemma_lex_transitive(r.tool, ts[p].tool@, ts[b - 1].tool@);
            }
            lemma_lex_transitive(ts[a].tool@, r.tool, ts[b - 1].tool@);
        }
    }
    assert forall|a: int| 0 <= a < nts.len() implies {
        let t = #[trigger] nts[a];
        &&& tool_present(nt, t.tool@)
        &&& bws(t.reads@) == series(nt, t.tool@, true)
        &&& bws(t.writes@) == series(nt, t.tool@, false)
    } by {
        if a == p {
            assert(nt[os.len() as int] == r);
        } else {
            let oa = if a < p { a } else { a - 1 };
            let o = ts[oa];
            assert(nts[a] == o);
            let i = choose|i: int| 0 <= i < os.len() && (#[trigger] os[i]).iteration >= 1 && os[i].tool == o.tool@;
            assert(nt[i] == os[i]);
            if o.tool@ == r.tool {
                lemma_lex_irreflexive(r.tool);
                if oa > p {
                    lemma_lex_transitive(r.tool, ts[p].tool@, o.tool@);
                }
            }
        }
    }
    assert forall|i: int| 0 <= i < nt.len() && (#[trigger] nt[i]).iteration >= 1 implies exists|a: int|
        0 <= a < nts.len() && (#[trigger] nts[a]).tool@ == nt[i].tool by {
        if i < os.len() {
            assert(nt[i] == os[i]);
            let a = choose|a: int| 0 <= a < ts.len() && (#[trigger] ts[a]).tool@ == os[i].tool;
            if a < p {
                assert(nts[a] == ts[a]);
            } else {
                assert(nts[a + 1] == ts[a]);
            }
        } else {
            assert(nts[p].tool@ == nt[i].tool);
        }
    }
}

fn push_bw(v: &mut Vec<Bandwidth>, b: &Bandwidth)
    ensures
        bws(final(v)@) == bws(old(v)@).push((b.digits@, b.divisor)),
{
    v.push(copy_bandwidth(b));
    assert(bws(v@) =~= bws(old(v)@).push((b.digits@, b.divisor)));
}

fn add_to_series(ts: &mut Vec<ToolSeries>, r: &BenchmarkResult, Ghost(os): Ghost<Seq<ResultView>>)
    requires
        is_series_table(os, old(ts)@),
    ensures
        is_series_table(os.push(result_view(*r)), final(ts)@),
{
    let ghost rv = result_view(*r);
    let ghost old_ts = ts@;
    if r.iteration == 0 {
        proof {
            lemma_series_skip(os, old_ts, rv);
        }
        return;
    }
    let rd = holds(r.test_type.as_str(), "READ");
    let w = holds(r.test_type.as_str(), "WRITE");
    let t = chars_of(r.tool.as_str());
    let mut p: usize = 0;
    while p < ts.len() && crate::statistics::lex_less(chars_of(ts[p].tool.as_str()).as_slice(), t.as_slice())
        invariant
            0 <= p <= ts@.len(),
            ts@ == old_ts,
            t@ == r.tool@,
            forall|q: int| 0 <= q < p ==> lex_lt((#[trigger] old_ts[q]).tool@, r.tool@),
        decreases ts@.len() - p,
    {
        p = p + 1;
    }
    let found = p < ts.len() && crate::models::seq_eq_str(ts[p].tool.as_str(), r.tool.as_str());
    if found {
        let mut entry = ts.remove(p);
        let ghost oe = entry;
        if rd {
            push_bw(&mut entry.reads, &r.bandwidth);
        } else if w {
            push_bw(&mut entry.writes, &r.bandwidth);
        }
        proof {
            assert(oe == old_ts[p as int]);
        }
        ts.insert(p, entry);
        proof {
            assert(ts@ =~= old_ts.update(p as int, entry));
            lemma_series_update(os, old_ts, p as int, rv, entry);
        }
    } else {
        proof {
            if p < old_ts.len() {
                lemma_lex_total(old_ts[p as int].tool@, r.tool@);
            }
        }
        let mut entry = ToolSeries { tool: r.tool.clone(), reads: Vec::new(), writes: Vec::new() };
        proof {
            assert(bws(entry.reads@) =~= Seq::<(Seq<char>, u32)>::empty());
            assert(bws(entry.writes@) =~= Seq::<(Seq<char>, u32)>::empty());
        }
        if rd {
            push_bw(&mut entry.reads, &r.bandwidth);
            assert(bws(entry.reads@) =~= seq![bw_of(rv)]);
        } else if w {
            push_bw(&mut entry.writes, &r.bandwidth);
            assert(bws(entry.writes@) =~= seq![bw_of(rv)]);
        }
        ts.insert(p, entry);
        proof {
            lemma_series_insert(os, old_ts, p as int, rv, entry);
        }
    }
}

pub open spec fn iteration_keys(rs: Seq<BenchmarkResult>) -> Seq<u64> {
    Seq::new(rs.len(), |i: int| rs[i].iteration as u64)
}

/// Per tool, the read and write bandwidths of the numbered iterations, in
/// iteration order and, within an iteration, in log order.
pub fn tool_series(results: &[BenchmarkResult]) -> (ts: Vec<ToolSeries>)
    ensures
        exists|p: Seq<int>|
            is_stable_order(iteration_keys(results@), p) && is_series_table(
                permute(results_view(results@), p),
                ts@,
            ),
{
    let mut keys: Vec<u64> = Vec::new();
    let mut i: usize = 0;
    while i < results.len()
        invariant
            0 <= i <= results@.len(),
            keys@ == iteration_keys(results@).take(i as int),
        decreases results@.len() - i,
    {
        keys.push(results[i].iteration as u64);
        assert(keys@ =~= iteration_keys(results@).take(i + 1));
        i = i + 1;
    }
    assert(keys@ =~= iteration_keys(results@));
    let p = stable_order(&keys);
    let ghost pi = usize_seq_as_int(p@);
    let ghost os = permute(results_view(results@), pi);
    let mut ts: Vec<ToolSeries> = Vec::new();
    let mut k: usize = 0;
    while k < p.len()
        invariant
            is_stable_order(iteration_keys(results@), pi),
            pi == usize_seq_as_int(p@),
            os == permute(results_view(results@), pi),
            0 <= k <= p@.len(),
            is_series_table(os.take(k as int), ts@),
        decreases p@.len() - k,
    {
        assert(0 <= pi[k as int] < results@.len());
        proof {
            assert(os.take(k + 1) =~= os.take(k as int).push(result_view(results@[pi[k as int]])));
        }
        add_to_series(&mut ts, &results[p[k]], Ghost(os.take(k as int)));
        k = k + 1;
    }
    assert(os.take(p@.len() as int) =~= os);
    ts
}

} // verus!

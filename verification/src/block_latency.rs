//! The latency pass over block-layer events: repeated issues of one request
//! are dropped, then queue depth, dispatch-to-complete, complete-to-complete
//! and complete-to-dispatch times and continuity are computed in time order.
use vstd::prelude::*;
use std::collections::{HashMap, HashSet};
use crate::models::{seq_eq_str, BlockView, Block};
use crate::order::{apply_order, is_stable_order, permute, stable_order, usize_seq_as_int};
use crate::text::chars_of;

verus! {

broadcast use vstd::std_specs::hash::group_hash_axioms;

/// Operation kind of a request by the first letter of its I/O type:
/// read (`R`), write (`W`), discard (`D`), other.
pub open spec fn op_kind(io_type: Seq<char>) -> u128 {
    if io_type.len() > 0 && io_type[0] == 'R' {
        0
    } else if io_type.len() > 0 && io_type[0] == 'W' {
        1
    } else if io_type.len() > 0 && io_type[0] == 'D' {
        2
    } else {
        3
    }
}

/// Key of a request: its start sector and operation kind.
pub open spec fn req_key(e: BlockView) -> u128 {
    (e.sector * 4 + op_kind(e.io_type)) as u128
}

/// Key of an issue for the removal of repeats: sector, operation kind and size.
pub open spec fn issue_key(e: BlockView) -> u128 {
    (req_key(e) * 0x1_0000_0000 + e.size) as u128
}

pub open spec fn is_issue(e: BlockView) -> bool {
    e.action == "block_rq_issue"@
}

pub open spec fn is_block_complete(e: BlockView) -> bool {
    e.action == "block_rq_complete"@
}

/// Whether the removal of repeats keeps the event, and the issues seen and
/// not yet completed after it.  A second issue of the same request is
/// dropped, and so is the completion of an empty write (a flush that is
/// logged twice).
pub open spec fn dedup_step(seen: Set<u128>, e: BlockView) -> (Set<u128>, bool) {
    if is_issue(e) {
        if seen.contains(issue_key(e)) {
            (seen, false)
        } else {
            (seen.insert(issue_key(e)), true)
        }
    } else if is_block_complete(e) {
        if op_kind(e.io_type) == 1 && e.size == 0 {
            (seen, false)
        } else {
            (seen.remove(issue_key(e)), true)
        }
    } else {
        (seen, true)
    }
}

pub open spec fn dedup_run(s: Seq<BlockView>) -> (Set<u128>, Seq<BlockView>)
    decreases s.len(),
{
    if s.len() == 0 {
        (Set::empty(), Seq::empty())
    } else {
        let prev = dedup_run(s.drop_last());
        let next = dedup_step(prev.0, s.last());
        (next.0, if next.1 {
            prev.1.push(s.last())
        } else {
            prev.1
        })
    }
}

pub struct BlockLatencyState {
    pub qd: int,
    /// Issue time of each outstanding request, by `req_key`.
    pub reqs: Map<u128, u64>,
    pub last_complete: Option<u64>,
    pub last_qd0: Option<u64>,
    pub first_c: bool,
    pub first_time: u64,
    /// End sector and kind of the last read, write or discard issued.
    pub prev_end: Option<u64>,
    pub prev_kind: Option<u128>,
}

pub open spec fn block_initial_state() -> BlockLatencyState {
    BlockLatencyState {
        qd: 0,
        reqs: Map::empty(),
        last_complete: None,
        last_qd0: None,
        first_c: false,
        first_time: 0,
        prev_end: None,
        prev_kind: None,
    }
}

pub open spec fn block_step(st: BlockLatencyState, e: BlockView) -> (BlockLatencyState, BlockView) {
    let kind = op_kind(e.io_type);
    let key = req_key(e);
    if is_issue(e) {
        let cont = kind != 3 && st.prev_end == Some(e.sector) && st.prev_kind == Some(kind);
        let qd = st.qd + 1;
        let ctod = match st.last_qd0 {
            Some(t) => (e.time - t) as u64,
            None => e.ctod,
        };
        (
            BlockLatencyState {
                qd,
                reqs: st.reqs.insert(key, e.time),
                first_c: if qd == 1 {
                    true
                } else {
                    st.first_c
                },
                first_time: if qd == 1 {
                    e.time
                } else {
                    st.first_time
                },
                prev_end: if kind != 3 {
                    Some((e.sector + e.size) as u64)
                } else {
                    st.prev_end
                },
                prev_kind: if kind != 3 {
                    Some(kind)
                } else {
                    st.prev_kind
                },
                ..st
            },
            BlockView { continuous: cont, ctod, qd: qd as u32, ..e },
        )
    } else if is_block_complete(e) {
        let dtoc = if st.reqs.contains_key(key) {
            (e.time - st.reqs[key]) as u64
        } else {
            e.dtoc
        };
        let ctoc = if st.first_c {
            (e.time - st.first_time) as u64
        } else {
            match st.last_complete {
                Some(t) => (e.time - t) as u64,
                None => e.ctoc,
            }
        };
        let qd = if st.qd > 0 {
            st.qd - 1
        } else {
            0
        };
        (
            BlockLatencyState {
                qd,
                reqs: st.reqs.remove(key),
                first_c: false,
                last_qd0: if qd == 0 {
                    Some(e.time)
                } else {
                    st.last_qd0
                },
                last_complete: Some(e.time),
                ..st
            },
            BlockView { continuous: false, dtoc, ctoc, qd: qd as u32, ..e },
        )
    } else {
        (st, BlockView { continuous: false, qd: st.qd as u32, ..e })
    }
}

/// The event can be handled without overflow.
pub open spec fn block_step_fits(st: BlockLatencyState, e: BlockView) -> bool {
    is_issue(e) ==> st.qd + 1 <= u32::MAX && (op_kind(e.io_type) != 3 ==> e.sector + e.size
        <= u64::MAX)
}

pub open spec fn block_run(s: Seq<BlockView>) -> (BlockLatencyState, Seq<BlockView>)
    decreases s.len(),
{
    if s.len() == 0 {
        (block_initial_state(), Seq::empty())
    } else {
        let prev = block_run(s.drop_last());
        let next = block_step(prev.0, s.last());
        (next.0, prev.1.push(next.1))
    }
}

pub open spec fn block_run_fits(s: Seq<BlockView>) -> bool
    decreases s.len(),
{
    if s.len() == 0 {
        true
    } else {
        block_run_fits(s.drop_last()) && block_step_fits(block_run(s.drop_last()).0, s.last())
    }
}

pub open spec fn block_views(v: Seq<Block>) -> Seq<BlockView> {
    Seq::new(v.len(), |i: int| v[i]@)
}

pub open spec fn block_times(v: Seq<Block>) -> Seq<u64> {
    Seq::new(v.len(), |i: int| v[i].time)
}

/// The whole treatment of a list of events already in time order.
pub open spec fn block_latency(s: Seq<BlockView>) -> Seq<BlockView> {
    block_run(dedup_run(s).1).1
}

/// An issue of a read, write or discard (an operation kind other than 3).
pub open spec fn is_rwd_issue(e: BlockView) -> bool {
    is_issue(e) && op_kind(e.io_type) != 3
}

/// Position of the last read, write or discard issue in `s`, if any.
pub open spec fn last_rwd_issue(s: Seq<BlockView>) -> Option<int>
    decreases s.len(),
{
    if s.len() == 0 {
        None
    } else if is_rwd_issue(s.last()) {
        Some(s.len() - 1)
    } else {
        last_rwd_issue(s.drop_last())
    }
}

proof fn lemma_last_rwd_bounds(s: Seq<BlockView>)
    ensures
        last_rwd_issue(s) matches Some(j) ==> 0 <= j < s.len() && is_rwd_issue(s[j]),
    decreases s.len(),
{
    if s.len() > 0 {
        lemma_last_rwd_bounds(s.drop_last());
        assert(s.last() == s[s.len() - 1]);
        if let Some(j) = last_rwd_issue(s.drop_last()) {
            assert(s.drop_last()[j] == s[j]);
        }
    }
}

/// The pass remembers the end sector and operation kind of the last read,
/// write or discard issue.
proof fn lemma_prev_issue(s: Seq<BlockView>)
    ensures
        block_run(s).1.len() == s.len(),
        block_run(s).0.prev_end == match last_rwd_issue(s) {
            Some(j) => Some(((s[j].sector + s[j].size) as u64)),
            None => None::<u64>,
        },
        block_run(s).0.prev_kind == match last_rwd_issue(s) {
            Some(j) => Some(op_kind(s[j].io_type)),
            None => None::<u128>,
        },
    decreases s.len(),
{
    if s.len() > 0 {
        let d = s.drop_last();
        lemma_prev_issue(d);
        assert(s.last() == s[s.len() - 1]);
        if let Some(j) = last_rwd_issue(d) {
            lemma_last_rwd_bounds(d);
            assert(d[j] == s[j]);
        }
    }
}

/// Continuity of the block pass (for events whose read, write and discard
/// issues end within `u64`, as `block_bottom_half_latency_process` asks):
/// an event comes out marked continuous
/// exactly when it is a read, write or discard issue that starts at the end
/// sector (start plus size) of the last read, write or discard issue before
/// it, and that issue has the same operation kind.  An issue after one of
/// another kind is never continuous, and neither is any other event.
pub proof fn law_block_continuity(s: Seq<BlockView>, i: int)
    requires
        0 <= i < s.len(),
        forall|j: int| 0 <= j < s.len() && is_rwd_issue(#[trigger] s[j]) ==> s[j].sector + s[j].size <= u64::MAX,
    ensures
        block_run(s).1.len() == s.len(),
        block_run(s).1[i].continuous <==> (is_rwd_issue(s[i]) && match last_rwd_issue(s.take(i)) {
            Some(j) => s[j].sector + s[j].size == s[i].sector && op_kind(s[j].io_type) == op_kind(
                s[i].io_type,
            ),
            None => false,
        }),
    decreases s.len(),
{
    let d = s.drop_last();
    lemma_prev_issue(s);
    lemma_prev_issue(d);
    if i == s.len() - 1 {
        assert(s.take(i) =~= d);
        assert(s.last() == s[i]);
        assert(block_run(s).1[i] == block_step(block_run(d).0, s.last()).1);
        if let Some(j) = last_rwd_issue(d) {
            lemma_last_rwd_bounds(d);
            assert(d[j] == s[j]);
            assert(s[j].sector + s[j].size <= u64::MAX);
        }
    } else {
        assert forall|j: int| 0 <= j < d.len() && is_rwd_issue(#[trigger] d[j]) implies d[j].sector + d[j].size
            <= u64::MAX by {
            assert(d[j] == s[j]);
        }
        law_block_continuity(d, i);
        assert(s.take(i) =~= d.take(i));
        assert(d[i] == s[i]);
        assert(block_run(s).1[i] == block_run(d).1[i]);
        if let Some(j) = last_rwd_issue(d.take(i)) {
            lemma_last_rwd_bounds(d.take(i));
            assert(d.take(i)[j] == s[j]);
        }
    }
}

proof fn lemma_block_qd_state(s: Seq<BlockView>)
    requires
        block_run_fits(s),
    ensures
        block_run(s).1.len() == s.len(),
        0 <= block_run(s).0.qd <= u32::MAX,
        s.len() > 0 ==> block_run(s).1.last().qd as int == block_run(s).0.qd,
    decreases s.len(),
{
    lemma_prev_issue(s);
    if s.len() > 0 {
        lemma_block_qd_state(s.drop_last());
    }
}

/// Queue depth of the block pass: each event comes out with the number of
/// requests in flight after it: one more than after the event before (none
/// before the first) for an issue, one fewer (but not below zero) for a
/// completion, and unchanged for any other event.
pub proof fn law_block_queue_depth(s: Seq<BlockView>, i: int)
    requires
        0 <= i < s.len(),
        block_run_fits(s),
    ensures
        block_run(s).1.len() == s.len(),
        ({
            let before: int = if i == 0 { 0 } else { block_run(s).1[i - 1].qd as int };
            block_run(s).1[i].qd as int == if is_issue(s[i]) {
                before + 1
            } else if is_block_complete(s[i]) {
                if before > 0 { before - 1 } else { 0 }
            } else {
                before
            }
        }),
    decreases s.len(),
{
    let d = s.drop_last();
    lemma_block_qd_state(s);
    lemma_block_qd_state(d);
    if i == s.len() - 1 {
        assert(s.last() == s[i]);
        assert(block_run(s).1[i] == block_step(block_run(d).0, s.last()).1);
        if i > 0 {
            assert(block_run(s).1[i - 1] == block_run(d).1.last());
        } else {
            assert(d.len() == 0);
        }
    } else {
        law_block_queue_depth(d, i);
        assert(d[i] == s[i]);
        assert(block_run(s).1[i] == block_run(d).1[i]);
        if i > 0 {
            assert(block_run(s).1[i - 1] == block_run(d).1[i - 1]);
        }
    }
}

/// The event is an issue or completion of the same request as `t`: the
/// same start sector and operation kind.
pub open spec fn of_block_request(e: BlockView, t: BlockView) -> bool {
    (is_issue(e) || is_block_complete(e)) && e.sector == t.sector && op_kind(e.io_type) == op_kind(
        t.io_type,
    )
}

/// Position of the last issue or completion in `s` of the request of `key`.
pub open spec fn last_of_block_request(s: Seq<BlockView>, key: BlockView) -> Option<int>
    decreases s.len(),
{
    if s.len() == 0 {
        None
    } else if of_block_request(s.last(), key) {
        Some(s.len() - 1)
    } else {
        last_of_block_request(s.drop_last(), key)
    }
}

proof fn lemma_last_of_block_request_bounds(s: Seq<BlockView>, key: BlockView)
    ensures
        last_of_block_request(s, key) matches Some(j) ==> 0 <= j < s.len() && of_block_request(s[j], key),
    decreases s.len(),
{
    if s.len() > 0 {
        lemma_last_of_block_request_bounds(s.drop_last(), key);
        assert(s.last() == s[s.len() - 1]);
        if let Some(j) = last_of_block_request(s.drop_last(), key) {
            assert(s.drop_last()[j] == s[j]);
        }
    }
}

proof fn lemma_block_reqs(s: Seq<BlockView>, key: BlockView)
    ensures
        block_run(s).0.reqs.contains_key(req_key(key)) <==> (last_of_block_request(s, key) matches Some(j)
            && is_issue(s[j])),
        last_of_block_request(s, key) matches Some(j) ==> (is_issue(s[j]) ==> block_run(s).0.reqs[req_key(
            key,
        )] == s[j].time),
    decreases s.len(),
{
    if s.len() > 0 {
        let d = s.drop_last();
        law_block_keys_injective(s.last(), key);
        lemma_block_reqs(d, key);
        lemma_last_of_block_request_bounds(d, key);
        assert(s.last() == s[s.len() - 1]);
        if let Some(j) = last_of_block_request(d, key) {
            assert(d[j] == s[j]);
        }
    }
}

/// Dispatch-to-complete time of the block pass, over events in time order:
/// a completion comes out with its time minus the time of the issue of the
/// same request (same start sector and operation kind) when the last issue or
/// completion of that request before it is an issue; otherwise it keeps
/// the value it had.
pub proof fn law_block_dispatch_to_complete(s: Seq<BlockView>, i: int)
    requires
        0 <= i < s.len(),
        is_block_complete(s[i]),
        forall|a: int, b: int| 0 <= a <= b < s.len() ==> #[trigger] s[a].time <= #[trigger] s[b].time,
    ensures
        block_run(s).1.len() == s.len(),
        block_run(s).1[i].dtoc as int == match last_of_block_request(s.take(i), s[i]) {
            Some(j) => if is_issue(s[j]) {
                s[i].time - s[j].time
            } else {
                s[i].dtoc as int
            },
            None => s[i].dtoc as int,
        },
    decreases s.len(),
{
    reveal_strlit("block_rq_issue");
    reveal_strlit("block_rq_complete");
    assert(!is_issue(s[i])) by {
        if is_issue(s[i]) {
            assert(s[i].action.len() == 14 && s[i].action.len() == 17);
        }
    }
    let d = s.drop_last();
    lemma_prev_issue(s);
    lemma_prev_issue(d);
    if i == s.len() - 1 {
        assert(s.take(i) =~= d);
        assert(s.last() == s[i]);
        assert(block_run(s).1[i] == block_step(block_run(d).0, s.last()).1);
        lemma_block_reqs(d, s[i]);
        lemma_last_of_block_request_bounds(d, s[i]);
        if let Some(j) = last_of_block_request(d, s[i]) {
            assert(d[j] == s[j]);
        }
    } else {
        assert forall|a: int, b: int| 0 <= a <= b < d.len() implies #[trigger] d[a].time <= #[trigger] d[b].time by {
            assert(d[a] == s[a] && d[b] == s[b]);
        }
        assert(d[i] == s[i]);
        law_block_dispatch_to_complete(d, i);
        assert(s.take(i) =~= d.take(i));
        assert(block_run(s).1[i] == block_run(d).1[i]);
        lemma_last_of_block_request_bounds(d.take(i), s[i]);
        if let Some(j) = last_of_block_request(d.take(i), s[i]) {
            assert(d.take(i)[j] == s[j]);
        }
    }
}

/// A completion of an empty write (a flush logged twice).
pub open spec fn is_empty_write_complete(e: BlockView) -> bool {
    is_block_complete(e) && op_kind(e.io_type) == 1 && e.size == 0
}

/// The event issues, or completes (other than an empty write), the same
/// request as `t`: the same start sector, operation kind and size.
pub open spec fn marks_request(e: BlockView, t: BlockView) -> bool {
    (is_issue(e) || (is_block_complete(e) && !is_empty_write_complete(e))) && e.sector == t.sector
        && op_kind(e.io_type) == op_kind(t.io_type) && e.size == t.size
}

/// Position of the last event of `s` that issues or completes the request
/// of `t`.
pub open spec fn last_mark(s: Seq<BlockView>, t: BlockView) -> Option<int>
    decreases s.len(),
{
    if s.len() == 0 {
        None
    } else if marks_request(s.last(), t) {
        Some(s.len() - 1)
    } else {
        last_mark(s.drop_last(), t)
    }
}

proof fn lemma_last_mark_bounds(s: Seq<BlockView>, t: BlockView)
    ensures
        last_mark(s, t) matches Some(j) ==> 0 <= j < s.len() && marks_request(s[j], t),
    decreases s.len(),
{
    if s.len() > 0 {
        lemma_last_mark_bounds(s.drop_last(), t);
        assert(s.last() == s[s.len() - 1]);
        if let Some(j) = last_mark(s.drop_last(), t) {
            assert(s.drop_last()[j] == s[j]);
        }
    }
}

proof fn lemma_dedup_seen(s: Seq<BlockView>, t: BlockView)
    ensures
        dedup_run(s).0.contains(issue_key(t)) <==> (last_mark(s, t) matches Some(j) && is_issue(s[j])),
    decreases s.len(),
{
    if s.len() > 0 {
        let d = s.drop_last();
        law_block_keys_injective(s.last(), t);
        lemma_dedup_seen(d, t);
        lemma_last_mark_bounds(d, t);
        assert(s.last() == s[s.len() - 1]);
        if let Some(j) = last_mark(d, t) {
            assert(d[j] == s[j]);
        }
    }
}

/// Whether the removal of repeats keeps event `i` of `s`: it drops an
/// issue of a request (start sector, operation kind and size) whose last
/// issue or completion before it is an issue (a repeat of a request still
/// outstanding), and the completion of an empty write; it keeps all else.
pub open spec fn kept_by_dedup(s: Seq<BlockView>, i: int) -> bool {
    let repeat = is_issue(s[i]) && match last_mark(s.take(i), s[i]) {
        Some(j) => is_issue(s[j]),
        None => false,
    };
    !repeat && !is_empty_write_complete(s[i])
}

/// The removal of repeats goes through the events in order and keeps
/// exactly those of which `kept_by_dedup` holds, unchanged.
pub proof fn law_block_repeats_dropped(s: Seq<BlockView>, i: int)
    requires
        0 <= i < s.len(),
    ensures
        dedup_run(s.take(i + 1)).1 == if kept_by_dedup(s, i) {
            dedup_run(s.take(i)).1.push(s[i])
        } else {
            dedup_run(s.take(i)).1
        },
{
    reveal_strlit("block_rq_issue");
    reveal_strlit("block_rq_complete");
    let p = s.take(i + 1);
    assert(p.drop_last() =~= s.take(i));
    assert(p.last() == s[i]);
    assert(!(is_issue(s[i]) && is_block_complete(s[i]))) by {
        if is_issue(s[i]) && is_block_complete(s[i]) {
            assert(s[i].action.len() == 14 && s[i].action.len() == 17);
        }
    }
    lemma_dedup_seen(s.take(i), s[i]);
    lemma_last_mark_bounds(s.take(i), s[i]);
}

proof fn lemma_block_run_at(s: Seq<BlockView>, i: int)
    requires
        0 <= i < s.len(),
    ensures
        block_run(s).1.len() == s.len(),
        block_run(s).1[i] == block_step(block_run(s.take(i)).0, s[i]).1,
    decreases s.len(),
{
    let d = s.drop_last();
    lemma_prev_issue(s);
    lemma_prev_issue(d);
    if i == s.len() - 1 {
        assert(s.take(i) =~= d);
    } else {
        lemma_block_run_at(d, i);
        assert(s.take(i) =~= d.take(i));
        assert(d[i] == s[i]);
    }
}

/// The block pass changes no recorded field of an event: each comes out
/// with the input's time, process, CPU, flags, action, device, I/O type,
/// sector, size, command and alignment, and only its queue depth,
/// latencies and continuity computed.
pub proof fn law_block_fields_kept(s: Seq<BlockView>, i: int)
    requires
        0 <= i < s.len(),
    ensures
        block_run(s).1.len() == s.len(),
        block_run(s).1[i] == (BlockView {
            qd: block_run(s).1[i].qd,
            dtoc: block_run(s).1[i].dtoc,
            ctoc: block_run(s).1[i].ctoc,
            ctod: block_run(s).1[i].ctod,
            continuous: block_run(s).1[i].continuous,
            ..s[i]
        }),
{
    lemma_block_run_at(s, i);
}

/// A completion event (the pass reads an event as an issue first).
pub open spec fn is_block_completion(e: BlockView) -> bool {
    is_block_complete(e) && !is_issue(e)
}

/// Position of the last completion of `s` after which no request was left
/// in flight.
pub open spec fn last_block_idle(s: Seq<BlockView>) -> Option<int>
    decreases s.len(),
{
    if s.len() == 0 {
        None
    } else if is_block_completion(s.last()) && block_run(s).1.last().qd == 0 {
        Some(s.len() - 1)
    } else {
        last_block_idle(s.drop_last())
    }
}

/// Position of the last event of `s` that either made the queue busy (an
/// issue after which one request is in flight) or completed a request.
pub open spec fn last_block_busy_or_completion(s: Seq<BlockView>) -> Option<int>
    decreases s.len(),
{
    if s.len() == 0 {
        None
    } else if (is_issue(s.last()) && block_run(s).1.last().qd == 1) || is_block_completion(s.last()) {
        Some(s.len() - 1)
    } else {
        last_block_busy_or_completion(s.drop_last())
    }
}

/// Position of the last completion of `s`.
pub open spec fn last_block_completion(s: Seq<BlockView>) -> Option<int>
    decreases s.len(),
{
    if s.len() == 0 {
        None
    } else if is_block_completion(s.last()) {
        Some(s.len() - 1)
    } else {
        last_block_completion(s.drop_last())
    }
}

proof fn lemma_block_marks_bounds(s: Seq<BlockView>)
    ensures
        last_block_idle(s) matches Some(j) ==> 0 <= j < s.len() && is_block_completion(s[j]),
        last_block_completion(s) matches Some(j) ==> 0 <= j < s.len() && is_block_completion(s[j]),
        last_block_busy_or_completion(s) matches Some(j) ==> 0 <= j < s.len() && (is_issue(s[j])
            || is_block_completion(s[j])),
        last_block_busy_or_completion(s) matches Some(j) ==> (is_block_completion(s[j])
            ==> last_block_completion(s) == Some(j)),
        last_block_busy_or_completion(s) is None ==> last_block_completion(s) is None,
    decreases s.len(),
{
    if s.len() > 0 {
        let d = s.drop_last();
        lemma_block_marks_bounds(d);
        assert(s.last() == s[s.len() - 1]);
        if let Some(j) = last_block_idle(d) {
            assert(d[j] == s[j]);
        }
        if let Some(j) = last_block_completion(d) {
            assert(d[j] == s[j]);
        }
        if let Some(j) = last_block_busy_or_completion(d) {
            assert(d[j] == s[j]);
        }
    }
}

proof fn lemma_block_times_state(s: Seq<BlockView>)
    requires
        block_run_fits(s),
    ensures
        block_run(s).0.last_qd0 == match last_block_idle(s) {
            Some(j) => Some(s[j].time),
            None => None::<u64>,
        },
        block_run(s).0.last_complete == match last_block_completion(s) {
            Some(j) => Some(s[j].time),
            None => None::<u64>,
        },
        block_run(s).0.first_c == (last_block_busy_or_completion(s) matches Some(j) && is_issue(s[j])),
        last_block_busy_or_completion(s) matches Some(j) ==> (is_issue(s[j]) ==> block_run(s).0.first_time
            == s[j].time),
    decreases s.len(),
{
    lemma_block_marks_bounds(s);
    if s.len() > 0 {
        let d = s.drop_last();
        lemma_block_times_state(d);
        lemma_block_marks_bounds(d);
        lemma_block_qd_state(s);
        lemma_block_qd_state(d);
        assert(s.last() == s[s.len() - 1]);
        assert(block_run(s).1.last() == block_step(block_run(d).0, s.last()).1);
        if let Some(j) = last_block_idle(d) {
            assert(d[j] == s[j]);
        }
        if let Some(j) = last_block_completion(d) {
            assert(d[j] == s[j]);
        }
        if let Some(j) = last_block_busy_or_completion(d) {
            assert(d[j] == s[j]);
        }
    }
}

/// Complete-to-dispatch time of the block pass, over events in time order:
/// an issue comes out with its time minus the time of the last completion
/// that left the queue empty, when there was one, and otherwise keeps the
/// value it had.
pub proof fn law_block_complete_to_dispatch(s: Seq<BlockView>, i: int)
    requires
        0 <= i < s.len(),
        is_issue(s[i]),
        block_run_fits(s),
        forall|a: int, b: int| 0 <= a <= b < s.len() ==> #[trigger] s[a].time <= #[trigger] s[b].time,
    ensures
        block_run(s).1.len() == s.len(),
        block_run(s).1[i].ctod as int == match last_block_idle(s.take(i)) {
            Some(j) => s[i].time - s[j].time,
            None => s[i].ctod as int,
        },
{
    lemma_block_run_at(s, i);
    lemma_block_fits_prefix(s, i);
    let p = s.take(i);
    lemma_block_times_state(p);
    lemma_block_marks_bounds(p);
    if let Some(j) = last_block_idle(p) {
        assert(p[j] == s[j]);
    }
}

/// Complete-to-complete time of the block pass, over events in time order:
/// a completion comes out with its time minus the time of the later of the
/// completion before it and the issue that last made the queue busy (so
/// the first completion of a busy period counts from the issue that began
/// it), or with the value it had when there was neither.
pub proof fn law_block_complete_to_complete(s: Seq<BlockView>, i: int)
    requires
        0 <= i < s.len(),
        is_block_completion(s[i]),
        block_run_fits(s),
        forall|a: int, b: int| 0 <= a <= b < s.len() ==> #[trigger] s[a].time <= #[trigger] s[b].time,
    ensures
        block_run(s).1.len() == s.len(),
        block_run(s).1[i].ctoc as int == match last_block_busy_or_completion(s.take(i)) {
            Some(j) => s[i].time - s[j].time,
            None => s[i].ctoc as int,
        },
{
    lemma_block_run_at(s, i);
    lemma_block_fits_prefix(s, i);
    let p = s.take(i);
    lemma_block_times_state(p);
    lemma_block_marks_bounds(p);
    let st = block_run(p).0;
    if let Some(j) = last_block_busy_or_completion(p) {
        assert(p[j] == s[j]);
        assert(s[j].time <= s[i].time);
        if is_issue(s[j]) {
            assert(st.first_c && st.first_time == s[j].time);
        } else {
            assert(st.last_complete == Some(s[j].time));
        }
    }
}

/// No more events than `u32::MAX`, and the end sector of every event
/// (start sector plus size) within `u64`.
pub open spec fn block_fields_fit(s: Seq<BlockView>) -> bool {
    &&& s.len() <= u32::MAX
    &&& forall|i: int| 0 <= i < s.len() ==> #[trigger] s[i].sector + s[i].size <= u64::MAX
}

proof fn lemma_block_fields_fit_drop_last(s: Seq<BlockView>)
    requires
        block_fields_fit(s),
        s.len() > 0,
    ensures
        block_fields_fit(s.drop_last()),
{
    let d = s.drop_last();
    assert forall|i: int| 0 <= i < d.len() implies #[trigger] d[i].sector + d[i].size <= u64::MAX by {
        assert(d[i] == s[i]);
    }
}

proof fn lemma_block_qd_bound(s: Seq<BlockView>)
    ensures
        0 <= block_run(s).0.qd <= s.len(),
    decreases s.len(),
{
    if s.len() > 0 {
        lemma_block_qd_bound(s.drop_last());
    }
}

proof fn lemma_block_run_fits(s: Seq<BlockView>)
    requires
        block_fields_fit(s),
    ensures
        block_run_fits(s),
    decreases s.len(),
{
    if s.len() > 0 {
        let d = s.drop_last();
        lemma_block_fields_fit_drop_last(s);
        lemma_block_run_fits(d);
        lemma_block_qd_bound(d);
        assert(s.last() == s[s.len() - 1]);
    }
}

proof fn lemma_dedup_keeps_fit(s: Seq<BlockView>)
    requires
        block_fields_fit(s),
    ensures
        block_fields_fit(dedup_run(s).1),
        dedup_run(s).1.len() <= s.len(),
    decreases s.len(),
{
    if s.len() > 0 {
        let d = s.drop_last();
        lemma_block_fields_fit_drop_last(s);
        lemma_dedup_keeps_fit(d);
        let prev = dedup_run(d);
        let out = dedup_run(s).1;
        assert(s.last() == s[s.len() - 1]);
        assert forall|i: int| 0 <= i < out.len() implies #[trigger] out[i].sector + out[i].size <= u64::MAX by {
            if i < prev.1.len() {
                assert(out[i] == prev.1[i]);
            }
        }
    }
}

/// Whether `block_bottom_half_latency_process` can take the list: no more
/// events than `u32::MAX` and no start sector plus size beyond `u64`.
pub fn block_latency_fits(block_list: &Vec<Block>) -> (b: bool)
    ensures
        b == block_fields_fit(block_views(block_list@)),
        b ==> forall|p: Seq<int>|
            is_stable_order(block_times(block_list@), p) ==> block_run_fits(
                dedup_run(#[trigger] permute(block_views(block_list@), p)).1,
            ),
{
    let ghost vs = block_views(block_list@);
    let n = block_list.len();
    if n as u64 > 0xffff_ffffu64 {
        return false;
    }
    let mut i: usize = 0;
    while i < n
        invariant
            n == block_list@.len(),
            vs == block_views(block_list@),
            0 <= i <= n,
            forall|j: int| 0 <= j < i ==> #[trigger] vs[j].sector + vs[j].size <= u64::MAX,
        decreases n - i,
    {
        let e = &block_list[i];
        if e.sector > u64::MAX - e.size as u64 {
            assert(vs[i as int].sector + vs[i as int].size > u64::MAX);
            return false;
        }
        i = i + 1;
    }
    proof {
        assert forall|p: Seq<int>| is_stable_order(block_times(block_list@), p) implies block_run_fits(
            dedup_run(#[trigger] permute(block_views(block_list@), p)).1,
        ) by {
            let ps = permute(vs, p);
            assert forall|k: int| 0 <= k < ps.len() implies #[trigger] ps[k].sector + ps[k].size <= u64::MAX by {
                assert(ps[k] == vs[p[k]]);
            }
            lemma_dedup_keeps_fit(ps);
            lemma_block_run_fits(dedup_run(ps).1);
        }
    }
    true
}

/// Distinct (sector, kind, size) triples have distinct keys, and distinct
/// (sector, kind) pairs distinct request keys.
pub proof fn law_block_keys_injective(a: BlockView, b: BlockView)
    ensures
        issue_key(a) == issue_key(b) ==> a.sector == b.sector && op_kind(a.io_type) == op_kind(
            b.io_type,
        ) && a.size == b.size,
        req_key(a) == req_key(b) ==> a.sector == b.sector && op_kind(a.io_type) == op_kind(
            b.io_type,
        ),
{
    let ka = op_kind(a.io_type) as int;
    let kb = op_kind(b.io_type) as int;
    let ra = a.sector * 4 + ka;
    let rb = b.sector * 4 + kb;
    assert(0 <= ra * 0x1_0000_0000 + a.size <= u128::MAX) by (nonlinear_arith)
        requires
            0 <= a.sector <= u64::MAX,
            0 <= ka < 4,
            0 <= a.size <= u32::MAX,
            ra == a.sector * 4 + ka,
    ;
    assert(0 <= rb * 0x1_0000_0000 + b.size <= u128::MAX) by (nonlinear_arith)
        requires
            0 <= b.sector <= u64::MAX,
            0 <= kb < 4,
            0 <= b.size <= u32::MAX,
            rb == b.sector * 4 + kb,
    ;
    if issue_key(a) == issue_key(b) {
        assert(ra * 0x1_0000_0000 + a.size == rb * 0x1_0000_0000 + b.size);
        lemma_split(ra, a.size as int, rb, b.size as int, 0x1_0000_0000);
        lemma_split(a.sector as int, ka, b.sector as int, kb, 4);
    }
    if req_key(a) == req_key(b) {
        lemma_split(a.sector as int, ka, b.sector as int, kb, 4);
    }
}

proof fn lemma_split(q1: int, r1: int, q2: int, r2: int, d: int)
    requires
        d > 0,
        0 <= r1 < d,
        0 <= r2 < d,
        q1 * d + r1 == q2 * d + r2,
    ensures
        q1 == q2,
        r1 == r2,
{
    vstd::arithmetic::div_mod::lemma_fundamental_div_mod_converse(q1 * d + r1, d, q1, r1);
    vstd::arithmetic::div_mod::lemma_fundamental_div_mod_converse(q2 * d + r2, d, q2, r2);
}

fn op_kind_exec(io_type: &String) -> (k: u128)
    ensures
        k == op_kind(io_type@),
{
    let cs = chars_of(io_type.as_str());
    if cs.len() > 0 && cs[0] == 'R' {
        0
    } else if cs.len() > 0 && cs[0] == 'W' {
        1
    } else if cs.len() > 0 && cs[0] == 'D' {
        2
    } else {
        3
    }
}

pub open spec fn block_state_times_le(st: BlockLatencyState, t: u64) -> bool {
    &&& forall|k: u128| #[trigger] st.reqs.contains_key(k) ==> st.reqs[k] <= t
    &&& (st.last_complete matches Some(x) ==> x <= t)
    &&& (st.last_qd0 matches Some(x) ==> x <= t)
    &&& st.first_time <= t
    &&& st.qd >= 0
}

proof fn lemma_dedup_take(s: Seq<BlockView>, i: int)
    requires
        0 <= i < s.len(),
    ensures
        dedup_run(s.take(i + 1)) == ({
            let prev = dedup_run(s.take(i));
            let next = dedup_step(prev.0, s[i]);
            (next.0, if next.1 {
                prev.1.push(s[i])
            } else {
                prev.1
            })
        }),
{
    assert(s.take(i + 1).drop_last() =~= s.take(i));
}

proof fn lemma_block_run_take(s: Seq<BlockView>, i: int)
    requires
        0 <= i < s.len(),
    ensures
        block_run(s.take(i + 1)) == (
            block_step(block_run(s.take(i)).0, s[i]).0,
            block_run(s.take(i)).1.push(block_step(block_run(s.take(i)).0, s[i]).1),
        ),
        block_run_fits(s.take(i + 1)) == (block_run_fits(s.take(i)) && block_step_fits(
            block_run(s.take(i)).0,
            s[i],
        )),
{
    assert(s.take(i + 1).drop_last() =~= s.take(i));
}

proof fn lemma_block_fits_prefix(s: Seq<BlockView>, i: int)
    requires
        0 <= i <= s.len(),
        block_run_fits(s),
    ensures
        block_run_fits(s.take(i)),
    decreases s.len() - i,
{
    if i == s.len() {
        assert(s.take(i) =~= s);
    } else {
        lemma_block_fits_prefix(s, i + 1);
        lemma_block_run_take(s, i);
    }
}

/// Drops repeated issues and the second completion of flushes, keeping
/// the order (see `dedup_run`).
fn remove_repeats(sorted: Vec<Block>) -> (d: Vec<Block>)
    requires
        forall|a: int, b: int|
            0 <= a <= b < sorted@.len() ==> (#[trigger] sorted@[a]).time <= (#[trigger] sorted@[b]).time,
    ensures
        block_views(d@) == dedup_run(block_views(sorted@)).1,
        forall|a: int, b: int| 0 <= a <= b < d@.len() ==> (#[trigger] d@[a]).time <= (#[trigger] d@[b]).time,
{
    let ghost s = block_views(sorted@);
    let ghost all = sorted@;
    let mut seen: HashSet<u128> = HashSet::new();
    let mut d: Vec<Block> = Vec::new();
    for e in it: sorted.into_iter()
        invariant
            it.seq() == all,
            s == block_views(all),
            forall|a: int, b: int| 0 <= a <= b < all.len() ==> (#[trigger] all[a]).time <= (#[trigger] all[b]).time,
            seen@ == dedup_run(s.take(it.index() as int)).0,
            block_views(d@) == dedup_run(s.take(it.index() as int)).1,
            forall|a: int, b: int| 0 <= a <= b < d@.len() ==> (#[trigger] d@[a]).time <= (#[trigger] d@[b]).time,
            forall|a: int| 0 <= a < d@.len() ==> (#[trigger] d@[a]).time <= (if it.index() > 0 {
                all[it.index() - 1].time
            } else {
                0
            }),
    {
        let ghost idx = it.index() as int;
        proof {
            lemma_dedup_take(s, idx);
            assert(s[idx] == e@);
            assert(all[idx] == e);
            if idx > 0 {
                assert(all[idx - 1].time <= all[idx].time);
            }
        }
        let kind = op_kind_exec(&e.io_type);
        let key: u128 = (e.sector as u128 * 4 + kind) * 0x1_0000_0000 + e.size as u128;
        let keep = if seq_eq_str(e.action.as_str(), "block_rq_issue") {
            if seen.contains(&key) {
                false
            } else {
                seen.insert(key);
                true
            }
        } else if seq_eq_str(e.action.as_str(), "block_rq_complete") {
            if kind == 1 && e.size == 0 {
                false
            } else {
                seen.remove(&key);
                true
            }
        } else {
            true
        };
        let ghost t = e.time;
        if keep {
            d.push(e);
        }
        assert(block_views(d@) =~= dedup_run(s.take(idx + 1)).1);
        assert forall|a: int| 0 <= a < d@.len() implies (#[trigger] d@[a]).time <= t by {
        }
    }
    proof {
        assert(s.take(s.len() as int) =~= s);
    }
    d
}

/// Annotates block-layer events: they are put in time order (a stable
/// sort), repeated issues are dropped (`dedup_run`), and the pass
/// `block_run` goes over what is left.
#[verifier::rlimit(50)]
pub fn block_bottom_half_latency_process(block_list: Vec<Block>) -> (r: Vec<Block>)
    requires
        forall|p: Seq<int>|
            is_stable_order(block_times(block_list@), p) ==> block_run_fits(
                dedup_run(#[trigger] permute(block_views(block_list@), p)).1,
            ),
    ensures
        exists|p: Seq<int>|
            is_stable_order(block_times(block_list@), p) && block_views(r@) == block_latency(
                permute(block_views(block_list@), p),
            ),
{
    let ghost input = block_list@;
    let mut times: Vec<u64> = Vec::new();
    let mut i: usize = 0;
    while i < block_list.len()
        invariant
            input == block_list@,
            0 <= i <= block_list@.len(),
            times@ == block_times(block_list@).take(i as int),
        decreases block_list@.len() - i,
    {
        times.push(block_list[i].time);
        assert(times@ =~= block_times(block_list@).take(i + 1));
        i = i + 1;
    }
    assert(times@ =~= block_times(input));
    let order = stable_order(&times);
    let ghost p = usize_seq_as_int(order@);
    assert forall|k: int, l: int| 0 <= k < l < order@.len() implies #[trigger] order@[k] != #[trigger] order@[l] by {
        assert(p[k] == order@[k] as int && p[l] == order@[l] as int);
    }
    assert forall|k: int| 0 <= k < order@.len() implies (#[trigger] order@[k]) < input.len() by {
        assert(p[k] == order@[k] as int);
    }
    let sorted = apply_order(block_list, &order);
    assert(block_views(sorted@) =~= permute(block_views(input), p));
    assert forall|a: int, b: int| 0 <= a <= b < sorted@.len() implies (#[trigger] sorted@[a]).time <= (#[trigger] sorted@[b]).time by {
        if a < b {
            assert(block_times(input)[p[a]] == input[p[a]].time);
            assert(block_times(input)[p[b]] == input[p[b]].time);
        }
    }
    let deduped = remove_repeats(sorted);
    let ghost s = block_views(deduped@);
    let ghost dd = deduped@;
    assert(block_run_fits(s));
    let mut out: Vec<Block> = Vec::new();
    let mut qd: u32 = 0;
    let mut req_times: HashMap<u128, u64> = HashMap::new();
    let mut last_complete: Option<u64> = None;
    let mut last_qd0: Option<u64> = None;
    let mut first_c: bool = false;
    let mut first_time: u64 = 0;
    let mut prev_end: Option<u64> = None;
    let mut prev_kind: Option<u128> = None;
    let mut last_time: u64 = 0;
    for e in it: deduped.into_iter()
        invariant
            it.seq() == dd,
            s == block_views(dd),
            block_run_fits(s),
            forall|a: int, b: int| 0 <= a <= b < dd.len() ==> (#[trigger] dd[a]).time <= (#[trigger] dd[b]).time,
            ({
                let st = block_run(s.take(it.index() as int)).0;
                &&& block_views(out@) == block_run(s.take(it.index() as int)).1
                &&& qd as int == st.qd
                &&& req_times@ == st.reqs
                &&& last_complete == st.last_complete
                &&& last_qd0 == st.last_qd0
                &&& first_c == st.first_c
                &&& first_time == st.first_time
                &&& prev_end == st.prev_end
                &&& prev_kind == st.prev_kind
                &&& block_state_times_le(st, last_time)
                &&& (it.index() > 0 ==> last_time == dd[it.index() - 1].time)
                &&& (it.index() == 0 ==> last_time == 0)
            }),
    {
        let ghost idx = it.index() as int;
        proof {
            lemma_block_run_take(s, idx);
            lemma_block_fits_prefix(s, idx + 1);
            assert(s[idx] == e@);
            assert(dd[idx] == e);
            if idx > 0 {
                assert(dd[idx - 1].time <= dd[idx].time);
            }
        }
        let mut e = e;
        e.continuous = false;
        let kind = op_kind_exec(&e.io_type);
        let key: u128 = e.sector as u128 * 4 + kind;
        if seq_eq_str(e.action.as_str(), "block_rq_issue") {
            if kind != 3 {
                match (prev_end, prev_kind) {
                    (Some(end), Some(pk)) => {
                        if e.sector == end && kind == pk {
                            e.continuous = true;
                        }
                    },
                    _ => {},
                }
                prev_end = Some(e.sector + e.size as u64);
                prev_kind = Some(kind);
            }
            req_times.insert(key, e.time);
            qd = qd + 1;
            match last_qd0 {
                Some(t) => {
                    e.ctod = e.time - t;
                },
                None => {},
            }
            if qd == 1 {
                first_c = true;
                first_time = e.time;
            }
        } else if seq_eq_str(e.action.as_str(), "block_rq_complete") {
            let removed = req_times.remove(&key);
            match removed {
                Some(t) => {
                    e.dtoc = e.time - t;
                },
                None => {},
            }
            if first_c {
                e.ctoc = e.time - first_time;
                first_c = false;
            } else {
                match last_complete {
                    Some(t) => {
                        e.ctoc = e.time - t;
                    },
                    None => {},
                }
            }
            qd = if qd > 0 {
                qd - 1
            } else {
                0
            };
            if qd == 0 {
                last_qd0 = Some(e.time);
            }
            last_complete = Some(e.time);
        }
        e.qd = qd;
        last_time = e.time;
        out.push(e);
        assert(block_views(out@) =~= block_run(s.take(idx + 1)).1);
    }
    proof {
        assert(s.take(s.len() as int) =~= s);
    }
    out
}

} // verus!

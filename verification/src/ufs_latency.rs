//! The latency pass over UFS events: queue depth, dispatch-to-complete,
//! complete-to-complete and complete-to-dispatch times, and continuity of
//! consecutive requests, computed over the events in time order.
use vstd::prelude::*;
use std::collections::HashMap;
use crate::models::{seq_eq_str, UfsView, UFS};
use crate::order::{apply_order, is_stable_order, permute, stable_order, usize_seq_as_int};

verus! {

broadcast use vstd::std_specs::hash::group_hash_axioms;

/// What the pass carries from one event to the next.
pub struct UfsLatencyState {
    /// Requests sent and not yet completed (never below zero).
    pub qd: int,
    /// Send time of each outstanding request, by (tag, opcode).
    pub reqs: Map<(u32, Seq<char>), u64>,
    pub last_complete: Option<u64>,
    /// Time of the last completion that left the queue empty.
    pub last_qd0: Option<u64>,
    /// Whether the next completion is the first since the queue became busy.
    pub first_c: bool,
    /// Time of the send that made the queue busy.
    pub first_time: u64,
    /// Address, size and opcode of the last send.
    pub prev_send: Option<(u64, u32, Seq<char>)>,
}

pub open spec fn ufs_initial_state() -> UfsLatencyState {
    UfsLatencyState {
        qd: 0,
        reqs: Map::empty(),
        last_complete: None,
        last_qd0: None,
        first_c: false,
        first_time: 0,
        prev_send: None,
    }
}

pub open spec fn is_send(e: UfsView) -> bool {
    e.action == "send_req"@
}

pub open spec fn is_complete(e: UfsView) -> bool {
    e.action == "complete_rsp"@
}

/// One event of the pass: the state after it and the event as annotated.
pub open spec fn ufs_step(st: UfsLatencyState, e: UfsView) -> (UfsLatencyState, UfsView) {
    if is_send(e) {
        let cont = match st.prev_send {
            Some(p) => e.lba == p.0 + p.1 && e.opcode == p.2,
            None => false,
        };
        let qd = st.qd + 1;
        let ctod = if qd == 1 {
            match st.last_qd0 {
                Some(t) => (e.time - t) as u64,
                None => e.ctod,
            }
        } else {
            e.ctod
        };
        (
            UfsLatencyState {
                qd,
                reqs: st.reqs.insert((e.tag, e.opcode), e.time),
                first_c: if qd == 1 {
                    true
                } else {
                    st.first_c
                },
                first_time: if qd == 1 {
                    e.time
                } else {
                    st.first_time
                },
                prev_send: Some((e.lba, e.size, e.opcode)),
                ..st
            },
            UfsView { continuous: cont, ctod, qd: qd as u32, ..e },
        )
    } else if is_complete(e) {
        let qd = if st.qd > 0 {
            st.qd - 1
        } else {
            0
        };
        let key = (e.tag, e.opcode);
        let dtoc = if st.reqs.contains_key(key) {
            (e.time - st.reqs[key]) as u64
        } else {
            e.dtoc
        };
        let ctoc = if st.first_c {
            (e.time - st.first_time) as u64
        } else {
            match st.last_complete {
                Some(t) => (e.time - t) as u64,
                None => e.ctoc,
            }
        };
        (
            UfsLatencyState {
                qd,
                reqs: st.reqs.remove(key),
                first_c: false,
                last_qd0: if qd == 0 {
                    Some(e.time)
                } else {
                    st.last_qd0
                },
                last_complete: Some(e.time),
                ..st
            },
            UfsView { continuous: false, dtoc, ctoc, qd: qd as u32, ..e },
        )
    } else {
        (st, UfsView { continuous: false, qd: st.qd as u32, ..e })
    }
}

/// The event can be handled without overflow: the queue depth stays within
/// `u32` and the end address of the previous send within `u64`.
pub open spec fn ufs_step_fits(st: UfsLatencyState, e: UfsView) -> bool {
    is_send(e) ==> st.qd + 1 <= u32::MAX && match st.prev_send {
        Some(p) => p.0 + p.1 <= u64::MAX,
        None => true,
    }
}

/// The pass over a sequence of events in time order.
pub open spec fn ufs_run(s: Seq<UfsView>) -> (UfsLatencyState, Seq<UfsView>)
    decreases s.len(),
{
    if s.len() == 0 {
        (ufs_initial_state(), Seq::empty())
    } else {
        let prev = ufs_run(s.drop_last());
        let next = ufs_step(prev.0, s.last());
        (next.0, prev.1.push(next.1))
    }
}

pub open spec fn ufs_run_fits(s: Seq<UfsView>) -> bool
    decreases s.len(),
{
    if s.len() == 0 {
        true
    } else {
        ufs_run_fits(s.drop_last()) && ufs_step_fits(ufs_run(s.drop_last()).0, s.last())
    }
}

pub open spec fn ufs_views(v: Seq<UFS>) -> Seq<UfsView> {
    Seq::new(v.len(), |i: int| v[i]@)
}

pub open spec fn ufs_times(v: Seq<UFS>) -> Seq<u64> {
    Seq::new(v.len(), |i: int| v[i].time)
}

// ---------------------------------------------------------------------------
// Outstanding requests, keyed by tag and interned opcode
// ---------------------------------------------------------------------------

pub open spec fn key_of(tag: u32, id: int) -> int {
    tag * 0x1_0000_0000_0000_0000 + id
}

pub open spec fn distinct(c: Seq<Seq<char>>) -> bool {
    forall|i: int, j: int| 0 <= i < c.len() && 0 <= j < c.len() && i != j ==> c[i] != c[j]
}

pub open spec fn cache_index(c: Seq<Seq<char>>, x: Seq<char>) -> int {
    choose|i: int| 0 <= i < c.len() && c[i] == x
}

pub open spec fn keys_valid(m: Map<u128, u64>, n: int) -> bool {
    forall|k: u128| #[trigger] m.dom().contains(k) ==> (k as int) % 0x1_0000_0000_0000_0000 < n
}

/// The outstanding requests that a table keyed by `key_of(tag, opcode id)` holds.
pub open spec fn reqs_view(m: Map<u128, u64>, c: Seq<Seq<char>>) -> Map<(u32, Seq<char>), u64> {
    Map::new(
        |k: (u32, Seq<char>)|
            c.contains(k.1) && m.dom().contains(key_of(k.0, cache_index(c, k.1)) as u128),
        |k: (u32, Seq<char>)| m[key_of(k.0, cache_index(c, k.1)) as u128],
    )
}

proof fn lemma_key_of(t1: u32, i1: int, t2: u32, i2: int)
    requires
        0 <= i1 < 0x1_0000_0000_0000_0000,
        0 <= i2 < 0x1_0000_0000_0000_0000,
    ensures
        0 <= key_of(t1, i1) <= u128::MAX,
        key_of(t1, i1) % 0x1_0000_0000_0000_0000 == i1,
        key_of(t1, i1) == key_of(t2, i2) ==> t1 == t2 && i1 == i2,
{
    let b: int = 0x1_0000_0000_0000_0000;
    assert(key_of(t1, i1) % b == i1) by (nonlinear_arith)
        requires
            0 <= i1 < b,
            key_of(t1, i1) == t1 * b + i1,
            b == 0x1_0000_0000_0000_0000,
            t1 >= 0,
    {
        vstd::arithmetic::div_mod::lemma_fundamental_div_mod_converse(t1 * b + i1, b, t1 as int, i1);
    }
    assert(key_of(t2, i2) % b == i2) by (nonlinear_arith)
        requires
            0 <= i2 < b,
            key_of(t2, i2) == t2 * b + i2,
            b == 0x1_0000_0000_0000_0000,
            t2 >= 0,
    {
        vstd::arithmetic::div_mod::lemma_fundamental_div_mod_converse(t2 * b + i2, b, t2 as int, i2);
    }
    assert(key_of(t1, i1) <= u128::MAX) by (nonlinear_arith)
        requires
            0 <= i1 < b,
            0 <= t1 <= u32::MAX,
            key_of(t1, i1) == t1 * b + i1,
            b == 0x1_0000_0000_0000_0000,
    ;
    if key_of(t1, i1) == key_of(t2, i2) {
        assert(t1 * b == t2 * b);
        assert(t1 == t2) by (nonlinear_arith)
            requires
                t1 * b == t2 * b,
                b > 0,
        ;
    }
}

proof fn lemma_cache_index(c: Seq<Seq<char>>, id: int)
    requires
        distinct(c),
        0 <= id < c.len(),
    ensures
        cache_index(c, c[id]) == id,
        c.contains(c[id]),
{
    assert(c.contains(c[id]));
    let j = cache_index(c, c[id]);
    assert(0 <= j < c.len() && c[j] == c[id]);
}

proof fn lemma_reqs_lookup(m: Map<u128, u64>, c: Seq<Seq<char>>, tag: u32, id: int)
    requires
        distinct(c),
        0 <= id < c.len(),
        c.len() <= usize::MAX,
    ensures
        reqs_view(m, c).contains_key((tag, c[id])) == m.dom().contains(key_of(tag, id) as u128),
        m.dom().contains(key_of(tag, id) as u128) ==> reqs_view(m, c)[(tag, c[id])] == m[key_of(
            tag,
            id,
        ) as u128],
{
    lemma_cache_index(c, id);
}

proof fn lemma_reqs_insert(m: Map<u128, u64>, c: Seq<Seq<char>>, tag: u32, id: int, v: u64)
    requires
        distinct(c),
        0 <= id < c.len(),
        c.len() <= usize::MAX,
        keys_valid(m, c.len() as int),
    ensures
        reqs_view(m.insert(key_of(tag, id) as u128, v), c) == reqs_view(m, c).insert((tag, c[id]), v),
        keys_valid(m.insert(key_of(tag, id) as u128, v), c.len() as int),
{
    let k = key_of(tag, id) as u128;
    lemma_key_of(tag, id, tag, id);
    lemma_cache_index(c, id);
    let a = reqs_view(m.insert(k, v), c);
    let b = reqs_view(m, c).insert((tag, c[id]), v);
    assert forall|q: (u32, Seq<char>)| #[trigger] a.contains_key(q) == b.contains_key(q) && (a.contains_key(q) ==> a[q] == b[q]) by {
        if c.contains(q.1) {
            let j = cache_index(c, q.1);
            assert(0 <= j < c.len() && c[j] == q.1);
            lemma_key_of(q.0, j, tag, id);
            if q == (tag, c[id]) {
            } else if q.1 == c[id] {
                lemma_cache_index(c, id);
            } else {
                assert(j != id);
            }
        }
    }
    assert(a =~= b);
    assert forall|kk: u128| #[trigger] m.insert(k, v).dom().contains(kk) implies (kk as int) % 0x1_0000_0000_0000_0000 < c.len() by {
        if kk == k {
        } else {
            assert(m.dom().contains(kk));
        }
    }
}

proof fn lemma_reqs_remove(m: Map<u128, u64>, c: Seq<Seq<char>>, tag: u32, id: int)
    requires
        distinct(c),
        0 <= id < c.len(),
        c.len() <= usize::MAX,
        keys_valid(m, c.len() as int),
    ensures
        reqs_view(m.remove(key_of(tag, id) as u128), c) == reqs_view(m, c).remove((tag, c[id])),
        keys_valid(m.remove(key_of(tag, id) as u128), c.len() as int),
{
    let k = key_of(tag, id) as u128;
    lemma_key_of(tag, id, tag, id);
    lemma_cache_index(c, id);
    let a = reqs_view(m.remove(k), c);
    let b = reqs_view(m, c).remove((tag, c[id]));
    assert forall|q: (u32, Seq<char>)| #[trigger] a.contains_key(q) == b.contains_key(q) && (a.contains_key(q) ==> a[q] == b[q]) by {
        if c.contains(q.1) {
            let j = cache_index(c, q.1);
            assert(0 <= j < c.len() && c[j] == q.1);
            lemma_key_of(q.0, j, tag, id);
            if q == (tag, c[id]) {
            } else if q.1 == c[id] {
                lemma_cache_index(c, id);
            } else {
                assert(j != id);
            }
        }
    }
    assert(a =~= b);
}

proof fn lemma_reqs_push(m: Map<u128, u64>, c: Seq<Seq<char>>, op: Seq<char>)
    requires
        c.len() < 0x1_0000_0000_0000_0000,
        distinct(c),
        !c.contains(op),
        keys_valid(m, c.len() as int),
    ensures
        reqs_view(m, c.push(op)) == reqs_view(m, c),
        distinct(c.push(op)),
        keys_valid(m, c.len() + 1 as int),
{
    let c2 = c.push(op);
    assert(distinct(c2)) by {
        assert forall|i: int, j: int| 0 <= i < c2.len() && 0 <= j < c2.len() && i != j implies c2[i] != c2[j] by {
            if i < c.len() && j < c.len() {
                assert(c2[i] == c[i] && c2[j] == c[j]);
            } else if i == c.len() {
                assert(c.contains(c[j]));
            } else {
                assert(c.contains(c[i]));
            }
        }
    }
    let a = reqs_view(m, c2);
    let b = reqs_view(m, c);
    assert forall|q: (u32, Seq<char>)| #[trigger] a.contains_key(q) == b.contains_key(q) && (a.contains_key(q) ==> a[q] == b[q]) by {
        if c.contains(q.1) {
            let j = cache_index(c, q.1);
            assert(0 <= j < c.len() && c[j] == q.1);
            assert(c2[j] == q.1);
            lemma_cache_index(c2, j);
            assert(c2.contains(q.1));
        } else if q.1 == op {
            lemma_cache_index(c2, c.len() as int);
            let kk = key_of(q.0, c.len() as int);
            lemma_key_of(q.0, c.len() as int, q.0, c.len() as int);
            if m.dom().contains(kk as u128) {
                assert((kk as u128) as int % 0x1_0000_0000_0000_0000 < c.len());
            }
        } else {
            if c2.contains(q.1) {
                let j = choose|j: int| 0 <= j < c2.len() && c2[j] == q.1;
                if j < c.len() {
                    assert(c[j] == q.1);
                }
            }
        }
    }
    assert(a =~= b);
}

// ---------------------------------------------------------------------------
// Facts about the pass
// ---------------------------------------------------------------------------

/// No time held in the state is later than `t`.
pub open spec fn state_times_le(st: UfsLatencyState, t: u64) -> bool {
    &&& forall|k: (u32, Seq<char>)| #[trigger] st.reqs.contains_key(k) ==> st.reqs[k] <= t
    &&& (st.last_complete matches Some(x) ==> x <= t)
    &&& (st.last_qd0 matches Some(x) ==> x <= t)
    &&& st.first_time <= t
    &&& st.qd >= 0
}

proof fn lemma_run_take(s: Seq<UfsView>, i: int)
    requires
        0 <= i < s.len(),
    ensures
        ufs_run(s.take(i + 1)) == (
            ufs_step(ufs_run(s.take(i)).0, s[i]).0,
            ufs_run(s.take(i)).1.push(ufs_step(ufs_run(s.take(i)).0, s[i]).1),
        ),
        ufs_run_fits(s.take(i + 1)) == (ufs_run_fits(s.take(i)) && ufs_step_fits(
            ufs_run(s.take(i)).0,
            s[i],
        )),
{
    assert(s.take(i + 1).drop_last() =~= s.take(i));
    assert(s.take(i + 1).last() == s[i]);
}

proof fn lemma_fits_prefix(s: Seq<UfsView>, i: int)
    requires
        0 <= i <= s.len(),
        ufs_run_fits(s),
    ensures
        ufs_run_fits(s.take(i)),
    decreases s.len() - i,
{
    if i == s.len() {
        assert(s.take(i) =~= s);
    } else {
        lemma_fits_prefix(s, i + 1);
        lemma_run_take(s, i);
    }
}

proof fn lemma_step_times(st: UfsLatencyState, e: UfsView, t: u64)
    requires
        state_times_le(st, t),
        t <= e.time,
    ensures
        state_times_le(ufs_step(st, e).0, e.time),
{
}

fn opcode_id(cache: &mut Vec<String>, op: &String, Ghost(m): Ghost<Map<u128, u64>>) -> (id: usize)
    requires
        distinct(Seq::new(old(cache)@.len(), |i: int| old(cache)@[i]@)),
        keys_valid(m, old(cache)@.len() as int),
    ensures
        id < final(cache)@.len(),
        final(cache)@.len() <= usize::MAX,
        final(cache)@.len() == old(cache)@.len() || final(cache)@.len() == old(cache)@.len() + 1,
        final(cache)@[id as int]@ == op@,
        distinct(Seq::new(final(cache)@.len(), |i: int| final(cache)@[i]@)),
        keys_valid(m, final(cache)@.len() as int),
        reqs_view(m, Seq::new(final(cache)@.len(), |i: int| final(cache)@[i]@)) == reqs_view(
            m,
            Seq::new(old(cache)@.len(), |i: int| old(cache)@[i]@),
        ),
        forall|i: int| 0 <= i < old(cache)@.len() ==> #[trigger] final(cache)@[i]@ == old(cache)@[i]@,
{
    let ghost c = Seq::new(cache@.len(), |i: int| cache@[i]@);
    let mut i: usize = 0;
    while i < cache.len()
        invariant
            0 <= i <= cache@.len(),
            c == Seq::new(cache@.len(), |i: int| cache@[i]@),
            cache@ == old(cache)@,
            distinct(c),
            keys_valid(m, cache@.len() as int),
            forall|j: int| 0 <= j < i ==> cache@[j]@ != op@,
        decreases cache@.len() - i,
    {
        if cache[i] == *op {
            return i;
        }
        i = i + 1;
    }
    assert(!c.contains(op@)) by {
        if c.contains(op@) {
            let j = choose|j: int| 0 <= j < c.len() && c[j] == op@;
            assert(cache@[j]@ != op@);
        }
    }
    proof {
        lemma_reqs_push(m, c, op@);
    }
    cache.push(op.clone());
    assert(Seq::new(cache@.len(), |i: int| cache@[i]@) =~= c.push(op@));
    cache.len() - 1
}

/// Position of the last send in `s`, if there is one.
pub open spec fn last_send(s: Seq<UfsView>) -> Option<int>
    decreases s.len(),
{
    if s.len() == 0 {
        None
    } else if is_send(s.last()) {
        Some(s.len() - 1)
    } else {
        last_send(s.drop_last())
    }
}

proof fn lemma_last_send_bounds(s: Seq<UfsView>)
    ensures
        last_send(s) matches Some(j) ==> 0 <= j < s.len() && is_send(s[j]) && forall|k: int|
            j < k < s.len() ==> !is_send(#[trigger] s[k]),
        last_send(s) is None ==> forall|k: int| 0 <= k < s.len() ==> !is_send(#[trigger] s[k]),
    decreases s.len(),
{
    if s.len() > 0 {
        lemma_last_send_bounds(s.drop_last());
        assert(s.last() == s[s.len() - 1]);
        assert forall|k: int| 0 <= k < s.len() - 1 implies s.drop_last()[k] == #[trigger] s[k] by {}
    }
}

/// The pass remembers the address, size and opcode of the last send.
proof fn lemma_prev_send(s: Seq<UfsView>)
    ensures
        ufs_run(s).0.prev_send == match last_send(s) {
            Some(j) => Some((s[j].lba, s[j].size, s[j].opcode)),
            None => None::<(u64, u32, Seq<char>)>,
        },
        ufs_run(s).1.len() == s.len(),
    decreases s.len(),
{
    if s.len() > 0 {
        let d = s.drop_last();
        lemma_prev_send(d);
        if let Some(j) = last_send(d) {
            lemma_last_send_bounds(d);
            assert(d[j] == s[j]);
        }
    }
}

/// Continuity of the UFS pass: an event comes out marked continuous exactly
/// when it is a send whose address is the end (address plus size) of the
/// last send before it, and whose opcode is that send's opcode.  A send
/// after a send of another opcode, or with no send before it, is never
/// continuous, and neither is any other event.
pub proof fn law_ufs_continuity(s: Seq<UfsView>, i: int)
    requires
        0 <= i < s.len(),
    ensures
        ufs_run(s).1.len() == s.len(),
        ufs_run(s).1[i].continuous <==> (is_send(s[i]) && match last_send(s.take(i)) {
            Some(j) => s[i].lba == s[j].lba + s[j].size && s[i].opcode == s[j].opcode,
            None => false,
        }),
    decreases s.len(),
{
    let d = s.drop_last();
    lemma_prev_send(s);
    lemma_prev_send(d);
    if i == s.len() - 1 {
        assert(s.take(i) =~= d);
        assert(s.last() == s[i]);
        assert(ufs_run(s).1[i] == ufs_step(ufs_run(d).0, s.last()).1);
        if let Some(j) = last_send(d) {
            lemma_last_send_bounds(d);
            assert(d[j] == s[j]);
        }
    } else {
        law_ufs_continuity(d, i);
        assert(s.take(i) =~= d.take(i));
        assert(d[i] == s[i]);
        assert(ufs_run(s).1[i] == ufs_run(d).1[i]);
        if let Some(j) = last_send(d.take(i)) {
            lemma_last_send_bounds(d.take(i));
            assert(d.take(i)[j] == s[j]);
        }
    }
}

proof fn lemma_ufs_qd_state(s: Seq<UfsView>)
    requires
        ufs_run_fits(s),
    ensures
        ufs_run(s).1.len() == s.len(),
        0 <= ufs_run(s).0.qd <= u32::MAX,
        s.len() > 0 ==> ufs_run(s).1.last().qd as int == ufs_run(s).0.qd,
    decreases s.len(),
{
    lemma_prev_send(s);
    if s.len() > 0 {
        lemma_ufs_qd_state(s.drop_last());
    }
}

/// Queue depth of the UFS pass: each event comes out with the number of
/// requests in flight after it: one more than after the event before (none
/// before the first) for a send, one fewer (but not below zero) for a
/// completion, and unchanged for any other event.
pub proof fn law_ufs_queue_depth(s: Seq<UfsView>, i: int)
    requires
        0 <= i < s.len(),
        ufs_run_fits(s),
    ensures
        ufs_run(s).1.len() == s.len(),
        ({
            let before: int = if i == 0 { 0 } else { ufs_run(s).1[i - 1].qd as int };
            ufs_run(s).1[i].qd as int == if is_send(s[i]) {
                before + 1
            } else if is_complete(s[i]) {
                if before > 0 { before - 1 } else { 0 }
            } else {
                before
            }
        }),
    decreases s.len(),
{
    let d = s.drop_last();
    lemma_ufs_qd_state(s);
    lemma_ufs_qd_state(d);
    if i == s.len() - 1 {
        assert(s.last() == s[i]);
        assert(ufs_run(s).1[i] == ufs_step(ufs_run(d).0, s.last()).1);
        if i > 0 {
            assert(ufs_run(s).1[i - 1] == ufs_run(d).1.last());
        } else {
            assert(d.len() == 0);
        }
    } else {
        law_ufs_queue_depth(d, i);
        assert(d[i] == s[i]);
        assert(ufs_run(s).1[i] == ufs_run(d).1[i]);
        if i > 0 {
            assert(ufs_run(s).1[i - 1] == ufs_run(d).1[i - 1]);
        }
    }
}

/// The event is a send or completion of the request `(tag, op)`.
pub open spec fn of_request(e: UfsView, tag: u32, op: Seq<char>) -> bool {
    (is_send(e) || is_complete(e)) && e.tag == tag && e.opcode == op
}

/// Position of the last send or completion of the request `(tag, op)` in `s`.
pub open spec fn last_of_request(s: Seq<UfsView>, tag: u32, op: Seq<char>) -> Option<int>
    decreases s.len(),
{
    if s.len() == 0 {
        None
    } else if of_request(s.last(), tag, op) {
        Some(s.len() - 1)
    } else {
        last_of_request(s.drop_last(), tag, op)
    }
}

proof fn lemma_last_of_request_bounds(s: Seq<UfsView>, tag: u32, op: Seq<char>)
    ensures
        last_of_request(s, tag, op) matches Some(j) ==> 0 <= j < s.len() && of_request(s[j], tag, op),
    decreases s.len(),
{
    if s.len() > 0 {
        lemma_last_of_request_bounds(s.drop_last(), tag, op);
        assert(s.last() == s[s.len() - 1]);
        if let Some(j) = last_of_request(s.drop_last(), tag, op) {
            assert(s.drop_last()[j] == s[j]);
        }
    }
}

/// The pass holds the send time of a request exactly while its last send
/// or completion so far is a send.
proof fn lemma_ufs_reqs(s: Seq<UfsView>, tag: u32, op: Seq<char>)
    ensures
        ufs_run(s).0.reqs.contains_key((tag, op)) <==> (last_of_request(s, tag, op) matches Some(j)
            && is_send(s[j])),
        last_of_request(s, tag, op) matches Some(j) ==> (is_send(s[j]) ==> ufs_run(s).0.reqs[(tag, op)]
            == s[j].time),
    decreases s.len(),
{
    if s.len() > 0 {
        let d = s.drop_last();
        lemma_ufs_reqs(d, tag, op);
        lemma_last_of_request_bounds(d, tag, op);
        assert(s.last() == s[s.len() - 1]);
        if let Some(j) = last_of_request(d, tag, op) {
            assert(d[j] == s[j]);
        }
    }
}

/// Dispatch-to-complete time of the UFS pass, over events in time order: a
/// completion comes out with its time minus the time of the send of the
/// same request (tag and opcode) when the last send or completion of that
/// request before it is a send; otherwise it keeps the value it had.
pub proof fn law_ufs_dispatch_to_complete(s: Seq<UfsView>, i: int)
    requires
        0 <= i < s.len(),
        is_complete(s[i]),
        forall|a: int, b: int| 0 <= a <= b < s.len() ==> #[trigger] s[a].time <= #[trigger] s[b].time,
    ensures
        ufs_run(s).1.len() == s.len(),
        ufs_run(s).1[i].dtoc as int == match last_of_request(s.take(i), s[i].tag, s[i].opcode) {
            Some(j) => if is_send(s[j]) {
                s[i].time - s[j].time
            } else {
                s[i].dtoc as int
            },
            None => s[i].dtoc as int,
        },
    decreases s.len(),
{
    reveal_strlit("send_req");
    reveal_strlit("complete_rsp");
    assert(!is_send(s[i])) by {
        if is_send(s[i]) {
            assert(s[i].action.len() == 8 && s[i].action.len() == 12);
        }
    }
    let d = s.drop_last();
    lemma_prev_send(s);
    lemma_prev_send(d);
    if i == s.len() - 1 {
        assert(s.take(i) =~= d);
        assert(s.last() == s[i]);
        assert(ufs_run(s).1[i] == ufs_step(ufs_run(d).0, s.last()).1);
        lemma_ufs_reqs(d, s[i].tag, s[i].opcode);
        lemma_last_of_request_bounds(d, s[i].tag, s[i].opcode);
        if let Some(j) = last_of_request(d, s[i].tag, s[i].opcode) {
            assert(d[j] == s[j]);
        }
    } else {
        assert forall|a: int, b: int| 0 <= a <= b < d.len() implies #[trigger] d[a].time <= #[trigger] d[b].time by {
            assert(d[a] == s[a] && d[b] == s[b]);
        }
        assert(d[i] == s[i]);
        law_ufs_dispatch_to_complete(d, i);
        assert(s.take(i) =~= d.take(i));
        assert(ufs_run(s).1[i] == ufs_run(d).1[i]);
        lemma_last_of_request_bounds(d.take(i), s[i].tag, s[i].opcode);
        if let Some(j) = last_of_request(d.take(i), s[i].tag, s[i].opcode) {
            assert(d.take(i)[j] == s[j]);
        }
    }
}

proof fn lemma_ufs_run_at(s: Seq<UfsView>, i: int)
    requires
        0 <= i < s.len(),
    ensures
        ufs_run(s).1.len() == s.len(),
        ufs_run(s).1[i] == ufs_step(ufs_run(s.take(i)).0, s[i]).1,
    decreases s.len(),
{
    let d = s.drop_last();
    lemma_prev_send(s);
    lemma_prev_send(d);
    if i == s.len() - 1 {
        assert(s.take(i) =~= d);
    } else {
        lemma_ufs_run_at(d, i);
        assert(s.take(i) =~= d.take(i));
        assert(d[i] == s[i]);
    }
}

/// The UFS pass changes no recorded field of an event: each comes out with
/// the input's time, process, CPU, action, tag, opcode, address, size,
/// group, queue and alignment, and only its queue depth, latencies and
/// continuity computed.
pub proof fn law_ufs_fields_kept(s: Seq<UfsView>, i: int)
    requires
        0 <= i < s.len(),
    ensures
        ufs_run(s).1.len() == s.len(),
        ufs_run(s).1[i] == (UfsView {
            qd: ufs_run(s).1[i].qd,
            dtoc: ufs_run(s).1[i].dtoc,
            ctoc: ufs_run(s).1[i].ctoc,
            ctod: ufs_run(s).1[i].ctod,
            continuous: ufs_run(s).1[i].continuous,
            ..s[i]
        }),
{
    lemma_ufs_run_at(s, i);
}

/// A completion event (the pass reads an event as a send first).
pub open spec fn is_completion(e: UfsView) -> bool {
    is_complete(e) && !is_send(e)
}

/// Position of the last completion of `s` after which no request was left
/// in flight.
pub open spec fn last_idle(s: Seq<UfsView>) -> Option<int>
    decreases s.len(),
{
    if s.len() == 0 {
        None
    } else if is_completion(s.last()) && ufs_run(s).1.last().qd == 0 {
        Some(s.len() - 1)
    } else {
        last_idle(s.drop_last())
    }
}

/// Position of the last event of `s` that either made the queue busy (a
/// send after which one request is in flight) or completed a request.
pub open spec fn last_busy_or_completion(s: Seq<UfsView>) -> Option<int>
    decreases s.len(),
{
    if s.len() == 0 {
        None
    } else if (is_send(s.last()) && ufs_run(s).1.last().qd == 1) || is_completion(s.last()) {
        Some(s.len() - 1)
    } else {
        last_busy_or_completion(s.drop_last())
    }
}

/// Position of the last completion of `s`.
pub open spec fn last_completion(s: Seq<UfsView>) -> Option<int>
    decreases s.len(),
{
    if s.len() == 0 {
        None
    } else if is_completion(s.last()) {
        Some(s.len() - 1)
    } else {
        last_completion(s.drop_last())
    }
}

/// What the pass remembers of times: the last idle completion, the last
/// completion, and whether (and since which send) the queue is busy with no
/// completion yet.
proof fn lemma_ufs_times_state(s: Seq<UfsView>)
    requires
        ufs_run_fits(s),
    ensures
        ufs_run(s).0.last_qd0 == match last_idle(s) {
            Some(j) => Some(s[j].time),
            None => None::<u64>,
        },
        ufs_run(s).0.last_complete == match last_completion(s) {
            Some(j) => Some(s[j].time),
            None => None::<u64>,
        },
        ufs_run(s).0.first_c == (last_busy_or_completion(s) matches Some(j) && is_send(s[j])),
        last_busy_or_completion(s) matches Some(j) ==> (is_send(s[j]) ==> ufs_run(s).0.first_time
            == s[j].time),
        last_idle(s) matches Some(j) ==> 0 <= j < s.len(),
        last_completion(s) matches Some(j) ==> 0 <= j < s.len(),
        last_busy_or_completion(s) matches Some(j) ==> 0 <= j < s.len(),
    decreases s.len(),
{
    if s.len() > 0 {
        let d = s.drop_last();
        lemma_ufs_times_state(d);
        lemma_ufs_qd_state(s);
        lemma_ufs_qd_state(d);
        assert(s.last() == s[s.len() - 1]);
        assert(ufs_run(s).1.last() == ufs_step(ufs_run(d).0, s.last()).1);
        if let Some(j) = last_idle(d) {
            assert(d[j] == s[j]);
        }
        if let Some(j) = last_completion(d) {
            assert(d[j] == s[j]);
        }
        if let Some(j) = last_busy_or_completion(d) {
            assert(d[j] == s[j]);
        }
    }
}

/// Complete-to-dispatch time of the UFS pass, over events in time order:
/// a send that makes the queue busy (one request in flight after it) comes
/// out with its time minus the time of the last completion that left the
/// queue empty, when there was one; every other send keeps the value it had.
pub proof fn law_ufs_complete_to_dispatch(s: Seq<UfsView>, i: int)
    requires
        0 <= i < s.len(),
        is_send(s[i]),
        ufs_run_fits(s),
        forall|a: int, b: int| 0 <= a <= b < s.len() ==> #[trigger] s[a].time <= #[trigger] s[b].time,
    ensures
        ufs_run(s).1.len() == s.len(),
        ufs_run(s).1[i].ctod as int == if ufs_run(s).1[i].qd == 1 {
            match last_idle(s.take(i)) {
                Some(j) => s[i].time - s[j].time,
                None => s[i].ctod as int,
            }
        } else {
            s[i].ctod as int
        },
{
    lemma_ufs_run_at(s, i);
    lemma_fits_prefix(s, i);
    lemma_fits_prefix(s, i + 1);
    let p = s.take(i);
    lemma_ufs_times_state(p);
    lemma_ufs_qd_state(p);
    let q = s.take(i + 1);
    assert(q.drop_last() =~= p);
    assert(q.last() == s[i]);
    if let Some(j) = last_idle(p) {
        assert(p[j] == s[j]);
    }
}

proof fn lemma_time_marks_bounds(s: Seq<UfsView>)
    ensures
        last_idle(s) matches Some(j) ==> 0 <= j < s.len() && is_completion(s[j]),
        last_completion(s) matches Some(j) ==> 0 <= j < s.len() && is_completion(s[j]),
        last_busy_or_completion(s) matches Some(j) ==> 0 <= j < s.len() && (is_send(s[j])
            || is_completion(s[j])),
    decreases s.len(),
{
    if s.len() > 0 {
        let d = s.drop_last();
        lemma_time_marks_bounds(d);
        assert(s.last() == s[s.len() - 1]);
        if let Some(j) = last_idle(d) {
            assert(d[j] == s[j]);
        }
        if let Some(j) = last_completion(d) {
            assert(d[j] == s[j]);
        }
        if let Some(j) = last_busy_or_completion(d) {
            assert(d[j] == s[j]);
        }
    }
}

proof fn lemma_busy_or_completion(s: Seq<UfsView>)
    ensures
        last_busy_or_completion(s) matches Some(j) ==> (is_completion(s[j]) ==> last_completion(s)
            == Some(j)),
        last_busy_or_completion(s) is None ==> last_completion(s) is None,
    decreases s.len(),
{
    lemma_time_marks_bounds(s);
    if s.len() > 0 {
        lemma_time_marks_bounds(s.drop_last());
        lemma_busy_or_completion(s.drop_last());
        assert(s.last() == s[s.len() - 1]);
        if let Some(j) = last_busy_or_completion(s.drop_last()) {
            assert(s.drop_last()[j] == s[j]);
        }
    }
}

/// Complete-to-complete time of the UFS pass, over events in time order: a
/// completion comes out with its time minus the time of the later of the
/// completion before it and the send that last made the queue busy (so the
/// first completion of a busy period counts from the send that began it),
/// or with the value it had when there was neither.
pub proof fn law_ufs_complete_to_complete(s: Seq<UfsView>, i: int)
    requires
        0 <= i < s.len(),
        is_completion(s[i]),
        ufs_run_fits(s),
        forall|a: int, b: int| 0 <= a <= b < s.len() ==> #[trigger] s[a].time <= #[trigger] s[b].time,
    ensures
        ufs_run(s).1.len() == s.len(),
        ufs_run(s).1[i].ctoc as int == match last_busy_or_completion(s.take(i)) {
            Some(j) => s[i].time - s[j].time,
            None => s[i].ctoc as int,
        },
{
    lemma_ufs_run_at(s, i);
    lemma_fits_prefix(s, i);
    let p = s.take(i);
    lemma_ufs_times_state(p);
    lemma_busy_or_completion(p);
    lemma_time_marks_bounds(p);
    let st = ufs_run(p).0;
    assert(!is_send(s[i]) && is_complete(s[i]));
    if let Some(j) = last_busy_or_completion(p) {
        assert(p[j] == s[j]);
        assert(s[j].time <= s[i].time);
        if is_send(s[j]) {
            assert(st.first_c);
            assert(st.first_time == s[j].time);
        } else {
            assert(!st.first_c);
            assert(last_completion(p) == Some(j));
            assert(st.last_complete == Some(s[j].time));
        }
    } else {
        assert(!st.first_c);
        assert(st.last_complete is None);
    }
}

/// No more events than `u32::MAX`, and the end address of every event
/// (address plus size) within `u64`.
pub open spec fn ufs_fields_fit(s: Seq<UfsView>) -> bool {
    &&& s.len() <= u32::MAX
    &&& forall|i: int| 0 <= i < s.len() ==> #[trigger] s[i].lba + s[i].size <= u64::MAX
}

proof fn lemma_ufs_fields_fit_drop_last(s: Seq<UfsView>)
    requires
        ufs_fields_fit(s),
        s.len() > 0,
    ensures
        ufs_fields_fit(s.drop_last()),
{
    let d = s.drop_last();
    assert forall|i: int| 0 <= i < d.len() implies #[trigger] d[i].lba + d[i].size <= u64::MAX by {
        assert(d[i] == s[i]);
    }
}

proof fn lemma_ufs_state_bound(s: Seq<UfsView>)
    requires
        ufs_fields_fit(s),
    ensures
        0 <= ufs_run(s).0.qd <= s.len(),
        ufs_run(s).0.prev_send matches Some(p) ==> p.0 + p.1 <= u64::MAX,
    decreases s.len(),
{
    if s.len() > 0 {
        lemma_ufs_fields_fit_drop_last(s);
        lemma_ufs_state_bound(s.drop_last());
        assert(s.last() == s[s.len() - 1]);
    }
}

proof fn lemma_ufs_run_fits(s: Seq<UfsView>)
    requires
        ufs_fields_fit(s),
    ensures
        ufs_run_fits(s),
    decreases s.len(),
{
    if s.len() > 0 {
        let d = s.drop_last();
        lemma_ufs_fields_fit_drop_last(s);
        lemma_ufs_run_fits(d);
        lemma_ufs_state_bound(d);
    }
}

/// Whether `ufs_bottom_half_latency_process` can take the list: no more
/// events than `u32::MAX` and no address plus size beyond `u64`.
pub fn ufs_latency_fits(ufs_list: &Vec<UFS>) -> (b: bool)
    ensures
        b == ufs_fields_fit(ufs_views(ufs_list@)),
        b ==> forall|p: Seq<int>|
            is_stable_order(ufs_times(ufs_list@), p) ==> ufs_run_fits(
                #[trigger] permute(ufs_views(ufs_list@), p),
            ),
{
    let ghost vs = ufs_views(ufs_list@);
    let n = ufs_list.len();
    if n as u64 > 0xffff_ffffu64 {
        return false;
    }
    let mut i: usize = 0;
    while i < n
        invariant
            n == ufs_list@.len(),
            vs == ufs_views(ufs_list@),
            0 <= i <= n,
            forall|j: int| 0 <= j < i ==> #[trigger] vs[j].lba + vs[j].size <= u64::MAX,
        decreases n - i,
    {
        let e = &ufs_list[i];
        if e.lba > u64::MAX - e.size as u64 {
            assert(vs[i as int].lba + vs[i as int].size > u64::MAX);
            return false;
        }
        i = i + 1;
    }
    proof {
        assert forall|p: Seq<int>| is_stable_order(ufs_times(ufs_list@), p) implies ufs_run_fits(
            #[trigger] permute(ufs_views(ufs_list@), p),
        ) by {
            let ps = permute(vs, p);
            assert forall|k: int| 0 <= k < ps.len() implies #[trigger] ps[k].lba + ps[k].size <= u64::MAX by {
                assert(ps[k] == vs[p[k]]);
            }
            lemma_ufs_run_fits(ps);
        }
    }
    true
}

/// Annotates UFS events with queue depth, latencies and continuity: the
/// events are put in time order (a stable sort, so that simultaneous events
/// keep their order) and the pass `ufs_run` goes over them.
///
/// The result is pinned down: a stable order is unique
/// (`law_stable_order_unique`).
#[verifier::rlimit(50)]
pub fn ufs_bottom_half_latency_process(ufs_list: Vec<UFS>) -> (r: Vec<UFS>)
    requires
        forall|p: Seq<int>|
            is_stable_order(ufs_times(ufs_list@), p) ==> ufs_run_fits(
                #[trigger] permute(ufs_views(ufs_list@), p),
            ),
    ensures
        exists|p: Seq<int>|
            is_stable_order(ufs_times(ufs_list@), p) && ufs_views(r@) == ufs_run(
                permute(ufs_views(ufs_list@), p),
            ).1,
{
    let ghost input = ufs_list@;
    let mut times: Vec<u64> = Vec::new();
    let mut i: usize = 0;
    while i < ufs_list.len()
        invariant
            input == ufs_list@,
            0 <= i <= ufs_list@.len(),
            times@ == ufs_times(ufs_list@).take(i as int),
        decreases ufs_list@.len() - i,
    {
        times.push(ufs_list[i].time);
        assert(times@ =~= ufs_times(ufs_list@).take(i + 1));
        i = i + 1;
    }
    assert(times@ =~= ufs_times(input));
    let order = stable_order(&times);
    let ghost p = usize_seq_as_int(order@);
    assert forall|k: int, l: int| 0 <= k < l < order@.len() implies #[trigger] order@[k] != #[trigger] order@[l] by {
        assert(p[k] == order@[k] as int && p[l] == order@[l] as int);
    }
    assert forall|k: int| 0 <= k < order@.len() implies (#[trigger] order@[k]) < input.len() by {
        assert(p[k] == order@[k] as int);
    }
    let sorted = apply_order(ufs_list, &order);
    let ghost s = ufs_views(sorted@);
    assert(s =~= permute(ufs_views(input), p));
    assert(ufs_run_fits(permute(ufs_views(input), p)));
    // Events in time order.
    assert forall|a: int, b: int| 0 <= a <= b < s.len() implies (#[trigger] s[a]).time <= (#[trigger] s[b]).time by {
        if a < b {
            assert(ufs_times(input)[p[a]] == input[p[a]].time);
            assert(ufs_times(input)[p[b]] == input[p[b]].time);
        }
    }
    let mut out: Vec<UFS> = Vec::new();
    let mut qd: u32 = 0;
    let mut req_times: HashMap<u128, u64> = HashMap::new();
    let mut cache: Vec<String> = Vec::new();
    let mut last_complete: Option<u64> = None;
    let mut last_qd0: Option<u64> = None;
    let mut first_c: bool = false;
    let mut first_time: u64 = 0;
    let mut prev_send: Option<(u64, u32, usize)> = None;
    let mut last_time: u64 = 0;
    for e in it: sorted.into_iter()
        invariant
            it.seq() == sorted@,
            s == ufs_views(sorted@),
            ufs_run_fits(s),
            forall|a: int, b: int| 0 <= a <= b < s.len() ==> (#[trigger] s[a]).time <= (#[trigger] s[b]).time,
            ({
                let st = ufs_run(s.take(it.index() as int)).0;
                let c = Seq::new(cache@.len(), |j: int| cache@[j]@);
                &&& ufs_views(out@) == ufs_run(s.take(it.index() as int)).1
                &&& qd as int == st.qd
                &&& distinct(c)
                &&& keys_valid(req_times@, cache@.len() as int)
                &&& reqs_view(req_times@, c) == st.reqs
                &&& last_complete == st.last_complete
                &&& last_qd0 == st.last_qd0
                &&& first_c == st.first_c
                &&& first_time == st.first_time
                &&& match (prev_send, st.prev_send) {
                    (Some(x), Some(y)) => x.0 == y.0 && x.1 == y.1 && x.2 < cache@.len() && c[x.2 as int] == y.2,
                    (None, None) => true,
                    _ => false,
                }
                &&& state_times_le(st, last_time)
                &&& (it.index() > 0 ==> last_time == s[it.index() - 1].time)
                &&& (it.index() == 0 ==> last_time == 0)
            }),
    {
        let ghost idx = it.index() as int;
        let ghost st = ufs_run(s.take(idx)).0;
        let ghost c = Seq::new(cache@.len(), |j: int| cache@[j]@);
        proof {
            lemma_run_take(s, idx);
            lemma_fits_prefix(s, idx + 1);
            assert(s[idx] == e@);
            if idx > 0 {
                assert(s[idx - 1].time <= s[idx].time);
            }
            lemma_step_times(st, e@, last_time);
        }
        let ghost ev = e@;
        let mut e = e;
        let id = opcode_id(&mut cache, &e.opcode, Ghost(req_times@));
        let ghost c2 = Seq::new(cache@.len(), |j: int| cache@[j]@);
        assert(c2[id as int] == ev.opcode);
        let key: u128 = (e.tag as u128) * 0x1_0000_0000_0000_0000 + (id as u128);
        proof {
            lemma_key_of(e.tag, id as int, e.tag, id as int);
            assert(key as int == key_of(e.tag, id as int));
        }
        if seq_eq_str(e.action.as_str(), "send_req") {
            let cont = match prev_send {
                Some((l, sz, pid)) => e.lba == l + sz as u64 && id == pid,
                None => false,
            };
            proof {
                if let Some(x) = prev_send {
                    assert(c2[x.2 as int] == c[x.2 as int]);
                    if id != x.2 {
                        assert(c2[id as int] != c2[x.2 as int]);
                    }
                }
            }
            e.continuous = cont;
            prev_send = Some((e.lba, e.size, id));
            proof {
                lemma_reqs_insert(req_times@, c2, e.tag, id as int, e.time);
            }
            req_times.insert(key, e.time);
            qd = qd + 1;
            if qd == 1 {
                match last_qd0 {
                    Some(t) => {
                        e.ctod = e.time - t;
                    },
                    None => {},
                }
                first_c = true;
                first_time = e.time;
            }
        } else if seq_eq_str(e.action.as_str(), "complete_rsp") {
            e.continuous = false;
            qd = if qd > 0 {
                qd - 1
            } else {
                0
            };
            proof {
                lemma_reqs_lookup(req_times@, c2, e.tag, id as int);
                lemma_reqs_remove(req_times@, c2, e.tag, id as int);
            }
            let removed = req_times.remove(&key);
            match removed {
                Some(send_time) => {
                    e.dtoc = e.time - send_time;
                },
                None => {},
            }
            if first_c {
                e.ctoc = e.time - first_time;
                first_c = false;
            } else {
                match last_complete {
                    Some(t) => {
                        e.ctoc = e.time - t;
                    },
                    None => {},
                }
            }
            if qd == 0 {
                last_qd0 = Some(e.time);
            }
            last_complete = Some(e.time);
        } else {
            e.continuous = false;
        }
        e.qd = qd;
        last_time = e.time;
        proof {
            reveal_strlit("send_req");
            reveal_strlit("complete_rsp");
        }
        out.push(e);
        assert(ufs_views(out@) =~= ufs_run(s.take(idx + 1)).1);
    }
    proof {
        assert(s.take(s.len() as int) =~= s);
    }
    out
}

} // verus!

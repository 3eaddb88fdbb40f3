//! The latency pass over custom UFS requests (each with a start and an end
//! time): queue depth at start and end, complete-to-complete and
//! complete-to-dispatch times, and continuity of consecutive requests.
use vstd::prelude::*;
use crate::models::{UfsCustomView, UFSCUSTOM};
use crate::order::{apply_order, is_stable_order, permute, stable_order, usize_seq_as_int};
use vstd::set_lib::{lemma_int_range, lemma_len_subset, set_int_range};

verus! {

pub open spec fn custom_views(v: Seq<UFSCUSTOM>) -> Seq<UfsCustomView> {
    Seq::new(v.len(), |i: int| v[i]@)
}

pub open spec fn custom_start_times(v: Seq<UFSCUSTOM>) -> Seq<u64> {
    Seq::new(v.len(), |i: int| v[i].start_time)
}

/// The start (even position `2i`) and end (odd position `2i + 1`) times
/// of the requests, in request order.
pub open spec fn event_times(s: Seq<UfsCustomView>) -> Seq<u64> {
    Seq::new(
        (2 * s.len()) as nat,
        |k: int|
            if k % 2 == 0 {
                s[k / 2].start_time
            } else {
                s[k / 2].end_time
            },
    )
}

/// The queue depth sweep over the events in the order `q`: a start raises
/// the depth and records it as the request's start depth, an end lowers it
/// (not below zero) and records it as the end depth.
pub open spec fn qd_sweep(n: nat, q: Seq<int>) -> (int, Seq<(u32, u32)>)
    decreases q.len(),
{
    if q.len() == 0 {
        (0, Seq::new(n, |i: int| (0u32, 0u32)))
    } else {
        let prev = qd_sweep(n, q.drop_last());
        let pos = q.last();
        let i = pos / 2;
        if pos % 2 == 0 {
            (prev.0 + 1, prev.1.update(i, ((prev.0 + 1) as u32, prev.1[i].1)))
        } else {
            let nq = if prev.0 > 0 {
                prev.0 - 1
            } else {
                0
            };
            (nq, prev.1.update(i, (prev.1[i].0, nq as u32)))
        }
    }
}

/// The depth never passes `u32::MAX`.
pub open spec fn qd_sweep_fits(n: nat, q: Seq<int>) -> bool
    decreases q.len(),
{
    if q.len() == 0 {
        true
    } else {
        qd_sweep_fits(n, q.drop_last()) && (q.last() % 2 == 0 ==> qd_sweep(n, q.drop_last()).0 + 1
            <= u32::MAX)
    }
}

pub struct CustomState {
    pub prev: Option<(u64, u32, Seq<char>)>,
    pub last_complete: Option<u64>,
    pub last_qd0: Option<u64>,
}

pub open spec fn sat_sub(a: u64, b: u64) -> u64 {
    if a >= b {
        (a - b) as u64
    } else {
        0
    }
}

pub open spec fn custom_step(st: CustomState, e: UfsCustomView, qds: (u32, u32)) -> (
    CustomState,
    UfsCustomView,
) {
    let cont = match st.prev {
        Some(p) => e.lba == p.0 + p.1 && e.opcode == p.2,
        None => false,
    };
    let ctoc = match st.last_complete {
        Some(t) => sat_sub(e.end_time, t),
        None => 0,
    };
    let ctod = if qds.0 == 0 {
        match st.last_qd0 {
            Some(t) => sat_sub(e.start_time, t),
            None => 0,
        }
    } else {
        match st.last_complete {
            Some(t) => sat_sub(e.start_time, t),
            None => 0,
        }
    };
    (
        CustomState {
            prev: Some((e.lba, e.size, e.opcode)),
            last_complete: Some(e.end_time),
            last_qd0: if qds.1 == 0 {
                Some(e.end_time)
            } else {
                st.last_qd0
            },
        },
        UfsCustomView {
            start_qd: qds.0,
            end_qd: qds.1,
            continuous: cont,
            ctoc,
            ctod,
            ..e
        },
    )
}

pub open spec fn custom_step_fits(st: CustomState) -> bool {
    match st.prev {
        Some(p) => p.0 + p.1 <= u64::MAX,
        None => true,
    }
}

pub open spec fn custom_run(s: Seq<UfsCustomView>, qds: Seq<(u32, u32)>) -> (
    CustomState,
    Seq<UfsCustomView>,
)
    decreases s.len(),
{
    if s.len() == 0 {
        (CustomState { prev: None, last_complete: None, last_qd0: None }, Seq::empty())
    } else {
        let prev = custom_run(s.drop_last(), qds);
        let next = custom_step(prev.0, s.last(), qds[s.len() - 1]);
        (next.0, prev.1.push(next.1))
    }
}

pub open spec fn custom_run_fits(s: Seq<UfsCustomView>, qds: Seq<(u32, u32)>) -> bool
    decreases s.len(),
{
    if s.len() == 0 {
        true
    } else {
        custom_run_fits(s.drop_last(), qds) && custom_step_fits(custom_run(s.drop_last(), qds).0)
    }
}

/// The whole treatment of requests in start-time order, with the events
/// in the order `q`.
pub open spec fn custom_latency(s: Seq<UfsCustomView>, q: Seq<int>) -> Seq<UfsCustomView> {
    custom_run(s, qd_sweep(s.len(), q).1).1
}

proof fn lemma_sweep_take(n: nat, q: Seq<int>, k: int)
    requires
        0 <= k < q.len(),
    ensures
        qd_sweep(n, q.take(k + 1)) == ({
            let prev = qd_sweep(n, q.take(k));
            let pos = q[k];
            let i = pos / 2;
            if pos % 2 == 0 {
                (prev.0 + 1, prev.1.update(i, ((prev.0 + 1) as u32, prev.1[i].1)))
            } else {
                let nq = if prev.0 > 0 {
                    prev.0 - 1
                } else {
                    0
                };
                (nq, prev.1.update(i, (prev.1[i].0, nq as u32)))
            }
        }),
        qd_sweep_fits(n, q.take(k + 1)) == (qd_sweep_fits(n, q.take(k)) && (q[k] % 2 == 0
            ==> qd_sweep(n, q.take(k)).0 + 1 <= u32::MAX)),
{
    assert(q.take(k + 1).drop_last() =~= q.take(k));
}

proof fn lemma_sweep_shape(n: nat, q: Seq<int>)
    requires
        forall|a: int| 0 <= a < q.len() ==> 0 <= #[trigger] q[a] < 2 * n,
    ensures
        qd_sweep(n, q).1.len() == n,
        qd_sweep(n, q).0 >= 0,
    decreases q.len(),
{
    if q.len() > 0 {
        assert forall|a: int| 0 <= a < q.drop_last().len() implies 0 <= #[trigger] q.drop_last()[a] < 2 * n by {
            assert(q.drop_last()[a] == q[a]);
        }
        lemma_sweep_shape(n, q.drop_last());
        assert(0 <= q.last() < 2 * n);
    }
}

proof fn lemma_sweep_fits_prefix(n: nat, q: Seq<int>, k: int)
    requires
        0 <= k <= q.len(),
        qd_sweep_fits(n, q),
    ensures
        qd_sweep_fits(n, q.take(k)),
    decreases q.len() - k,
{
    if k == q.len() {
        assert(q.take(k) =~= q);
    } else {
        lemma_sweep_fits_prefix(n, q, k + 1);
        lemma_sweep_take(n, q, k);
    }
}

proof fn lemma_custom_run_take(s: Seq<UfsCustomView>, qds: Seq<(u32, u32)>, i: int)
    requires
        0 <= i < s.len(),
    ensures
        custom_run(s.take(i + 1), qds) == (
            custom_step(custom_run(s.take(i), qds).0, s[i], qds[i]).0,
            custom_run(s.take(i), qds).1.push(custom_step(custom_run(s.take(i), qds).0, s[i], qds[i]).1),
        ),
        custom_run_fits(s.take(i + 1), qds) == (custom_run_fits(s.take(i), qds) && custom_step_fits(
            custom_run(s.take(i), qds).0,
        )),
{
    assert(s.take(i + 1).drop_last() =~= s.take(i));
}

proof fn lemma_custom_fits_prefix(s: Seq<UfsCustomView>, qds: Seq<(u32, u32)>, i: int)
    requires
        0 <= i <= s.len(),
        custom_run_fits(s, qds),
    ensures
        custom_run_fits(s.take(i), qds),
    decreases s.len() - i,
{
    if i == s.len() {
        assert(s.take(i) =~= s);
    } else {
        lemma_custom_fits_prefix(s, qds, i + 1);
        lemma_custom_run_take(s, qds, i);
    }
}

proof fn lemma_custom_prev(s: Seq<UfsCustomView>, qds: Seq<(u32, u32)>)
    ensures
        custom_run(s, qds).1.len() == s.len(),
        custom_run(s, qds).0.prev == if s.len() == 0 {
            None::<(u64, u32, Seq<char>)>
        } else {
            Some((s.last().lba, s.last().size, s.last().opcode))
        },
    decreases s.len(),
{
    if s.len() > 0 {
        lemma_custom_prev(s.drop_last(), qds);
    }
}

/// Continuity of the custom pass, over the requests in start-time order:
/// a request comes out marked continuous exactly when a request precedes
/// it, it starts at that request's end address (address plus size), and it
/// has that request's opcode.
pub proof fn law_custom_continuity(s: Seq<UfsCustomView>, qds: Seq<(u32, u32)>, i: int)
    requires
        0 <= i < s.len(),
    ensures
        custom_run(s, qds).1.len() == s.len(),
        custom_run(s, qds).1[i].continuous <==> (i > 0 && s[i].lba == s[i - 1].lba + s[i - 1].size
            && s[i].opcode == s[i - 1].opcode),
    decreases s.len(),
{
    let d = s.drop_last();
    lemma_custom_prev(s, qds);
    lemma_custom_prev(d, qds);
    if i == s.len() - 1 {
        assert(s.last() == s[i]);
        assert(custom_run(s, qds).1[i] == custom_step(custom_run(d, qds).0, s.last(), qds[i]).1);
        if i > 0 {
            assert(d.last() == s[i - 1]);
        }
    } else {
        law_custom_continuity(d, qds, i);
        assert(d[i] == s[i]);
        if i > 0 {
            assert(d[i - 1] == s[i - 1]);
        }
        assert(custom_run(s, qds).1[i] == custom_run(d, qds).1[i]);
    }
}

/// No more requests than `u32::MAX`, and the end address of every request
/// (address plus size) within `u64`.
pub open spec fn custom_fields_fit(s: Seq<UfsCustomView>) -> bool {
    &&& s.len() <= u32::MAX
    &&& forall|i: int| 0 <= i < s.len() ==> #[trigger] s[i].lba + s[i].size <= u64::MAX
}

/// How many positions of `q` are starts (even).
pub open spec fn start_count(q: Seq<int>) -> nat
    decreases q.len(),
{
    if q.len() == 0 {
        0
    } else {
        start_count(q.drop_last()) + if q.last() % 2 == 0 {
            1nat
        } else {
            0nat
        }
    }
}

/// The requests whose start occurs in `q`.
pub open spec fn started(q: Seq<int>) -> Set<int> {
    Set::new(|i: int| exists|k: int| 0 <= k < q.len() && q[k] == 2 * i)
}

pub open spec fn positions_distinct(q: Seq<int>) -> bool {
    forall|k: int, l: int| 0 <= k < l < q.len() ==> #[trigger] q[k] != #[trigger] q[l]
}

proof fn lemma_started_len(q: Seq<int>)
    requires
        positions_distinct(q),
        forall|k: int| 0 <= k < q.len() ==> 0 <= #[trigger] q[k],
    ensures
        started(q).finite(),
        started(q).len() == start_count(q),
    decreases q.len(),
{
    if q.len() == 0 {
        assert(started(q) =~= Set::<int>::empty());
    } else {
        let d = q.drop_last();
        let x = q.last();
        assert(positions_distinct(d)) by {
            assert forall|k: int, l: int| 0 <= k < l < d.len() implies #[trigger] d[k] != #[trigger] d[l] by {
                assert(d[k] == q[k] && d[l] == q[l]);
            }
        }
        assert forall|k: int| 0 <= k < d.len() implies 0 <= #[trigger] d[k] by {
            assert(d[k] == q[k]);
        }
        lemma_started_len(d);
        assert(x == q[q.len() - 1]);
        if x % 2 == 0 {
            assert(started(q) =~= started(d).insert(x / 2)) by {
                assert forall|i: int| started(q).contains(i) implies started(d).insert(x / 2).contains(i) by {
                    let k = choose|k: int| 0 <= k < q.len() && q[k] == 2 * i;
                    if k < d.len() {
                        assert(d[k] == q[k]);
                    }
                }
                assert forall|i: int| started(d).insert(x / 2).contains(i) implies started(q).contains(i) by {
                    if i != x / 2 {
                        let k = choose|k: int| 0 <= k < d.len() && d[k] == 2 * i;
                        assert(q[k] == d[k]);
                    }
                }
            }
            assert(!started(d).contains(x / 2)) by {
                if started(d).contains(x / 2) {
                    let k = choose|k: int| 0 <= k < d.len() && d[k] == 2 * (x / 2);
                    assert(q[k] == d[k]);
                }
            }
        } else {
            assert(started(q) =~= started(d)) by {
                assert forall|i: int| started(q).contains(i) implies started(d).contains(i) by {
                    let k = choose|k: int| 0 <= k < q.len() && q[k] == 2 * i;
                    if k < d.len() {
                        assert(d[k] == q[k]);
                    }
                }
                assert forall|i: int| started(d).contains(i) implies started(q).contains(i) by {
                    let k = choose|k: int| 0 <= k < d.len() && d[k] == 2 * i;
                    assert(q[k] == d[k]);
                }
            }
        }
    }
}

proof fn lemma_sweep_depth_bound(n: nat, q: Seq<int>)
    ensures
        0 <= qd_sweep(n, q).0 <= start_count(q),
    decreases q.len(),
{
    if q.len() > 0 {
        lemma_sweep_depth_bound(n, q.drop_last());
    }
}

/// A sweep over distinct event positions of `n <= u32::MAX` requests keeps
/// the depth within `u32`: at most `n` requests are ever open.
proof fn lemma_sweep_fits(n: nat, q: Seq<int>)
    requires
        n <= u32::MAX,
        positions_distinct(q),
        forall|k: int| 0 <= k < q.len() ==> 0 <= #[trigger] q[k] < 2 * n,
    ensures
        qd_sweep_fits(n, q),
    decreases q.len(),
{
    if q.len() > 0 {
        let d = q.drop_last();
        let x = q.last();
        assert(positions_distinct(d)) by {
            assert forall|k: int, l: int| 0 <= k < l < d.len() implies #[trigger] d[k] != #[trigger] d[l] by {
                assert(d[k] == q[k] && d[l] == q[l]);
            }
        }
        assert forall|k: int| 0 <= k < d.len() implies 0 <= #[trigger] d[k] < 2 * n by {
            assert(d[k] == q[k]);
        }
        lemma_sweep_fits(n, d);
        assert(x == q[q.len() - 1]);
        if x % 2 == 0 {
            lemma_sweep_depth_bound(n, d);
            lemma_started_len(d);
            let r = set_int_range(0, n as int).remove(x / 2);
            lemma_int_range(0, n as int);
            assert(set_int_range(0, n as int).contains(x / 2));
            assert(started(d).subset_of(r)) by {
                assert forall|i: int| started(d).contains(i) implies r.contains(i) by {
                    let k = choose|k: int| 0 <= k < d.len() && d[k] == 2 * i;
                    assert(d[k] == q[k]);
                }
            }
            lemma_len_subset(started(d), r);
        }
    }
}

proof fn lemma_custom_prev_fits(s: Seq<UfsCustomView>, qds: Seq<(u32, u32)>)
    requires
        forall|i: int| 0 <= i < s.len() ==> #[trigger] s[i].lba + s[i].size <= u64::MAX,
    ensures
        custom_run_fits(s, qds),
        custom_run(s, qds).0.prev matches Some(p) ==> p.0 + p.1 <= u64::MAX,
    decreases s.len(),
{
    if s.len() > 0 {
        let d = s.drop_last();
        assert forall|i: int| 0 <= i < d.len() implies #[trigger] d[i].lba + d[i].size <= u64::MAX by {
            assert(d[i] == s[i]);
        }
        lemma_custom_prev_fits(d, qds);
        assert(s.last() == s[s.len() - 1]);
    }
}

/// Whether `ufscustom_bottom_half_latency_process` can take the list: no
/// more requests than `u32::MAX` and no address plus size beyond `u64`.
pub fn ufscustom_latency_fits(list: &Vec<UFSCUSTOM>) -> (b: bool)
    ensures
        b == custom_fields_fit(custom_views(list@)),
        b ==> list@.len() <= 0x7fff_ffff_ffff_ffff,
        b ==> forall|p: Seq<int>, q: Seq<int>|
            is_stable_order(custom_start_times(list@), p) && #[trigger] is_stable_order(
                event_times(permute(custom_views(list@), p)),
                q,
            ) ==> qd_sweep_fits(list@.len(), q) && custom_run_fits(
                permute(custom_views(list@), p),
                qd_sweep(list@.len(), q).1,
            ),
{
    let ghost vs = custom_views(list@);
    let n = list.len();
    if n as u64 > 0xffff_ffffu64 {
        return false;
    }
    let mut i: usize = 0;
    while i < n
        invariant
            n == list@.len(),
            vs == custom_views(list@),
            0 <= i <= n,
            forall|j: int| 0 <= j < i ==> #[trigger] vs[j].lba + vs[j].size <= u64::MAX,
        decreases n - i,
    {
        let e = &list[i];
        if e.lba > u64::MAX - e.size as u64 {
            assert(vs[i as int].lba + vs[i as int].size > u64::MAX);
            return false;
        }
        i = i + 1;
    }
    proof {
        assert forall|p: Seq<int>, q: Seq<int>|
            is_stable_order(custom_start_times(list@), p) && #[trigger] is_stable_order(
                event_times(permute(custom_views(list@), p)),
                q,
            ) implies qd_sweep_fits(list@.len(), q) && custom_run_fits(
                permute(custom_views(list@), p),
                qd_sweep(list@.len(), q).1,
            ) by {
            let ps = permute(vs, p);
            let et = event_times(ps);
            assert forall|k: int| 0 <= k < ps.len() implies #[trigger] ps[k].lba + ps[k].size <= u64::MAX by {
                assert(ps[k] == vs[p[k]]);
            }
            lemma_custom_prev_fits(ps, qd_sweep(list@.len(), q).1);
            assert(positions_distinct(q)) by {
                assert forall|k: int, l: int| 0 <= k < l < q.len() implies #[trigger] q[k] != #[trigger] q[l] by {
                    assert(et[q[k]] < et[q[l]] || (et[q[k]] == et[q[l]] && q[k] < q[l]));
                }
            }
            assert(et.len() == 2 * n);
            lemma_sweep_fits(list@.len(), q);
        }
    }
    true
}

/// Annotates custom UFS requests: they are put in start-time order (a
/// stable sort); their start and end events, in time order (a stable sort
/// of the events listed request by request, start before end), give the
/// queue depths (`qd_sweep`); a last pass (`custom_run`) gives continuity
/// and the latencies.
#[verifier::rlimit(50)]
pub fn ufscustom_bottom_half_latency_process(list: Vec<UFSCUSTOM>) -> (r: Vec<UFSCUSTOM>)
    requires
        list@.len() <= 0x7fff_ffff_ffff_ffff,
        forall|p: Seq<int>, q: Seq<int>|
            is_stable_order(custom_start_times(list@), p) && #[trigger] is_stable_order(
                event_times(permute(custom_views(list@), p)),
                q,
            ) ==> qd_sweep_fits(list@.len(), q) && custom_run_fits(
                permute(custom_views(list@), p),
                qd_sweep(list@.len(), q).1,
            ),
    ensures
        exists|p: Seq<int>, q: Seq<int>|
            is_stable_order(custom_start_times(list@), p) && is_stable_order(
                event_times(permute(custom_views(list@), p)),
                q,
            ) && custom_views(r@) == custom_latency(permute(custom_views(list@), p), q),
{
    let ghost input = list@;
    let n = list.len();
    let mut times: Vec<u64> = Vec::new();
    let mut i: usize = 0;
    while i < n
        invariant
            input == list@,
            n == list@.len(),
            0 <= i <= n,
            times@ == custom_start_times(list@).take(i as int),
        decreases n - i,
    {
        times.push(list[i].start_time);
        assert(times@ =~= custom_start_times(list@).take(i + 1));
        i = i + 1;
    }
    assert(times@ =~= custom_start_times(input));
    let order = stable_order(&times);
    let ghost p = usize_seq_as_int(order@);
    assert forall|k: int, l: int| 0 <= k < l < order@.len() implies #[trigger] order@[k] != #[trigger] order@[l] by {
        assert(p[k] == order@[k] as int && p[l] == order@[l] as int);
    }
    assert forall|k: int| 0 <= k < order@.len() implies (#[trigger] order@[k]) < input.len() by {
        assert(p[k] == order@[k] as int);
    }
    let sorted = apply_order(list, &order);
    let ghost s = custom_views(sorted@);
    assert(s =~= permute(custom_views(input), p));
    // Events: start and end of each request, in request order.
    let mut ev_times: Vec<u64> = Vec::new();
    let mut j: usize = 0;
    while j < n
        invariant
            n == sorted@.len(),
            n <= 0x7fff_ffff_ffff_ffff,
            s == custom_views(sorted@),
            0 <= j <= n,
            ev_times@ == event_times(s).take(2 * j),
        decreases n - j,
    {
        ev_times.push(sorted[j].start_time);
        ev_times.push(sorted[j].end_time);
        assert(ev_times@ =~= event_times(s).take(2 * (j + 1))) by {
            assert forall|k: int| 0 <= k < 2 * (j + 1) implies #[trigger] ev_times@[k] == event_times(s)[k] by {
                if k == 2 * j {
                    assert(k / 2 == j && k % 2 == 0);
                } else if k == 2 * j + 1 {
                    assert(k / 2 == j && k % 2 == 1);
                }
            }
        }
        j = j + 1;
    }
    assert(ev_times@ =~= event_times(s));
    let ev_order = stable_order(&ev_times);
    let ghost q = usize_seq_as_int(ev_order@);
    assert(qd_sweep_fits(n as nat, q) && custom_run_fits(s, qd_sweep(n as nat, q).1));
    // Queue depth sweep.
    let mut qds: Vec<(u32, u32)> = Vec::new();
    let mut z: usize = 0;
    while z < n
        invariant
            0 <= z <= n,
            qds@ == Seq::new(z as nat, |i: int| (0u32, 0u32)),
        decreases n - z,
    {
        qds.push((0, 0));
        assert(qds@ =~= Seq::new((z + 1) as nat, |i: int| (0u32, 0u32)));
        z = z + 1;
    }
    let mut qd: u32 = 0;
    let mut k: usize = 0;
    while k < ev_order.len()
        invariant
            ev_order@.len() == 2 * n,
            q == usize_seq_as_int(ev_order@),
            forall|a: int| 0 <= a < q.len() ==> 0 <= #[trigger] q[a] < 2 * n,
            qd_sweep_fits(n as nat, q),
            0 <= k <= ev_order@.len(),
            qd as int == qd_sweep(n as nat, q.take(k as int)).0,
            qds@ == qd_sweep(n as nat, q.take(k as int)).1,
            qds@.len() == n,
        decreases ev_order@.len() - k,
    {
        proof {
            lemma_sweep_take(n as nat, q, k as int);
            lemma_sweep_fits_prefix(n as nat, q, k + 1);
            assert forall|a: int| 0 <= a < q.take(k as int).len() implies 0 <= #[trigger] q.take(k as int)[a] < 2 * n by {
                assert(q.take(k as int)[a] == q[a]);
            }
            lemma_sweep_shape(n as nat, q.take(k as int));
            assert(q[k as int] == ev_order@[k as int] as int);
        }
        let pos = ev_order[k];
        let ri = pos / 2;
        if pos % 2 == 0 {
            qd = qd + 1;
            let cur = qds[ri];
            qds.set(ri, (qd, cur.1));
        } else {
            qd = if qd > 0 {
                qd - 1
            } else {
                0
            };
            let cur = qds[ri];
            qds.set(ri, (cur.0, qd));
        }
        k = k + 1;
    }
    assert(q.take(q.len() as int) =~= q);
    let ghost vals = qd_sweep(n as nat, q).1;
    // Continuity and latencies, request by request.
    let ghost all = sorted@;
    let mut out: Vec<UFSCUSTOM> = Vec::new();
    let mut prev: Option<(u64, u32, String)> = None;
    let mut last_complete: Option<u64> = None;
    let mut last_qd0: Option<u64> = None;
    for e in it: sorted.into_iter()
        invariant
            it.seq() == all,
            s == custom_views(all),
            qds@ == vals,
            vals.len() == s.len(),
            custom_run_fits(s, vals),
            ({
                let st = custom_run(s.take(it.index() as int), vals).0;
                &&& out@.len() == it.index()
                &&& custom_views(out@) == custom_run(s.take(it.index() as int), vals).1
                &&& last_complete == st.last_complete
                &&& last_qd0 == st.last_qd0
                &&& match (prev, st.prev) {
                    (Some(x), Some(y)) => x.0 == y.0 && x.1 == y.1 && x.2@ == y.2,
                    (None, None) => true,
                    _ => false,
                }
            }),
    {
        let ghost idx = it.index() as int;
        proof {
            lemma_custom_run_take(s, vals, idx);
            lemma_custom_fits_prefix(s, vals, idx + 1);
            assert(s[idx] == e@);
        }
        let mut e = e;
        let i_now = out.len();
        let qv = qds[i_now];
        e.start_qd = qv.0;
        e.end_qd = qv.1;
        e.continuous = match &prev {
            Some((l, sz, op)) => e.lba == *l + *sz as u64 && e.opcode == *op,
            None => false,
        };
        e.ctoc = match last_complete {
            Some(t) => if e.end_time >= t {
                e.end_time - t
            } else {
                0
            },
            None => 0,
        };
        e.ctod = if e.start_qd == 0 {
            match last_qd0 {
                Some(t) => if e.start_time >= t {
                    e.start_time - t
                } else {
                    0
                },
                None => 0,
            }
        } else {
            match last_complete {
                Some(t) => if e.start_time >= t {
                    e.start_time - t
                } else {
                    0
                },
                None => 0,
            }
        };
        last_complete = Some(e.end_time);
        if e.end_qd == 0 {
            last_qd0 = Some(e.end_time);
        }
        prev = Some((e.lba, e.size, e.opcode.clone()));
        out.push(e);
        assert(custom_views(out@) =~= custom_run(s.take(idx + 1), vals).1);
    }
    assert(s.take(s.len() as int) =~= s);
    assert(s.len() == n);
    assert(is_stable_order(custom_start_times(input), p));
    assert(is_stable_order(event_times(permute(custom_views(input), p)), q));
    assert(custom_views(out@) == custom_latency(permute(custom_views(input), p), q));
    out
}

} // verus!

//! Stable ordering of records by an integer key: the order that a stable
//! sort by that key puts them in.
use vstd::prelude::*;

verus! {

broadcast use vstd::seq_lib::group_to_multiset_ensures;

/// Lexicographic order of pairs.
pub open spec fn pair_le(a: (u64, u64), b: (u64, u64)) -> bool {
    a.0 < b.0 || (a.0 == b.0 && a.1 <= b.1)
}

pub open spec fn pairs_sorted(s: Seq<(u64, u64)>) -> bool {
    forall|i: int, j: int| 0 <= i <= j < s.len() ==> pair_le(#[trigger] s[i], #[trigger] s[j])
}

/// `slice::sort_unstable` on pairs of integers: the result holds the same
/// pairs, in ascending lexicographic order (the order of tuples).
#[verifier::external_body]
fn sort_pairs(v: &mut Vec<(u64, u64)>)
    ensures
        final(v)@.to_multiset() == old(v)@.to_multiset(),
        pairs_sorted(final(v)@),
{
    v.sort_unstable();
}

/// `p` lists the positions `0..keys.len()` in the order of a stable sort by
/// key: ascending keys, and equal keys in the order in which they came.
pub open spec fn is_stable_order(keys: Seq<u64>, p: Seq<int>) -> bool {
    &&& p.len() == keys.len()
    &&& forall|k: int| 0 <= k < p.len() ==> 0 <= #[trigger] p[k] < keys.len()
    &&& forall|k: int, l: int|
        0 <= k < l < p.len() ==> keys[#[trigger] p[k]] < keys[#[trigger] p[l]] || (keys[p[k]]
            == keys[p[l]] && p[k] < p[l])
}

/// The elements of `s` in the order `p`.
pub open spec fn permute<T>(s: Seq<T>, p: Seq<int>) -> Seq<T> {
    Seq::new(p.len(), |k: int| s[p[k]])
}

pub open spec fn usize_seq_as_int(v: Seq<usize>) -> Seq<int> {
    Seq::new(v.len(), |i: int| v[i] as int)
}

/// The stable order of `keys` (see `is_stable_order`).
pub fn stable_order(keys: &Vec<u64>) -> (p: Vec<usize>)
    ensures
        is_stable_order(keys@, usize_seq_as_int(p@)),
{
    let n = keys.len();
    let mut v: Vec<(u64, u64)> = Vec::new();
    let mut i: usize = 0;
    while i < n
        invariant
            n == keys@.len(),
            0 <= i <= n,
            v@.len() == i,
            forall|j: int| 0 <= j < i ==> #[trigger] v@[j] == (keys@[j], j as u64),
        decreases n - i,
    {
        v.push((keys[i], i as u64));
        i = i + 1;
    }
    let ghost before = v@;
    proof {
        assert(before.no_duplicates());
        before.lemma_multiset_has_no_duplicates();
    }
    sort_pairs(&mut v);
    let ghost w = v@;
    proof {
        assert forall|x: (u64, u64)| w.to_multiset().contains(x) implies w.to_multiset().count(x)
            == 1 by {
            assert(before.to_multiset().contains(x));
        }
        w.lemma_multiset_has_no_duplicates_conv();
        assert(w.len() == w.to_multiset().len());
        assert(before.len() == before.to_multiset().len());
        assert forall|k: int| 0 <= k < w.len() implies (#[trigger] w[k]).1 < n && w[k].0
            == keys@[w[k].1 as int] by {
            assert(w.contains(w[k]));
            assert(w.to_multiset().count(w[k]) > 0);
            assert(before.to_multiset().count(w[k]) > 0);
            assert(before.contains(w[k]));
            let j = choose|j: int| 0 <= j < before.len() && before[j] == w[k];
            assert(before[j] == (keys@[j], j as u64));
        }
    }
    let mut p: Vec<usize> = Vec::new();
    let mut k: usize = 0;
    while k < v.len()
        invariant
            w == v@,
            w.len() == n,
            n == keys@.len(),
            0 <= k <= n,
            p@.len() == k,
            forall|m: int| 0 <= m < k ==> #[trigger] p@[m] as int == w[m].1 as int,
            forall|m: int| 0 <= m < w.len() ==> (#[trigger] w[m]).1 < n && w[m].0 == keys@[w[m].1 as int],
        decreases n - k,
    {
        p.push(v[k].1 as usize);
        k = k + 1;
    }
    proof {
        let q = usize_seq_as_int(p@);
        assert forall|a: int, b: int| 0 <= a < b < q.len() implies keys@[#[trigger] q[a]] < keys@[#[trigger] q[b]]
            || (keys@[q[a]] == keys@[q[b]] && q[a] < q[b]) by {
            assert(pair_le(w[a], w[b]));
            assert(w[a] != w[b]);
        }
    }
    p
}

/// The elements of `items` in the order `p`, a permutation of its positions.
pub fn apply_order<T>(items: Vec<T>, p: &Vec<usize>) -> (out: Vec<T>)
    requires
        p@.len() == items@.len(),
        forall|k: int| 0 <= k < p@.len() ==> (#[trigger] p@[k]) < items@.len(),
        forall|k: int, l: int| 0 <= k < l < p@.len() ==> #[trigger] p@[k] != #[trigger] p@[l],
    ensures
        out@ == permute(items@, usize_seq_as_int(p@)),
{
    let ghost orig = items@;
    let n = p.len();
    let mut slots: Vec<Option<T>> = Vec::new();
    for x in it: items.into_iter()
        invariant
            it.seq() == orig,
            slots@.len() == it.index(),
            forall|j: int| 0 <= j < slots@.len() ==> #[trigger] slots@[j] == Some(orig[j]),
    {
        slots.push(Some(x));
    }
    let mut out: Vec<T> = Vec::new();
    let mut k: usize = 0;
    while k < n
        invariant
            n == p@.len(),
            n == orig.len(),
            slots@.len() == n,
            0 <= k <= n,
            forall|a: int| 0 <= a < n ==> (#[trigger] p@[a]) < n,
            forall|a: int, b: int| 0 <= a < b < n ==> #[trigger] p@[a] != #[trigger] p@[b],
            out@.len() == k,
            forall|m: int| 0 <= m < k ==> #[trigger] out@[m] == orig[p@[m] as int],
            forall|j: int|
                0 <= j < n ==> ((exists|m: int| 0 <= m < k && p@[m] == j) || #[trigger] slots@[j]
                    == Some(orig[j])),
        decreases n - k,
    {
        let j = p[k];
        assert(!(exists|m: int| 0 <= m < k && p@[m] == j)) by {
            if exists|m: int| 0 <= m < k && p@[m] == j {
                let m = choose|m: int| 0 <= m < k && p@[m] == j;
                assert(p@[m] != p@[k as int]);
            }
        }
        let mut taken: Option<T> = None;
        slots.set_and_swap(j, &mut taken);
        match taken {
            Some(x) => {
                out.push(x);
            },
            None => {
                assert(false);
            },
        }
        assert forall|jj: int|
            0 <= jj < n implies ((exists|m: int| 0 <= m < k + 1 && p@[m] == jj) || #[trigger] slots@[jj]
                == Some(orig[jj])) by {
            if jj == j {
                assert(p@[k as int] == jj);
            } else if exists|m: int| 0 <= m < k && p@[m] == jj {
                let m = choose|m: int| 0 <= m < k && p@[m] == jj;
                assert(0 <= m < k + 1 && p@[m] == jj);
            }
        }
        k = k + 1;
    }
    assert(out@ =~= permute(orig, usize_seq_as_int(p@)));
    out
}

/// A stable order is unique: two of them for the same keys are equal.
pub proof fn law_stable_order_unique(keys: Seq<u64>, p: Seq<int>, q: Seq<int>)
    requires
        is_stable_order(keys, p),
        is_stable_order(keys, q),
    ensures
        p == q,
{
    lemma_stable_order_unique(keys, p, q);
}

spec fn listed(p: Seq<int>, a: int) -> bool {
    exists|k: int| 0 <= k < p.len() && p[k] == a
}

spec fn before(keys: Seq<u64>, a: int, b: int) -> bool {
    keys[a] < keys[b] || (keys[a] == keys[b] && a < b)
}

/// Number of positions that come before `a` in the stable order.
spec fn rank(keys: Seq<u64>, a: int) -> nat {
    Set::new(|b: int| 0 <= b < keys.len() && before(keys, b, a)).len()
}

proof fn lemma_stable_order_unique(keys: Seq<u64>, p: Seq<int>, q: Seq<int>)
    requires
        is_stable_order(keys, p),
        is_stable_order(keys, q),
    ensures
        p == q,
{
    // Every position appears in a stable order: the entries are distinct
    // members of 0..n and there are n of them.
    lemma_order_covers(keys, p);
    lemma_order_covers(keys, q);
    assert forall|k: int| 0 <= k < p.len() implies p[k] == q[k] by {
        lemma_position_is_rank(keys, p, k);
        lemma_position_is_rank(keys, q, k);
        if p[k] != q[k] {
            if before(keys, p[k], q[k]) {
                lemma_rank_strict(keys, p[k], q[k]);
            } else {
                lemma_rank_strict(keys, q[k], p[k]);
            }
        }
    }
    assert(p =~= q);
}

proof fn lemma_order_covers(keys: Seq<u64>, p: Seq<int>)
    requires
        is_stable_order(keys, p),
    ensures
        forall|a: int| 0 <= a < keys.len() ==> #[trigger] listed(p, a),
{
    let n = keys.len();
    let image = Set::new(|a: int| exists|k: int| 0 <= k < p.len() && p[k] == a);
    let full = Set::new(|a: int| 0 <= a < n);
    assert(p.no_duplicates()) by {
        assert forall|i: int, j: int| 0 <= i < p.len() && 0 <= j < p.len() && i != j implies p[i]
            != p[j] by {
            if i < j {
                assert(before(keys, p[i], p[j]));
            } else {
                assert(before(keys, p[j], p[i]));
            }
        }
    }
    p.unique_seq_to_set();
    assert(p.to_set() =~= image);
    vstd::set_lib::lemma_int_range(0, n as int);
    assert(full =~= vstd::set_lib::set_int_range(0, n as int));
    assert(image.subset_of(full));
    vstd::set_lib::lemma_subset_equality(image, full);
    assert forall|a: int| 0 <= a < keys.len() implies #[trigger] listed(p, a) by {
        assert(full.contains(a));
    }
}

proof fn lemma_position_is_rank(keys: Seq<u64>, p: Seq<int>, k: int)
    requires
        is_stable_order(keys, p),
        0 <= k < p.len(),
        forall|a: int| 0 <= a < keys.len() ==> #[trigger] listed(p, a),
    ensures
        rank(keys, p[k]) == k,
{
    let s = Set::new(|b: int| 0 <= b < keys.len() && before(keys, b, p[k]));
    let t = Set::new(|b: int| exists|m: int| 0 <= m < k && p[m] == b);
    assert(s =~= t) by {
        assert forall|b: int| s.contains(b) implies t.contains(b) by {
            assert(listed(p, b));
            let m = choose|m: int| 0 <= m < p.len() && p[m] == b;
            if m >= k {
                if m == k {
                } else {
                    assert(before(keys, p[k], p[m]));
                }
            }
        }
        assert forall|b: int| t.contains(b) implies s.contains(b) by {
            let m = choose|m: int| 0 <= m < k && p[m] == b;
            assert(before(keys, p[m], p[k]));
        }
    }
    let pre = p.take(k);
    assert(pre.no_duplicates()) by {
        assert forall|i: int, j: int| 0 <= i < pre.len() && 0 <= j < pre.len() && i != j implies pre[i]
            != pre[j] by {
            if i < j {
                assert(before(keys, p[i], p[j]));
            } else {
                assert(before(keys, p[j], p[i]));
            }
        }
    }
    pre.unique_seq_to_set();
    assert(pre.to_set() =~= t) by {
        assert forall|b: int| t.contains(b) implies pre.to_set().contains(b) by {
            let m = choose|m: int| 0 <= m < k && p[m] == b;
            assert(pre[m] == b);
        }
    }
}

proof fn lemma_rank_strict(keys: Seq<u64>, a: int, b: int)
    requires
        0 <= a < keys.len(),
        0 <= b < keys.len(),
        before(keys, a, b),
    ensures
        rank(keys, a) < rank(keys, b),
{
    let sa = Set::new(|c: int| 0 <= c < keys.len() && before(keys, c, a));
    let sb = Set::new(|c: int| 0 <= c < keys.len() && before(keys, c, b));
    let full = vstd::set_lib::set_int_range(0, keys.len() as int);
    vstd::set_lib::lemma_int_range(0, keys.len() as int);
    assert(sb.subset_of(full));
    vstd::set_lib::lemma_len_subset(sb, full);
    assert(sa.subset_of(sb));
    assert(sb.contains(a));
    assert(!sa.contains(a));
    assert(sa.subset_of(sb.remove(a)));
    vstd::set_lib::lemma_len_subset(sa, sb.remove(a));
}

} // verus!

//! Counting specifications for ranked selection.
//!
//! The k-th ranked element (1-indexed) of a multiset `u` is the value `v`
//! with fewer than `k` elements strictly below it and at least `k` elements
//! at or below it. All protocol contracts are stated over these counts.

use vstd::prelude::*;
use vstd::multiset::Multiset;

verus! {

/// Number of elements of `u` strictly below `m`.
pub open spec fn n_lt(u: Multiset<i64>, m: i64) -> nat {
    u.filter(|x: i64| x < m).len()
}

/// Number of elements of `u` strictly above `m`.
pub open spec fn n_gt(u: Multiset<i64>, m: i64) -> nat {
    u.filter(|x: i64| x > m).len()
}

/// Number of elements of `u` at or below `m`.
pub open spec fn n_le(u: Multiset<i64>, m: i64) -> nat {
    u.filter(|x: i64| x <= m).len()
}

/// `v` is the k-th ranked element (1-indexed) of `u`.
pub open spec fn is_kth(u: Multiset<i64>, k: nat, v: i64) -> bool {
    n_lt(u, v) < k && k <= n_le(u, v)
}

/// Count of `u` strictly below `m`, per sequence (order-independent).
pub open spec fn s_lt(s: Seq<i64>, m: i64) -> nat {
    n_lt(s.to_multiset(), m)
}

/// Count of `s` strictly above `m`, per sequence (order-independent).
pub open spec fn s_gt(s: Seq<i64>, m: i64) -> nat {
    n_gt(s.to_multiset(), m)
}

/// The sequence is sorted in ascending order.
pub open spec fn sorted(s: Seq<i64>) -> bool {
    forall|i: int, j: int| 0 <= i <= j < s.len() ==> s[i] <= s[j]
}

/// Filtering distributes over multiset sum.
proof fn lemma_filter_add(u1: Multiset<i64>, u2: Multiset<i64>, p: spec_fn(i64) -> bool)
    ensures
        u1.add(u2).filter(p).len() == u1.filter(p).len() + u2.filter(p).len(),
{
    broadcast use vstd::multiset::group_multiset_axioms;
    assert(u1.add(u2).filter(p) =~= u1.filter(p).add(u2.filter(p)));
}

proof fn lemma_filter_le_len(u: Multiset<i64>, p: spec_fn(i64) -> bool)
    ensures
        u.filter(p).len() <= u.len(),
{
    broadcast use vstd::multiset::group_multiset_axioms;
    let q = |x: i64| !p(x);
    assert(u =~= u.filter(p).add(u.filter(q)));
}

/// Filters by pointwise-implied predicates have ordered lengths.
proof fn lemma_filter_mono(u: Multiset<i64>, p: spec_fn(i64) -> bool, q: spec_fn(i64) -> bool)
    requires
        forall|x: i64| #[trigger] p(x) ==> q(x),
    ensures
        u.filter(p).len() <= u.filter(q).len(),
{
    broadcast use vstd::multiset::group_multiset_axioms;
    let r = |x: i64| q(x) && !p(x);
    assert(u.filter(q) =~= u.filter(p).add(u.filter(r)));
}

/// A filter that no element satisfies is empty.
proof fn lemma_filter_none(u: Multiset<i64>, p: spec_fn(i64) -> bool)
    requires
        forall|x: i64| u.contains(x) ==> !p(x),
    ensures
        u.filter(p).len() == 0,
{
    broadcast use vstd::multiset::group_multiset_axioms;
    assert forall|x: i64| u.filter(p).count(x) == Multiset::<i64>::empty().count(x) by {
        if u.count(x) > 0 {
            assert(u.contains(x));
        }
    }
    assert(u.filter(p) =~= Multiset::<i64>::empty());
}

/// A filter that every element satisfies keeps everything.
proof fn lemma_filter_all(u: Multiset<i64>, p: spec_fn(i64) -> bool)
    requires
        forall|x: i64| u.contains(x) ==> p(x),
    ensures
        u.filter(p).len() == u.len(),
{
    broadcast use vstd::multiset::group_multiset_axioms;
    assert forall|x: i64| u.filter(p).count(x) == u.count(x) by {
        if u.count(x) > 0 {
            assert(u.contains(x));
        }
    }
    assert(u.filter(p) =~= u);
}

pub proof fn lemma_counts_le_len(u: Multiset<i64>, m: i64)
    ensures
        n_lt(u, m) <= u.len(),
        n_gt(u, m) <= u.len(),
        n_le(u, m) <= u.len(),
{
    lemma_filter_le_len(u, |x: i64| x < m);
    lemma_filter_le_len(u, |x: i64| x > m);
    lemma_filter_le_len(u, |x: i64| x <= m);
}

/// Elements at or below `m` and strictly above `m` partition the multiset.
pub proof fn lemma_le_gt_partition(u: Multiset<i64>, m: i64)
    ensures
        n_le(u, m) + n_gt(u, m) == u.len(),
{
    broadcast use vstd::multiset::group_multiset_axioms;
    let p = |x: i64| x <= m;
    let q = |x: i64| x > m;
    assert(u =~= u.filter(p).add(u.filter(q)));
}

/// Counting below `m + 1` is the same as counting at or below `m`.
pub proof fn lemma_lt_succ(u: Multiset<i64>, m: i64)
    requires
        m < i64::MAX,
    ensures
        n_lt(u, (m + 1) as i64) == n_le(u, m),
{
    broadcast use vstd::multiset::group_multiset_axioms;
    assert(u.filter(|x: i64| x < ((m + 1) as i64)) =~= u.filter(|x: i64| x <= m));
}

/// Counting at or below `m - 1` is the same as counting strictly below `m`.
pub proof fn lemma_le_pred(u: Multiset<i64>, m: i64)
    requires
        m > i64::MIN,
    ensures
        n_le(u, (m - 1) as i64) == n_lt(u, m),
{
    broadcast use vstd::multiset::group_multiset_axioms;
    assert(u.filter(|x: i64| x <= ((m - 1) as i64)) =~= u.filter(|x: i64| x < m));
}

pub proof fn lemma_lt_mono(u: Multiset<i64>, m1: i64, m2: i64)
    requires
        m1 <= m2,
    ensures
        n_lt(u, m1) <= n_lt(u, m2),
{
    lemma_filter_mono(u, |x: i64| x < m1, |x: i64| x < m2);
}

pub proof fn lemma_le_mono(u: Multiset<i64>, m1: i64, m2: i64)
    requires
        m1 <= m2,
    ensures
        n_le(u, m1) <= n_le(u, m2),
{
    lemma_filter_mono(u, |x: i64| x <= m1, |x: i64| x <= m2);
}

pub proof fn lemma_le_below_lt(u: Multiset<i64>, m1: i64, m2: i64)
    requires
        m1 < m2,
    ensures
        n_le(u, m1) <= n_lt(u, m2),
{
    lemma_filter_mono(u, |x: i64| x <= m1, |x: i64| x < m2);
}

/// The k-th ranked element of a multiset is unique.
pub proof fn lemma_kth_unique(u: Multiset<i64>, k: nat, v1: i64, v2: i64)
    requires
        is_kth(u, k, v1),
        is_kth(u, k, v2),
    ensures
        v1 == v2,
{
    if v1 < v2 {
        lemma_le_below_lt(u, v1, v2);
    }
    if v2 < v1 {
        lemma_le_below_lt(u, v2, v1);
    }
}

/// Counts over the sum of two multisets add up.
pub proof fn lemma_counts_add(u1: Multiset<i64>, u2: Multiset<i64>, m: i64)
    ensures
        n_lt(u1.add(u2), m) == n_lt(u1, m) + n_lt(u2, m),
        n_gt(u1.add(u2), m) == n_gt(u1, m) + n_gt(u2, m),
        n_le(u1.add(u2), m) == n_le(u1, m) + n_le(u2, m),
{
    lemma_filter_add(u1, u2, |x: i64| x < m);
    lemma_filter_add(u1, u2, |x: i64| x > m);
    lemma_filter_add(u1, u2, |x: i64| x <= m);
}

/// If no element of `u` is below `m`, the below-count is zero.
pub proof fn lemma_lt_zero(u: Multiset<i64>, m: i64)
    requires
        forall|x: i64| u.contains(x) ==> x >= m,
    ensures
        n_lt(u, m) == 0,
{
    lemma_filter_none(u, |x: i64| x < m);
}

/// If no element of `u` is above `m`, the above-count is zero.
pub proof fn lemma_gt_zero(u: Multiset<i64>, m: i64)
    requires
        forall|x: i64| u.contains(x) ==> x <= m,
    ensures
        n_gt(u, m) == 0,
{
    lemma_filter_none(u, |x: i64| x > m);
}

/// If every element of `u` is at or below `m`, the at-or-below count is full.
pub proof fn lemma_le_full(u: Multiset<i64>, m: i64)
    requires
        forall|x: i64| u.contains(x) ==> x <= m,
    ensures
        n_le(u, m) == u.len(),
{
    lemma_filter_all(u, |x: i64| x <= m);
}

/// If every element of `u` is below `m`, the below-count is full.
pub proof fn lemma_lt_full(u: Multiset<i64>, m: i64)
    requires
        forall|x: i64| u.contains(x) ==> x < m,
    ensures
        n_lt(u, m) == u.len(),
{
    lemma_filter_all(u, |x: i64| x < m);
}

/// If every element of `u` is above `m`, the above-count is full.
pub proof fn lemma_gt_full(u: Multiset<i64>, m: i64)
    requires
        forall|x: i64| u.contains(x) ==> x > m,
    ensures
        n_gt(u, m) == u.len(),
{
    lemma_filter_all(u, |x: i64| x > m);
}

/// An empty sequence flattens to the empty multiset.
pub proof fn lemma_to_multiset_empty(s: Seq<i64>)
    requires
        s.len() == 0,
    ensures
        s.to_multiset() == Multiset::<i64>::empty(),
{
    broadcast use vstd::seq_lib::group_to_multiset_ensures;
    vstd::multiset::lemma_multiset_empty_len(s.to_multiset());
    assert(s.to_multiset() =~= Multiset::<i64>::empty());
}

/// Adding the empty multiset changes nothing.
pub proof fn lemma_add_empty(u: Multiset<i64>)
    ensures
        u.add(Multiset::<i64>::empty()) == u,
{
    broadcast use vstd::multiset::group_multiset_axioms;
    assert(u.add(Multiset::<i64>::empty()) =~= u);
}

/// An empty sequence has zero counts.
pub proof fn lemma_s_counts_empty(s: Seq<i64>, m: i64)
    requires
        s.len() == 0,
    ensures
        s_lt(s, m) == 0,
        s_gt(s, m) == 0,
{
    broadcast use vstd::seq_lib::group_to_multiset_ensures;
    lemma_counts_le_len(s.to_multiset(), m);
}

/// An element of the multiset witnesses that the at-or-below count at its
/// value is positive.
pub proof fn lemma_le_contains(u: Multiset<i64>, x: i64)
    requires
        u.contains(x),
    ensures
        n_le(u, x) >= 1,
{
    broadcast use vstd::multiset::group_multiset_axioms;
    let f = u.filter(|y: i64| y <= x);
    assert(f.count(x) == u.count(x));
    assert(f.count(x) <= f.len());
}

/// An element of the multiset witnesses that the strictly-below count at
/// its value misses at least that element.
pub proof fn lemma_lt_not_full(u: Multiset<i64>, x: i64)
    requires
        u.contains(x),
    ensures
        n_lt(u, x) < u.len(),
{
    broadcast use vstd::multiset::group_multiset_axioms;
    let lo = u.filter(|y: i64| y < x);
    let hi = u.filter(|y: i64| !(y < x));
    assert(u =~= lo.add(hi));
    assert(hi.count(x) == u.count(x));
    assert(hi.count(x) <= hi.len());
}

/// Appending one element to a sequence adjusts the counts by at most one.
pub proof fn lemma_s_counts_push(s: Seq<i64>, x: i64, m: i64)
    ensures
        s_lt(s.push(x), m) == s_lt(s, m) + (if x < m { 1int } else { 0int }),
        s_gt(s.push(x), m) == s_gt(s, m) + (if x > m { 1int } else { 0int }),
{
    broadcast use vstd::multiset::group_multiset_axioms;
    broadcast use vstd::seq_lib::group_to_multiset_ensures;
    let u = s.to_multiset();
    assert(s.push(x).to_multiset() =~= u.insert(x));
    assert(u.insert(x) =~= u.add(Multiset::singleton(x)));
    lemma_counts_add(u, Multiset::singleton(x), m);
    if x < m {
        assert(Multiset::singleton(x).filter(|y: i64| y < m) =~= Multiset::singleton(x));
    } else {
        assert(Multiset::singleton(x).filter(|y: i64| y < m) =~= Multiset::<i64>::empty());
    }
    if x > m {
        assert(Multiset::singleton(x).filter(|y: i64| y > m) =~= Multiset::singleton(x));
    } else {
        assert(Multiset::singleton(x).filter(|y: i64| y > m) =~= Multiset::<i64>::empty());
    }
}

/// Counts over a concatenation add up.
pub proof fn lemma_s_counts_concat(s1: Seq<i64>, s2: Seq<i64>, m: i64)
    ensures
        s_lt(s1 + s2, m) == s_lt(s1, m) + s_lt(s2, m),
        s_gt(s1 + s2, m) == s_gt(s1, m) + s_gt(s2, m),
        n_le((s1 + s2).to_multiset(), m) == n_le(s1.to_multiset(), m) + n_le(s2.to_multiset(), m),
{
    vstd::seq_lib::lemma_multiset_commutative(s1, s2);
    lemma_counts_add(s1.to_multiset(), s2.to_multiset(), m);
}

/// Splitting a sequence at an interior point splits its counts.
pub proof fn lemma_s_counts_split(s: Seq<i64>, i: int, m: i64)
    requires
        0 <= i <= s.len(),
    ensures
        s_lt(s, m) == s_lt(s.subrange(0, i), m) + s_lt(s.subrange(i, s.len() as int), m),
        s_gt(s, m) == s_gt(s.subrange(0, i), m) + s_gt(s.subrange(i, s.len() as int), m),
{
    assert(s =~= s.subrange(0, i) + s.subrange(i, s.len() as int));
    lemma_s_counts_concat(s.subrange(0, i), s.subrange(i, s.len() as int), m);
}

/// In a sorted sequence, the element at position `k - 1` is the k-th ranked
/// element of the sequence's multiset.
pub proof fn lemma_sorted_kth(s: Seq<i64>, k: nat)
    requires
        sorted(s),
        1 <= k <= s.len(),
    ensures
        is_kth(s.to_multiset(), k, s[k - 1]),
{
    broadcast use vstd::seq_lib::group_to_multiset_ensures;
    let v = s[k - 1];
    let pre = s.subrange(0, k as int - 1);
    let post = s.subrange(k as int - 1, s.len() as int);
    assert(s =~= pre + post);
    vstd::seq_lib::lemma_multiset_commutative(pre, post);
    lemma_counts_add(pre.to_multiset(), post.to_multiset(), v);
    // no element at or after position k - 1 is strictly below v
    assert forall|x: i64| post.to_multiset().contains(x) implies x >= v by {
        assert(post.contains(x));
        let j = choose|j: int| 0 <= j < post.len() && post[j] == x;
        assert(s[k as int - 1 + j] == x);
    }
    lemma_lt_zero(post.to_multiset(), v);
    lemma_counts_le_len(pre.to_multiset(), v);
    assert(pre.to_multiset().len() == pre.len());
    assert(n_lt(s.to_multiset(), v) < k);
    // the first k elements are all at or below v
    let first = s.subrange(0, k as int);
    let rest = s.subrange(k as int, s.len() as int);
    assert(s =~= first + rest);
    vstd::seq_lib::lemma_multiset_commutative(first, rest);
    lemma_counts_add(first.to_multiset(), rest.to_multiset(), v);
    assert forall|x: i64| first.to_multiset().contains(x) implies x <= v by {
        assert(first.contains(x));
        let j = choose|j: int| 0 <= j < first.len() && first[j] == x;
        assert(s[j] == x);
    }
    lemma_le_full(first.to_multiset(), v);
    assert(first.to_multiset().len() == first.len());
    assert(n_le(s.to_multiset(), v) >= k);
}

} // verus!

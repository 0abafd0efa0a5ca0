//! The in-process protocol driver: it sequences the two phases of every
//! round — collect the parties' counts, aggregate them, derive the verdict,
//! broadcast it — until the k-th ranked element is found, and proves that
//! for exact counts the returned value is the k-th ranked element of the
//! union of the parties' databases, within a logarithmic round bound.

use vstd::prelude::*;
use vstd::multiset::Multiset;
use vstd::arithmetic::power2::pow2;
use crate::rank::{
    n_lt, n_gt, n_le, is_kth, s_lt, s_gt, lemma_counts_le_len, lemma_le_gt_partition,
    lemma_lt_succ, lemma_le_pred, lemma_lt_mono, lemma_le_mono, lemma_lt_zero,
    lemma_counts_add, lemma_s_counts_split,
};
use crate::party::{PartyClient, UpdateSearchRange, mid_spec, dec_sat, inc_sat};
use crate::server::{PartyServer, verdict_spec, sum_fst, sum_snd};

verus! {

/// The multiset union of all parties' databases.
pub open spec fn union_of_parties(ps: Seq<PartyClient>) -> Multiset<i64>
    decreases ps.len(),
{
    if ps.len() == 0 {
        Multiset::empty()
    } else {
        union_of_parties(ps.drop_last()).add(ps.last().db().to_multiset())
    }
}

/// Sum over the parties of the below-counts of their scanned slices.
pub open spec fn sum_scan_lt(ps: Seq<PartyClient>, m: i64) -> nat
    decreases ps.len(),
{
    if ps.len() == 0 {
        0nat
    } else {
        (sum_scan_lt(ps.drop_last(), m) + s_lt(ps.last().scanned(), m)) as nat
    }
}

/// Sum over the parties of the above-counts of their scanned slices.
pub open spec fn sum_scan_gt(ps: Seq<PartyClient>, m: i64) -> nat
    decreases ps.len(),
{
    if ps.len() == 0 {
        0nat
    } else {
        (sum_scan_gt(ps.drop_last(), m) + s_gt(ps.last().scanned(), m)) as nat
    }
}

/// Sum over the parties of the number of scan-excluded low indices
/// (elements below `lo`, which only exist for extreme ranks).
pub open spec fn sum_skipped_lo(ps: Seq<PartyClient>) -> nat
    decreases ps.len(),
{
    if ps.len() == 0 {
        0nat
    } else {
        (sum_skipped_lo(ps.drop_last()) + (if ps.last().extreme() {
            ps.last().lo as nat
        } else {
            0nat
        })) as nat
    }
}

/// Sum over the parties of the number of scan-excluded high indices.
pub open spec fn sum_skipped_hi(ps: Seq<PartyClient>) -> nat
    decreases ps.len(),
{
    if ps.len() == 0 {
        0nat
    } else {
        (sum_skipped_hi(ps.drop_last()) + (if ps.last().extreme() {
            (ps.last().db().len() - ps.last().hi as int) as nat
        } else {
            0nat
        })) as nat
    }
}

/// The parties agree with the coordinator on every protocol parameter, and
/// the coordinator's `databases_size` is the true size of the union.
pub open spec fn consistent(s: PartyServer, ps: Seq<PartyClient>) -> bool {
    &&& s.wf()
    &&& ps.len() == s.n
    &&& ps.len() >= 1
    &&& forall|i: int| 0 <= i < ps.len() ==> (#[trigger] ps[i]).wf()
    &&& forall|i: int| 0 <= i < ps.len() ==> (#[trigger] ps[i]).k == s.k
    &&& forall|i: int| 0 <= i < ps.len() ==> (#[trigger] ps[i]).n == s.n
    &&& forall|i: int| 0 <= i < ps.len() ==> (#[trigger] ps[i]).databases_size == s.databases_size
    &&& union_of_parties(ps).len() == s.databases_size
}

/// All parties hold the same current search range.
pub open spec fn aligned(ps: Seq<PartyClient>, a: i64, b: i64) -> bool {
    forall|i: int|
        0 <= i < ps.len() ==> (#[trigger] ps[i]).range_a == a && ps[i].range_b == b
}

/// The invariant that drives correctness of the binary search, stated over
/// the shared range `[a, b]`: the k-th ranked element lies in the range (in
/// counting form), sub-ranges only exclude elements already outside the
/// range, and for extreme ranks the respective end of the range is pinned
/// to the extreme element itself.
pub open spec fn search_inv(s: PartyServer, ps: Seq<PartyClient>, a: i64, b: i64) -> bool {
    let u = union_of_parties(ps);
    let k = s.k as nat;
    &&& consistent(s, ps)
    &&& aligned(ps, a, b)
    &&& forall|i: int| 0 <= i < ps.len() ==> (#[trigger] ps[i]).range_ok()
    &&& n_lt(u, a) < k
    &&& k <= n_le(u, b)
    &&& (s.k == 1 ==> is_kth(u, 1, a) && forall|i: int|
        0 <= i < ps.len() ==> (#[trigger] ps[i]).lo == 0)
    &&& (s.k == s.databases_size ==> is_kth(u, k, b) && forall|i: int|
        0 <= i < ps.len() ==> (#[trigger] ps[i]).hi == ps[i].db().len())
}

/// The protocol is ready to run: some party exists and the invariant holds
/// for the range all parties share.
pub open spec fn search_state_ok(s: PartyServer, ps: Seq<PartyClient>) -> bool {
    &&& ps.len() >= 1
    &&& search_inv(s, ps, ps[0].range_a, ps[0].range_b)
}

/// Two party sequences with pointwise-equal databases have the same union.
pub proof fn lemma_union_same(ps1: Seq<PartyClient>, ps2: Seq<PartyClient>)
    requires
        ps1.len() == ps2.len(),
        forall|i: int| 0 <= i < ps1.len() ==> (#[trigger] ps1[i]).db() == ps2[i].db(),
    ensures
        union_of_parties(ps1) == union_of_parties(ps2),
    decreases ps1.len(),
{
    if ps1.len() > 0 {
        lemma_union_same(ps1.drop_last(), ps2.drop_last());
    }
}

/// The union's counts decompose into the sums of the parties' scanned
/// counts plus the scan-excluded elements, which lie outside the search
/// range on the respective side.
pub proof fn lemma_union_counts(ps: Seq<PartyClient>, m: i64)
    requires
        forall|i: int| 0 <= i < ps.len() ==> (#[trigger] ps[i]).wf(),
        forall|i: int| 0 <= i < ps.len() ==> (#[trigger] ps[i]).range_ok(),
        forall|i: int|
            0 <= i < ps.len() ==> (#[trigger] ps[i]).range_a <= m <= ps[i].range_b,
    ensures
        n_lt(union_of_parties(ps), m) == sum_scan_lt(ps, m) + sum_skipped_lo(ps),
        n_gt(union_of_parties(ps), m) == sum_scan_gt(ps, m) + sum_skipped_hi(ps),
    decreases ps.len(),
{
    if ps.len() == 0 {
        broadcast use vstd::multiset::group_multiset_axioms;
        lemma_counts_le_len(union_of_parties(ps), m);
    } else {
        let last = ps.last();
        let rest = ps.drop_last();
        assert(last == ps[ps.len() - 1]);
        assert(forall|i: int| 0 <= i < rest.len() ==> #[trigger] rest[i] == ps[i]);
        lemma_union_counts(rest, m);
        lemma_counts_add(union_of_parties(rest), last.db().to_multiset(), m);
        lemma_party_counts(last, m);
        assert(union_of_parties(ps) == union_of_parties(rest).add(last.db().to_multiset()));
        assert(sum_scan_lt(ps, m) == sum_scan_lt(rest, m) + s_lt(last.scanned(), m));
        assert(sum_scan_gt(ps, m) == sum_scan_gt(rest, m) + s_gt(last.scanned(), m));
        assert(n_lt(last.db().to_multiset(), m) == s_lt(last.db(), m));
        assert(n_gt(last.db().to_multiset(), m) == s_gt(last.db(), m));
        assert(sum_skipped_lo(ps) == sum_skipped_lo(rest) + (if last.extreme() {
            last.lo as nat
        } else {
            0nat
        }));
        assert(sum_skipped_hi(ps) == sum_skipped_hi(rest) + (if last.extreme() {
            (last.db().len() - last.hi as int) as nat
        } else {
            0nat
        }));
    }
}

/// If a vector of count pairs matches the parties' scanned counts
/// pointwise, its componentwise sums are the scanned-count sums.
pub proof fn lemma_sum_counts_eq(counts: Seq<(usize, usize)>, ps: Seq<PartyClient>, m: i64)
    requires
        counts.len() == ps.len(),
        forall|i: int|
            0 <= i < ps.len() ==> (#[trigger] counts[i]).0 == s_lt(ps[i].scanned(), m) && counts[i].1
                == s_gt(ps[i].scanned(), m),
    ensures
        sum_fst(counts) == sum_scan_lt(ps, m),
        sum_snd(counts) == sum_scan_gt(ps, m),
    decreases ps.len(),
{
    if ps.len() > 0 {
        lemma_sum_counts_eq(counts.drop_last(), ps.drop_last(), m);
    }
}

pub proof fn lemma_skipped_lo_zero(ps: Seq<PartyClient>)
    requires
        forall|i: int| 0 <= i < ps.len() ==> (#[trigger] ps[i]).lo == 0,
    ensures
        sum_skipped_lo(ps) == 0,
    decreases ps.len(),
{
    if ps.len() > 0 {
        lemma_skipped_lo_zero(ps.drop_last());
    }
}

pub proof fn lemma_skipped_hi_zero(ps: Seq<PartyClient>)
    requires
        forall|i: int| 0 <= i < ps.len() ==> (#[trigger] ps[i]).hi == ps[i].db().len(),
    ensures
        sum_skipped_hi(ps) == 0,
    decreases ps.len(),
{
    if ps.len() > 0 {
        lemma_skipped_hi_zero(ps.drop_last());
    }
}

pub proof fn lemma_skipped_zero_nonextreme(ps: Seq<PartyClient>)
    requires
        forall|i: int| 0 <= i < ps.len() ==> !(#[trigger] ps[i]).extreme(),
    ensures
        sum_skipped_lo(ps) == 0,
        sum_skipped_hi(ps) == 0,
    decreases ps.len(),
{
    if ps.len() > 0 {
        lemma_skipped_zero_nonextreme(ps.drop_last());
    }
}

/// The midpoint of a non-empty range lies within it.
pub proof fn lemma_mid_bounds(a: i64, b: i64)
    requires
        a <= b,
    ensures
        a <= mid_spec(a, b) <= b,
        mid_spec(a, b) - a == (b - a) / 2,
        b - mid_spec(a, b) == (b - a) - (b - a) / 2,
{
    assert(a <= (a + b) / 2 <= b && (a + b) / 2 - a == (b - a) / 2) by (nonlinear_arith)
        requires
            a <= b,
    ;
}

/// Case analysis of the verdict on exact aggregates: the protocol never
/// aborts; `FoundK` pins the midpoint as the k-th ranked element; a search
/// verdict keeps the k-th ranked element inside the shrunken range, which
/// is non-empty and strictly smaller; and a verdict that would disturb the
/// pinned end of the range for an extreme rank never occurs.
pub proof fn lemma_round_verdict(
    s: PartyServer,
    ps: Seq<PartyClient>,
    m: i64,
    a: i64,
    b: i64,
    lt_sum: nat,
    gt_sum: nat,
)
    requires
        consistent(s, ps),
        aligned(ps, a, b),
        forall|i: int| 0 <= i < ps.len() ==> (#[trigger] ps[i]).range_ok(),
        a <= b,
        mid_spec(a, b) == m as int,
        lt_sum == sum_scan_lt(ps, m),
        gt_sum == sum_scan_gt(ps, m),
        n_lt(union_of_parties(ps), a) < s.k as nat,
        s.k as nat <= n_le(union_of_parties(ps), b),
        s.k == 1 ==> is_kth(union_of_parties(ps), 1, a) && (forall|i: int|
            0 <= i < ps.len() ==> (#[trigger] ps[i]).lo == 0),
        s.k == s.databases_size ==> is_kth(union_of_parties(ps), s.k as nat, b) && (forall|
            i: int,
        |
            0 <= i < ps.len() ==> (#[trigger] ps[i]).hi == ps[i].db().len()),
    ensures
        verdict_spec(lt_sum, gt_sum, s.k as nat, s.databases_size as nat)
            != UpdateSearchRange::Abort,
        verdict_spec(lt_sum, gt_sum, s.k as nat, s.databases_size as nat)
            == UpdateSearchRange::FoundK ==> is_kth(union_of_parties(ps), s.k as nat, m),
        verdict_spec(lt_sum, gt_sum, s.k as nat, s.databases_size as nat)
            == UpdateSearchRange::SearchBelow ==> {
            &&& a < m
            &&& m > i64::MIN
            &&& s.k as nat <= n_le(union_of_parties(ps), dec_sat(m))
            &&& s.k != s.databases_size
        },
        verdict_spec(lt_sum, gt_sum, s.k as nat, s.databases_size as nat)
            == UpdateSearchRange::SearchAbove ==> {
            &&& m < b
            &&& m < i64::MAX
            &&& n_lt(union_of_parties(ps), inc_sat(m)) < s.k as nat
            &&& s.k != 1
        },
{
    let u = union_of_parties(ps);
    let k = s.k as nat;
    let n_total = s.databases_size as nat;
    let v = verdict_spec(lt_sum, gt_sum, k, n_total);
    lemma_mid_bounds(a, b);
    assert(forall|i: int|
        0 <= i < ps.len() ==> (#[trigger] ps[i]).range_a <= m <= ps[i].range_b);
    lemma_union_counts(ps, m);
    lemma_counts_le_len(u, m);
    lemma_le_gt_partition(u, m);
    assert(u.len() == n_total);
    let full_lt = n_lt(u, m);
    let full_gt = n_gt(u, m);
    // the aggregates never exceed the union's size, so no abort
    assert(lt_sum <= full_lt && gt_sum <= full_gt);
    assert(v != UpdateSearchRange::Abort);
    if lt_sum >= k {
        // SearchBelow
        assert(v == UpdateSearchRange::SearchBelow);
        assert(full_lt >= k >= 1);
        if m == i64::MIN {
            lemma_lt_zero(u, m);
            assert(false);
        }
        lemma_le_pred(u, m);
        assert(s.k as nat <= n_le(u, dec_sat(m)));
        if a >= m {
            lemma_lt_mono(u, m, a);
            assert(false);
        }
        if s.k == s.databases_size {
            lemma_lt_mono(u, m, b);
            assert(n_lt(u, b) < k);
            assert(false);
        }
    } else if gt_sum > n_total - k {
        // SearchAbove
        assert(v == UpdateSearchRange::SearchAbove);
        assert(full_gt >= gt_sum >= 1);
        if m == i64::MAX {
            crate::rank::lemma_gt_zero(u, m);
            assert(false);
        }
        lemma_lt_succ(u, m);
        assert(n_le(u, m) == n_total - full_gt);
        assert(n_le(u, m) < k);
        assert(n_lt(u, inc_sat(m)) < k);
        if b <= m {
            lemma_le_mono(u, b, m);
            assert(false);
        }
        if s.k == 1 {
            // the minimum is pinned at `a <= m`, so not everything is above `m`
            lemma_le_mono(u, a, m);
            assert(n_le(u, a) >= 1);
            assert(false);
        }
    } else {
        // FoundK
        assert(v == UpdateSearchRange::FoundK);
        if s.k == 1 {
            lemma_skipped_lo_zero(ps);
            assert(full_lt == lt_sum);
            assert(n_lt(u, m) < k);
            lemma_le_mono(u, a, m);
            assert(n_le(u, m) >= 1);
            assert(is_kth(u, k, m));
        } else if s.k == s.databases_size {
            lemma_skipped_hi_zero(ps);
            assert(full_gt == gt_sum);
            assert(n_le(u, m) == n_total - full_gt);
            assert(n_le(u, m) >= k);
            lemma_lt_mono(u, m, b);
            assert(n_lt(u, m) < k);
            assert(is_kth(u, k, m));
        } else {
            assert(forall|i: int| 0 <= i < ps.len() ==> !(#[trigger] ps[i]).extreme());
            lemma_skipped_zero_nonextreme(ps);
            assert(full_lt == lt_sum && full_gt == gt_sum);
            assert(n_le(u, m) == n_total - full_gt);
            assert(is_kth(u, k, m));
        }
    }
}

/// Applying a search verdict keeps the sub-range sound for the new search
/// range: excluded elements stay strictly outside it.
pub proof fn lemma_update_range_ok(pre: PartyClient, post: PartyClient, update: UpdateSearchRange)
    requires
        pre.wf(),
        pre.range_ok(),
        pre.fg_ok(),
        pre.range_a <= pre.m <= pre.range_b,
        update == UpdateSearchRange::SearchAbove ==> pre.m < i64::MAX,
        post.database == pre.database,
        post.m == pre.m,
        applied(pre, post, update),
    ensures
        post.range_ok(),
{
    let db = pre.db();
    match update {
        UpdateSearchRange::SearchBelow => {
            assert forall|j: int| post.hi as int <= j < db.len() implies db[j]
                > post.range_b by {
                match pre.greater_than_m_idx {
                    Some(j0) => {
                        assert(db[j0 as int] > pre.m);
                        assert(db[j0 as int] <= db[j]);
                    },
                    None => {
                        assert(db[j] > pre.range_b);
                    },
                }
            }
        },
        UpdateSearchRange::SearchAbove => {
            assert forall|j: int| 0 <= j < post.lo as int implies db[j] < post.range_a by {
                if j < pre.scan_base() {
                    assert(db[j] < pre.range_a);
                } else {
                    assert(db[j] <= pre.m);
                }
            }
        },
        _ => {},
    }
}

/// A party's whole-database counts decompose into the counts of its scanned
/// slice plus the elements excluded by the sub-range, which all lie outside
/// the search range.
pub proof fn lemma_party_counts(p: PartyClient, m: i64)
    requires
        p.wf(),
        p.range_ok(),
        p.range_a <= m <= p.range_b,
    ensures
        s_lt(p.db(), m) == s_lt(p.scanned(), m) + (if p.extreme() {
            p.lo as int
        } else {
            0int
        }),
        s_gt(p.db(), m) == s_gt(p.scanned(), m) + (if p.extreme() {
            p.db().len() - p.hi as int
        } else {
            0int
        }),
{
    broadcast use vstd::seq_lib::group_to_multiset_ensures;
    let db = p.db();
    if p.extreme() {
        let lo = p.lo as int;
        let hi = p.hi as int;
        let len = db.len() as int;
        lemma_s_counts_split(db, hi, m);
        lemma_s_counts_split(db.subrange(0, hi), lo, m);
        assert(db.subrange(0, hi).subrange(0, lo) =~= db.subrange(0, lo));
        assert(db.subrange(0, hi).subrange(lo, hi) =~= db.subrange(lo, hi));
        let pre = db.subrange(0, lo);
        let suf = db.subrange(hi, len);
        // everything before `lo` is below `range_a <= m`, so it all counts
        // below and none of it counts above
        assert forall|x: i64| pre.to_multiset().contains(x) implies x < m by {
            assert(pre.contains(x));
            let j = choose|j: int| 0 <= j < pre.len() && pre[j] == x;
            assert(db[j] == x);
        }
        crate::rank::lemma_lt_full(pre.to_multiset(), m);
        crate::rank::lemma_gt_zero(pre.to_multiset(), m);
        // everything from `hi` on is above `range_b >= m`
        assert forall|x: i64| suf.to_multiset().contains(x) implies x > m by {
            assert(suf.contains(x));
            let j = choose|j: int| 0 <= j < suf.len() && suf[j] == x;
            assert(db[hi + j] == x);
        }
        crate::rank::lemma_gt_full(suf.to_multiset(), m);
        lemma_lt_zero(suf.to_multiset(), m);
        assert(p.scanned() == db.subrange(lo, hi));
    } else {
        assert(p.scanned() =~= db);
    }
}

/// `post` is `pre` after the per-round local computation: same state except
/// for a freshly computed midpoint and first-greater cache.
pub open spec fn computed(pre: PartyClient, post: PartyClient) -> bool {
    &&& post.wf()
    &&& post.same_but_m(pre)
    &&& post.m as int == mid_spec(pre.range_a, pre.range_b)
    &&& post.fg_ok()
}

/// `post` is `pre` after applying the verdict `update` to the local search
/// state.
pub open spec fn applied(pre: PartyClient, post: PartyClient, update: UpdateSearchRange) -> bool {
    &&& post.wf()
    &&& post.database == pre.database
    &&& post.idx == pre.idx
    &&& post.n == pre.n
    &&& post.k == pre.k
    &&& post.databases_size == pre.databases_size
    &&& post.m == pre.m
    &&& post.greater_than_m_idx == pre.greater_than_m_idx
    &&& match update {
        UpdateSearchRange::FoundK => post == pre,
        UpdateSearchRange::SearchBelow => {
            &&& post.range_a == pre.range_a
            &&& post.range_b == dec_sat(pre.m)
            &&& post.lo == pre.lo
            &&& post.hi == (match pre.greater_than_m_idx {
                Some(j) => j,
                None => pre.hi,
            })
        },
        UpdateSearchRange::SearchAbove => {
            &&& post.range_b == pre.range_b
            &&& post.range_a == inc_sat(pre.m)
            &&& post.hi == pre.hi
            &&& post.lo == (match pre.greater_than_m_idx {
                Some(j) => j,
                None => pre.lo,
            })
        },
        UpdateSearchRange::Abort => post == pre,
    }
}

/// The least `c` with `n <= 2^c`: how often a width-`n` range can be
/// halved before it is a point.
pub open spec fn log2_ceil(n: nat) -> nat
    decreases n,
{
    if n <= 1 {
        0nat
    } else {
        (1 + log2_ceil(((n + 1) / 2) as nat)) as nat
    }
}

/// Any `c` whose neighbouring powers of two bracket `n` is `log2_ceil(n)`.
proof fn lemma_log2_ceil_char(n: nat, c: nat)
    requires
        n >= 1,
        n <= pow2(c),
        c > 0 ==> pow2((c - 1) as nat) < n,
    ensures
        log2_ceil(n) == c,
    decreases c,
{
    vstd::arithmetic::power2::lemma2_to64();
    if c == 0 {
        assert(n <= 1);
    } else {
        vstd::arithmetic::power2::lemma_pow2_unfold(c);
        vstd::arithmetic::power2::lemma_pow2_pos((c - 1) as nat);
        let p = pow2((c - 1) as nat) as int;
        assert(n >= 2);
        let h = ((n + 1) / 2) as nat;
        vstd::arithmetic::div_mod::lemma_fundamental_div_mod(n as int + 1, 2);
        vstd::arithmetic::div_mod::lemma_mod_bound(n as int + 1, 2);
        assert(h as int <= p);
        if c - 1 > 0 {
            vstd::arithmetic::power2::lemma_pow2_unfold((c - 1) as nat);
            assert(pow2((c - 2) as nat) < h);
        }
        lemma_log2_ceil_char(h, (c - 1) as nat);
        assert(log2_ceil(n) == 1 + log2_ceil(h));
    }
}

/// The round budget of the binary search over `[a, b]`: the number of
/// times the range's width can be halved, `⌈log2(b - a + 1)⌉`.
pub fn round_cap(a: i64, b: i64) -> (c: u64)
    requires
        a <= b,
    ensures
        c <= 64,
        b - a < pow2(c as nat),
        c as nat == log2_ceil((b - a + 1) as nat),
{
    broadcast use vstd::arithmetic::power2::lemma_pow2_pos;
    let d0: u64 = ((b as i128) - (a as i128)) as u64;
    let mut cap: u64 = 0;
    let mut t: u64 = d0;
    proof {
        vstd::arithmetic::power2::lemma2_to64();
        assert(t as int == d0 as int / pow2(0) as int);
    }
    while t > 0
        invariant
            t as int == d0 as int / pow2(cap as nat) as int,
            cap <= 64,
            cap > 0 ==> pow2((cap - 1) as nat) <= d0,
        decreases t,
    {
        proof {
            vstd::arithmetic::power2::lemma2_to64();
            vstd::arithmetic::power2::lemma_pow2_pos(cap as nat);
            if pow2(cap as nat) > d0 as int {
                vstd::arithmetic::div_mod::lemma_basic_div(d0 as int, pow2(cap as nat) as int);
            }
            if cap == 64 {
                assert(pow2(64) > d0 as int);
                assert(false);
            }
            // the division is still positive, so this power is within the
            // width
            vstd::arithmetic::div_mod::lemma_fundamental_div_mod(
                d0 as int,
                pow2(cap as nat) as int,
            );
            vstd::arithmetic::div_mod::lemma_mod_bound(d0 as int, pow2(cap as nat) as int);
            assert(pow2(cap as nat) <= d0);
            vstd::arithmetic::div_mod::lemma_div_denominator(
                d0 as int,
                pow2(cap as nat) as int,
                2,
            );
            vstd::arithmetic::power2::lemma_pow2_unfold((cap + 1) as nat);
            assert((t / 2) as int == d0 as int / pow2((cap + 1) as nat) as int);
        }
        t = t / 2;
        cap = cap + 1;
    }
    proof {
        vstd::arithmetic::power2::lemma_pow2_pos(cap as nat);
        assert(t == 0);
        vstd::arithmetic::div_mod::lemma_fundamental_div_mod(d0 as int, pow2(cap as nat) as int);
        vstd::arithmetic::div_mod::lemma_mod_bound(d0 as int, pow2(cap as nat) as int);
        assert(d0 as int == pow2(cap as nat) as int * (d0 as int / pow2(cap as nat) as int) + (d0
            as int % pow2(cap as nat) as int));
        assert(d0 < pow2(cap as nat));
        lemma_log2_ceil_char((d0 + 1) as nat, cap as nat);
    }
    cap
}

/// Executes the ranked-element protocol to completion: rounds of local
/// counting, aggregation and verdict are run until the verdict is
/// `FoundK`, and the found midpoint with the number of executed rounds is
/// returned. On exact counts the search never aborts, the result is
/// exactly the k-th ranked element of the union of the parties'
/// databases, and at most `⌈log2(width of the initial range)⌉ + 1` rounds
/// run; a search range that is already a single point is answered with no
/// round at all.
pub fn leaky_kth_ranked_element_rounds(
    server: &mut PartyServer,
    parties: &mut Vec<PartyClient>,
) -> (res: (Option<i64>, u64))
    requires
        search_state_ok(*old(server), old(parties)@),
    ensures
        *final(server) == *old(server),
        res.0 matches Some(v) && is_kth(
            union_of_parties(old(parties)@),
            old(server).k as nat,
            v,
        ),
        union_of_parties(final(parties)@) == union_of_parties(old(parties)@),
        search_state_ok(*final(server), final(parties)@),
        res.1 as int <= log2_ceil(
            (old(parties)@[0].range_b - old(parties)@[0].range_a + 1) as nat,
        ) + 1,
        old(parties)@[0].range_a == old(parties)@[0].range_b ==> res.1 == 0,
{
    broadcast use vstd::arithmetic::power2::lemma_pow2_pos;
    let ghost u0 = union_of_parties(old(parties)@);
    let ghost k = old(server).k as nat;
    let a0 = parties[0].range_a;
    let b0 = parties[0].range_b;
    proof {
        if b0 < a0 {
            crate::rank::lemma_le_below_lt(u0, b0, a0);
        }
    }
    // a search range of a single point is the answer, with no round run
    if a0 == b0 {
        return (Some(a0), 0);
    }
    // the range strictly shrinks every round, so the cap bounds the main
    // loop
    let cap = round_cap(a0, b0);
    let mut rounds: u64 = 0;
    let mut rounds_left: u64 = cap + 1;
    loop
        invariant
            *server == *old(server),
            u0 == union_of_parties(old(parties)@),
            k == old(server).k as nat,
            old(parties)@[0].range_a < old(parties)@[0].range_b,
            cap as nat == log2_ceil(
                (old(parties)@[0].range_b - old(parties)@[0].range_a + 1) as nat,
            ),
            parties@.len() == old(parties)@.len(),
            search_state_ok(*server, parties@),
            union_of_parties(parties@) == u0,
            1 <= rounds_left <= 65,
            cap <= 64,
            rounds + rounds_left == cap + 1,
            parties@[0].range_b - parties@[0].range_a < pow2((rounds_left - 1) as nat),
        decreases rounds_left,
    {
        let n = parties.len();
        let ghost pre_ps = parties@;
        let a = parties[0].range_a;
        let b = parties[0].range_b;
        proof {
            assert(aligned(pre_ps, a, b));
            if b < a {
                crate::rank::lemma_le_below_lt(u0, b, a);
            }
            lemma_mid_bounds(a, b);
        }
        // Phase A: every party counts below/above its fresh midpoint
        let mut counts: Vec<(usize, usize)> = Vec::new();
        let mut i: usize = 0;
        while i < n
            invariant
                i <= n,
                n == parties@.len(),
                parties@.len() == pre_ps.len(),
                counts@.len() == i,
                forall|j: int| i <= j < pre_ps.len() ==> parties@[j] == pre_ps[j],
                forall|j: int| 0 <= j < pre_ps.len() ==> (#[trigger] pre_ps[j]).wf(),
                forall|j: int|
                    0 <= j < i ==> computed(pre_ps[j], #[trigger] parties@[j]),
                forall|j: int|
                    0 <= j < i ==> (#[trigger] counts@[j]).0 == s_lt(
                        parties@[j].scanned(),
                        parties@[j].m,
                    ) && counts@[j].1 == s_gt(parties@[j].scanned(), parties@[j].m),
            decreases n - i,
        {
            proof {
                assert(parties@[i as int] == pre_ps[i as int]);
                assert(pre_ps[i as int].wf());
            }
            let p = &mut parties[i];
            let c = p.local_computation();
            counts.push(c);
            i = i + 1;
        }
        let ghost mid_ps = parties@;
        let m = parties[0].m;
        proof {
            assert(forall|j: int|
                0 <= j < mid_ps.len() ==> (#[trigger] mid_ps[j]).m as int == mid_spec(a, b));
            assert(forall|j: int| 0 <= j < mid_ps.len() ==> (#[trigger] mid_ps[j]).m == m);
            assert(forall|j: int| 0 <= j < mid_ps.len() ==> (#[trigger] mid_ps[j]).wf());
            assert(forall|j: int| 0 <= j < mid_ps.len() ==> (#[trigger] mid_ps[j]).range_ok());
            assert(forall|j: int|
                0 <= j < mid_ps.len() ==> (#[trigger] mid_ps[j]).db() == pre_ps[j].db());
            lemma_union_same(mid_ps, pre_ps);
            assert(aligned(mid_ps, a, b));
            assert(consistent(*server, mid_ps));
            lemma_sum_counts_eq(counts@, mid_ps, m);
            lemma_union_counts(mid_ps, m);
            lemma_counts_le_len(union_of_parties(mid_ps), m);
        }
        // the aggregates the coordinator decrypts are the plain sums of the
        // parties' counts
        let sums = server.add_counts(&counts);
        let update = server.calculate_update(sums);
        proof {
            lemma_round_verdict(*server, mid_ps, m, a, b, sums.0 as nat, sums.1 as nat);
        }
        // Phase B: broadcast the verdict; every party applies it
        let mut res: Option<i64> = None;
        let mut i: usize = 0;
        while i < n
            invariant
                i <= n,
                n == parties@.len(),
                parties@.len() == mid_ps.len(),
                forall|j: int| i <= j < mid_ps.len() ==> parties@[j] == mid_ps[j],
                forall|j: int| 0 <= j < mid_ps.len() ==> (#[trigger] mid_ps[j]).wf(),
                forall|j: int| 0 <= j < mid_ps.len() ==> (#[trigger] mid_ps[j]).m == m,
                forall|j: int|
                    0 <= j < i ==> applied(mid_ps[j], #[trigger] parties@[j], update),
                res == (if update == UpdateSearchRange::FoundK && i > 0 {
                    Some(m)
                } else {
                    None::<i64>
                }),
            decreases n - i,
        {
            proof {
                assert(parties@[i as int] == mid_ps[i as int]);
                assert(mid_ps[i as int].wf());
                assert(mid_ps[i as int].m == m);
            }
            let p = &mut parties[i];
            let r = p.update_search_range(update);
            if r.is_some() {
                res = r;
            }
            i = i + 1;
        }
        let ghost post_ps = parties@;
        proof {
            assert(forall|j: int|
                0 <= j < post_ps.len() ==> (#[trigger] post_ps[j]).db() == mid_ps[j].db());
            lemma_union_same(post_ps, mid_ps);
        }
        match update {
            UpdateSearchRange::FoundK => {
                proof {
                    assert(is_kth(union_of_parties(mid_ps), (*server).k as nat, m));
                    assert(res == Some(m));
                    // the parties keep a state from which the protocol can
                    // run again
                    assert(forall|j: int|
                        0 <= j < post_ps.len() ==> #[trigger] post_ps[j] == mid_ps[j]);
                    assert(post_ps =~= mid_ps);
                    assert(search_inv(*server, mid_ps, a, b));
                }
                return (res, rounds + 1);
            },
            UpdateSearchRange::Abort => {
                proof {
                    assert(false);
                }
                return (None, rounds + 1);
            },
            UpdateSearchRange::SearchBelow => {
                proof {
                    assert forall|j: int| 0 <= j < post_ps.len() implies (
                    #[trigger] post_ps[j]).range_ok() by {
                        lemma_update_range_ok(mid_ps[j], post_ps[j], update);
                    }
                    assert(aligned(post_ps, a, dec_sat(m)));
                    assert(consistent(*server, post_ps));
                    assert(search_inv(*server, post_ps, a, dec_sat(m)));
                    lemma_width_shrinks(a, b, m, rounds_left as nat);
                }
                rounds = rounds + 1;
                rounds_left = rounds_left - 1;
            },
            UpdateSearchRange::SearchAbove => {
                proof {
                    assert forall|j: int| 0 <= j < post_ps.len() implies (
                    #[trigger] post_ps[j]).range_ok() by {
                        lemma_update_range_ok(mid_ps[j], post_ps[j], update);
                    }
                    assert(aligned(post_ps, inc_sat(m), b));
                    assert(consistent(*server, post_ps));
                    assert(search_inv(*server, post_ps, inc_sat(m), b));
                    lemma_width_shrinks(a, b, m, rounds_left as nat);
                }
                rounds = rounds + 1;
                rounds_left = rounds_left - 1;
            },
        }
    }
}

/// Executes the ranked-element protocol and returns the k-th ranked
/// element of the union of the parties' databases; the number of rounds,
/// which `leaky_kth_ranked_element_rounds` reports and bounds, is
/// discarded.
pub fn leaky_kth_ranked_element(server: &mut PartyServer, parties: &mut Vec<PartyClient>) -> (res:
    Option<i64>)
    requires
        search_state_ok(*old(server), old(parties)@),
    ensures
        *final(server) == *old(server),
        res matches Some(v) && is_kth(
            union_of_parties(old(parties)@),
            old(server).k as nat,
            v,
        ),
        union_of_parties(final(parties)@) == union_of_parties(old(parties)@),
        search_state_ok(*final(server), final(parties)@),
{
    let (res, _rounds) = leaky_kth_ranked_element_rounds(server, parties);
    res
}

/// The plain parties wrapped inside a family of DP parties.
pub open spec fn inners(ps: Seq<crate::dp::DPClient>) -> Seq<PartyClient> {
    ps.map_values(|c: crate::dp::DPClient| c.client)
}

/// Every DP party runs with zero noise.
pub open spec fn all_none(ps: Seq<crate::dp::DPClient>) -> bool {
    forall|i: int|
        0 <= i < ps.len() ==> (#[trigger] ps[i]).noise_level == crate::dp::NoiseLevel::NONE
}

/// Counts that are pointwise bounded by the parties' database sizes sum to
/// at most the size of the union.
pub proof fn lemma_sum_counts_bounded(counts: Seq<(usize, usize)>, ps: Seq<PartyClient>)
    requires
        counts.len() == ps.len(),
        forall|j: int|
            0 <= j < ps.len() ==> (#[trigger] counts[j]).0 + counts[j].1 <= ps[j].db().len(),
    ensures
        sum_fst(counts) + sum_snd(counts) <= union_of_parties(ps).len(),
    decreases ps.len(),
{
    broadcast use vstd::multiset::group_multiset_axioms;
    broadcast use vstd::seq_lib::group_to_multiset_ensures;
    if ps.len() > 0 {
        lemma_sum_counts_bounded(counts.drop_last(), ps.drop_last());
    }
}

/// Runs the protocol over noise-perturbing parties. Per round the parties
/// release perturbed counts, so the verdicts may drive the search astray;
/// the driver caps the number of rounds at `⌈log2(width)⌉ + 1` plus a
/// small margin and aborts with `None` when the cap is exceeded or the
/// aggregates are inconsistent. When every party's noise level is `NONE`
/// the run is exactly the plain protocol and returns the k-th ranked
/// element of the union.
pub fn leaky_kth_ranked_element_dp(
    server: &mut PartyServer,
    parties: &mut Vec<crate::dp::DPClient>,
) -> (res: Option<i64>)
    requires
        search_state_ok(*old(server), inners(old(parties)@)),
    ensures
        *final(server) == *old(server),
        all_none(old(parties)@) ==> (res matches Some(v) && is_kth(
            union_of_parties(inners(old(parties)@)),
            old(server).k as nat,
            v,
        )),
        union_of_parties(inners(final(parties)@)) == union_of_parties(inners(old(parties)@)),
        all_none(old(parties)@) ==> search_state_ok(*final(server), inners(final(parties)@)),
{
    broadcast use vstd::arithmetic::power2::lemma_pow2_pos;
    let ghost u0 = union_of_parties(inners(old(parties)@));
    let ghost k = old(server).k as nat;
    let ghost an = all_none(old(parties)@);
    let a0 = parties[0].client.range_a;
    let b0 = parties[0].client.range_b;
    proof {
        if b0 < a0 {
            crate::rank::lemma_le_below_lt(u0, b0, a0);
        }
    }
    if a0 == b0 {
        return Some(a0);
    }
    // a small extra margin over the non-DP bound, as the noisy search can
    // wander before the cap cuts it off
    let cap = round_cap(a0, b0);
    proof {
        vstd::arithmetic::power2::lemma_pow2_strictly_increases(cap as nat, (cap + 4) as nat);
    }
    let mut rounds_left: u64 = cap + 5;
    loop
        invariant
            *server == *old(server),
            u0 == union_of_parties(inners(old(parties)@)),
            k == old(server).k as nat,
            an == all_none(old(parties)@),
            an ==> all_none(parties@),
            parties@.len() == old(parties)@.len(),
            consistent(*server, inners(parties@)),
            aligned(
                inners(parties@),
                inners(parties@)[0].range_a,
                inners(parties@)[0].range_b,
            ),
            union_of_parties(inners(parties@)) == u0,
            1 <= rounds_left <= 69,
            an ==> search_inv(
                *server,
                inners(parties@),
                inners(parties@)[0].range_a,
                inners(parties@)[0].range_b,
            ),
            an ==> inners(parties@)[0].range_b - inners(parties@)[0].range_a < pow2(
                (rounds_left - 1) as nat,
            ),
        decreases rounds_left,
    {
        let n = parties.len();
        let ghost pre_ps = parties@;
        let ghost pre_in = inners(pre_ps);
        let a = parties[0].client.range_a;
        let b = parties[0].client.range_b;
        proof {
            assert(forall|j: int|
                0 <= j < pre_ps.len() ==> #[trigger] pre_in[j] == pre_ps[j].client);
            assert forall|j: int| 0 <= j < pre_ps.len() implies (#[trigger] pre_ps[j]).wf() by {
                assert(inners(parties@)[j] == pre_ps[j].client);
                assert(inners(parties@)[j].wf());
            }
            assert(aligned(pre_in, a, b));
            if an {
                if b < a {
                    crate::rank::lemma_le_below_lt(u0, b, a);
                }
                lemma_mid_bounds(a, b);
            }
        }
        // Phase A: noisy counts
        let mut counts: Vec<(usize, usize)> = Vec::new();
        let mut i: usize = 0;
        while i < n
            invariant
                i <= n,
                n == parties@.len(),
                parties@.len() == pre_ps.len(),
                counts@.len() == i,
                an == all_none(old(parties)@),
                forall|j: int| i <= j < pre_ps.len() ==> parties@[j] == pre_ps[j],
                forall|j: int| 0 <= j < pre_ps.len() ==> (#[trigger] pre_ps[j]).wf(),
                an ==> all_none(pre_ps),
                forall|j: int|
                    0 <= j < i ==> computed(pre_ps[j].client, (#[trigger] parties@[j]).client),
                forall|j: int|
                    0 <= j < i ==> (#[trigger] parties@[j]).noise_level == pre_ps[j].noise_level,
                forall|j: int|
                    0 <= j < i ==> (#[trigger] counts@[j]).0 + counts@[j].1
                        <= parties@[j].client.db().len(),
                an ==> forall|j: int|
                    0 <= j < i ==> (#[trigger] counts@[j]).0 == s_lt(
                        parties@[j].client.scanned(),
                        parties@[j].client.m,
                    ) && counts@[j].1 == s_gt(
                        parties@[j].client.scanned(),
                        parties@[j].client.m,
                    ),
            decreases n - i,
        {
            proof {
                assert(parties@[i as int] == pre_ps[i as int]);
                assert(pre_ps[i as int].wf());
            }
            let p = &mut parties[i];
            let c = p.local_computation();
            counts.push(c);
            i = i + 1;
        }
        let ghost mid_ps = parties@;
        let ghost mid_in = inners(mid_ps);
        let m = parties[0].client.m;
        proof {
            assert(forall|j: int|
                0 <= j < mid_in.len() ==> #[trigger] mid_in[j] == mid_ps[j].client);
            assert forall|j: int| 0 <= j < mid_in.len() implies (#[trigger] mid_in[j]).m as int
                == mid_spec(a, b) by {
                assert(computed(pre_ps[j].client, mid_ps[j].client));
                assert(pre_in[j] == pre_ps[j].client);
                assert(pre_ps[j].client.range_a == a && pre_ps[j].client.range_b == b);
            }
            assert(forall|j: int| 0 <= j < mid_in.len() ==> (#[trigger] mid_in[j]).m == m);
            assert forall|j: int| 0 <= j < mid_ps.len() implies (#[trigger] mid_ps[j]).client.m
                == m by {
                assert(mid_in[j] == mid_ps[j].client);
                assert(mid_in[j].m == m);
            }
            assert(forall|j: int| 0 <= j < mid_in.len() ==> (#[trigger] mid_in[j]).wf());
            assert(forall|j: int|
                0 <= j < mid_in.len() ==> (#[trigger] mid_in[j]).db() == pre_in[j].db());
            lemma_union_same(mid_in, pre_in);
            assert(aligned(mid_in, a, b));
            assert(consistent(*server, mid_in));
            assert(forall|j: int|
                0 <= j < counts@.len() ==> (#[trigger] counts@[j]).0 + counts@[j].1
                    <= mid_in[j].db().len());
            lemma_sum_counts_bounded(counts@, mid_in);
            if an {
                assert(forall|j: int|
                    0 <= j < mid_in.len() ==> (#[trigger] mid_in[j]).range_ok());
                lemma_sum_counts_eq(counts@, mid_in, m);
                lemma_union_counts(mid_in, m);
                lemma_counts_le_len(union_of_parties(mid_in), m);
            }
        }
        let sums = server.add_counts(&counts);
        let update = server.calculate_update(sums);
        proof {
            if an {
                lemma_round_verdict(*server, mid_in, m, a, b, sums.0 as nat, sums.1 as nat);
            }
        }
        // Phase B: apply the verdict
        let mut res: Option<i64> = None;
        let mut i: usize = 0;
        while i < n
            invariant
                i <= n,
                n == parties@.len(),
                parties@.len() == mid_ps.len(),
                forall|j: int| i <= j < mid_ps.len() ==> parties@[j] == mid_ps[j],
                forall|j: int| 0 <= j < mid_ps.len() ==> (#[trigger] mid_ps[j]).wf(),
                forall|j: int| 0 <= j < mid_ps.len() ==> (#[trigger] mid_ps[j]).client.m == m,
                forall|j: int|
                    0 <= j < i ==> applied(
                        mid_ps[j].client,
                        (#[trigger] parties@[j]).client,
                        update,
                    ),
                forall|j: int|
                    0 <= j < i ==> (#[trigger] parties@[j]).noise_level == mid_ps[j].noise_level,
                res == (if update == UpdateSearchRange::FoundK && i > 0 {
                    Some(m)
                } else {
                    None::<i64>
                }),
            decreases n - i,
        {
            proof {
                assert(parties@[i as int] == mid_ps[i as int]);
                assert(mid_ps[i as int].wf());
                assert(mid_ps[i as int].client.m == m);
            }
            let p = &mut parties[i];
            let r = p.update_search_range(update);
            if r.is_some() {
                res = r;
            }
            i = i + 1;
        }
        let ghost post_ps = parties@;
        let ghost post_in = inners(post_ps);
        proof {
            assert(forall|j: int|
                0 <= j < post_in.len() ==> #[trigger] post_in[j] == post_ps[j].client);
            assert(forall|j: int|
                0 <= j < post_in.len() ==> (#[trigger] post_in[j]).db() == mid_in[j].db());
            lemma_union_same(post_in, mid_in);
        }
        match update {
            UpdateSearchRange::FoundK => {
                proof {
                    if an {
                        assert(is_kth(union_of_parties(mid_in), (*server).k as nat, m));
                        // the parties keep a state from which the protocol
                        // can run again
                        assert(forall|j: int|
                            0 <= j < post_in.len() ==> #[trigger] post_in[j] == mid_in[j]);
                        assert(post_in =~= mid_in);
                        assert(search_inv(*server, mid_in, a, b));
                    }
                    assert(res == Some(m));
                }
                return res;
            },
            UpdateSearchRange::Abort => {
                proof {
                    if an {
                        assert(false);
                    }
                }
                return None;
            },
            UpdateSearchRange::SearchBelow => {
                proof {
                    assert(aligned(post_in, a, dec_sat(m)));
                    assert(consistent(*server, post_in));
                    if an {
                        assert forall|j: int| 0 <= j < post_in.len() implies (
                        #[trigger] post_in[j]).range_ok() by {
                            lemma_update_range_ok(mid_in[j], post_in[j], update);
                        }
                        assert(search_inv(*server, post_in, a, dec_sat(m)));
                        lemma_width_shrinks(a, b, m, rounds_left as nat);
                    }
                }
                if rounds_left == 1 {
                    return None;
                }
                rounds_left = rounds_left - 1;
            },
            UpdateSearchRange::SearchAbove => {
                proof {
                    assert(aligned(post_in, inc_sat(m), b));
                    assert(consistent(*server, post_in));
                    if an {
                        assert forall|j: int| 0 <= j < post_in.len() implies (
                        #[trigger] post_in[j]).range_ok() by {
                            lemma_update_range_ok(mid_in[j], post_in[j], update);
                        }
                        assert(search_inv(*server, post_in, inc_sat(m), b));
                        lemma_width_shrinks(a, b, m, rounds_left as nat);
                    }
                }
                if rounds_left == 1 {
                    return None;
                }
                rounds_left = rounds_left - 1;
            },
        }
    }
}

/// One halving step of the binary search: if the current width is below
/// `2^(r-1)`, both possible shrunken widths are below `2^(r-2)`.
pub proof fn lemma_width_shrinks(a: i64, b: i64, m: i64, r: nat)
    requires
        a < b,
        mid_spec(a, b) == m as int,
        r >= 1,
        b - a < pow2((r - 1) as nat),
    ensures
        r >= 2,
        (m - 1) - a < pow2((r - 2) as nat),
        b - (m + 1) < pow2((r - 2) as nat),
{
    lemma_mid_bounds(a, b);
    let d = b - a;
    assert(m - a == d / 2);
    if r == 1 {
        vstd::arithmetic::power2::lemma2_to64();
        assert(pow2(0) == 1);
        assert(d < 1);
        assert(false);
    }
    vstd::arithmetic::power2::lemma_pow2_unfold((r - 1) as nat);
    let h = pow2((r - 2) as nat) as int;
    assert(pow2((r - 1) as nat) == 2 * h);
    assert(d < 2 * h);
    vstd::arithmetic::div_mod::lemma_fundamental_div_mod(d, 2);
    vstd::arithmetic::div_mod::lemma_mod_bound(d, 2);
    assert(d == 2 * (d / 2) + d % 2);
    assert(d / 2 < h);
    assert((m - 1) - a < h);
    assert(b - (m + 1) == d - d / 2 - 1);
}

} // verus!

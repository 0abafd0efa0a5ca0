//! The coordinator of the protocol: it aggregates the parties' per-round
//! counts and turns the plaintext aggregates into a search verdict.

use vstd::prelude::*;
use crate::party::UpdateSearchRange;

verus! {

/// Sum of the first components of a sequence of count pairs.
pub open spec fn sum_fst(s: Seq<(usize, usize)>) -> nat
    decreases s.len(),
{
    if s.len() == 0 {
        0nat
    } else {
        (sum_fst(s.drop_last()) + s.last().0) as nat
    }
}

/// Sum of the second components of a sequence of count pairs.
pub open spec fn sum_snd(s: Seq<(usize, usize)>) -> nat
    decreases s.len(),
{
    if s.len() == 0 {
        0nat
    } else {
        (sum_snd(s.drop_last()) + s.last().1) as nat
    }
}

pub proof fn lemma_sum_step(s: Seq<(usize, usize)>, j: int)
    requires
        0 <= j < s.len(),
    ensures
        sum_fst(s.subrange(0, j + 1)) == sum_fst(s.subrange(0, j)) + s[j].0,
        sum_snd(s.subrange(0, j + 1)) == sum_snd(s.subrange(0, j)) + s[j].1,
{
    let pre = s.subrange(0, j + 1);
    assert(pre.drop_last() =~= s.subrange(0, j));
    assert(pre.last() == s[j]);
}

/// Partial sums never exceed the full sum.
pub proof fn lemma_sum_prefix(s: Seq<(usize, usize)>, j: int)
    requires
        0 <= j <= s.len(),
    ensures
        sum_fst(s.subrange(0, j)) <= sum_fst(s),
        sum_snd(s.subrange(0, j)) <= sum_snd(s),
    decreases s.len() - j,
{
    if j == s.len() {
        assert(s.subrange(0, j) =~= s);
    } else {
        lemma_sum_step(s, j);
        lemma_sum_prefix(s, j + 1);
    }
}

/// The verdict the coordinator derives from the decrypted aggregates:
/// inconsistent aggregates abort; at least `k` elements below the midpoint
/// send the search below; more than `n_total - k` elements above it send
/// the search above; otherwise the midpoint is the k-th element. The order
/// of the branches is part of the protocol: the below-check wins ties.
pub open spec fn verdict_spec(sum_lt: nat, sum_gt: nat, k: nat, n_total: nat) -> UpdateSearchRange {
    if sum_lt > n_total || sum_gt > n_total {
        UpdateSearchRange::Abort
    } else if sum_lt >= k {
        UpdateSearchRange::SearchBelow
    } else if sum_gt > n_total - k {
        UpdateSearchRange::SearchAbove
    } else {
        UpdateSearchRange::FoundK
    }
}

/// The coordinator's immutable protocol parameters.
pub struct PartyServer {
    /// Number of parties.
    pub n: usize,
    /// Rank of the element to retrieve (1-indexed).
    pub k: usize,
    /// Sum of the sizes of all parties' databases.
    pub databases_size: usize,
}

impl PartyServer {
    pub open spec fn wf(self) -> bool {
        &&& 1 <= self.k <= self.databases_size
        &&& self.n >= 1
        &&& self.databases_size as int <= 0x1000_0000_0000_0000
    }

    /// Checks the coordinator's protocol parameters at run time: true
    /// exactly when the well-formedness that the verified operations
    /// assume holds, so unverified callers can test it before calling.
    pub fn is_wf(&self) -> (b: bool)
        ensures
            b == self.wf(),
    {
        1 <= self.k && self.k <= self.databases_size && self.n >= 1 && (self.databases_size
            as u128) <= 0x1000_0000_0000_0000
    }

    /// Adds up the parties' `(less, greater)` counts componentwise.
    ///
    /// In a deployment the coordinator only sees these counts encrypted and
    /// sums them homomorphically; the sums below are what the subsequent
    /// threshold decryption of that homomorphic aggregate yields.
    pub fn add_counts(&self, counts: &Vec<(usize, usize)>) -> (sums: (usize, usize))
        requires
            sum_fst(counts@) <= usize::MAX,
            sum_snd(counts@) <= usize::MAX,
        ensures
            sums.0 == sum_fst(counts@),
            sums.1 == sum_snd(counts@),
    {
        let mut lt: usize = 0;
        let mut gt: usize = 0;
        let mut i: usize = 0;
        proof {
            assert(counts@.subrange(0, 0) =~= Seq::<(usize, usize)>::empty());
        }
        while i < counts.len()
            invariant
                i <= counts@.len(),
                lt == sum_fst(counts@.subrange(0, i as int)),
                gt == sum_snd(counts@.subrange(0, i as int)),
                sum_fst(counts@) <= usize::MAX,
                sum_snd(counts@) <= usize::MAX,
            decreases counts@.len() - i,
        {
            proof {
                lemma_sum_step(counts@, i as int);
                lemma_sum_prefix(counts@, i as int + 1);
            }
            let c = counts[i];
            lt = lt + c.0;
            gt = gt + c.1;
            i = i + 1;
        }
        proof {
            assert(counts@.subrange(0, counts@.len() as int) =~= counts@);
        }
        (lt, gt)
    }

    /// Turns the decrypted aggregates into the round verdict. The result is
    /// a pure function of the aggregates and the protocol parameters.
    pub fn calculate_update(&self, sums: (usize, usize)) -> (update: UpdateSearchRange)
        requires
            self.wf(),
        ensures
            update == verdict_spec(
                sums.0 as nat,
                sums.1 as nat,
                self.k as nat,
                self.databases_size as nat,
            ),
    {
        let (lt, gt) = sums;
        if lt > self.databases_size || gt > self.databases_size {
            UpdateSearchRange::Abort
        } else if lt >= self.k {
            UpdateSearchRange::SearchBelow
        } else if gt > self.databases_size - self.k {
            UpdateSearchRange::SearchAbove
        } else {
            UpdateSearchRange::FoundK
        }
    }
}

} // verus!

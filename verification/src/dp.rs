//! Differential-privacy wrapper around a party.
//!
//! A `DPClient` perturbs its party's per-round counts with noise before
//! they leave the party, and then rescales them so that the invariant
//! `less + greater <= |database|` that the coordinator checks still holds.
//! The noise values themselves are drawn outside the library (they come
//! from a Laplace distribution whose scale is computed in floating point)
//! and are supplied to the wrapper as plain integers; with noise level
//! `NONE` the wrapper uses zero noise and reduces exactly to the plain
//! party.

use vstd::prelude::*;
use crate::party::PartyClient;
use crate::party::UpdateSearchRange;
use crate::rank::{s_lt, s_gt};

verus! {

/// How much noise the wrapper applies to each count.
#[allow(non_camel_case_types)]
#[derive(Clone, Copy, Debug, PartialEq, Eq, Structural)]
pub enum NoiseLevel {
    NONE,
    LOW,
    MEDIUM,
    HIGH,
}

/// A raw count after adding a (possibly negative) noise value: negative
/// results clip to zero and results beyond the machine range saturate.
pub open spec fn perturb_spec(raw: nat, noise: int) -> nat {
    if raw + noise <= 0 {
        0nat
    } else if raw + noise > usize::MAX as int {
        usize::MAX as nat
    } else {
        (raw + noise) as nat
    }
}

/// `x / y` rounded half away from zero, for nonnegative operands.
pub open spec fn round_div(x: int, y: int) -> int {
    (2 * x + y) / (2 * y)
}

/// Rescaling of a perturbed count pair whose sum exceeds the database
/// size: each count gives up its proportional share of the excess.
pub open spec fn clamp_spec(less: nat, greater: nat, size: nat) -> (int, int) {
    let sum = less + greater;
    if sum <= size {
        (less as int, greater as int)
    } else {
        let excess = sum - size;
        let la = round_div(less * excess, sum as int);
        let ga = round_div(greater * excess, sum as int);
        (
            if la >= less { 0int } else { less - la },
            if ga >= greater { 0int } else { greater - ga },
        )
    }
}

/// Adds `noise` to `raw`, clipping at zero and at the machine range.
pub fn perturb(raw: usize, noise: i32) -> (r: usize)
    ensures
        r as nat == perturb_spec(raw as nat, noise as int),
{
    let t: i128 = raw as i128 + noise as i128;
    if t <= 0 {
        0
    } else if t > usize::MAX as i128 {
        usize::MAX
    } else {
        t as usize
    }
}

/// `floor((a + b) / c) <= floor(a / c) + floor(b / c) + 1` for positive `c`.
proof fn lemma_div_add_bound(a: int, b: int, c: int)
    requires
        a >= 0,
        b >= 0,
        c > 0,
    ensures
        (a + b) / c <= a / c + b / c + 1,
{
    vstd::arithmetic::div_mod::lemma_fundamental_div_mod(a, c);
    vstd::arithmetic::div_mod::lemma_mod_bound(a, c);
    vstd::arithmetic::div_mod::lemma_fundamental_div_mod(b, c);
    vstd::arithmetic::div_mod::lemma_mod_bound(b, c);
    let ra = a % c;
    let rb = b % c;
    if ra + rb < c {
        assert(a + b == (a / c + b / c) * c + (ra + rb)) by (nonlinear_arith)
            requires
                a == c * (a / c) + ra && b == c * (b / c) + rb,
        ;
        vstd::arithmetic::div_mod::lemma_fundamental_div_mod_converse_div(
            a + b,
            c,
            a / c + b / c,
            ra + rb,
        );
    } else {
        assert(a + b == (a / c + b / c + 1) * c + (ra + rb - c)) by (nonlinear_arith)
            requires
                a == c * (a / c) + ra && b == c * (b / c) + rb,
        ;
        vstd::arithmetic::div_mod::lemma_fundamental_div_mod_converse_div(
            a + b,
            c,
            a / c + b / c + 1,
            ra + rb - c,
        );
    }
}

/// Exact quotient for a product plus a half-divisor remainder.
proof fn lemma_round_div_of_multiple(l: int, s: int)
    requires
        l >= 0,
        s > 0,
    ensures
        (2 * l * s + s) / (2 * s) == l,
{
    assert(2 * l * s + s == l * (2 * s) + s) by (nonlinear_arith);
    vstd::arithmetic::div_mod::lemma_fundamental_div_mod_converse_div(2 * l * s + s, 2 * s, l, s);
}

/// The rescaled counts are pointwise no larger than the inputs, and their
/// sum is at most `size`.
proof fn lemma_clamp_bounds(less: nat, greater: nat, size: nat)
    requires
        less + greater > size,
    ensures
        ({
            let (l2, g2) = clamp_spec(less, greater, size);
            &&& 0 <= l2 <= less
            &&& 0 <= g2 <= greater
            &&& l2 + g2 <= size
        }),
{
    let sum = (less + greater) as int;
    let excess = sum - size;
    let la = round_div(less * excess, sum);
    let ga = round_div(greater * excess, sum);
    // each adjustment is at most the count itself ...
    assert(2 * (less * excess) + sum <= 2 * (less * sum) + sum) by (nonlinear_arith)
        requires
            excess <= sum && less >= 0 && sum >= 0,
    ;
    vstd::arithmetic::div_mod::lemma_div_is_ordered(
        2 * (less * excess) + sum,
        2 * (less * sum) + sum,
        2 * sum,
    );
    lemma_round_div_of_multiple(less as int, sum);
    assert(2 * (less as int) * sum == 2 * (less * sum)) by (nonlinear_arith);
    assert(la <= less);
    assert(2 * (greater * excess) + sum <= 2 * (greater * sum) + sum) by (nonlinear_arith)
        requires
            excess <= sum && greater >= 0 && sum >= 0,
    ;
    vstd::arithmetic::div_mod::lemma_div_is_ordered(
        2 * (greater * excess) + sum,
        2 * (greater * sum) + sum,
        2 * sum,
    );
    lemma_round_div_of_multiple(greater as int, sum);
    assert(2 * (greater as int) * sum == 2 * (greater * sum)) by (nonlinear_arith);
    assert(ga <= greater);
    // ... and the adjustments together cover at least the excess
    lemma_div_add_bound(2 * (less * excess) + sum, 2 * (greater * excess) + sum, 2 * sum);
    assert((2 * (less * excess) + sum) + (2 * (greater * excess) + sum) == 2 * (sum * excess) + 2
        * sum) by (nonlinear_arith)
        requires
            sum == less + greater,
    ;
    assert(2 * (sum * excess) + 2 * sum == (excess + 1) * (2 * sum)) by (nonlinear_arith);
    vstd::arithmetic::div_mod::lemma_fundamental_div_mod_converse_div(
        (excess + 1) * (2 * sum),
        2 * sum,
        excess + 1,
        0,
    );
    assert(la + ga >= excess);
    // each adjustment is nonnegative
    vstd::arithmetic::div_mod::lemma_div_pos_is_pos(2 * (less * excess) + sum, 2 * sum);
    vstd::arithmetic::div_mod::lemma_div_pos_is_pos(2 * (greater * excess) + sum, 2 * sum);
    assert(less * excess >= 0) by (nonlinear_arith)
        requires
            less >= 0 && excess >= 0,
    ;
    assert(greater * excess >= 0) by (nonlinear_arith)
        requires
            greater >= 0 && excess >= 0,
    ;
}

/// Rescales a perturbed count pair so that its sum is at most `size`,
/// removing from each count its proportional, half-up-rounded share of
/// the excess.
pub fn clamp_counts(less: usize, greater: usize, size: usize) -> (r: (usize, usize))
    requires
        less as int <= 0x2000_0000_0000_0000,
        greater as int <= 0x2000_0000_0000_0000,
    ensures
        (r.0 as int, r.1 as int) == clamp_spec(less as nat, greater as nat, size as nat),
        r.0 + r.1 <= size || (less + greater <= size),
        r.0 + r.1 <= less + greater,
{
    let sum: u128 = less as u128 + greater as u128;
    if sum <= size as u128 {
        (less, greater)
    } else {
        proof {
            lemma_clamp_bounds(less as nat, greater as nat, size as nat);
        }
        let excess: u128 = sum - size as u128;
        proof {
            assert(2 * (less as int) * (excess as int) <= 0x1000_0000_0000_0000_0000_0000_0000_0000)
                by (nonlinear_arith)
                requires
                    0 <= less as int <= 0x2000_0000_0000_0000,
                    0 <= excess as int <= 0x4000_0000_0000_0000,
            ;
            assert(2 * (greater as int) * (excess as int)
                <= 0x1000_0000_0000_0000_0000_0000_0000_0000) by (nonlinear_arith)
                requires
                    0 <= greater as int <= 0x2000_0000_0000_0000,
                    0 <= excess as int <= 0x4000_0000_0000_0000,
            ;
        }
        let la: u128 = (2 * (less as u128) * excess + sum) / (2 * sum);
        let ga: u128 = (2 * (greater as u128) * excess + sum) / (2 * sum);
        proof {
            assert((2 * (less as int)) * (excess as int) == 2 * ((less as int) * (excess as int)))
                by (nonlinear_arith);
            assert((2 * (greater as int)) * (excess as int) == 2 * ((greater as int) * (excess
                as int))) by (nonlinear_arith);
            assert(la as int == round_div((less as int) * (excess as int), sum as int));
            assert(ga as int == round_div((greater as int) * (excess as int), sum as int));
        }
        let l2: usize = if la >= less as u128 {
            0
        } else {
            less - (la as usize)
        };
        let g2: usize = if ga >= greater as u128 {
            0
        } else {
            greater - (ga as usize)
        };
        (l2, g2)
    }
}

/// Takes the next noise value from a queue: levels without noise and an
/// exhausted queue yield zero.
pub open spec fn take_noise(level: NoiseLevel, q: Seq<i32>) -> (i32, Seq<i32>) {
    if level == NoiseLevel::NONE || q.len() == 0 {
        (0i32, q)
    } else {
        (q.last(), q.drop_last())
    }
}

/// A party that releases only noise-perturbed counts.
pub struct DPClient {
    /// The wrapped plain party.
    pub client: PartyClient,
    /// How much noise is applied.
    pub noise_level: NoiseLevel,
    /// Audit log of every noise value that was applied.
    pub noise_array: Vec<i32>,
    /// Externally drawn noise values, consumed from the back.
    pub noise_queue: Vec<i32>,
}

impl DPClient {
    pub open spec fn wf(self) -> bool {
        self.client.wf()
    }

    /// Wraps a party with a noise level; the audit log starts empty and
    /// noise values are supplied separately.
    pub fn new(client: PartyClient, noise_level: NoiseLevel) -> (c: DPClient)
        ensures
            c.client == client,
            c.noise_level == noise_level,
            c.noise_array@ =~= Seq::<i32>::empty(),
            c.noise_queue@ =~= Seq::<i32>::empty(),
    {
        DPClient { client, noise_level, noise_array: Vec::new(), noise_queue: Vec::new() }
    }

    /// Queues one externally drawn noise value.
    pub fn supply_noise(&mut self, noise: i32)
        ensures
            final(self).client == old(self).client,
            final(self).noise_level == old(self).noise_level,
            final(self).noise_array == old(self).noise_array,
            final(self).noise_queue@ == old(self).noise_queue@.push(noise),
    {
        self.noise_queue.push(noise);
    }

    /// Takes the next noise value to apply.
    fn next_noise(&mut self) -> (n: i32)
        ensures
            final(self).client == old(self).client,
            final(self).noise_level == old(self).noise_level,
            final(self).noise_array == old(self).noise_array,
            ({
                let (m, q) = take_noise(old(self).noise_level, old(self).noise_queue@);
                n == m && final(self).noise_queue@ == q
            }),
    {
        if matches!(self.noise_level, NoiseLevel::NONE) {
            0
        } else {
            match self.noise_queue.pop() {
                Some(n) => n,
                None => 0,
            }
        }
    }

    /// The party's per-round local computation with noise: counts the
    /// scanned slice as the plain party does, perturbs both counts with
    /// the next two noise values, rescales them to keep their sum within
    /// the database size, and logs the applied noise. With noise level
    /// `NONE` the returned counts are exactly the plain counts.
    pub fn local_computation(&mut self) -> (counts: (usize, usize))
        requires
            old(self).wf(),
        ensures
            final(self).wf(),
            crate::protocol::computed(old(self).client, final(self).client),
            final(self).noise_level == old(self).noise_level,
            counts.0 + counts.1 <= final(self).client.db().len(),
            ({
                let raw_l = s_lt(final(self).client.scanned(), final(self).client.m);
                let raw_g = s_gt(final(self).client.scanned(), final(self).client.m);
                let (nl, q1) = take_noise(old(self).noise_level, old(self).noise_queue@);
                let (ng, q2) = take_noise(old(self).noise_level, q1);
                &&& final(self).noise_queue@ == q2
                &&& final(self).noise_array@ == old(self).noise_array@.push(nl).push(ng)
                &&& (counts.0 as int, counts.1 as int) == clamp_spec(
                    perturb_spec(raw_l, nl as int),
                    perturb_spec(raw_g, ng as int),
                    final(self).client.db().len() as nat,
                )
            }),
            old(self).noise_level == NoiseLevel::NONE ==> counts.0 == s_lt(
                final(self).client.scanned(),
                final(self).client.m,
            ) && counts.1 == s_gt(final(self).client.scanned(), final(self).client.m),
    {
        let (raw_l, raw_g) = self.client.local_computation();
        let nl = self.next_noise();
        let ng = self.next_noise();
        self.noise_array.push(nl);
        self.noise_array.push(ng);
        let pl = perturb(raw_l, nl);
        let pg = perturb(raw_g, ng);
        proof {
            assert(self.client.scanned().len() <= self.client.db().len());
            if pl as nat + pg as nat > self.client.db().len() {
                lemma_clamp_bounds(pl as nat, pg as nat, self.client.db().len() as nat);
            }
        }
        let counts = clamp_counts(pl, pg, self.client.database.len());
        counts
    }

    /// Applies the coordinator's verdict to the wrapped party.
    pub fn update_search_range(&mut self, update: UpdateSearchRange) -> (res: Option<i64>)
        requires
            old(self).wf(),
        ensures
            final(self).wf(),
            final(self).noise_level == old(self).noise_level,
            final(self).noise_array == old(self).noise_array,
            final(self).noise_queue == old(self).noise_queue,
            crate::protocol::applied(old(self).client, final(self).client, update),
            res == (if update == UpdateSearchRange::FoundK {
                Some(old(self).client.m)
            } else {
                None::<i64>
            }),
    {
        self.client.update_search_range(update)
    }
}

} // verus!

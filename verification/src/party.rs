//! Per-party state of the ranked-element protocol.
//!
//! A party owns one sorted private database, the current search range
//! `[range_a, range_b]`, the current midpoint `m`, and a sub-range
//! `[lo, hi)` of database indices that is used to narrow the scan for
//! extreme ranks (`k == 1` or `k == N`), where it is sound.

use vstd::prelude::*;
use crate::rank::{s_lt, s_gt, sorted};

verus! {

/// The coordinator's per-round verdict, broadcast to every party.
#[derive(Clone, Copy, Debug, PartialEq, Eq, Structural)]
pub enum UpdateSearchRange {
    FoundK,
    SearchBelow,
    SearchAbove,
    Abort,
}

/// Floor of the average of `a` and `b` (the trial midpoint).
pub open spec fn mid_spec(a: i64, b: i64) -> int {
    (a + b) / 2
}

/// `m - 1`, saturating at the smallest representable value.
pub open spec fn dec_sat(m: i64) -> i64 {
    if m == i64::MIN { m } else { (m - 1) as i64 }
}

/// `m + 1`, saturating at the largest representable value.
pub open spec fn inc_sat(m: i64) -> i64 {
    if m == i64::MAX { m } else { (m + 1) as i64 }
}

/// Computes `floor((a + b) / 2)` without overflow.
pub fn midpoint(a: i64, b: i64) -> (m: i64)
    ensures
        m as int == mid_spec(a, b),
        a <= b ==> a <= m <= b,
        b <= a ==> b <= m <= a,
{
    let (low, high) = if a <= b {
        (a, b)
    } else {
        (b, a)
    };
    let d: u128 = ((high as i128) - (low as i128)) as u128;
    let half: u128 = d / 2;
    let mid: i128 = (low as i128) + (half as i128);
    proof {
        assert((low + high) / 2 == low + (high - low) / 2) by (nonlinear_arith)
            requires
                low <= high,
        ;
        assert(half <= d) by (nonlinear_arith)
            requires
                half == d / 2,
        ;
    }
    mid as i64
}

/// One party of the protocol: its sorted database and local search state.
pub struct PartyClient {
    /// The party's private database, sorted ascending.
    pub database: Vec<i64>,
    /// Index of this party among all parties.
    pub idx: u32,
    /// Number of parties.
    pub n: usize,
    /// Rank of the element to retrieve (1-indexed).
    pub k: usize,
    /// Sum of the sizes of all parties' databases.
    pub databases_size: usize,
    /// Lower end of the current search range (inclusive).
    pub range_a: i64,
    /// Upper end of the current search range (inclusive).
    pub range_b: i64,
    /// Start of the database sub-range scanned for extreme ranks.
    pub lo: usize,
    /// End (exclusive) of the database sub-range scanned for extreme ranks.
    pub hi: usize,
    /// Absolute index of the first scanned element above `m`, if any.
    pub greater_than_m_idx: Option<usize>,
    /// The current trial midpoint.
    pub m: i64,
}

impl PartyClient {
    /// The database as a sequence.
    pub open spec fn db(self) -> Seq<i64> {
        self.database@
    }

    /// The sub-range narrowing applies only to extreme ranks.
    pub open spec fn extreme(self) -> bool {
        self.k == 1 || self.k == self.databases_size
    }

    /// First index of the range scanned by the local computation.
    pub open spec fn scan_base(self) -> int {
        if self.extreme() { self.lo as int } else { 0 }
    }

    /// End (exclusive) of the range scanned by the local computation.
    pub open spec fn scan_limit(self) -> int {
        if self.extreme() { self.hi as int } else { self.db().len() as int }
    }

    /// The slice of the database that the local computation counts over.
    pub open spec fn scanned(self) -> Seq<i64> {
        self.db().subrange(self.scan_base(), self.scan_limit())
    }

    /// Structural well-formedness, established at construction and kept by
    /// every operation.
    pub open spec fn wf(self) -> bool {
        &&& sorted(self.db())
        &&& self.lo as int <= self.db().len()
        &&& self.hi as int <= self.db().len()
        &&& (self.extreme() ==> self.lo <= self.hi)
        &&& 1 <= self.k <= self.databases_size
        &&& self.db().len() <= self.databases_size
        &&& self.databases_size as int <= 0x1000_0000_0000_0000
        &&& (self.idx as int) < (self.n as int)
        &&& self.n >= 1
        &&& match self.greater_than_m_idx {
            Some(j) => j as int <= self.db().len() && (self.extreme() ==> self.lo <= j
                && j <= self.hi),
            None => true,
        }
    }

    /// The sub-range indices only ever exclude elements that are already
    /// outside the current search range: everything before `lo` is below
    /// `range_a` and everything from `hi` on is above `range_b`.
    pub open spec fn range_ok(self) -> bool {
        &&& forall|j: int| 0 <= j < self.lo as int ==> self.db()[j] < self.range_a
        &&& forall|j: int| self.hi as int <= j < self.db().len() ==> self.db()[j] > self.range_b
    }

    /// The cached first-greater index matches the scanned range and `m`.
    pub open spec fn fg_ok(self) -> bool {
        match self.greater_than_m_idx {
            Some(j) => {
                &&& self.scan_base() <= j as int
                &&& (j as int) < self.scan_limit()
                &&& self.db()[j as int] > self.m
                &&& forall|t: int| self.scan_base() <= t < j as int ==> self.db()[t] <= self.m
            },
            None => forall|t: int| self.scan_base() <= t < self.scan_limit() ==> self.db()[t]
                <= self.m,
        }
    }

    /// Everything except the midpoint and the first-greater cache is as in
    /// `other`.
    pub open spec fn same_but_m(self, other: Self) -> bool {
        &&& self.database == other.database
        &&& self.idx == other.idx
        &&& self.n == other.n
        &&& self.k == other.k
        &&& self.databases_size == other.databases_size
        &&& self.range_a == other.range_a
        &&& self.range_b == other.range_b
        &&& self.lo == other.lo
        &&& self.hi == other.hi
    }

    /// Creates a party. The database is sorted on construction; all other
    /// protocol parameters are recorded as given, with the scan sub-range
    /// initially covering the whole database and the midpoint set from the
    /// search range.
    pub fn new(
        database: Vec<i64>,
        idx: u32,
        n: usize,
        k: usize,
        databases_size: usize,
        search_range: [i64; 2],
        ) -> (p: PartyClient)
        requires
            1 <= k <= databases_size,
            databases_size as int <= 0x1000_0000_0000_0000,
            database@.len() <= databases_size,
            (idx as int) < (n as int),
            n >= 1,
        ensures
            p.wf(),
            p.range_ok(),
            p.db().to_multiset() == database@.to_multiset(),
            p.db().len() == database@.len(),
            p.idx == idx,
            p.n == n,
            p.k == k,
            p.databases_size == databases_size,
            p.range_a == search_range[0],
            p.range_b == search_range[1],
            p.lo == 0,
            p.hi == p.db().len(),
            p.greater_than_m_idx is None,
            p.m as int == mid_spec(search_range[0], search_range[1]),
    {
        let mut database = database;
        crate::util::sort_i64(&mut database);
        let a = search_range[0];
        let b = search_range[1];
        let hi = database.len();
        PartyClient {
            database,
            idx,
            n,
            k,
            databases_size,
            range_a: a,
            range_b: b,
            lo: 0,
            hi,
            greater_than_m_idx: None,
            m: midpoint(a, b),
        }
    }

    /// Recomputes the midpoint from the current search range and counts, in
    /// one pass over the scanned slice of the database, how many elements
    /// lie strictly below and strictly above it. Also caches the absolute
    /// index of the first scanned element above the midpoint.
    pub fn local_computation(&mut self) -> (counts: (usize, usize))
        requires
            old(self).wf(),
        ensures
            final(self).wf(),
            final(self).same_but_m(*old(self)),
            final(self).m as int == mid_spec(old(self).range_a, old(self).range_b),
            counts.0 == s_lt(final(self).scanned(), final(self).m),
            counts.1 == s_gt(final(self).scanned(), final(self).m),
            counts.0 + counts.1 <= final(self).scanned().len(),
            final(self).fg_ok(),
    {
        self.m = midpoint(self.range_a, self.range_b);
        let (base, limit) = if self.k == 1 || self.k == self.databases_size {
            (self.lo, self.hi)
        } else {
            (0, self.database.len())
        };
        let m = self.m;
        let ghost db = self.db();
        let mut less: usize = 0;
        let mut greater: usize = 0;
        let mut fg: Option<usize> = None;
        let mut i = base;
        proof {
            crate::rank::lemma_s_counts_empty(db.subrange(base as int, base as int), m);
        }
        while i < limit
            invariant
                base <= i <= limit <= db.len(),
                db == self.db(),
                m == self.m,
                less == s_lt(db.subrange(base as int, i as int), m),
                greater == s_gt(db.subrange(base as int, i as int), m),
                less + greater <= i - base,
                match fg {
                    Some(j) => {
                        &&& base as int <= j as int
                        &&& (j as int) < i as int
                        &&& db[j as int] > m
                        &&& forall|t: int| base as int <= t < j as int ==> db[t] <= m
                    },
                    None => forall|t: int| base as int <= t < i as int ==> db[t] <= m,
                },
            decreases limit - i,
        {
            let x = self.database[i];
            proof {
                assert(db.subrange(base as int, i as int + 1) =~= db.subrange(
                    base as int,
                    i as int,
                ).push(x));
                crate::rank::lemma_s_counts_push(db.subrange(base as int, i as int), x, m);
            }
            if x < m {
                less = less + 1;
            } else if x > m {
                greater = greater + 1;
                if fg.is_none() {
                    fg = Some(i);
                }
            }
            i = i + 1;
        }
        self.greater_than_m_idx = fg;
        proof {
            assert(self.scanned() =~= db.subrange(base as int, limit as int));
        }
        (less, greater)
    }

    /// Applies the coordinator's verdict to the local search state.
    ///
    /// On `FoundK` the current midpoint is the answer. On `SearchBelow` /
    /// `SearchAbove` the range shrinks around the midpoint and, whenever
    /// the first-greater index is cached, the scan sub-range is narrowed
    /// with it (the local computation only reads the sub-range for extreme
    /// ranks). On `Abort` the state is left unchanged.
    pub fn update_search_range(&mut self, update: UpdateSearchRange) -> (res: Option<i64>)
        requires
            old(self).wf(),
        ensures
            final(self).wf(),
            final(self).database == old(self).database,
            final(self).idx == old(self).idx,
            final(self).n == old(self).n,
            final(self).k == old(self).k,
            final(self).databases_size == old(self).databases_size,
            final(self).m == old(self).m,
            final(self).greater_than_m_idx == old(self).greater_than_m_idx,
            match update {
                UpdateSearchRange::FoundK => {
                    &&& res == Some(old(self).m)
                    &&& *final(self) == *old(self)
                },
                UpdateSearchRange::SearchBelow => {
                    &&& res is None
                    &&& final(self).range_a == old(self).range_a
                    &&& final(self).range_b == dec_sat(old(self).m)
                    &&& final(self).lo == old(self).lo
                    &&& final(self).hi == (match old(self).greater_than_m_idx {
                        Some(j) => j,
                        None => old(self).hi,
                    })
                },
                UpdateSearchRange::SearchAbove => {
                    &&& res is None
                    &&& final(self).range_b == old(self).range_b
                    &&& final(self).range_a == inc_sat(old(self).m)
                    &&& final(self).hi == old(self).hi
                    &&& final(self).lo == (match old(self).greater_than_m_idx {
                        Some(j) => j,
                        None => old(self).lo,
                    })
                },
                UpdateSearchRange::Abort => {
                    &&& res is None
                    &&& *final(self) == *old(self)
                },
            },
    {
        match update {
            UpdateSearchRange::FoundK => Some(self.m),
            UpdateSearchRange::SearchBelow => {
                if self.m == i64::MIN {
                    self.range_b = i64::MIN;
                } else {
                    self.range_b = self.m - 1;
                }
                if let Some(j) = self.greater_than_m_idx {
                    self.hi = j;
                }
                None
            },
            UpdateSearchRange::SearchAbove => {
                if self.m == i64::MAX {
                    self.range_a = i64::MAX;
                } else {
                    self.range_a = self.m + 1;
                }
                if let Some(j) = self.greater_than_m_idx {
                    self.lo = j;
                }
                None
            },
            UpdateSearchRange::Abort => None,
        }
    }

    /// Sum of the sizes of all parties' databases.
    pub fn get_databases_size(&self) -> (s: usize)
        ensures
            s == self.databases_size,
    {
        self.databases_size
    }
}

} // verus!

//! Construction and test-support helpers: rank presets, database sampling,
//! sorted selection, and builders for a coordinator with its parties.

use vstd::prelude::*;
use rand::RngExt;
use crate::rank::{is_kth, sorted, lemma_sorted_kth};
use crate::party::PartyClient;
use crate::server::PartyServer;

verus! {

/// A preset for the rank parameter `k` of the protocol.
#[derive(Clone, Copy, Debug, PartialEq, Eq, Structural)]
pub enum KValue {
    Min,
    Median,
    Max,
}

impl KValue {
    /// The concrete rank for a union of `n` elements: 1 for the minimum,
    /// `n / 2` for the (lower-half) median, `n` for the maximum.
    pub fn to_k(&self, n: usize) -> (k: usize)
        ensures
            k == (match *self {
                KValue::Min => 1usize,
                KValue::Median => n / 2,
                KValue::Max => n,
            }),
    {
        match self {
            KValue::Min => 1,
            KValue::Median => n / 2,
            KValue::Max => n,
        }
    }
}

/// Sorts the vector ascending, keeping exactly the same elements.
///
/// Relies on `<[i64]>::sort_unstable`, which the standard library documents
/// to sort the slice in place in ascending order.
#[verifier::external_body]
pub fn sort_i64(v: &mut Vec<i64>)
    ensures
        sorted(final(v)@),
        final(v)@.to_multiset() == old(v)@.to_multiset(),
        final(v)@.len() == old(v)@.len(),
{
    v.sort_unstable();
}

/// Draws a uniformly random value in `[low, high)`.
///
/// Relies on `rand::rng()` and `RngExt::random_range`, which panics on an
/// empty range and otherwise returns a value of the given range.
#[verifier::external_body]
fn random_in_range(low: i64, high: i64) -> (r: i64)
    requires
        low < high,
    ensures
        low <= r < high,
{
    rand::rng().random_range(low..high)
}

/// Splits a total database size evenly over the parties.
pub fn get_db_sizes(total_size: usize, num_parties: usize) -> (sizes: Vec<usize>)
    requires
        num_parties >= 1,
    ensures
        sizes@.len() == num_parties,
        forall|i: int| 0 <= i < sizes@.len() ==> sizes@[i] == total_size / num_parties,
{
    let per_party = total_size / num_parties;
    let mut sizes: Vec<usize> = Vec::new();
    let mut i: usize = 0;
    while i < num_parties
        invariant
            i <= num_parties,
            sizes@.len() == i,
            forall|j: int| 0 <= j < i ==> sizes@[j] == total_size / num_parties,
            per_party == total_size / num_parties,
        decreases num_parties - i,
    {
        sizes.push(per_party);
        i = i + 1;
    }
    sizes
}

/// Samples one database of `size` random elements, each in `[min, max)`.
pub fn sample_database(size: usize, min: i64, max: i64) -> (db: Vec<i64>)
    requires
        min < max,
    ensures
        db@.len() == size,
        forall|i: int| 0 <= i < db@.len() ==> min <= #[trigger] db@[i] < max,
{
    let mut db: Vec<i64> = Vec::new();
    let mut i: usize = 0;
    while i < size
        invariant
            i <= size,
            db@.len() == i,
            min < max,
            forall|j: int| 0 <= j < i ==> min <= #[trigger] db@[j] < max,
        decreases size - i,
    {
        db.push(random_in_range(min, max));
        i = i + 1;
    }
    db
}

/// Samples `num_parties` databases whose sizes sum to at most `db_size`,
/// with every element in `[min, max)`.
pub fn sample_databases(db_size: usize, num_parties: usize, min: i64, max: i64) -> (dbs: Vec<
    Vec<i64>,
>)
    requires
        num_parties >= 1,
        min < max,
    ensures
        dbs@.len() == num_parties,
        forall|i: int| 0 <= i < dbs@.len() ==> (#[trigger] dbs@[i])@.len() == db_size
            / num_parties,
        forall|i: int, j: int|
            0 <= i < dbs@.len() && 0 <= j < dbs@[i]@.len() ==> min <= #[trigger] dbs@[i]@[j]
                < max,
{
    let sizes = get_db_sizes(db_size, num_parties);
    let mut dbs: Vec<Vec<i64>> = Vec::new();
    let mut i: usize = 0;
    while i < num_parties
        invariant
            i <= num_parties,
            dbs@.len() == i,
            min < max,
            sizes@.len() == num_parties,
            forall|j: int| 0 <= j < sizes@.len() ==> sizes@[j] == db_size / num_parties,
            forall|j: int| 0 <= j < i ==> (#[trigger] dbs@[j])@.len() == db_size / num_parties,
            forall|j: int, t: int|
                0 <= j < i && 0 <= t < dbs@[j]@.len() ==> min <= #[trigger] dbs@[j]@[t] < max,
        decreases num_parties - i,
    {
        dbs.push(sample_database(sizes[i], min, max));
        i = i + 1;
    }
    dbs
}

/// The contents of a family of database vectors, as sequences.
pub open spec fn views_of(dbs: Seq<Vec<i64>>) -> Seq<Seq<i64>> {
    dbs.map_values(|v: Vec<i64>| v@)
}

/// The multiset union of a family of databases.
pub open spec fn union_of(dbs: Seq<Seq<i64>>) -> vstd::multiset::Multiset<i64>
    decreases dbs.len(),
{
    if dbs.len() == 0 {
        vstd::multiset::Multiset::empty()
    } else {
        union_of(dbs.drop_last()).add(dbs.last().to_multiset())
    }
}

/// Total number of elements over a family of databases.
pub open spec fn total_len(dbs: Seq<Seq<i64>>) -> nat
    decreases dbs.len(),
{
    if dbs.len() == 0 {
        0nat
    } else {
        total_len(dbs.drop_last()) + dbs.last().len()
    }
}

pub proof fn lemma_union_len(dbs: Seq<Seq<i64>>)
    ensures
        union_of(dbs).len() == total_len(dbs),
    decreases dbs.len(),
{
    broadcast use vstd::multiset::group_multiset_axioms;
    broadcast use vstd::seq_lib::group_to_multiset_ensures;
    if dbs.len() > 0 {
        lemma_union_len(dbs.drop_last());
    }
}

pub proof fn lemma_total_len_step(dbs: Seq<Seq<i64>>, i: int)
    requires
        0 <= i < dbs.len(),
    ensures
        total_len(dbs.subrange(0, i + 1)) == total_len(dbs.subrange(0, i)) + dbs[i].len(),
        union_of(dbs.subrange(0, i + 1)) == union_of(dbs.subrange(0, i)).add(
            dbs[i].to_multiset(),
        ),
{
    let pre = dbs.subrange(0, i + 1);
    assert(pre.drop_last() =~= dbs.subrange(0, i));
    assert(pre.last() == dbs[i]);
}

/// Each database's size is bounded by the family's total size.
pub proof fn lemma_total_len_parts(dbs: Seq<Seq<i64>>)
    ensures
        forall|j: int| 0 <= j < dbs.len() ==> (#[trigger] dbs[j]).len() <= total_len(dbs),
{
    assert forall|j: int| 0 <= j < dbs.len() implies (#[trigger] dbs[j]).len() <= total_len(
        dbs,
    ) by {
        lemma_total_len_step(dbs, j);
        lemma_total_len_parts_prefix(dbs, j + 1);
        assert(total_len(dbs.subrange(0, j)) >= 0);
    }
}

proof fn lemma_total_len_parts_prefix(dbs: Seq<Seq<i64>>, i: int)
    requires
        0 <= i <= dbs.len(),
    ensures
        total_len(dbs.subrange(0, i)) <= total_len(dbs),
    decreases dbs.len() - i,
{
    if i == dbs.len() {
        assert(dbs.subrange(0, i) =~= dbs);
    } else {
        lemma_total_len_step(dbs, i);
        lemma_total_len_parts_prefix(dbs, i + 1);
    }
}

/// Parties whose databases hold the same elements as the given family
/// (up to order) have the family's union.
pub proof fn lemma_union_from_dbs(ps: Seq<crate::party::PartyClient>, dbs: Seq<Seq<i64>>)
    requires
        ps.len() == dbs.len(),
        forall|i: int|
            0 <= i < ps.len() ==> (#[trigger] ps[i]).db().to_multiset() == dbs[i].to_multiset(),
    ensures
        crate::protocol::union_of_parties(ps) == union_of(dbs),
    decreases ps.len(),
{
    if ps.len() > 0 {
        lemma_union_from_dbs(ps.drop_last(), dbs.drop_last());
    }
}

/// The smallest and largest element of a non-empty vector.
fn vec_min_max(v: &Vec<i64>) -> (r: (i64, i64))
    requires
        v@.len() >= 1,
    ensures
        v@.to_multiset().contains(r.0),
        v@.to_multiset().contains(r.1),
        forall|x: i64| v@.to_multiset().contains(x) ==> r.0 <= x <= r.1,
{
    broadcast use vstd::seq_lib::group_to_multiset_ensures;
    let mut mn = v[0];
    let mut mx = v[0];
    let mut i: usize = 1;
    while i < v.len()
        invariant
            1 <= i <= v@.len(),
            exists|t: int| 0 <= t < i && v@[t] == mn,
            exists|t: int| 0 <= t < i && v@[t] == mx,
            forall|t: int| 0 <= t < i ==> mn <= #[trigger] v@[t] <= mx,
        decreases v@.len() - i,
    {
        let x = v[i];
        if x < mn {
            mn = x;
        }
        if x > mx {
            mx = x;
        }
        i = i + 1;
    }
    proof {
        assert(v@.contains(mn));
        assert(v@.contains(mx));
        assert forall|x: i64| v@.to_multiset().contains(x) implies mn <= x <= mx by {
            assert(v@.contains(x));
            let t = choose|t: int| 0 <= t < v@.len() && v@[t] == x;
            assert(mn <= v@[t] <= mx);
        }
    }
    (mn, mx)
}

/// A freshly built party: well-formed, holding the given database sorted,
/// with the full scan sub-range and the shared search range `[a, b]`.
pub open spec fn built_party(
    p: PartyClient,
    db: Seq<i64>,
    idx: int,
    n: usize,
    k: usize,
    nn: usize,
    a: i64,
    b: i64,
) -> bool {
    &&& p.wf()
    &&& p.range_ok()
    &&& p.db().to_multiset() == db.to_multiset()
    &&& p.db().len() == db.len()
    &&& p.idx as int == idx
    &&& p.n == n
    &&& p.k == k
    &&& p.databases_size == nn
    &&& p.range_a == a
    &&& p.range_b == b
    &&& p.lo == 0
    &&& p.hi == p.db().len()
}

/// The inputs a protocol run accepts: at least one party, no empty
/// database, a rank within the union, and a union size that the machine
/// and the protocol arithmetic can hold.
pub open spec fn inputs_ok(k: usize, dbs: Seq<Seq<i64>>) -> bool {
    &&& 1 <= dbs.len() <= 0xffff_ffff
    &&& forall|i: int| 0 <= i < dbs.len() ==> (#[trigger] dbs[i]).len() >= 1
    &&& 1 <= k
    &&& k as nat <= total_len(dbs)
    &&& total_len(dbs) <= 0x1000_0000_0000_0000
    &&& total_len(dbs) <= usize::MAX
}

/// Creates a coordinator and one party per database, sharing the search
/// range `[min, max]` of the union. Invalid inputs are rejected.
pub fn create_server_clients(k: usize, databases: Vec<Vec<i64>>) -> (r: Option<
    (PartyServer, Vec<PartyClient>),
>)
    ensures
        r is Some <==> inputs_ok(k, views_of(databases@)),
        (r matches Some((server, clients)) ==> {
            &&& crate::protocol::search_state_ok(server, clients@)
            &&& server.k == k
            &&& server.n == databases@.len()
            &&& server.databases_size as nat == total_len(views_of(databases@))
            &&& crate::protocol::union_of_parties(clients@) == union_of(views_of(databases@))
            &&& crate::protocol::union_of_parties(clients@).contains(clients@[0].range_a)
            &&& crate::protocol::union_of_parties(clients@).contains(clients@[0].range_b)
            &&& forall|x: i64|
                crate::protocol::union_of_parties(clients@).contains(x)
                    ==> clients@[0].range_a <= x && x <= clients@[0].range_b
        }),
{
    broadcast use vstd::seq_lib::group_to_multiset_ensures;
    let ghost dbs = views_of(databases@);
    let n = databases.len();
    if n == 0 || n > 0xffff_ffff {
        return None;
    }
    if k == 0 {
        return None;
    }
    // total size, rejecting empty databases and oversized unions
    let mut total: u128 = 0;
    let mut i: usize = 0;
    proof {
        assert(dbs.subrange(0, 0) =~= Seq::<Seq<i64>>::empty());
    }
    while i < n
        invariant
            i <= n,
            n == databases@.len(),
            dbs == views_of(databases@),
            total == total_len(dbs.subrange(0, i as int)),
            total <= 0x1000_0000_0000_0000,
            forall|j: int| 0 <= j < i ==> (#[trigger] dbs[j]).len() >= 1,
        decreases n - i,
    {
        proof {
            lemma_total_len_step(dbs, i as int);
        }
        let len = databases[i].len();
        if len == 0 {
            proof {
                assert(!inputs_ok(k, dbs));
            }
            return None;
        }
        total = total + len as u128;
        if total > 0x1000_0000_0000_0000 {
            proof {
                lemma_total_len_parts_prefix(dbs, i as int + 1);
                assert(!inputs_ok(k, dbs));
            }
            return None;
        }
        i = i + 1;
    }
    proof {
        assert(dbs.subrange(0, n as int) =~= dbs);
    }
    if (k as u128) > total || total > usize::MAX as u128 {
        return None;
    }
    let databases_size: usize = total as usize;
    // the union's extremes give the initial search range
    proof {
        assert(dbs[0] == databases@[0]@);
    }
    let first = vec_min_max(&databases[0]);
    let mut gmin = first.0;
    let mut gmax = first.1;
    let mut i: usize = 1;
    proof {
        lemma_total_len_step(dbs, 0);
        assert(dbs.subrange(0, 0) =~= Seq::<Seq<i64>>::empty());
        crate::rank::lemma_add_empty(dbs[0].to_multiset());
        assert(union_of(dbs.subrange(0, 1)) == vstd::multiset::Multiset::<i64>::empty().add(
            dbs[0].to_multiset(),
        ));
        broadcast use vstd::multiset::group_multiset_axioms;
        assert(union_of(dbs.subrange(0, 1)) =~= dbs[0].to_multiset());
    }
    while i < n
        invariant
            1 <= i <= n,
            n == databases@.len(),
            dbs == views_of(databases@),
            forall|j: int| 0 <= j < n ==> (#[trigger] dbs[j]).len() >= 1,
            union_of(dbs.subrange(0, i as int)).contains(gmin),
            union_of(dbs.subrange(0, i as int)).contains(gmax),
            forall|x: i64|
                union_of(dbs.subrange(0, i as int)).contains(x) ==> gmin <= x <= gmax,
        decreases n - i,
    {
        broadcast use vstd::multiset::group_multiset_axioms;
        let ghost pre_u = union_of(dbs.subrange(0, i as int));
        proof {
            lemma_total_len_step(dbs, i as int);
            assert(dbs[i as int] == databases@[i as int]@);
            assert(dbs[i as int].len() >= 1);
        }
        let mm = vec_min_max(&databases[i]);
        if mm.0 < gmin {
            gmin = mm.0;
        }
        if mm.1 > gmax {
            gmax = mm.1;
        }
        proof {
            let new_u = union_of(dbs.subrange(0, i as int + 1));
            assert(new_u == pre_u.add(dbs[i as int].to_multiset()));
            assert forall|x: i64| new_u.contains(x) implies gmin <= x <= gmax by {
                if pre_u.count(x) > 0 {
                    assert(pre_u.contains(x));
                } else {
                    assert(dbs[i as int].to_multiset().contains(x));
                }
            }
        }
        i = i + 1;
    }
    proof {
        assert(dbs.subrange(0, n as int) =~= dbs);
    }
    // build the parties, each owning its database
    let mut databases = databases;
    let mut clients: Vec<PartyClient> = Vec::new();
    let mut i: usize = 0;
    proof {
        lemma_union_len(dbs);
        lemma_total_len_parts(dbs);
        assert(forall|j: int| 0 <= j < n ==> #[trigger] databases@[j]@ == dbs[j]);
    }
    while i < n
        invariant
            i <= n,
            databases@.len() + i == n,
            dbs.len() == n,
            n <= 0xffff_ffff,
            1 <= k <= databases_size,
            databases_size as nat == total_len(dbs),
            databases_size as int <= 0x1000_0000_0000_0000,
            forall|j: int| 0 <= j < databases@.len() ==> #[trigger] databases@[j]@ == dbs[
                i + j
            ],
            forall|j: int| 0 <= j < dbs.len() ==> (#[trigger] dbs[j]).len() <= total_len(dbs),
            clients@.len() == i,
            forall|j: int|
                0 <= j < i ==> built_party(
                    #[trigger] clients@[j],
                    dbs[j],
                    j,
                    n,
                    k,
                    databases_size,
                    gmin,
                    gmax,
                ),
        decreases n - i,
    {
        let db = databases.remove(0);
        let p = PartyClient::new(db, i as u32, n, k, databases_size, [gmin, gmax]);
        clients.push(p);
        i = i + 1;
    }
    let server = PartyServer { n, k, databases_size };
    proof {
        lemma_union_from_dbs(clients@, dbs);
        let u = crate::protocol::union_of_parties(clients@);
        assert(u == union_of(dbs));
        crate::rank::lemma_lt_zero(u, gmin);
        crate::rank::lemma_le_full(u, gmax);
        crate::rank::lemma_le_contains(u, gmin);
        crate::rank::lemma_lt_not_full(u, gmax);
        assert(crate::protocol::search_inv(server, clients@, gmin, gmax));
    }
    Some((server, clients))
}

/// Creates a coordinator and a single party querying the minimum of the
/// given database.
pub fn create_single_party(db: Vec<i64>) -> (r: Option<(PartyServer, PartyClient)>)
    ensures
        r is Some <==> (1 <= db@.len() <= 0x1000_0000_0000_0000 && db@.len() <= usize::MAX),
        (r matches Some((server, p)) ==> {
            &&& crate::protocol::search_state_ok(server, seq![p])
            &&& server.k == 1usize
            &&& server.n == 1usize
            &&& server.databases_size == db@.len()
            &&& crate::protocol::union_of_parties(seq![p]) == db@.to_multiset()
            &&& db@.to_multiset().contains(p.range_a)
            &&& db@.to_multiset().contains(p.range_b)
            &&& forall|x: i64| db@.to_multiset().contains(x) ==> p.range_a <= x && x <= p.range_b
        }),
{
    let ghost db0 = db@;
    let mut v: Vec<Vec<i64>> = Vec::new();
    v.push(db);
    proof {
        broadcast use vstd::multiset::group_multiset_axioms;
        let dbs = views_of(v@);
        assert(dbs.len() == 1);
        assert(dbs[0] == db0);
        assert(dbs.last() == db0);
        assert(dbs.drop_last() =~= Seq::<Seq<i64>>::empty());
        assert(total_len(Seq::<Seq<i64>>::empty()) == 0);
        assert(union_of(Seq::<Seq<i64>>::empty()) == vstd::multiset::Multiset::<i64>::empty());
        assert(total_len(dbs) == db0.len());
        assert(vstd::multiset::Multiset::<i64>::empty().add(db0.to_multiset())
            =~= db0.to_multiset());
        assert(union_of(dbs) == db0.to_multiset());
    }
    match create_server_clients(1, v) {
        Some((server, mut clients)) => {
            let ghost cs_pre = clients@;
            let p = match clients.pop() {
                Some(p) => p,
                None => {
                    proof {
                        assert(false);
                    }
                    return None;
                },
            };
            proof {
                assert(cs_pre.len() == 1);
                assert(p == cs_pre[0]);
                assert(seq![p] =~= cs_pre);
            }
            Some((server, p))
        },
        None => None,
    }
}

/// Wraps each created party in a noise-adding layer with the given level.
pub fn create_server_dp_clients(
    k: usize,
    databases: Vec<Vec<i64>>,
    noise_level: crate::dp::NoiseLevel,
) -> (r: Option<(PartyServer, Vec<crate::dp::DPClient>)>)
    ensures
        r is Some <==> inputs_ok(k, views_of(databases@)),
        (r matches Some((server, dps)) ==> {
            &&& crate::protocol::search_state_ok(server, crate::protocol::inners(dps@))
            &&& server.k == k
            &&& server.n == databases@.len()
            &&& server.databases_size as nat == total_len(views_of(databases@))
            &&& crate::protocol::union_of_parties(crate::protocol::inners(dps@)) == union_of(
                views_of(databases@),
            )
            &&& crate::protocol::union_of_parties(crate::protocol::inners(dps@)).contains(
                dps@[0].client.range_a,
            )
            &&& crate::protocol::union_of_parties(crate::protocol::inners(dps@)).contains(
                dps@[0].client.range_b,
            )
            &&& forall|x: i64|
                crate::protocol::union_of_parties(crate::protocol::inners(dps@)).contains(x)
                    ==> dps@[0].client.range_a <= x && x <= dps@[0].client.range_b
            &&& forall|j: int|
                0 <= j < dps@.len() ==> (#[trigger] dps@[j]).noise_level == noise_level
            &&& forall|j: int|
                0 <= j < dps@.len() ==> (#[trigger] dps@[j]).noise_array@ == Seq::<i32>::empty()
                    && dps@[j].noise_queue@ == Seq::<i32>::empty()
        }),
{
    match create_server_clients(k, databases) {
        Some((server, clients)) => {
            let ghost cs0 = clients@;
            let n0 = clients.len();
            let mut clients = clients;
            let mut dps: Vec<crate::dp::DPClient> = Vec::new();
            let mut i: usize = 0;
            while i < n0
                invariant
                    i <= n0,
                    clients@.len() + i == n0,
                    cs0.len() == n0,
                    forall|j: int| 0 <= j < clients@.len() ==> #[trigger] clients@[j] == cs0[
                        i + j
                    ],
                    dps@.len() == i,
                    forall|j: int| 0 <= j < i ==> (#[trigger] dps@[j]).client == cs0[j],
                    forall|j: int|
                        0 <= j < i ==> (#[trigger] dps@[j]).noise_level == noise_level,
                    forall|j: int|
                        0 <= j < i ==> (#[trigger] dps@[j]).noise_array@ == Seq::<i32>::empty()
                            && dps@[j].noise_queue@ == Seq::<i32>::empty(),
                decreases n0 - i,
            {
                let c = clients.remove(0);
                let d = crate::dp::DPClient::new(c, noise_level);
                dps.push(d);
                i = i + 1;
            }
            proof {
                assert(crate::protocol::inners(dps@) =~= cs0);
            }
            Some((server, dps))
        },
        None => None,
    }
}

/// Returns the k-th ranked element (1-indexed) of the union of the given
/// databases, by sorting the flattened union and indexing it.
pub fn get_kth_element(db: &Vec<Vec<i64>>, k: usize) -> (r: i64)
    requires
        1 <= k <= total_len(views_of(db@)),
        total_len(views_of(db@)) <= usize::MAX,
    ensures
        is_kth(union_of(views_of(db@)), k as nat, r),
{
    let ghost dbs = views_of(db@);
    let mut flat: Vec<i64> = Vec::new();
    let mut i: usize = 0;
    proof {
        assert(dbs.subrange(0, 0) =~= Seq::<Seq<i64>>::empty());
        lemma_union_len(dbs);
        crate::rank::lemma_to_multiset_empty(flat@);
    }
    while i < db.len()
        invariant
            i <= db.len(),
            dbs == views_of(db@),
            dbs.len() == db@.len(),
            forall|j: int| 0 <= j < dbs.len() ==> #[trigger] dbs[j] == db@[j]@,
            flat@.to_multiset() == union_of(dbs.subrange(0, i as int)),
            flat@.len() == total_len(dbs.subrange(0, i as int)),
        decreases db.len() - i,
    {
        let inner = &db[i];
        let mut j: usize = 0;
        let ghost flat_before = flat@;
        proof {
            assert(inner@.subrange(0, 0) =~= Seq::<i64>::empty());
            crate::rank::lemma_to_multiset_empty(inner@.subrange(0, 0));
            crate::rank::lemma_add_empty(flat_before.to_multiset());
        }
        while j < inner.len()
            invariant
                j <= inner@.len(),
                flat@.len() == flat_before.len() + j,
                flat@.to_multiset() == flat_before.to_multiset().add(
                    inner@.subrange(0, j as int).to_multiset(),
                ),
            decreases inner@.len() - j,
        {
            proof {
                broadcast use vstd::multiset::group_multiset_axioms;
                broadcast use vstd::seq_lib::group_to_multiset_ensures;
                assert(inner@.subrange(0, j as int + 1) =~= inner@.subrange(0, j as int).push(
                    inner@[j as int],
                ));
            }
            flat.push(inner[j]);
            proof {
                broadcast use vstd::multiset::group_multiset_axioms;
                broadcast use vstd::seq_lib::group_to_multiset_ensures;
            }
            j = j + 1;
        }
        proof {
            broadcast use vstd::multiset::group_multiset_axioms;
            broadcast use vstd::seq_lib::group_to_multiset_ensures;
            assert(inner@.subrange(0, inner@.len() as int) =~= inner@);
            let pre = dbs.subrange(0, i as int + 1);
            assert(pre.drop_last() =~= dbs.subrange(0, i as int));
            assert(pre.last() == inner@);
            lemma_union_len(pre);
        }
        i = i + 1;
    }
    proof {
        assert(dbs.subrange(0, db@.len() as int) =~= dbs);
    }
    sort_i64(&mut flat);
    let r = flat[k - 1];
    proof {
        lemma_sorted_kth(flat@, k as nat);
    }
    r
}

} // verus!

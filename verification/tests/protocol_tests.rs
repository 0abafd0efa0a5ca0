use privdev_dp_comp::party::midpoint;
use privdev_dp_comp::party::PartyClient;
use privdev_dp_comp::server::PartyServer;
use privdev_dp_comp::party::UpdateSearchRange;
use privdev_dp_comp::protocol::{leaky_kth_ranked_element, leaky_kth_ranked_element_rounds, round_cap};
use privdev_dp_comp::util::{
    create_server_clients, create_single_party, get_db_sizes, get_kth_element, sample_database,
    sample_databases, KValue,
};

const DATABASE_SIZE_SINGLE: usize = 100;
const DATABASES_SIZE_MULTI: usize = 100000;
const MIN_DB_VALUE: i64 = -100;
const MAX_DB_VALUE: i64 = 100;
const NUM_PARTIES: usize = 10;

#[test]
fn test_single_party() {
    let db = sample_database(DATABASE_SIZE_SINGLE, MIN_DB_VALUE, MAX_DB_VALUE);

    let min = *db.iter().min().unwrap();
    let max = *db.iter().max().unwrap();
    let m = midpoint(min, max);
    let exp_sum_lt = db.iter().filter(|&el| *el < m).count();
    let exp_sum_gt = db.iter().filter(|&el| *el > m).count();

    let (s, mut p) = create_single_party(db).unwrap();
    let counts = p.local_computation();
    let sums = s.add_counts(&vec![counts]);
    assert_eq!(sums.0, exp_sum_lt);
    assert_eq!(sums.1, exp_sum_gt);
}

#[test]
fn test_multi_party() {
    for k in [KValue::Min, KValue::Median, KValue::Max] {
        let k = k.to_k(DATABASES_SIZE_MULTI);
        let databases = sample_databases(DATABASES_SIZE_MULTI, NUM_PARTIES, MIN_DB_VALUE, MAX_DB_VALUE);
        let res_exp = get_kth_element(&databases, k);

        let (mut server, mut parties) = create_server_clients(k, databases).unwrap();
        let res = leaky_kth_ranked_element(&mut server, &mut parties);

        assert_eq!(res, Some(res_exp));
    }
}

#[test]
fn single_party_min() {
    let (mut server, mut parties) = create_server_clients(1, vec![vec![-3, 7, 0, 2]]).unwrap();
    let res = leaky_kth_ranked_element(&mut server, &mut parties);
    assert_eq!(res, Some(-3));
}

#[test]
fn single_party_max() {
    let (mut server, mut parties) = create_server_clients(4, vec![vec![-3, 7, 0, 2]]).unwrap();
    let res = leaky_kth_ranked_element(&mut server, &mut parties);
    assert_eq!(res, Some(7));
}

#[test]
fn two_parties_median() {
    let dbs = vec![vec![1, 3, 5], vec![2, 4, 6]];
    let (mut server, mut parties) = create_server_clients(3, dbs).unwrap();
    let res = leaky_kth_ranked_element(&mut server, &mut parties);
    assert_eq!(res, Some(3));
}

#[test]
fn three_parties_duplicates() {
    let dbs = vec![vec![5, 5], vec![5], vec![1, 9]];
    let (mut server, mut parties) = create_server_clients(3, dbs).unwrap();
    let res = leaky_kth_ranked_element(&mut server, &mut parties);
    assert_eq!(res, Some(5));
}

#[test]
fn verdict_tie_break_prefers_below() {
    let server = PartyServer { n: 2, k: 5, databases_size: 10 };
    let v = server.calculate_update((5, 5));
    assert!(matches!(v, UpdateSearchRange::SearchBelow));
}

#[test]
fn verdict_is_a_pure_function() {
    let server = PartyServer { n: 3, k: 4, databases_size: 12 };
    let first = server.calculate_update((3, 9));
    let second = server.calculate_update((3, 9));
    assert_eq!(format!("{:?}", first), format!("{:?}", second));
    assert!(matches!(first, UpdateSearchRange::SearchAbove));
}

#[test]
fn verdict_abort_on_inconsistent_aggregates() {
    let server = PartyServer { n: 2, k: 1, databases_size: 4 };
    assert!(matches!(server.calculate_update((5, 0)), UpdateSearchRange::Abort));
    assert!(matches!(server.calculate_update((0, 5)), UpdateSearchRange::Abort));
}

#[test]
fn repeated_value_min_in_one_round() {
    let dbs = vec![vec![7], vec![7], vec![7]];
    let (mut server, mut parties) = create_server_clients(1, dbs).unwrap();
    let res = leaky_kth_ranked_element(&mut server, &mut parties);
    assert_eq!(res, Some(7));
}

#[test]
fn max_unique_in_one_party() {
    let dbs = vec![vec![1, 2], vec![3, 9]];
    let (mut server, mut parties) = create_server_clients(4, dbs).unwrap();
    let res = leaky_kth_ranked_element(&mut server, &mut parties);
    assert_eq!(res, Some(9));
}

#[test]
fn point_range_returns_without_rounds() {
    let (mut server, mut parties) = create_server_clients(2, vec![vec![5, 5, 5]]).unwrap();
    let res = leaky_kth_ranked_element(&mut server, &mut parties);
    assert_eq!(res, Some(5));
}

#[test]
fn empty_database_is_rejected() {
    assert!(create_server_clients(1, vec![vec![1], vec![]]).is_none());
}

#[test]
fn invalid_rank_is_rejected() {
    assert!(create_server_clients(0, vec![vec![1, 2]]).is_none());
    assert!(create_server_clients(3, vec![vec![1, 2]]).is_none());
    assert!(create_server_clients(1, Vec::new()).is_none());
}

#[test]
fn kvalue_presets() {
    assert_eq!(KValue::Min.to_k(100), 1);
    assert_eq!(KValue::Median.to_k(100), 50);
    assert_eq!(KValue::Max.to_k(100), 100);
}

#[test]
fn db_sizes_are_even() {
    let sizes = get_db_sizes(100, 10);
    assert_eq!(sizes.len(), 10);
    assert!(sizes.iter().all(|&s| s == 10));
}

#[test]
fn kth_element_of_unsorted_input() {
    // also exercises the sorting step: on the raw, unsorted data the value
    // at position k-1 would be different
    let dbs = vec![vec![9, 1, 5], vec![4, 2]];
    assert_eq!(get_kth_element(&dbs, 1), 1);
    assert_eq!(get_kth_element(&dbs, 3), 4);
    assert_eq!(get_kth_element(&dbs, 5), 9);
}

#[test]
fn sampled_database_is_in_range() {
    let db = sample_database(50, 0, 1);
    assert_eq!(db.len(), 50);
    assert!(db.iter().all(|&x| x == 0));
    let db = sample_database(200, -5, 5);
    assert!(db.iter().all(|&x| -5 <= x && x < 5));
}

#[test]
fn negative_values_and_duplicates() {
    let dbs = vec![vec![-10, -10, 0], vec![-20, 30]];
    let (mut server, mut parties) = create_server_clients(2, dbs.clone()).unwrap();
    let res = leaky_kth_ranked_element(&mut server, &mut parties);
    assert_eq!(res, Some(get_kth_element(&dbs, 2)));
    assert_eq!(res, Some(-10));
}

#[test]
fn verdicts_narrow_the_sub_range_for_every_rank() {
    // a middle rank: k = 2 of N = 3; sorted database [1, 4, 8], range
    // [1, 8], so the midpoint is 4 and the first element above it is at
    // index 2
    let mut p = PartyClient::new(vec![4, 1, 8], 0, 1, 2, 3, [1, 8]);
    let counts = p.local_computation();
    assert_eq!(counts, (1, 1));
    assert_eq!(p.greater_than_m_idx, Some(2));
    let r = p.update_search_range(UpdateSearchRange::SearchBelow);
    assert_eq!(r, None);
    assert_eq!(p.range_b, 3);
    assert_eq!(p.hi, 2);

    let mut p = PartyClient::new(vec![4, 1, 8], 0, 1, 2, 3, [1, 8]);
    let _ = p.local_computation();
    let r = p.update_search_range(UpdateSearchRange::SearchAbove);
    assert_eq!(r, None);
    assert_eq!(p.range_a, 5);
    assert_eq!(p.lo, 2);
}

#[test]
fn round_count_stays_within_the_logarithmic_budget() {
    // width 6: at most ceil(log2(6)) + 1 = 4 rounds
    assert_eq!(round_cap(1, 6), 3);
    let dbs = vec![vec![1, 3, 5], vec![2, 4, 6]];
    let (mut server, mut parties) = create_server_clients(3, dbs).unwrap();
    let (res, rounds) = leaky_kth_ranked_element_rounds(&mut server, &mut parties);
    assert_eq!(res, Some(3));
    assert!(rounds <= 4);

    // a point range is answered with no round at all
    let (mut server, mut parties) = create_server_clients(2, vec![vec![5, 5, 5]]).unwrap();
    let (res, rounds) = leaky_kth_ranked_element_rounds(&mut server, &mut parties);
    assert_eq!(res, Some(5));
    assert_eq!(rounds, 0);
}

#[test]
fn protocol_can_run_again_on_the_same_parties() {
    let dbs = vec![vec![1, 3, 5], vec![2, 4, 6]];
    let (mut server, mut parties) = create_server_clients(3, dbs).unwrap();
    let first = leaky_kth_ranked_element(&mut server, &mut parties);
    let second = leaky_kth_ranked_element(&mut server, &mut parties);
    assert_eq!(first, Some(3));
    assert_eq!(second, Some(3));
}

#[test]
fn midpoint_floors_toward_negative_infinity() {
    assert_eq!(midpoint(0, 10), 5);
    assert_eq!(midpoint(-3, 0), -2);
    assert_eq!(midpoint(-1, 0), -1);
    assert_eq!(midpoint(i64::MIN, i64::MAX), -1);
    assert_eq!(midpoint(5, 5), 5);
}

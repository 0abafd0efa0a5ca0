use privdev_dp_comp::dp::{clamp_counts, perturb, DPClient, NoiseLevel};
use privdev_dp_comp::party::PartyClient;
use privdev_dp_comp::protocol::{leaky_kth_ranked_element, leaky_kth_ranked_element_dp};
use privdev_dp_comp::util::{create_server_clients, create_server_dp_clients, get_kth_element, sample_databases};

#[test]
fn dp_with_no_noise_matches_plain_run() {
    let databases = sample_databases(100, 10, -100, 100);
    let k = 50;
    let expected = get_kth_element(&databases, k);

    let (mut server, mut parties) = create_server_clients(k, databases.clone()).unwrap();
    let plain = leaky_kth_ranked_element(&mut server, &mut parties);

    let (mut server, mut dp_parties) =
        create_server_dp_clients(k, databases, NoiseLevel::NONE).unwrap();
    for p in &dp_parties {
        assert!(p.noise_array.is_empty());
        assert!(p.noise_queue.is_empty());
    }
    let dp = leaky_kth_ranked_element_dp(&mut server, &mut dp_parties);

    assert_eq!(plain, Some(expected));
    assert_eq!(dp, plain);
}

#[test]
fn dp_with_noise_terminates_and_respects_count_invariant() {
    let databases = vec![vec![1, 5, 9, 13], vec![2, 6, 10]];
    let (mut server, mut dp_parties) =
        create_server_dp_clients(4, databases, NoiseLevel::HIGH).unwrap();
    for p in dp_parties.iter_mut() {
        for noise in [3, -2, 7, -1, 4, 0, -5, 2, 1, -3] {
            p.supply_noise(noise);
        }
    }
    // whatever the noise does, the run must end on its own
    let _ = leaky_kth_ranked_element_dp(&mut server, &mut dp_parties);
    // and every audit-logged round kept the released counts within the
    // database size
    for p in &dp_parties {
        assert_eq!(p.noise_array.len() % 2, 0);
    }
}

#[test]
fn perturbed_counts_are_clipped_at_zero() {
    assert_eq!(perturb(5, -10), 0);
    assert_eq!(perturb(5, -5), 0);
    assert_eq!(perturb(5, -2), 3);
    assert_eq!(perturb(5, 0), 5);
    assert_eq!(perturb(5, 7), 12);
}

#[test]
fn clamping_rescales_proportionally() {
    // no clamping needed when the sum fits
    assert_eq!(clamp_counts(3, 4, 10), (3, 4));
    // 8 + 4 exceeds 10 by 2: the larger count gives up its larger,
    // half-up-rounded share: round(8*2/12) = 1 and round(4*2/12) = 1
    assert_eq!(clamp_counts(8, 4, 10), (7, 3));
    // all of the excess comes out of the only non-zero count
    assert_eq!(clamp_counts(6, 0, 4), (4, 0));
    let (l, g) = clamp_counts(9, 7, 10);
    assert!(l + g <= 10);
}

#[test]
fn dp_client_with_no_noise_releases_exact_counts() {
    let party = PartyClient::new(vec![4, 1, 8], 0, 1, 2, 3, [1, 8]);
    let mut dp = DPClient::new(party, NoiseLevel::NONE);
    // midpoint of [1, 8] is 4: one element below, one above
    let counts = dp.local_computation();
    assert_eq!(counts, (1, 1));
    assert_eq!(dp.noise_array, vec![0, 0]);
}

#[test]
fn dp_client_applies_supplied_noise() {
    let party = PartyClient::new(vec![4, 1, 8], 0, 1, 2, 3, [1, 8]);
    let mut dp = DPClient::new(party, NoiseLevel::LOW);
    dp.supply_noise(2);
    dp.supply_noise(5);
    // noise is taken from the back of the queue: less gets 5, greater 2;
    // 6 + 3 exceeds the database size 3 by 6, and the proportional shares
    // round(6*6/9) = 4 and round(3*6/9) = 2 bring the sum back to 3
    let counts = dp.local_computation();
    assert_eq!(counts, (2, 1));
    assert!(counts.0 + counts.1 <= 3);
    assert_eq!(dp.noise_array, vec![5, 2]);
}

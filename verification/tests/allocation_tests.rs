use distributed_fs::error::RfsError;
use distributed_fs::peer::allocation::{assign_pieces, calculate_pieces_ratio, PING_UNUSABLE};

#[test]
fn two_peers_split_in_inverse_proportion_to_ping() {
    let shares = calculate_pieces_ratio(3, &vec![1000, 3000]).unwrap();
    assert_eq!(shares, vec![2, 1]);
}

#[test]
fn a_single_peer_gets_every_piece() {
    assert_eq!(calculate_pieces_ratio(69, &vec![1234]).unwrap(), vec![69]);
}

#[test]
fn no_reachable_peer_is_an_error() {
    let res = calculate_pieces_ratio(5, &vec![PING_UNUSABLE, PING_UNUSABLE]);
    assert_eq!(res, Err(RfsError::NoReachablePeers));
    assert_eq!(calculate_pieces_ratio(5, &vec![]), Err(RfsError::NoReachablePeers));
}

#[test]
fn ranges_are_contiguous_and_in_order() {
    let ranges = assign_pieces(vec![2, 0, 3]);
    assert_eq!(ranges, vec![vec![0, 1], vec![], vec![2, 3, 4]]);
}

#[test]
fn shares_always_add_up() {
    let cases: Vec<(u64, Vec<u128>)> = vec![
        (3, vec![7, 7, 7, 14]),
        (10, vec![1, 1, 1]),
        (100, vec![250, 9_000, 31, PING_UNUSABLE, 77_000]),
        (1, vec![5, 5]),
        (0, vec![5, 9]),
        (17, vec![0, 1, 2]),
        (u64::MAX, vec![3, 5, 11]),
        (69, vec![u128::MAX - 1, u128::MAX - 1]),
    ];
    for (n, pings) in cases {
        let shares = calculate_pieces_ratio(n, &pings).unwrap();
        assert_eq!(shares.len(), pings.len());
        assert_eq!(shares.iter().map(|s| *s as u128).sum::<u128>(), n as u128);
        for (share, ping) in shares.iter().zip(pings.iter()) {
            if *ping == PING_UNUSABLE {
                assert_eq!(*share, 0);
            }
        }
    }
}

#[test]
fn left_over_pieces_go_to_the_largest_remainders() {
    assert_eq!(calculate_pieces_ratio(3, &vec![7, 7, 7, 14]).unwrap(), vec![1, 1, 1, 0]);
    assert_eq!(calculate_pieces_ratio(10, &vec![1, 1, 1]).unwrap(), vec![4, 3, 3]);
    assert_eq!(calculate_pieces_ratio(1, &vec![5, 5]).unwrap(), vec![1, 0]);
    assert_eq!(calculate_pieces_ratio(0, &vec![5, 9]).unwrap(), vec![0, 0]);
    assert_eq!(calculate_pieces_ratio(12, &vec![1_000, 2_000, 4_000]).unwrap(), vec![7, 3, 2]);
    assert_eq!(
        calculate_pieces_ratio(6, &vec![PING_UNUSABLE, 20, PING_UNUSABLE, 10]).unwrap(),
        vec![0, 2, 0, 4]
    );
}

#[test]
fn a_ping_of_zero_counts_as_one_microsecond() {
    assert_eq!(
        calculate_pieces_ratio(9, &vec![0, 1]).unwrap(),
        calculate_pieces_ratio(9, &vec![1, 1]).unwrap()
    );
    assert_eq!(calculate_pieces_ratio(9, &vec![0, 2]).unwrap(), vec![6, 3]);
}

#[test]
fn every_piece_has_exactly_one_owner() {
    let shares = calculate_pieces_ratio(40, &vec![300, 100, PING_UNUSABLE, 700]).unwrap();
    let ranges = assign_pieces(shares.clone());
    let mut all: Vec<u64> = ranges.iter().flatten().copied().collect();
    assert_eq!(all, (0..40).collect::<Vec<u64>>());
    all.dedup();
    assert_eq!(all.len(), 40);
    for (range, share) in ranges.iter().zip(shares.iter()) {
        assert_eq!(range.len() as u64, *share);
    }
    assert!(assign_pieces(vec![]).is_empty());
}

#[test]
fn shares_are_exact_for_pings_of_any_size() {
    let two_64: u128 = 1 << 64;
    assert_eq!(calculate_pieces_ratio(1, &vec![two_64 + 5, two_64 + 1]).unwrap(), vec![0, 1]);
    assert_eq!(calculate_pieces_ratio(10, &vec![1 << 65, 1 << 100]).unwrap(), vec![10, 0]);
    let pings = vec![(1u128 << 63) - 1, 0x6000_0000_0000_0000];
    assert_eq!(calculate_pieces_ratio(1, &pings).unwrap(), vec![0, 1]);
    assert_eq!(
        calculate_pieces_ratio(7, &vec![u128::MAX - 1, u128::MAX - 2, u128::MAX - 3]).unwrap(),
        vec![2, 2, 3]
    );
}

#[test]
fn a_lower_ping_never_gets_fewer_pieces() {
    let pings: Vec<u128> = vec![
        90_000_000_000_000_000,
        3,
        90_000_000_000_000_001,
        1_000_000,
        999_999,
        PING_UNUSABLE,
        1 << 100,
        (1 << 100) + 1,
        17,
        4_000_000_000_000,
        65_536,
        65_535,
    ];
    for n in [0u64, 1, 2, 3, 11, 12, 13, 100, 1_000_003, u64::MAX] {
        let shares = calculate_pieces_ratio(n, &pings).unwrap();
        assert_eq!(shares.iter().map(|s| *s as u128).sum::<u128>(), n as u128);
        for i in 0..pings.len() {
            for j in 0..pings.len() {
                if pings[i] < pings[j] {
                    assert!(shares[i] >= shares[j], "n = {}, peers {} and {}", n, i, j);
                }
            }
        }
    }
}

#[test]
fn every_share_is_within_one_piece_of_the_exact_share() {
    let pings: Vec<u128> = vec![250, 9_000, 31, 77_000, 1_000];
    let product: u128 = pings.iter().product();
    let weights: Vec<u128> = pings.iter().map(|p| product / p).collect();
    let total: u128 = weights.iter().sum();
    for n in [1u64, 5, 99, 100, 12_345] {
        let shares = calculate_pieces_ratio(n, &pings).unwrap();
        for (share, weight) in shares.iter().zip(weights.iter()) {
            let floor = (n as u128 * weight / total) as u64;
            assert!(*share == floor || *share == floor + 1);
        }
    }
    assert_eq!(calculate_pieces_ratio(100, &pings).unwrap(), vec![11, 0, 86, 0, 3]);
}

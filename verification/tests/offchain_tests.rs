use sp_io::hashing::sha2_256;
use xenon::offchain::{
    check_shares_computable, digest_is_even, epoch_hash_range, miner_qualifies, reward_shares,
    signed_tx_result,
};
use xenon::pallet::{Config, Pallet};
use xenon::types::{EpochInfo, EpochRewardStatus, Error, MinerData, MinerEpoches, Origin};

/// The draw computed directly from its definition.
fn expected_draw(seed: [u8; 32], miner: u64, count: u32, hashes: &[u8]) -> bool {
    let mut word = seed;
    for (i, b) in miner.to_le_bytes().iter().enumerate() {
        word[i] ^= b;
    }
    for (i, b) in count.to_le_bytes().iter().enumerate() {
        word[i] ^= b;
    }
    word.reverse();
    let mut buf = [0u8; 192];
    buf[..32].copy_from_slice(&word);
    buf[32..32 + hashes.len()].copy_from_slice(hashes);
    let digest = sha2_256(&buf);
    digest[31] % 2 == 0
}

#[test]
fn digest_parity_is_read_from_its_last_byte() {
    let mut d = [0u8; 32];
    d[0] = 1;
    d[31] = 2;
    assert!(digest_is_even(d));
    d[0] = 2;
    d[31] = 3;
    assert!(!digest_is_even(d));
    assert!(digest_is_even([0u8; 32]));
}

#[test]
fn miner_draw_matches_its_definition() {
    let hashes: Vec<u8> = (0..160u32).map(|i| (i * 7 % 251) as u8).collect();
    let mut seed = [0u8; 32];
    for i in 0..32 {
        seed[i] = (i as u8).wrapping_mul(31).wrapping_add(5);
    }
    let mut wins = 0;
    for miner in 0..40u64 {
        for count in [0u32, 1, 17, 120, 70_000] {
            let got = miner_qualifies(&seed, miner * 977 + 3, count, &hashes);
            assert_eq!(got, expected_draw(seed, miner * 977 + 3, count, &hashes));
            if got {
                wins += 1;
            }
        }
    }
    // both outcomes occur
    assert!(wins > 0 && wins < 200);
}

#[test]
fn miner_draw_with_short_hashes_pads_with_zeros() {
    let hashes = vec![9u8; 20];
    let seed = [3u8; 32];
    for miner in 0..10u64 {
        assert_eq!(miner_qualifies(&seed, miner, 5, &hashes), expected_draw(seed, miner, 5, &hashes));
    }
}

#[test]
fn shares_are_proportional_and_rounded_down() {
    let sel = vec![MinerData { miner: 1, data: 10 }, MinerData { miner: 2, data: 30 }];
    assert!(check_shares_computable(&sel, 100));
    assert_eq!(
        reward_shares(&sel, 100),
        vec![MinerData { miner: 1, data: 25 }, MinerData { miner: 2, data: 75 }]
    );
    let sel = vec![
        MinerData { miner: 1, data: 1 },
        MinerData { miner: 2, data: 1 },
        MinerData { miner: 3, data: 1 },
    ];
    let shares = reward_shares(&sel, 10);
    assert_eq!(shares.iter().map(|m| m.data).collect::<Vec<_>>(), vec![3, 3, 3]);
    assert!(shares.iter().map(|m| m.data).sum::<u32>() <= 10);
}

#[test]
fn shares_that_do_not_fit_are_refused() {
    assert!(!check_shares_computable(&vec![MinerData { miner: 1, data: 0 }], 100));
    assert!(!check_shares_computable(&vec![], 100));
    assert!(!check_shares_computable(&vec![MinerData { miner: 1, data: 70_000 }], 70_000));
    assert!(!check_shares_computable(
        &vec![MinerData { miner: 1, data: u32::MAX }, MinerData { miner: 2, data: 1 }],
        1
    ));
    assert!(check_shares_computable(&vec![MinerData { miner: 1, data: 65_535 }], 65_537));
}

#[test]
fn hash_blocks_of_an_epoch() {
    assert_eq!(epoch_hash_range(1), (1, 5));
    assert_eq!(epoch_hash_range(2), (6, 10));
}

#[test]
fn signed_tx_outcomes() {
    assert_eq!(signed_tx_result(None), Err(Error::NoLocalAcctForSigning));
    assert_eq!(signed_tx_result(Some(false)), Err(Error::OffchainSignedTxError));
    assert_eq!(signed_tx_result(Some(true)), Ok(()));
}

fn closed_epoch_pallet() -> Pallet {
    let mut p = Pallet::new(Config { max_miners_owned: 3, epoch_cycle_blocks: 10, epoch_total_rewards: 1000 });
    for m in 1..=12u64 {
        p.miner_report(Origin::Signed(m), (m * 3) as u8).unwrap();
    }
    p.on_finalize(20);
    p
}

#[test]
fn offchain_epoch_is_drawn_one_block_after_a_cycle() {
    let p = closed_epoch_pallet();
    assert_eq!(p.offchain_epoch(21), Some(2));
    assert_eq!(p.offchain_epoch(22), None);
    assert_eq!(p.offchain_epoch(10), None);
    assert_eq!(p.offchain_epoch(11), Some(2));
    assert_eq!(p.offchain_epoch(u32::MAX as u64 + 2), None);
    let fresh = Pallet::new(Config { max_miners_owned: 3, epoch_cycle_blocks: 10, epoch_total_rewards: 1000 });
    assert_eq!(fresh.offchain_epoch(21), None);
    let mut zero = closed_epoch_pallet();
    zero.config.epoch_cycle_blocks = 0;
    assert_eq!(zero.offchain_epoch(21), None);
}

#[test]
fn offchain_worker_rewards_the_drawn_miners() {
    let p = closed_epoch_pallet();
    let hashes: Vec<u8> = (0..160u32).map(|i| (i * 13 % 256) as u8).collect();
    let seed = [0x5au8; 32];
    let (rewards, epoch) = p.offchain_worker(21, &hashes, seed).expect("some miner wins");
    assert_eq!(epoch, 2);
    let mut listed = p.current_epoch_miners.clone().unwrap();
    listed.sort();
    assert_eq!(listed, (1..=12u64).collect::<Vec<_>>());
    let mut drawn: Vec<MinerData> = Vec::new();
    for m in p.current_epoch_miners.clone().unwrap() {
        let count = p.get_miners_epoc_data(m).unwrap().total_count;
        if expected_draw(seed, m, count, &hashes) {
            drawn.push(MinerData { miner: m, data: count });
        }
    }
    let total: u32 = drawn.iter().map(|d| d.data).sum();
    let expected: Vec<MinerData> = drawn
        .iter()
        .map(|d| MinerData { miner: d.miner, data: d.data * 1000 / total })
        .collect();
    assert_eq!(rewards, expected);
    assert!(rewards.iter().map(|d| d.data).sum::<u32>() <= 1000);
    // not a drawing block, or too many hash bytes
    assert!(p.offchain_worker(22, &hashes, seed).is_none());
    assert!(p.offchain_worker(21, &vec![0u8; 161], seed).is_none());
}

#[test]
fn offchain_worker_stops_on_a_miner_without_history() {
    let mut p = closed_epoch_pallet();
    p.current_epoch_miners = Some(vec![1, 500]);
    assert!(p.offchain_worker(21, &vec![], [1u8; 32]).is_none());
    p.current_epoc_cycle_info = Some(EpochInfo { epoch_num: 0, reward_status: EpochRewardStatus::Incomplete });
    assert_eq!(p.offchain_epoch(21), None);
    let _unused: Option<MinerEpoches> = p.get_miners_epoc_data(500);
}

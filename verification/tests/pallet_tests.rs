use xenon::account_map::AccountMap;
use xenon::keys::storage_key_of;
use xenon::pallet::{Config, Pallet};
use xenon::types::{
    block_number_to_u32, ensure_root, ensure_signed, DispatchError, Energy, EpochInfo,
    EpochRewardStatus, Error, Event, MinerClass, MinerData, MinerStaticData, MinerStatus, Origin,
    Transfer,
};

const ADMIN: u64 = 1;
const ALICE: u64 = 10;
const BOB: u64 = 11;
const MINER_A: u64 = 100;
const MINER_B: u64 = 101;

/// The accounts in the order the storage walks them: by the twox-64 hash
/// of their encoding, then by the encoding.
fn storage_order(mut v: Vec<u64>) -> Vec<u64> {
    let key = |m: &u64| {
        let enc = m.to_le_bytes();
        let mut k = sp_io::hashing::twox_64(&enc).to_vec();
        k.extend_from_slice(&enc);
        k
    };
    v.sort_by_key(key);
    v
}

fn module(e: Error) -> DispatchError {
    DispatchError::Module(e)
}

fn static_data() -> MinerStaticData {
    MinerStaticData {
        start_hight: 999,
        location: b"loc".to_vec(),
        energy: Energy::Light,
        capabilities: 3,
        device_model: b"dm".to_vec(),
        serial_num: b"sn".to_vec(),
        sg_voltage: 1,
        sg_current: 2,
        sg_power_low: 3,
        sg_power_high: 4,
        sb_voltage: 5,
        sb_current: 6,
        sb_power_low: 7,
        sb_power_high: 8,
        sl_voltage: 9,
        sl_current: 10,
        sl_power_low: 11,
        sl_power_high: 12,
        total_charge_vol: 13,
        total_usage_vol: 14,
    }
}

fn with_admin() -> Pallet {
    let mut p = Pallet::new(Config { max_miners_owned: 3, epoch_cycle_blocks: 10, epoch_total_rewards: 1000 });
    p.set_admin(Origin::Root, ADMIN).unwrap();
    p
}

fn with_registered(miners: &[u64]) -> Pallet {
    let mut p = with_admin();
    for m in miners {
        p.register_miner(Origin::Signed(ADMIN), MinerClass::Game, b"maker".to_vec(), *m).unwrap();
    }
    p
}

#[test]
fn origins() {
    assert_eq!(ensure_signed(Origin::Signed(4)), Ok(4));
    assert_eq!(ensure_signed(Origin::Root), Err(DispatchError::BadOrigin));
    assert_eq!(ensure_signed(Origin::Unsigned), Err(DispatchError::BadOrigin));
    assert_eq!(ensure_root(Origin::Root), Ok(()));
    assert_eq!(ensure_root(Origin::Signed(4)), Err(DispatchError::BadOrigin));
}

#[test]
fn block_numbers_beyond_u32_count_as_zero() {
    assert_eq!(block_number_to_u32(7), 7);
    assert_eq!(block_number_to_u32(u32::MAX as u64), u32::MAX);
    assert_eq!(block_number_to_u32(u32::MAX as u64 + 1), 0);
}

#[test]
fn set_admin_needs_root() {
    let mut p = Pallet::new(Config { max_miners_owned: 3, epoch_cycle_blocks: 10, epoch_total_rewards: 1000 });
    assert_eq!(p.set_admin(Origin::Signed(ADMIN), ADMIN), Err(DispatchError::BadOrigin));
    assert_eq!(p.get_admin(), None);
    assert_eq!(p.set_admin(Origin::Root, ADMIN), Ok(()));
    assert_eq!(p.get_admin(), Some(ADMIN));
    assert_eq!(p.events, vec![Event::AdminIsSet(ADMIN)]);
}

#[test]
fn set_foundations_needs_root_and_reports_admin_event() {
    let mut p = Pallet::new(Config { max_miners_owned: 3, epoch_cycle_blocks: 10, epoch_total_rewards: 1000 });
    assert_eq!(p.set_foundations(Origin::Unsigned, 7), Err(DispatchError::BadOrigin));
    assert_eq!(p.set_foundations(Origin::Root, 7), Ok(()));
    assert_eq!(p.foundations, Some(7));
    assert_eq!(p.events, vec![Event::AdminIsSet(7)]);
}

#[test]
fn set_ocw_signer_funds_the_signer() {
    let mut p = Pallet::new(Config { max_miners_owned: 3, epoch_cycle_blocks: 10, epoch_total_rewards: 1000 });
    assert_eq!(p.set_ocw_signer(Origin::Signed(1), 5, 77, 6), Err(DispatchError::BadOrigin));
    assert_eq!(p.ocw, None);
    let t = p.set_ocw_signer(Origin::Root, 5, 77, 6).unwrap();
    assert_eq!(t, vec![Transfer { from: 6, to: 5, amount: 77 }]);
    assert_eq!(p.ocw, Some(5));
}

#[test]
fn my_transfer_moves_the_signers_tokens() {
    let p = Pallet::new(Config { max_miners_owned: 3, epoch_cycle_blocks: 10, epoch_total_rewards: 1000 });
    assert_eq!(p.my_transfer(Origin::Signed(ALICE), BOB, 42), Ok(vec![Transfer { from: ALICE, to: BOB, amount: 42 }]));
    assert_eq!(p.my_transfer(Origin::Root, BOB, 42), Err(DispatchError::BadOrigin));
}

#[test]
fn register_miner_checks_the_admin() {
    let mut p = Pallet::new(Config { max_miners_owned: 3, epoch_cycle_blocks: 10, epoch_total_rewards: 1000 });
    assert_eq!(
        p.register_miner(Origin::Signed(ADMIN), MinerClass::Game, vec![1], MINER_A),
        Err(module(Error::AdminIsNotSet))
    );
    p.set_admin(Origin::Root, ADMIN).unwrap();
    assert_eq!(
        p.register_miner(Origin::Signed(ALICE), MinerClass::Game, vec![1], MINER_A),
        Err(module(Error::CallerIsNotAdmin))
    );
    assert_eq!(
        p.register_miner(Origin::Root, MinerClass::Game, vec![1], MINER_A),
        Err(DispatchError::BadOrigin)
    );
    assert!(p.get_miners(MINER_A).is_none());
    assert_eq!(p.register_miner(Origin::Signed(ADMIN), MinerClass::API, vec![1, 2], MINER_A), Ok(()));
    let m = p.get_miners(MINER_A).unwrap();
    assert_eq!(m.class, MinerClass::API);
    assert_eq!(m.maker, vec![1, 2]);
    assert_eq!(m.address, MINER_A);
    assert_eq!(m.owner, MINER_A);
    assert_eq!(m.status, MinerStatus::Registered);
    assert!(m.location.is_empty());
    assert_eq!(m.staking_fee, 0);
    assert_eq!(p.events.last(), Some(&Event::NewMinerRegisted(MINER_A)));
}

#[test]
fn on_board_makes_the_signer_owner() {
    let mut p = with_registered(&[MINER_A, MINER_B]);
    assert_eq!(
        p.on_board(Origin::Signed(ALICE), 555, b"x".to_vec(), 5, static_data(), 40),
        Err(module(Error::MinerIsNotExist))
    );
    assert_eq!(p.on_board(Origin::Root, MINER_A, b"x".to_vec(), 5, static_data(), 40), Err(DispatchError::BadOrigin));
    assert_eq!(p.on_board(Origin::Signed(ALICE), MINER_A, b"here".to_vec(), 5, static_data(), 40), Ok(()));
    let m = p.get_miners(MINER_A).unwrap();
    assert_eq!(m.status, MinerStatus::Onboard);
    assert_eq!(m.owner, ALICE);
    assert_eq!(m.location, b"here".to_vec());
    assert_eq!(m.staking_fee, 5);
    let d = p.get_static_data(MINER_A).unwrap();
    assert_eq!(d.start_hight, 40);
    assert_eq!(d.location, b"loc".to_vec());
    assert_eq!(d.sl_power_high, 12);
    assert_eq!(p.get_owned_miners(ALICE), Some(&vec![MINER_A]));
    // a second miner joins the same list
    assert_eq!(p.on_board(Origin::Signed(ALICE), MINER_B, vec![], 0, static_data(), u32::MAX as u64 + 5), Ok(()));
    assert_eq!(p.get_owned_miners(ALICE), Some(&vec![MINER_A, MINER_B]));
    assert_eq!(p.get_static_data(MINER_B).unwrap().start_hight, 0);
    // on board twice
    assert_eq!(
        p.on_board(Origin::Signed(BOB), MINER_A, vec![], 0, static_data(), 41),
        Err(module(Error::AlreadyOnBoard))
    );
    assert_eq!(p.get_miners(MINER_A).unwrap().owner, ALICE);
    assert!(lists_consistent(&p));
}

/// Each listed miner is registered, owned by the list's owner, past the
/// registered and air-dropped states, and listed once over all lists.
fn lists_consistent(p: &Pallet) -> bool {
    let mut seen: Vec<u64> = Vec::new();
    for i in 0..p.owned_miners.len() {
        let (owner, list) = p.owned_miners.entry_at(i);
        for m in list {
            let miner = match p.get_miners(*m) {
                Some(x) => x,
                None => return false,
            };
            if miner.owner != owner || seen.contains(m) {
                return false;
            }
            if matches!(miner.status, MinerStatus::Registered | MinerStatus::AirDrop(_, _)) {
                return false;
            }
            seen.push(*m);
        }
    }
    true
}

#[test]
fn transfer_miner_moves_it_between_lists() {
    let mut p = with_registered(&[MINER_A, MINER_B, 102]);
    for m in [MINER_A, MINER_B, 102] {
        p.on_board(Origin::Signed(ALICE), m, vec![], 0, static_data(), 1).unwrap();
    }
    assert_eq!(p.transfer_miner(Origin::Signed(BOB), MINER_A, BOB), Err(module(Error::OwnerNotMatch)));
    assert_eq!(p.transfer_miner(Origin::Signed(BOB), 999, BOB), Err(module(Error::MinerIsNotExist)));
    assert_eq!(p.transfer_miner(Origin::Unsigned, MINER_A, BOB), Err(DispatchError::BadOrigin));
    assert_eq!(p.transfer_miner(Origin::Signed(ALICE), MINER_A, BOB), Ok(()));
    // the last miner of the list takes the place of the moved one
    assert_eq!(p.get_owned_miners(ALICE), Some(&vec![102, MINER_B]));
    assert_eq!(p.get_owned_miners(BOB), Some(&vec![MINER_A]));
    assert_eq!(p.get_miners(MINER_A).unwrap().owner, BOB);
    assert_eq!(p.get_miners(MINER_A).unwrap().status, MinerStatus::Onboard);
    // to oneself: taken off and put back last
    assert_eq!(p.transfer_miner(Origin::Signed(ALICE), 102, ALICE), Ok(()));
    assert_eq!(p.get_owned_miners(ALICE), Some(&vec![MINER_B, 102]));
    assert!(lists_consistent(&p));
}

#[test]
fn transfer_of_a_claimed_miner_finds_no_list() {
    let mut p = with_registered(&[MINER_A]);
    p.air_drop(Origin::Signed(ADMIN), MINER_A, ALICE, 5, 10).unwrap();
    p.claim(Origin::Signed(ALICE), MINER_A, 12).unwrap();
    assert_eq!(p.transfer_miner(Origin::Signed(ALICE), MINER_A, BOB), Err(module(Error::NoOwnedVectorFound)));
    // ALICE holds a list, but without this miner
    p.register_miner(Origin::Signed(ADMIN), MinerClass::Game, vec![], MINER_B).unwrap();
    p.on_board(Origin::Signed(ALICE), MINER_B, vec![], 0, static_data(), 1).unwrap();
    assert_eq!(p.transfer_miner(Origin::Signed(ALICE), MINER_A, BOB), Err(module(Error::NoOwnedVectorFound)));
    assert_eq!(p.get_miners(MINER_A).unwrap().owner, ALICE);
}

#[test]
fn terminate_miner() {
    let mut p = with_registered(&[MINER_A]);
    assert_eq!(p.terminate_miner(Origin::Signed(ALICE), MINER_A), Err(module(Error::CallerIsNotAdmin)));
    assert_eq!(p.terminate_miner(Origin::Signed(ADMIN), 999), Err(module(Error::MinerIsNotExist)));
    assert_eq!(p.terminate_miner(Origin::Signed(ADMIN), MINER_A), Ok(()));
    assert_eq!(p.get_miners(MINER_A).unwrap().status, MinerStatus::Terminated);
}

#[test]
fn air_drop_lists_the_miner_under_its_expiry_block() {
    let mut p = with_registered(&[MINER_A, MINER_B]);
    assert_eq!(p.air_drop(Origin::Signed(ALICE), MINER_A, BOB, 5, 10), Err(module(Error::CallerIsNotAdmin)));
    assert_eq!(p.air_drop(Origin::Signed(ADMIN), 999, BOB, 5, 10), Err(module(Error::MinerIsNotExist)));
    assert_eq!(p.air_drop(Origin::Signed(ADMIN), MINER_A, BOB, 5, 10), Ok(()));
    assert_eq!(p.get_miners(MINER_A).unwrap().status, MinerStatus::AirDrop(BOB, 15));
    assert_eq!(p.get_ari_drop_miners(15), Some(&vec![MINER_A]));
    assert_eq!(p.air_drop(Origin::Signed(ADMIN), MINER_B, ALICE, 3, 12), Ok(()));
    assert_eq!(p.get_ari_drop_miners(15), Some(&vec![MINER_A, MINER_B]));
    assert_eq!(p.air_drop(Origin::Signed(ADMIN), MINER_A, BOB, 5, 10), Err(module(Error::StatusIsNotRegistered)));
}

#[test]
fn claim_on_boards_for_the_receiver() {
    let mut p = with_registered(&[MINER_A, MINER_B]);
    assert_eq!(p.claim(Origin::Signed(BOB), MINER_A, 11), Err(module(Error::StatusIsNotAirDrop)));
    assert_eq!(p.claim(Origin::Signed(BOB), 999, 11), Err(module(Error::MinerIsNotExist)));
    p.air_drop(Origin::Signed(ADMIN), MINER_A, BOB, 5, 10).unwrap();
    p.air_drop(Origin::Signed(ADMIN), MINER_B, BOB, 5, 10).unwrap();
    assert_eq!(p.claim(Origin::Signed(ALICE), MINER_A, 11), Err(module(Error::CallerIsNotAirDropReceiver)));
    assert_eq!(p.claim(Origin::Root, MINER_A, 11), Err(DispatchError::BadOrigin));
    assert_eq!(p.claim(Origin::Signed(BOB), MINER_A, 11), Ok(()));
    let m = p.get_miners(MINER_A).unwrap();
    assert_eq!(m.status, MinerStatus::Onboard);
    assert_eq!(m.owner, BOB);
    let d = p.get_static_data(MINER_A).unwrap();
    assert_eq!(d.start_hight, 11);
    assert_eq!(d.energy, Energy::Other);
    assert!(d.location.is_empty() && d.device_model.is_empty() && d.serial_num.is_empty());
    assert_eq!(d.total_usage_vol, 0);
    assert_eq!(p.get_ari_drop_miners(15), Some(&vec![MINER_B]));
    // not added to the claimant's list
    assert_eq!(p.get_owned_miners(BOB), None);
}

#[test]
fn claim_fails_whole_when_the_drop_list_is_gone() {
    let mut p = with_registered(&[MINER_A]);
    p.air_drop(Origin::Signed(ADMIN), MINER_A, BOB, 5, 10).unwrap();
    p.air_drop_expire = AccountMap::new();
    assert_eq!(p.claim(Origin::Signed(BOB), MINER_A, 11), Err(module(Error::NoDropVectorFound)));
    assert_eq!(p.get_miners(MINER_A).unwrap().status, MinerStatus::AirDrop(BOB, 15));
    assert!(p.get_static_data(MINER_A).is_none());
}

#[test]
fn on_initialize_expires_unclaimed_air_drops() {
    let mut p = with_registered(&[MINER_A, MINER_B]);
    p.air_drop(Origin::Signed(ADMIN), MINER_A, BOB, 5, 10).unwrap();
    p.air_drop(Origin::Signed(ADMIN), MINER_B, BOB, 5, 10).unwrap();
    p.claim(Origin::Signed(BOB), MINER_B, 12).unwrap();
    assert_eq!(p.on_initialize(14), 0);
    assert_eq!(p.get_miners(MINER_A).unwrap().status, MinerStatus::AirDrop(BOB, 15));
    assert_eq!(p.on_initialize(15), 0);
    assert_eq!(p.get_miners(MINER_A).unwrap().status, MinerStatus::Expire);
    assert_eq!(p.get_miners(MINER_B).unwrap().status, MinerStatus::Onboard);
    assert_eq!(p.get_ari_drop_miners(15), None);
    assert_eq!(p.claim(Origin::Signed(BOB), MINER_A, 16), Err(module(Error::StatusIsNotAirDrop)));
}

#[test]
fn on_initialize_stops_at_an_unknown_miner() {
    let mut p = with_registered(&[MINER_A, MINER_B]);
    p.air_drop_expire.insert(20, vec![MINER_A, 999, MINER_B]);
    assert_eq!(p.on_initialize(20), 0);
    assert_eq!(p.get_miners(MINER_A).unwrap().status, MinerStatus::Expire);
    assert_eq!(p.get_miners(MINER_B).unwrap().status, MinerStatus::Registered);
    assert_eq!(p.get_ari_drop_miners(20), Some(&vec![MINER_A, 999, MINER_B]));
}

#[test]
fn miner_report_accumulates_in_report_order() {
    let mut p = Pallet::new(Config { max_miners_owned: 3, epoch_cycle_blocks: 10, epoch_total_rewards: 1000 });
    assert_eq!(p.miner_report(Origin::Root, 3), Err(DispatchError::BadOrigin));
    p.miner_report(Origin::Signed(MINER_B), 3).unwrap();
    p.miner_report(Origin::Signed(MINER_A), 4).unwrap();
    p.miner_report(Origin::Signed(MINER_B), 250).unwrap();
    assert_eq!(p.current_epoch_data.get(MINER_B), Some(&253));
    assert_eq!(p.current_epoch_data.get(MINER_A), Some(&4));
    assert_eq!(p.current_epoch_data.entry_at(0).0, MINER_B);
    assert_eq!(p.current_epoch_data.entry_at(1).0, MINER_A);
}

#[test]
fn on_finalize_closes_epochs_on_cycle_blocks_only() {
    let mut p = Pallet::new(Config { max_miners_owned: 3, epoch_cycle_blocks: 10, epoch_total_rewards: 1000 });
    p.miner_report(Origin::Signed(MINER_B), 3).unwrap();
    p.miner_report(Origin::Signed(MINER_A), 20).unwrap();
    p.on_finalize(15);
    p.on_finalize(0);
    assert_eq!(p.current_epoc_cycle_info, None);
    assert_eq!(p.current_epoch_data.len(), 2);
    p.on_finalize(20);
    assert_eq!(p.current_epoc_cycle_info, Some(EpochInfo { epoch_num: 2, reward_status: EpochRewardStatus::Incomplete }));
    assert_eq!(p.current_epoch_miners, Some(storage_order(vec![MINER_B, MINER_A])));
    assert_eq!(p.current_epoch_data.len(), 0);
    let a = p.get_miners_epoc_data(MINER_A).unwrap();
    assert_eq!(a.epochs, [0, 0, 12, 0, 0, 0, 0, 0, 0, 0]);
    assert_eq!(a.total_count, 20);
    assert_eq!(a.last_epoch, 2);
    // next epoch: A reports again, B does not
    p.miner_report(Origin::Signed(MINER_A), 5).unwrap();
    p.on_finalize(40);
    let a = p.get_miners_epoc_data(MINER_A).unwrap();
    assert_eq!(a.epochs, [0, 0, 12, 0, 5, 0, 0, 0, 0, 0]);
    assert_eq!(a.total_count, 17);
    let b = p.get_miners_epoc_data(MINER_B).unwrap();
    assert_eq!(b.epochs, [0, 0, 3, 0, 0, 0, 0, 0, 0, 0]);
    assert_eq!(p.current_epoch_miners, Some(vec![MINER_A]));
    // a block number beyond 32 bits closes nothing
    p.miner_report(Origin::Signed(MINER_A), 5).unwrap();
    p.on_finalize(u32::MAX as u64 + 11);
    assert_eq!(p.current_epoch_data.len(), 1);
}

#[test]
fn reward_miners_checks_then_pays() {
    let mut p = Pallet::new(Config { max_miners_owned: 3, epoch_cycle_blocks: 10, epoch_total_rewards: 1000 });
    let rewards = vec![MinerData { miner: MINER_A, data: 7 }, MinerData { miner: MINER_B, data: 9 }];
    assert_eq!(p.reward_miners(Origin::Root, rewards.clone(), 1), Err(DispatchError::BadOrigin));
    assert_eq!(p.reward_miners(Origin::Signed(5), rewards.clone(), 1), Err(module(Error::StatusIsNotAirDrop)));
    p.set_ocw_signer(Origin::Root, 5, 0, 6).unwrap();
    assert_eq!(p.reward_miners(Origin::Signed(4), rewards.clone(), 1), Err(module(Error::StatusIsNotAirDrop)));
    assert_eq!(p.reward_miners(Origin::Signed(5), rewards.clone(), 1), Err(module(Error::StatusIsNotAirDrop)));
    p.set_foundations(Origin::Root, 8).unwrap();
    p.on_finalize(10);
    assert_eq!(p.reward_miners(Origin::Signed(5), rewards.clone(), 2), Err(module(Error::StatusIsNotAirDrop)));
    assert_eq!(
        p.reward_miners(Origin::Signed(5), rewards.clone(), 1),
        Ok(vec![
            Transfer { from: 8, to: MINER_A, amount: 7 },
            Transfer { from: 8, to: MINER_B, amount: 9 },
        ])
    );
    p.current_epoc_cycle_info = Some(EpochInfo { epoch_num: 1, reward_status: EpochRewardStatus::Completed });
    assert_eq!(p.reward_miners(Origin::Signed(5), rewards, 1), Err(module(Error::StatusIsNotAirDrop)));
}

#[test]
fn failed_calls_change_nothing() {
    let mut p = with_registered(&[MINER_A]);
    let events = p.events.clone();
    assert!(p.on_board(Origin::Signed(ALICE), 999, vec![], 0, static_data(), 1).is_err());
    assert!(p.air_drop(Origin::Signed(BOB), MINER_A, BOB, 1, 1).is_err());
    assert!(p.register_miner(Origin::Signed(BOB), MinerClass::Game, vec![], 7).is_err());
    assert_eq!(p.events, events);
    assert_eq!(p.get_miners(MINER_A).unwrap().status, MinerStatus::Registered);
    assert_eq!(p.miners.len(), 1);
    assert_eq!(p.owned_miners.len(), 0);
    assert_eq!(p.air_drop_expire.len(), 0);
}

#[test]
fn reports_add_up_in_any_order() {
    let reports: [(u64, u8); 6] = [(MINER_A, 5), (MINER_B, 7), (MINER_A, 200), (MINER_A, 1), (MINER_B, 3), (MINER_A, 9)];
    let mut forward = Pallet::new(Config { max_miners_owned: 3, epoch_cycle_blocks: 10, epoch_total_rewards: 1000 });
    let mut backward = Pallet::new(Config { max_miners_owned: 3, epoch_cycle_blocks: 10, epoch_total_rewards: 1000 });
    for (m, d) in reports.iter() {
        forward.miner_report(Origin::Signed(*m), *d).unwrap();
    }
    for (m, d) in reports.iter().rev() {
        backward.miner_report(Origin::Signed(*m), *d).unwrap();
    }
    for p in [&forward, &backward] {
        assert_eq!(p.current_epoch_data.get(MINER_A), Some(&215));
        assert_eq!(p.current_epoch_data.get(MINER_B), Some(&10));
        assert_eq!(p.current_epoch_data.get(ALICE), None);
    }
}

#[test]
fn owner_lists_stay_within_the_maximum() {
    let mut p = with_registered(&[200, 201, 202]);
    for m in [200u64, 201, 202] {
        p.on_board(Origin::Signed(ALICE), m, vec![], 0, static_data(), 1).unwrap();
        assert!(p.get_owned_miners(ALICE).unwrap().len() as u32 <= p.config.max_miners_owned);
    }
    // the list is full: the caller must not on-board or transfer more to ALICE
    assert_eq!(p.get_owned_miners(ALICE).unwrap().len() as u32, p.config.max_miners_owned);
    p.transfer_miner(Origin::Signed(ALICE), 200, BOB).unwrap();
    p.transfer_miner(Origin::Signed(BOB), 200, ALICE).unwrap();
    assert_eq!(p.get_owned_miners(ALICE).unwrap().len(), 3);
    assert_eq!(p.get_owned_miners(BOB), Some(&vec![]));
    assert!(lists_consistent(&p));
}

#[test]
fn miner_records_are_keyed_by_address() {
    let mut p = with_registered(&[MINER_A, MINER_B]);
    p.on_board(Origin::Signed(ALICE), MINER_A, vec![], 0, static_data(), 1).unwrap();
    p.air_drop(Origin::Signed(ADMIN), MINER_B, BOB, 2, 3).unwrap();
    p.claim(Origin::Signed(BOB), MINER_B, 4).unwrap();
    for k in [MINER_A, MINER_B] {
        assert_eq!(p.get_miners(k).unwrap().address, k);
    }
}

#[test]
fn unclaimed_air_drop_expires_exactly_at_its_block() {
    let mut p = with_registered(&[MINER_A]);
    p.air_drop(Origin::Signed(ADMIN), MINER_A, BOB, 7, 20).unwrap();
    for n in 21..27u64 {
        p.on_initialize(n);
        assert_eq!(p.get_miners(MINER_A).unwrap().status, MinerStatus::AirDrop(BOB, 27));
    }
    p.on_initialize(27);
    assert_eq!(p.get_miners(MINER_A).unwrap().status, MinerStatus::Expire);
    assert_eq!(p.get_ari_drop_miners(27), None);
}

#[test]
fn storage_keys_are_hash_then_encoding() {
    let k = storage_key_of(0x0102_0304_0506_0708);
    assert_eq!(&k[..8], &sp_io::hashing::twox_64(&[8, 7, 6, 5, 4, 3, 2, 1]));
    assert_eq!(&k[8..], &[8, 7, 6, 5, 4, 3, 2, 1]);
}

#[test]
fn closed_epoch_lists_reporters_in_storage_order() {
    let mut p = Pallet::new(Config { max_miners_owned: 3, epoch_cycle_blocks: 10, epoch_total_rewards: 1000 });
    let reporters: Vec<u64> = (1..=20u64).map(|i| i * 7919).collect();
    for m in reporters.iter() {
        p.miner_report(Origin::Signed(*m), 1).unwrap();
    }
    p.on_finalize(10);
    let listed = p.current_epoch_miners.clone().unwrap();
    assert_eq!(listed, storage_order(reporters.clone()));
    // the storage order is not the report order here
    assert_ne!(listed, reporters);
}

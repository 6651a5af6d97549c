use vstd::prelude::*;
use crate::crypto::{sr25519_valid, sr25519_verify};
use crate::lists::{
    first_index, lemma_pushed_keeps, lemma_swap_removed, lemma_swap_removed_keeps, list_view, position, push_to_list, pushed, swap_remove_from_list,
    swap_removed,
};
use crate::pallet::{Pallet, is_listed, miners_step, occurrences};
use crate::types::{
    AccountId, Balance, BlockNumber, DispatchError, Energy, EpochInfo, EpochRewardStatus, Error, Event, Miner, MinerClass,
    MinerData, MinerStaticData, MinerStatus, Origin, Transfer, block_number_to_u32, block_u32,
    ensure_root, ensure_signed,
};

verus! {

/// The refusal that a pallet error gives.
pub open spec fn module_err<T>(e: Error) -> Result<T, DispatchError> {
    Err(DispatchError::Module(e))
}

/// `m` is the record of a miner just registered by the administrator.
pub open spec fn is_registered_miner(m: Miner, class: MinerClass, maker: Vec<u8>, address: AccountId) -> bool {
    &&& m.class == class
    &&& m.maker == maker
    &&& m.address == address
    &&& m.owner == address
    &&& m.status == MinerStatus::Registered
    &&& m.location@ == Seq::<u8>::empty()
    &&& m.staking_fee == 0
}

/// `d` is the static data that a claimed miner starts with: the claim's
/// block as start height, the energy source `Other`, and nothing else.
pub open spec fn is_claim_static_data(d: MinerStaticData, now: BlockNumber) -> bool {
    &&& d.start_hight == block_u32(now)
    &&& d.location@ == Seq::<u8>::empty()
    &&& d.energy == Energy::Other
    &&& d.capabilities == 0
    &&& d.device_model@ == Seq::<u8>::empty()
    &&& d.serial_num@ == Seq::<u8>::empty()
    &&& d.sg_voltage == 0 && d.sg_current == 0 && d.sg_power_low == 0 && d.sg_power_high == 0
    &&& d.sb_voltage == 0 && d.sb_current == 0 && d.sb_power_low == 0 && d.sb_power_high == 0
    &&& d.sl_voltage == 0 && d.sl_current == 0 && d.sl_power_low == 0 && d.sl_power_high == 0
    &&& d.total_charge_vol == 0
    &&& d.total_usage_vol == 0
}

/// The reports of the running epoch once miner `m` reports `d` more.
pub open spec fn report_added(reports: Map<AccountId, u32>, m: AccountId, d: u8) -> Map<AccountId, u32> {
    reports.insert(m, if reports.dom().contains(m) { (reports[m] + d) as u32 } else { d as u32 })
}

/// The reports once the miners `ms` report `ds`, one after the other.
pub open spec fn reports_after(reports: Map<AccountId, u32>, ms: Seq<AccountId>, ds: Seq<u8>) -> Map<AccountId, u32>
    decreases ms.len(),
{
    if ms.len() == 0 || ds.len() == 0 {
        reports
    } else {
        report_added(reports_after(reports, ms.drop_last(), ds.drop_last()), ms.last(), ds.last())
    }
}

/// The sum of the reports of `m` among the reports `ds` of the miners `ms`.
pub open spec fn reported_sum(ms: Seq<AccountId>, ds: Seq<u8>, m: AccountId) -> int
    decreases ms.len(),
{
    if ms.len() == 0 || ds.len() == 0 {
        0
    } else {
        reported_sum(ms.drop_last(), ds.drop_last(), m) + (if ms.last() == m { ds.last() as int } else { 0 })
    }
}

/// Law: reports add up. Starting from no report of `m` in the epoch, after
/// any sequence of reports (of `m` and of other miners) whose reports of
/// `m` sum to a 32-bit number, `m` has a report exactly when it reported,
/// and its report is that sum, whatever the order of the reports.
pub proof fn lemma_reports_add_up(start: Map<AccountId, u32>, ms: Seq<AccountId>, ds: Seq<u8>, m: AccountId)
    requires
        ms.len() == ds.len(),
        !start.dom().contains(m),
        reported_sum(ms, ds, m) <= u32::MAX,
    ensures
        reports_after(start, ms, ds).dom().contains(m) == ms.contains(m),
        ms.contains(m) ==> reports_after(start, ms, ds)[m] == reported_sum(ms, ds, m),
    decreases ms.len(),
{
    if ms.len() > 0 {
        let pm = ms.drop_last();
        let pd = ds.drop_last();
        assert(reported_sum(pm, pd, m) <= reported_sum(ms, ds, m));
        lemma_reports_add_up(start, pm, pd, m);
        assert(ms.contains(m) == (pm.contains(m) || ms.last() == m)) by {
            if ms.contains(m) && ms.last() != m {
                let j = choose|j: int| 0 <= j < ms.len() && ms[j] == m;
                assert(pm[j] == m);
            }
            if pm.contains(m) {
                let j = choose|j: int| 0 <= j < pm.len() && pm[j] == m;
                assert(ms[j] == m);
            }
        }
        if !pm.contains(m) && ms.last() == m {
            assert(reported_sum(pm, pd, m) == 0) by {
                lemma_reported_sum_absent(pm, pd, m);
            }
        }
    }
}

/// A miner that did not report has reported nothing.
proof fn lemma_reported_sum_absent(ms: Seq<AccountId>, ds: Seq<u8>, m: AccountId)
    requires
        !ms.contains(m),
    ensures
        reported_sum(ms, ds, m) == 0,
    decreases ms.len(),
{
    if ms.len() > 0 && ds.len() > 0 {
        assert(!ms.drop_last().contains(m)) by {
            if ms.drop_last().contains(m) {
                let j = choose|j: int| 0 <= j < ms.drop_last().len() && ms.drop_last()[j] == m;
                assert(ms[j] == m);
            }
        }
        assert(ms[ms.len() - 1] != m);
        lemma_reported_sum_absent(ms.drop_last(), ds.drop_last(), m);
    }
}

/// The transfers that pay each listed miner its number of tokens from
/// `from`.
pub open spec fn reward_transfers(from: AccountId, rewards: Seq<MinerData>) -> Seq<Transfer> {
    Seq::new(rewards.len(), |i: int| Transfer { from, to: rewards[i].miner, amount: rewards[i].data as Balance })
}

impl Pallet {
    /// The signer that on-boards the miner at `addr`, or the refusal: a bad
    /// origin, no such miner, or a miner that is not merely registered.
    pub open spec fn on_board_check(&self, origin: Origin, addr: AccountId) -> Result<AccountId, DispatchError> {
        match origin {
            Origin::Signed(owner) => if !self.miners@.dom().contains(addr) {
                module_err(Error::MinerIsNotExist)
            } else if self.miners@[addr].status != MinerStatus::Registered {
                module_err(Error::AlreadyOnBoard)
            } else {
                Ok(owner)
            },
            _ => Err(DispatchError::BadOrigin),
        }
    }

    /// Law: on-boarding is granted only to a signed call on a miner whose
    /// status is exactly `Registered`; a signed call on a miner in any other
    /// status (air-dropped, on board, terminated, expired) is refused with
    /// `AlreadyOnBoard`.
    pub proof fn lemma_on_board_only_registered(&self, origin: Origin, addr: AccountId)
        ensures
            self.on_board_check(origin, addr) matches Ok(owner) ==> origin == Origin::Signed(owner)
                && self.miners@.dom().contains(addr) && self.miners@[addr].status == MinerStatus::Registered,
            origin is Signed && self.miners@.dom().contains(addr) && self.miners@[addr].status
                != MinerStatus::Registered ==> self.on_board_check(origin, addr) == module_err::<AccountId>(
                Error::AlreadyOnBoard,
            ),
    {
    }

    /// The administrator that air-drops the miner at `addr`, or the
    /// refusal: those of the administrator check, no such miner, or a miner
    /// that is not merely registered.
    pub open spec fn air_drop_check(&self, origin: Origin, addr: AccountId) -> Result<AccountId, DispatchError> {
        match self.admin_check(origin) {
            Err(e) => Err(e),
            Ok(who) => if !self.miners@.dom().contains(addr) {
                module_err(Error::MinerIsNotExist)
            } else if self.miners@[addr].status != MinerStatus::Registered {
                module_err(Error::StatusIsNotRegistered)
            } else {
                Ok(who)
            },
        }
    }

    /// The current owner that transfers the miner at `addr`, or the refusal:
    /// a bad origin, no such miner, another owner, or a miner missing from
    /// the owner's list.
    pub open spec fn transfer_check(&self, origin: Origin, addr: AccountId) -> Result<AccountId, DispatchError> {
        match origin {
            Origin::Signed(cur) => if !self.miners@.dom().contains(addr) {
                module_err(Error::MinerIsNotExist)
            } else if self.miners@[addr].owner != cur {
                module_err(Error::OwnerNotMatch)
            } else if !self.owned_miners@.dom().contains(cur) || !self.owned_miners@[cur]@.contains(addr) {
                module_err(Error::NoOwnedVectorFound)
            } else {
                Ok(cur)
            },
            _ => Err(DispatchError::BadOrigin),
        }
    }

    /// The owned lists once `addr` is taken off the list of `cur`.
    pub open spec fn lists_without(&self, cur: AccountId, addr: AccountId) -> Map<u64, Seq<AccountId>> {
        let l = self.owned_miners@[cur]@;
        list_view(self.owned_miners@).insert(cur, swap_removed(l, first_index(l, addr)))
    }

    /// The claimant and the air drop's expiry block for a claim of the
    /// miner at `addr`, or the refusal: a bad origin, no such miner, a
    /// miner not air-dropped, another receiver, or no air drops listed
    /// under the expiry block.
    pub open spec fn claim_check(&self, origin: Origin, addr: AccountId) -> Result<(AccountId, BlockNumber), DispatchError> {
        match origin {
            Origin::Signed(who) => if !self.miners@.dom().contains(addr) {
                module_err(Error::MinerIsNotExist)
            } else {
                match self.miners@[addr].status {
                    MinerStatus::AirDrop(account, b) => if account != who {
                        module_err(Error::CallerIsNotAirDropReceiver)
                    } else if !self.air_drop_expire@.dom().contains(b) {
                        module_err(Error::NoDropVectorFound)
                    } else {
                        Ok((who, b))
                    },
                    _ => module_err(Error::StatusIsNotAirDrop),
                }
            },
            _ => Err(DispatchError::BadOrigin),
        }
    }

    /// The paying account for a reward call of epoch `n`, or the refusal:
    /// a bad origin, a signer other than the offchain worker's account, no
    /// paying account, or an epoch other than the current unrewarded one.
    /// All the pallet's refusals here are `StatusIsNotAirDrop`.
    pub open spec fn reward_check(&self, origin: Origin, n: u32) -> Result<AccountId, DispatchError> {
        match origin {
            Origin::Signed(who) => if self.ocw != Some(who) {
                module_err(Error::StatusIsNotAirDrop)
            } else {
                match self.foundations {
                    None => module_err(Error::StatusIsNotAirDrop),
                    Some(f) => if self.current_epoc_cycle_info matches Some(info) && info.epoch_num == n
                        && info.reward_status == EpochRewardStatus::Incomplete {
                        Ok(f)
                    } else {
                        module_err(Error::StatusIsNotAirDrop)
                    },
                }
            },
            _ => Err(DispatchError::BadOrigin),
        }
    }

    /// Law: a reward call is paid only for the recorded current epoch while
    /// it is unrewarded, on the offchain worker's signature and from the
    /// paying account; a call for any other epoch number is refused.
    pub proof fn lemma_reward_only_current_epoch(&self, origin: Origin, n: u32)
        ensures
            self.reward_check(origin, n) matches Ok(f) ==> {
                &&& self.foundations == Some(f)
                &&& self.current_epoc_cycle_info == Some(
                    EpochInfo { epoch_num: n, reward_status: EpochRewardStatus::Incomplete },
                )
                &&& origin matches Origin::Signed(w) && self.ocw == Some(w)
            },
            self.current_epoc_cycle_info matches Some(info) && info.epoch_num != n ==> self.reward_check(
                origin,
                n,
            ) is Err,
    {
    }

    /// The administrator's account when `origin` is signed by it, else the
    /// refusal: a bad origin, no administrator, or another signer.
    pub open spec fn admin_check(&self, origin: Origin) -> Result<AccountId, DispatchError> {
        match origin {
            Origin::Signed(who) => match self.admin {
                None => module_err(Error::AdminIsNotSet),
                Some(a) => if a == who {
                    Ok(who)
                } else {
                    module_err(Error::CallerIsNotAdmin)
                },
            },
            _ => Err(DispatchError::BadOrigin),
        }
    }

    fn ensure_admin(&self, origin: Origin) -> (r: Result<AccountId, DispatchError>)
        ensures
            r == self.admin_check(origin),
    {
        let who = ensure_signed(origin)?;
        match self.admin {
            Some(admin) => {
                if admin != who {
                    return Err(DispatchError::Module(Error::CallerIsNotAdmin));
                }
                Ok(who)
            },
            None => Err(DispatchError::Module(Error::AdminIsNotSet)),
        }
    }

    /// A signed account moves `amount` of its tokens to `destination`.
    pub fn my_transfer(&self, origin: Origin, destination: AccountId, amount: Balance) -> (r: Result<Vec<Transfer>, DispatchError>)
        ensures
            match origin {
                Origin::Signed(who) => r matches Ok(t) && t@ == seq![Transfer { from: who, to: destination, amount }],
                _ => r == Err::<Vec<Transfer>, DispatchError>(DispatchError::BadOrigin),
            },
    {
        let owner = ensure_signed(origin)?;
        let t = vec![Transfer { from: owner, to: destination, amount }];
        assert(t@ =~= seq![Transfer { from: owner, to: destination, amount }]);
        Ok(t)
    }

    /// Root sets the offchain worker's signing account and funds it with
    /// `amount` from `supplyer`.
    pub fn set_ocw_signer(&mut self, origin: Origin, ocw: AccountId, amount: Balance, supplyer: AccountId) -> (r: Result<Vec<Transfer>, DispatchError>)
        ensures
            match origin {
                Origin::Root => {
                    &&& r matches Ok(t) && t@ == seq![Transfer { from: supplyer, to: ocw, amount }]
                    &&& *final(self) == (Pallet { ocw: Some(ocw), ..*old(self) })
                },
                _ => {
                    &&& r == Err::<Vec<Transfer>, DispatchError>(DispatchError::BadOrigin)
                    &&& *final(self) == *old(self)
                },
            },
    {
        ensure_root(origin)?;
        let t = vec![Transfer { from: supplyer, to: ocw, amount }];
        assert(t@ =~= seq![Transfer { from: supplyer, to: ocw, amount }]);
        self.ocw = Some(ocw);
        Ok(t)
    }

    /// Root sets the account that pays the rewards.
    pub fn set_foundations(&mut self, origin: Origin, address: AccountId) -> (r: Result<(), DispatchError>)
        ensures
            match origin {
                Origin::Root => {
                    &&& r is Ok
                    &&& final(self).events@ == old(self).events@.push(Event::AdminIsSet(address))
                    &&& *final(self) == (Pallet { foundations: Some(address), events: final(self).events, ..*old(self) })
                },
                _ => {
                    &&& r == Err::<(), DispatchError>(DispatchError::BadOrigin)
                    &&& *final(self) == *old(self)
                },
            },
    {
        ensure_root(origin)?;
        self.foundations = Some(address);
        self.events.push(Event::AdminIsSet(address));
        Ok(())
    }

    /// Root sets the administrator.
    pub fn set_admin(&mut self, origin: Origin, address: AccountId) -> (r: Result<(), DispatchError>)
        ensures
            match origin {
                Origin::Root => {
                    &&& r is Ok
                    &&& final(self).events@ == old(self).events@.push(Event::AdminIsSet(address))
                    &&& *final(self) == (Pallet { admin: Some(address), events: final(self).events, ..*old(self) })
                },
                _ => {
                    &&& r == Err::<(), DispatchError>(DispatchError::BadOrigin)
                    &&& *final(self) == *old(self)
                },
            },
    {
        ensure_root(origin)?;
        self.admin = Some(address);
        self.events.push(Event::AdminIsSet(address));
        Ok(())
    }

    /// Checks that `sig` is a valid sr25519 signature of `data` by `from`.
    /// The origin is not looked at.
    pub fn my_verify(&self, origin: Origin, data: &Vec<u8>, sig: [u8; 64], from: [u8; 32]) -> (r: Result<(), DispatchError>)
        ensures
            r == (if sr25519_valid(sig@, data@, from@) {
                Ok::<(), DispatchError>(())
            } else {
                module_err(Error::SignatureVerifyError)
            }),
    {
        let ok = sr25519_verify(&sig, data.as_slice(), &from);
        if !ok {
            return Err(DispatchError::Module(Error::SignatureVerifyError));
        }
        Ok(())
    }

    /// The administrator registers a new miner at `address`, owned by
    /// itself. The address must not be registered yet.
    pub fn register_miner(&mut self, origin: Origin, class: MinerClass, maker: Vec<u8>, address: AccountId) -> (r: Result<(), DispatchError>)
        requires
            old(self).wf(),
            old(self).admin_check(origin) is Ok ==> !old(self).miners@.dom().contains(address),
        ensures
            final(self).wf(),
            old(self).owned_consistent() ==> final(self).owned_consistent(),
            miners_step(old(self).miners@, final(self).miners@),
            old(self).onboard_listed() ==> final(self).onboard_listed(),
            old(self).addresses_match() ==> final(self).addresses_match(),
            old(self).air_drops_listed() ==> final(self).air_drops_listed(),
            r is Ok <==> (origin matches Origin::Signed(w) && old(self).admin == Some(w)),
            match old(self).admin_check(origin) {
                Err(e) => r == Err::<(), DispatchError>(e) && *final(self) == *old(self),
                Ok(_) => {
                    &&& r is Ok
                    &&& final(self).miners@ == old(self).miners@.insert(address, final(self).miners@[address])
                    &&& is_registered_miner(final(self).miners@[address], class, maker, address)
                    &&& final(self).events@ == old(self).events@.push(Event::NewMinerRegisted(address))
                    &&& *final(self) == (Pallet { miners: final(self).miners, events: final(self).events, ..*old(self) })
                },
            },
    {
        self.ensure_admin(origin)?;
        let new_miner = Miner {
            class,
            maker,
            address,
            owner: address,
            location: Vec::new(),
            staking_fee: 0u128,
            status: MinerStatus::Registered,
        };
        let ghost old_self = *self;
        self.miners.insert(address, new_miner);
        self.events.push(Event::NewMinerRegisted(address));
        proof {
            if old_self.owned_consistent() {
                assert forall|o: AccountId, i: int|
                    self.owned_miners@.dom().contains(o) && 0 <= i < self.owned_miners@[o]@.len() implies {
                        let m = #[trigger] self.owned_miners@[o]@[i];
                        &&& self.miners@.dom().contains(m)
                        &&& self.miners@[m].owner == o
                        &&& !(self.miners@[m].status is Registered)
                        &&& !(self.miners@[m].status is AirDrop)
                    } by {
                    assert(old_self.miners@.dom().contains(old_self.owned_miners@[o]@[i]));
                }
            }
        }
        Ok(())
    }

    /// The administrator terminates a registered miner.
    pub fn terminate_miner(&mut self, origin: Origin, miner_address: AccountId) -> (r: Result<(), DispatchError>)
        requires
            old(self).wf(),
        ensures
            final(self).wf(),
            old(self).owned_consistent() ==> final(self).owned_consistent(),
            miners_step(old(self).miners@, final(self).miners@),
            old(self).onboard_listed() ==> final(self).onboard_listed(),
            old(self).addresses_match() ==> final(self).addresses_match(),
            old(self).air_drops_listed() ==> final(self).air_drops_listed(),
            r is Ok <==> (origin matches Origin::Signed(w) && old(self).admin == Some(w)) && old(
                self,
            ).miners@.dom().contains(miner_address),
            match old(self).admin_check(origin) {
                Err(e) => r == Err::<(), DispatchError>(e) && *final(self) == *old(self),
                Ok(_) => if !old(self).miners@.dom().contains(miner_address) {
                    r == module_err::<()>(Error::MinerIsNotExist) && *final(self) == *old(self)
                } else {
                    &&& r is Ok
                    &&& final(self).miners@ == old(self).miners@.insert(
                        miner_address,
                        Miner { status: MinerStatus::Terminated, ..old(self).miners@[miner_address] },
                    )
                    &&& *final(self) == (Pallet { miners: final(self).miners, ..*old(self) })
                },
            },
    {
        self.ensure_admin(origin)?;
        match self.miners.remove(miner_address) {
            None => Err(DispatchError::Module(Error::MinerIsNotExist)),
            Some(mut registered) => {
                let ghost old_miners = old(self).miners@;
                registered.status = MinerStatus::Terminated;
                self.miners.insert(miner_address, registered);
                proof {
                    assert(self.miners@ =~= old_miners.insert(
                        miner_address,
                        Miner { status: MinerStatus::Terminated, ..old_miners[miner_address] },
                    ));
                }
                Ok(())
            },
        }
    }

    /// A signed account on-boards a registered miner and becomes its
    /// owner: the miner takes the location and staking fee, its static data
    /// is stored with the current block as start height, and it is added to
    /// the owner's list of miners.
    pub fn on_board(
        &mut self,
        origin: Origin,
        miner_address: AccountId,
        location: Vec<u8>,
        staking_fee: u128,
        static_data: MinerStaticData,
        now: BlockNumber,
    ) -> (r: Result<(), DispatchError>)
        requires
            old(self).wf(),
            old(self).on_board_check(origin, miner_address) matches Ok(owner) ==> (
            old(self).owned_miners@.dom().contains(owner) ==> (old(self).owned_miners@[owner]@.len() as u32)
                < old(self).config.max_miners_owned),
        ensures
            final(self).wf(),
            old(self).owned_consistent() ==> final(self).owned_consistent(),
            miners_step(old(self).miners@, final(self).miners@),
            old(self).onboard_listed() ==> final(self).onboard_listed(),
            old(self).config.max_miners_owned >= 1 && old(self).lists_bounded() ==> final(self).lists_bounded(),
            old(self).addresses_match() ==> final(self).addresses_match(),
            old(self).air_drops_listed() ==> final(self).air_drops_listed(),
            r is Ok <==> origin is Signed && old(self).miners@.dom().contains(miner_address)
                && old(self).miners@[miner_address].status == MinerStatus::Registered,
            origin is Signed && old(self).miners@.dom().contains(miner_address)
                && old(self).miners@[miner_address].status != MinerStatus::Registered ==> r == Err::<
                (),
                DispatchError,
            >(DispatchError::Module(Error::AlreadyOnBoard)) && *final(self) == *old(self),
            match old(self).on_board_check(origin, miner_address) {
                Err(e) => r == Err::<(), DispatchError>(e) && *final(self) == *old(self),
                Ok(owner) => {
                    &&& r is Ok
                    &&& final(self).miners@ == old(self).miners@.insert(
                        miner_address,
                        Miner {
                            status: MinerStatus::Onboard,
                            owner,
                            location,
                            staking_fee,
                            ..old(self).miners@[miner_address]
                        },
                    )
                    &&& final(self).static_data@ == old(self).static_data@.insert(
                        miner_address,
                        MinerStaticData { start_hight: block_u32(now), ..static_data },
                    )
                    &&& list_view(final(self).owned_miners@) == pushed(
                        list_view(old(self).owned_miners@),
                        owner,
                        miner_address,
                    )
                    &&& *final(self) == (Pallet {
                        miners: final(self).miners,
                        static_data: final(self).static_data,
                        owned_miners: final(self).owned_miners,
                        ..*old(self)
                    })
                },
            },
    {
        let owner = ensure_signed(origin)?;
        let status = match self.miners.get(miner_address) {
            None => return Err(DispatchError::Module(Error::MinerIsNotExist)),
            Some(m) => m.status,
        };
        match status {
            MinerStatus::Registered => {},
            _ => return Err(DispatchError::Module(Error::AlreadyOnBoard)),
        }
        let ghost old_self = *self;
        let mut miner = match self.miners.remove(miner_address) {
            Some(m) => m,
            None => return Err(DispatchError::Module(Error::MinerIsNotExist)),
        };
        miner.status = MinerStatus::Onboard;
        miner.owner = owner;
        miner.location = location;
        miner.staking_fee = staking_fee;
        self.miners.insert(miner_address, miner);
        let new_static_data = MinerStaticData { start_hight: block_number_to_u32(now), ..static_data };
        self.static_data.insert(miner_address, new_static_data);
        push_to_list(&mut self.owned_miners, owner, miner_address);
        proof {
            assert(self.miners@ =~= old_self.miners@.insert(miner_address, self.miners@[miner_address]));
            if old_self.owned_consistent() {
                self.lemma_on_board_consistent(old_self, owner, miner_address);
            }
            self.lemma_pushed_lists(old_self, list_view(old_self.owned_miners@), owner, miner_address);
        }
        Ok(())
    }

    /// After the lists become `base` with `addr` appended to the list of
    /// `owner`, where `base` keeps every other listed miner and shortens no
    /// list, and `addr` becomes `owner`'s miner: every on-board miner is
    /// still listed, and the lists stay within the maximum when the
    /// owner's list had room.
    proof fn lemma_pushed_lists(&self, prev: Pallet, base: Map<u64, Seq<AccountId>>, owner: AccountId, addr: AccountId)
        requires
            list_view(self.owned_miners@) == pushed(base, owner, addr),
            forall|o: u64, y: AccountId|
                prev.owned_miners@.dom().contains(o) && #[trigger] prev.owned_miners@[o]@.contains(y) && y != addr
                    ==> base.dom().contains(o) && base[o].contains(y),
            forall|o: u64|
                #[trigger] base.dom().contains(o) ==> prev.owned_miners@.dom().contains(o) && base[o].len()
                    <= prev.owned_miners@[o]@.len(),
            base.dom().contains(owner) ==> (base[owner].len() as u32) < prev.config.max_miners_owned,
            self.config == prev.config,
            self.miners@.dom() == prev.miners@.dom(),
            self.miners@.dom().contains(addr),
            self.miners@[addr].owner == owner,
            forall|m: AccountId| m != addr && #[trigger] self.miners@.dom().contains(m) ==> self.miners@[m] == prev.miners@[m],
        ensures
            prev.onboard_listed() ==> self.onboard_listed(),
            prev.config.max_miners_owned >= 1 && prev.lists_bounded() ==> self.lists_bounded(),
    {
        let l = list_view(self.owned_miners@);
        lemma_pushed_keeps(base, owner, addr);
        if prev.onboard_listed() {
            assert forall|x: AccountId|
                #[trigger] self.miners@.dom().contains(x) && self.miners@[x].status is Onboard implies {
                    let o = self.miners@[x].owner;
                    self.owned_miners@.dom().contains(o) && self.owned_miners@[o]@.contains(x)
                } by {
                let o = self.miners@[x].owner;
                if x != addr {
                    assert(prev.miners@.dom().contains(x));
                    assert(prev.owned_miners@[o]@.contains(x));
                    assert(base.dom().contains(o) && base[o].contains(x));
                }
                assert(l.dom().contains(o) && l[o].contains(x));
                assert(l[o] == self.owned_miners@[o]@);
            }
        }
        if prev.config.max_miners_owned >= 1 && prev.lists_bounded() {
            assert forall|o: AccountId| #[trigger] self.owned_miners@.dom().contains(o) implies self.owned_miners@[o]@.len()
                <= self.config.max_miners_owned by {
                assert(l.dom().contains(o));
                assert(l[o] == self.owned_miners@[o]@);
                if o == owner {
                    if base.dom().contains(o) {
                        assert(prev.owned_miners@.dom().contains(o));
                        let n = base[o].len();
                        assert(n <= prev.config.max_miners_owned);
                        assert((n as u32) as int == n);
                    }
                } else {
                    assert(base.dom().contains(o));
                    assert(prev.owned_miners@.dom().contains(o));
                }
            }
        }
    }

    /// Adding a registered miner to its new owner's list keeps the lists
    /// consistent.
    proof fn lemma_on_board_consistent(&self, prev: Pallet, owner: AccountId, addr: AccountId)
        requires
            prev.owned_consistent(),
            prev.miners@.dom().contains(addr),
            prev.miners@[addr].status is Registered,
            self.miners@.dom() == prev.miners@.dom(),
            self.miners@[addr].owner == owner,
            self.miners@[addr].status is Onboard,
            forall|m: AccountId| m != addr && #[trigger] self.miners@.dom().contains(m) ==> self.miners@[m] == prev.miners@[m],
            list_view(self.owned_miners@) == pushed(list_view(prev.owned_miners@), owner, addr),
        ensures
            self.owned_consistent(),
    {
        let pv = list_view(prev.owned_miners@);
        // the registered miner is on no list yet
        assert forall|o: AccountId| #[trigger] pv.dom().contains(o) implies !pv[o].contains(addr) by {
            if pv[o].contains(addr) {
                let i = choose|i: int| 0 <= i < pv[o].len() && pv[o][i] == addr;
                assert(prev.owned_miners@[o]@[i] == addr);
            }
        }
        assert forall|o: AccountId, i: int|
            self.owned_miners@.dom().contains(o) && 0 <= i < self.owned_miners@[o]@.len() implies {
                let m = #[trigger] self.owned_miners@[o]@[i];
                &&& self.miners@.dom().contains(m)
                &&& self.miners@[m].owner == o
                &&& !(self.miners@[m].status is Registered)
                &&& !(self.miners@[m].status is AirDrop)
            } by {
            let l = list_view(self.owned_miners@);
            assert(l[o] == self.owned_miners@[o]@);
            assert(l.dom().contains(o));
            assert(pushed(pv, owner, addr).dom().contains(o));
            if o != owner {
                assert(pv.dom().contains(o));
                assert(prev.owned_miners@[o]@[i] == pv[o][i]);
                assert(pv[o][i] != addr);
            } else if pv.dom().contains(o) {
                assert(l[o] == pv[o].push(addr));
                if i < pv[o].len() {
                    assert(prev.owned_miners@[o]@[i] == pv[o][i]);
                    assert(pv[o][i] != addr);
                }
            } else {
                assert(l[o] == seq![addr]);
            }
        }
        assert forall|o: AccountId| #[trigger] self.owned_miners@.dom().contains(o) implies self.owned_miners@[o]@.no_duplicates() by {
            let l = list_view(self.owned_miners@);
            assert(l[o] == self.owned_miners@[o]@);
            assert(l.dom().contains(o));
            assert(pushed(pv, owner, addr).dom().contains(o));
            if o != owner {
                assert(pv.dom().contains(o));
                assert(prev.owned_miners@.dom().contains(o));
            } else if pv.dom().contains(o) {
                assert(prev.owned_miners@.dom().contains(o));
                assert(pv[o] == prev.owned_miners@[o]@);
                assert(!pv[o].contains(addr));
                let s = pv[o].push(addr);
                assert forall|a: int, b: int| 0 <= a < s.len() && 0 <= b < s.len() && a != b implies s[a] != s[b] by {
                    if a == pv[o].len() as int {
                        assert(pv[o][b] == s[b]);
                    } else if b == pv[o].len() as int {
                        assert(pv[o][a] == s[a]);
                    }
                }
            } else {
                assert(l[o] == seq![addr]);
            }
        }
    }

    /// The administrator offers a registered miner to `receiver` until
    /// `life_time` blocks from now: the miner is listed under that block
    /// and marked air-dropped.
    pub fn air_drop(
        &mut self,
        origin: Origin,
        miner_address: AccountId,
        receiver: AccountId,
        life_time: BlockNumber,
        now: BlockNumber,
    ) -> (r: Result<(), DispatchError>)
        requires
            old(self).wf(),
            old(self).air_drop_check(origin, miner_address) is Ok ==> now + life_time <= u64::MAX,
        ensures
            final(self).wf(),
            old(self).owned_consistent() ==> final(self).owned_consistent(),
            miners_step(old(self).miners@, final(self).miners@),
            old(self).onboard_listed() ==> final(self).onboard_listed(),
            old(self).addresses_match() ==> final(self).addresses_match(),
            old(self).air_drops_listed() ==> final(self).air_drops_listed(),
            r is Ok <==> (origin matches Origin::Signed(w) && old(self).admin == Some(w))
                && old(self).miners@.dom().contains(miner_address)
                && old(self).miners@[miner_address].status == MinerStatus::Registered,
            (origin matches Origin::Signed(w) && old(self).admin == Some(w)) && old(self).miners@.dom().contains(
                miner_address,
            ) && old(self).miners@[miner_address].status != MinerStatus::Registered ==> r == module_err::<()>(
                Error::StatusIsNotRegistered,
            ) && *final(self) == *old(self),
            match old(self).air_drop_check(origin, miner_address) {
                Err(e) => r == Err::<(), DispatchError>(e) && *final(self) == *old(self),
                Ok(_) => {
                    let expire = (now + life_time) as BlockNumber;
                    &&& r is Ok
                    &&& list_view(final(self).air_drop_expire@) == pushed(
                        list_view(old(self).air_drop_expire@),
                        expire,
                        miner_address,
                    )
                    &&& final(self).miners@ == old(self).miners@.insert(
                        miner_address,
                        Miner {
                            status: MinerStatus::AirDrop(receiver, expire),
                            ..old(self).miners@[miner_address]
                        },
                    )
                    &&& *final(self) == (Pallet {
                        miners: final(self).miners,
                        air_drop_expire: final(self).air_drop_expire,
                        ..*old(self)
                    })
                },
            },
    {
        self.ensure_admin(origin)?;
        let status = match self.miners.get(miner_address) {
            None => return Err(DispatchError::Module(Error::MinerIsNotExist)),
            Some(m) => m.status,
        };
        match status {
            MinerStatus::Registered => {},
            _ => return Err(DispatchError::Module(Error::StatusIsNotRegistered)),
        }
        let ghost old_self = *self;
        let expire_block_num: BlockNumber = now + life_time;
        push_to_list(&mut self.air_drop_expire, expire_block_num, miner_address);
        let mut registered = match self.miners.remove(miner_address) {
            Some(m) => m,
            None => return Err(DispatchError::Module(Error::MinerIsNotExist)),
        };
        registered.status = MinerStatus::AirDrop(receiver, expire_block_num);
        self.miners.insert(miner_address, registered);
        proof {
            if old_self.owned_consistent() {
                assert forall|o: AccountId, i: int|
                    self.owned_miners@.dom().contains(o) && 0 <= i < self.owned_miners@[o]@.len() implies {
                        let m = #[trigger] self.owned_miners@[o]@[i];
                        &&& self.miners@.dom().contains(m)
                        &&& self.miners@[m].owner == o
                        &&& !(self.miners@[m].status is Registered)
                        &&& !(self.miners@[m].status is AirDrop)
                    } by {
                    assert(old_self.owned_miners@[o]@[i] != miner_address);
                }
            }
            if old_self.air_drops_listed() {
                let dv = list_view(old_self.air_drop_expire@);
                let l = list_view(self.air_drop_expire@);
                lemma_pushed_keeps(dv, expire_block_num, miner_address);
                assert forall|x: AccountId| #[trigger] self.miners@.dom().contains(x) implies match self.miners@[x].status {
                    MinerStatus::AirDrop(_, b) => self.air_drop_expire@.dom().contains(b)
                        && self.air_drop_expire@[b]@.contains(x),
                    _ => true,
                } by {
                    if let MinerStatus::AirDrop(_, b) = self.miners@[x].status {
                        if x != miner_address {
                            assert(old_self.miners@.dom().contains(x));
                            assert(old_self.air_drop_expire@[b]@.contains(x));
                            assert(dv.dom().contains(b) && dv[b].contains(x));
                        }
                        assert(l.dom().contains(b) && l[b].contains(x));
                        assert(l[b] == self.air_drop_expire@[b]@);
                    }
                }
            }
        }
        Ok(())
    }

    /// The owner of an on-boarded miner transfers it to `receiver`: the
    /// miner leaves the owner's list (its place taken by the list's last
    /// miner), joins the receiver's list, and is owned by the receiver.
    pub fn transfer_miner(&mut self, origin: Origin, miner_address: AccountId, receiver: AccountId) -> (r: Result<(), DispatchError>)
        requires
            old(self).wf(),
            origin is Signed && old(self).miners@.dom().contains(miner_address) ==> old(
                self,
            ).miners@[miner_address].status == MinerStatus::Onboard,
            old(self).transfer_check(origin, miner_address) matches Ok(cur) ==> ({
                let mid = old(self).lists_without(cur, miner_address);
                mid.dom().contains(receiver) ==> (mid[receiver].len() as u32) < old(self).config.max_miners_owned
            }),
        ensures
            final(self).wf(),
            old(self).owned_consistent() ==> final(self).owned_consistent(),
            miners_step(old(self).miners@, final(self).miners@),
            old(self).onboard_listed() ==> final(self).onboard_listed(),
            old(self).config.max_miners_owned >= 1 && old(self).lists_bounded() ==> final(self).lists_bounded(),
            forall|x: AccountId| is_listed(list_view(final(self).owned_miners@), x) == is_listed(list_view(old(self).owned_miners@), x),
            old(self).owned_consistent() ==> forall|x: AccountId|
                occurrences(list_view(final(self).owned_miners@), x) == #[trigger] occurrences(
                    list_view(old(self).owned_miners@),
                    x,
                ),
            old(self).addresses_match() ==> final(self).addresses_match(),
            old(self).air_drops_listed() ==> final(self).air_drops_listed(),
            r is Ok ==> old(self).miners@.dom().contains(miner_address) && origin == Origin::Signed(
                old(self).miners@[miner_address].owner,
            ),
            (origin matches Origin::Signed(w) && old(self).miners@.dom().contains(miner_address)
                && old(self).miners@[miner_address].owner != w) ==> r == module_err::<()>(Error::OwnerNotMatch)
                && *final(self) == *old(self),
            match old(self).transfer_check(origin, miner_address) {
                Err(e) => r == Err::<(), DispatchError>(e) && *final(self) == *old(self),
                Ok(cur) => {
                    &&& r is Ok
                    &&& list_view(final(self).owned_miners@) == pushed(
                        old(self).lists_without(cur, miner_address),
                        receiver,
                        miner_address,
                    )
                    &&& final(self).miners@ == old(self).miners@.insert(
                        miner_address,
                        Miner { owner: receiver, ..old(self).miners@[miner_address] },
                    )
                    &&& *final(self) == (Pallet {
                        miners: final(self).miners,
                        owned_miners: final(self).owned_miners,
                        ..*old(self)
                    })
                },
            },
    {
        let current_owner = ensure_signed(origin)?;
        let owner = match self.miners.get(miner_address) {
            None => return Err(DispatchError::Module(Error::MinerIsNotExist)),
            Some(m) => m.owner,
        };
        if owner != current_owner {
            return Err(DispatchError::Module(Error::OwnerNotMatch));
        }
        let ind = match self.owned_miners.get(current_owner) {
            None => return Err(DispatchError::Module(Error::NoOwnedVectorFound)),
            Some(v) => match position(v, miner_address) {
                None => return Err(DispatchError::Module(Error::NoOwnedVectorFound)),
                Some(i) => i,
            },
        };
        let ghost old_self = *self;
        swap_remove_from_list(&mut self.owned_miners, current_owner, miner_address, ind);
        push_to_list(&mut self.owned_miners, receiver, miner_address);
        let mut miner = match self.miners.remove(miner_address) {
            Some(m) => m,
            None => return Err(DispatchError::Module(Error::MinerIsNotExist)),
        };
        miner.owner = receiver;
        self.miners.insert(miner_address, miner);
        proof {
            assert(self.miners@ =~= old_self.miners@.insert(
                miner_address,
                Miner { owner: receiver, ..old_self.miners@[miner_address] },
            ));
            if old_self.owned_consistent() {
                self.lemma_transfer_consistent(old_self, current_owner, receiver, miner_address);
            }
            let lc = old_self.owned_miners@[current_owner]@;
            let fi = first_index(lc, miner_address);
            assert(crate::lists::is_first_index(lc, miner_address, fi));
            lemma_swap_removed_keeps(lc, fi);
            let mid = old_self.lists_without(current_owner, miner_address);
            assert forall|o: u64, y: AccountId|
                old_self.owned_miners@.dom().contains(o) && #[trigger] old_self.owned_miners@[o]@.contains(y) && y != miner_address
                    implies mid.dom().contains(o) && mid[o].contains(y) by {
            }
            self.lemma_pushed_lists(old_self, mid, receiver, miner_address);
            // the miner only moved from one list to another
            let pv = list_view(old_self.owned_miners@);
            let l = list_view(self.owned_miners@);
            lemma_pushed_keeps(mid, receiver, miner_address);
            assert(pv.dom().contains(current_owner) && pv[current_owner].contains(miner_address));
            assert forall|x: AccountId| is_listed(l, x) == is_listed(pv, x) by {
                if is_listed(l, x) {
                    let o = choose|o: u64| l.dom().contains(o) && #[trigger] l[o].contains(x);
                    if x != miner_address {
                        assert(mid.dom().contains(o) && mid[o].contains(x));
                        if o == current_owner {
                            assert(lc.contains(x));
                            assert(pv[o].contains(x));
                        } else {
                            assert(pv[o].contains(x));
                        }
                        assert(is_listed(pv, x));
                    }
                }
                if is_listed(pv, x) {
                    let o = choose|o: u64| pv.dom().contains(o) && #[trigger] pv[o].contains(x);
                    if x != miner_address {
                        assert(old_self.owned_miners@[o]@.contains(x));
                        assert(l.dom().contains(o) && l[o].contains(x));
                    } else {
                        assert(l.dom().contains(receiver) && l[receiver].contains(x));
                    }
                    assert(is_listed(l, x));
                }
            }
            if old_self.owned_consistent() {
                assert forall|x: AccountId| occurrences(l, x) == #[trigger] occurrences(pv, x) by {
                    self.lemma_occurrences(x);
                    old_self.lemma_occurrences(x);
                }
            }
        }
        Ok(())
    }

    /// Moving a miner from its owner's list to the receiver's keeps the
    /// lists consistent.
    proof fn lemma_transfer_consistent(&self, prev: Pallet, cur: AccountId, rcv: AccountId, addr: AccountId)
        requires
            prev.owned_consistent(),
            prev.miners@.dom().contains(addr),
            prev.miners@[addr].owner == cur,
            prev.miners@[addr].status is Onboard,
            prev.owned_miners@.dom().contains(cur),
            prev.owned_miners@[cur]@.contains(addr),
            self.miners@ == prev.miners@.insert(addr, Miner { owner: rcv, ..prev.miners@[addr] }),
            list_view(self.owned_miners@) == pushed(prev.lists_without(cur, addr), rcv, addr),
        ensures
            self.owned_consistent(),
    {
        let pv = list_view(prev.owned_miners@);
        let lc = prev.owned_miners@[cur]@;
        let fi = first_index(lc, addr);
        let i0 = choose|i: int| 0 <= i < lc.len() && lc[i] == addr;
        assert(crate::lists::is_first_index(lc, addr, fi)) by {
            assert(lc[i0] == addr);
            assert(lc.no_duplicates());
            assert(crate::lists::is_first_index(lc, addr, i0)) by {
                assert forall|j: int| 0 <= j < i0 implies lc[j] != addr by {
                    if lc[j] == addr {
                        assert(lc[j] == lc[i0]);
                    }
                }
            }
        }
        lemma_swap_removed(lc, fi);
        let mid = prev.lists_without(cur, addr);
        // addr is on no list of mid
        assert forall|o: AccountId| #[trigger] mid.dom().contains(o) implies !mid[o].contains(addr) && forall|i: int|
            0 <= i < mid[o].len() ==> {
                let m = #[trigger] mid[o][i];
                &&& prev.miners@.dom().contains(m)
                &&& prev.miners@[m].owner == o
                &&& !(prev.miners@[m].status is Registered)
                &&& !(prev.miners@[m].status is AirDrop)
            } by {
            if o == cur {
                assert forall|i: int| 0 <= i < mid[o].len() implies {
                    let m = #[trigger] mid[o][i];
                    &&& prev.miners@.dom().contains(m)
                    &&& prev.miners@[m].owner == o
                    &&& !(prev.miners@[m].status is Registered)
                    &&& !(prev.miners@[m].status is AirDrop)
                } by {
                    assert(swap_removed(lc, fi).contains(mid[o][i]));
                    let j = choose|j: int| 0 <= j < lc.len() && lc[j] == mid[o][i];
                    assert(prev.owned_miners@[cur]@[j] == mid[o][i]);
                }
            } else {
                assert(pv.dom().contains(o));
                assert forall|i: int| 0 <= i < mid[o].len() implies {
                    let m = #[trigger] mid[o][i];
                    &&& prev.miners@.dom().contains(m)
                    &&& prev.miners@[m].owner == o
                    &&& !(prev.miners@[m].status is Registered)
                    &&& !(prev.miners@[m].status is AirDrop)
                } by {
                    assert(prev.owned_miners@[o]@[i] == mid[o][i]);
                }
                if mid[o].contains(addr) {
                    let j = choose|j: int| 0 <= j < mid[o].len() && mid[o][j] == addr;
                    assert(prev.owned_miners@[o]@[j] == addr);
                }
            }
        }
        assert forall|o: AccountId| #[trigger] mid.dom().contains(o) implies mid[o].no_duplicates() by {
            if o != cur {
                assert(prev.owned_miners@.dom().contains(o));
            }
        }
        let l = list_view(self.owned_miners@);
        assert forall|o: AccountId, i: int|
            self.owned_miners@.dom().contains(o) && 0 <= i < self.owned_miners@[o]@.len() implies {
                let m = #[trigger] self.owned_miners@[o]@[i];
                &&& self.miners@.dom().contains(m)
                &&& self.miners@[m].owner == o
                &&& !(self.miners@[m].status is Registered)
                &&& !(self.miners@[m].status is AirDrop)
            } by {
            assert(l[o] == self.owned_miners@[o]@);
            assert(l.dom().contains(o));
            if o == rcv && i == l[o].len() - 1 {
                if mid.dom().contains(o) {
                    assert(l[o] == mid[o].push(addr));
                } else {
                    assert(l[o] == seq![addr]);
                }
            } else {
                assert(mid.dom().contains(o));
                if o == rcv {
                    assert(l[o] == mid[o].push(addr));
                }
                assert(l[o][i] == mid[o][i]);
                assert(mid[o][i] != addr);
            }
        }
        assert forall|o: AccountId| #[trigger] self.owned_miners@.dom().contains(o) implies self.owned_miners@[o]@.no_duplicates() by {
            assert(l[o] == self.owned_miners@[o]@);
            assert(l.dom().contains(o));
            if o == rcv {
                if mid.dom().contains(o) {
                    let s = mid[o].push(addr);
                    assert(l[o] == s);
                    assert forall|a: int, b: int| 0 <= a < s.len() && 0 <= b < s.len() && a != b implies s[a] != s[b] by {
                        if a == mid[o].len() as int {
                            assert(mid[o][b] == s[b]);
                        } else if b == mid[o].len() as int {
                            assert(mid[o][a] == s[a]);
                        }
                    }
                } else {
                    assert(l[o] == seq![addr]);
                }
            }
        }
    }

    /// The receiver of an air-dropped miner claims it: the miner is
    /// on-boarded with the claimant as owner, gets empty static data
    /// starting at the current block, and leaves the air drop list of its
    /// expiry block. The claimed miner is not added to the claimant's list.
    pub fn claim(&mut self, origin: Origin, miner_address: AccountId, now: BlockNumber) -> (r: Result<(), DispatchError>)
        requires
            old(self).wf(),
        ensures
            final(self).wf(),
            old(self).owned_consistent() ==> final(self).owned_consistent(),
            miners_step(old(self).miners@, final(self).miners@),
            old(self).addresses_match() ==> final(self).addresses_match(),
            old(self).air_drops_listed() ==> final(self).air_drops_listed(),
            r is Ok ==> old(self).miners@.dom().contains(miner_address) && (old(
                self,
            ).miners@[miner_address].status matches MinerStatus::AirDrop(receiver, _) && origin
                == Origin::Signed(receiver)),
            (origin matches Origin::Signed(w) && old(self).miners@.dom().contains(miner_address) && (old(
                self,
            ).miners@[miner_address].status matches MinerStatus::AirDrop(receiver, _) && receiver != w)) ==> r
                == module_err::<()>(Error::CallerIsNotAirDropReceiver) && *final(self) == *old(self),
            origin is Signed && old(self).miners@.dom().contains(miner_address) && !(old(
                self,
            ).miners@[miner_address].status is AirDrop) ==> r == module_err::<()>(Error::StatusIsNotAirDrop)
                && *final(self) == *old(self),
            match old(self).claim_check(origin, miner_address) {
                Err(e) => r == Err::<(), DispatchError>(e) && *final(self) == *old(self),
                Ok((who, b)) => {
                    let drops = old(self).air_drop_expire@[b]@;
                    &&& r is Ok
                    &&& final(self).miners@ == old(self).miners@.insert(
                        miner_address,
                        Miner { status: MinerStatus::Onboard, owner: who, ..old(self).miners@[miner_address] },
                    )
                    &&& final(self).static_data@ == old(self).static_data@.insert(
                        miner_address,
                        final(self).static_data@[miner_address],
                    )
                    &&& is_claim_static_data(final(self).static_data@[miner_address], now)
                    &&& list_view(final(self).air_drop_expire@) == (if drops.contains(miner_address) {
                        list_view(old(self).air_drop_expire@).insert(
                            b,
                            swap_removed(drops, first_index(drops, miner_address)),
                        )
                    } else {
                        list_view(old(self).air_drop_expire@)
                    })
                    &&& *final(self) == (Pallet {
                        miners: final(self).miners,
                        static_data: final(self).static_data,
                        air_drop_expire: final(self).air_drop_expire,
                        ..*old(self)
                    })
                },
            },
    {
        let who = ensure_signed(origin)?;
        let status = match self.miners.get(miner_address) {
            None => return Err(DispatchError::Module(Error::MinerIsNotExist)),
            Some(m) => m.status,
        };
        let blocknum = match status {
            MinerStatus::AirDrop(account, blocknum) => {
                if account != who {
                    return Err(DispatchError::Module(Error::CallerIsNotAirDropReceiver));
                }
                blocknum
            },
            _ => return Err(DispatchError::Module(Error::StatusIsNotAirDrop)),
        };
        let ind = match self.air_drop_expire.get(blocknum) {
            None => return Err(DispatchError::Module(Error::NoDropVectorFound)),
            Some(v) => position(v, miner_address),
        };
        let ghost old_self = *self;
        let mut registered = match self.miners.remove(miner_address) {
            Some(m) => m,
            None => return Err(DispatchError::Module(Error::MinerIsNotExist)),
        };
        registered.status = MinerStatus::Onboard;
        registered.owner = who;
        self.miners.insert(miner_address, registered);
        let new_static_data = MinerStaticData {
            start_hight: block_number_to_u32(now),
            location: Vec::new(),
            energy: Energy::Other,
            capabilities: 0,
            device_model: Vec::new(),
            serial_num: Vec::new(),
            sg_voltage: 0,
            sg_current: 0,
            sg_power_low: 0,
            sg_power_high: 0,
            sb_voltage: 0,
            sb_current: 0,
            sb_power_low: 0,
            sb_power_high: 0,
            sl_voltage: 0,
            sl_current: 0,
            sl_power_low: 0,
            sl_power_high: 0,
            total_charge_vol: 0,
            total_usage_vol: 0,
        };
        self.static_data.insert(miner_address, new_static_data);
        match ind {
            Some(i) => swap_remove_from_list(&mut self.air_drop_expire, blocknum, miner_address, i),
            None => {},
        }
        proof {
            if old_self.air_drops_listed() {
                let drops = old_self.air_drop_expire@[blocknum]@;
                let dv = list_view(old_self.air_drop_expire@);
                let l = list_view(self.air_drop_expire@);
                if drops.contains(miner_address) {
                    let fi = first_index(drops, miner_address);
                    assert(crate::lists::is_first_index(drops, miner_address, fi));
                    lemma_swap_removed_keeps(drops, fi);
                }
                assert forall|x: AccountId| #[trigger] self.miners@.dom().contains(x) implies match self.miners@[x].status {
                    MinerStatus::AirDrop(_, b) => self.air_drop_expire@.dom().contains(b)
                        && self.air_drop_expire@[b]@.contains(x),
                    _ => true,
                } by {
                    if let MinerStatus::AirDrop(_, b) = self.miners@[x].status {
                        assert(x != miner_address);
                        assert(old_self.miners@.dom().contains(x));
                        assert(old_self.air_drop_expire@[b]@.contains(x));
                        assert(dv.dom().contains(b) && dv[b].contains(x));
                        assert(l.dom().contains(b) && l[b].contains(x));
                        assert(l[b] == self.air_drop_expire@[b]@);
                    }
                }
            }
            assert(self.miners@ =~= old_self.miners@.insert(miner_address, self.miners@[miner_address]));
            if old_self.owned_consistent() {
                assert forall|o: AccountId, i: int|
                    self.owned_miners@.dom().contains(o) && 0 <= i < self.owned_miners@[o]@.len() implies {
                        let m = #[trigger] self.owned_miners@[o]@[i];
                        &&& self.miners@.dom().contains(m)
                        &&& self.miners@[m].owner == o
                        &&& !(self.miners@[m].status is Registered)
                        &&& !(self.miners@[m].status is AirDrop)
                    } by {
                    assert(old_self.owned_miners@[o]@[i] != miner_address);
                }
            }
        }
        Ok(())
    }

    /// The offchain worker's account pays the rewards of the current epoch
    /// from the paying account: one transfer per listed miner, of its
    /// number of tokens. The epoch stays marked unrewarded.
    pub fn reward_miners(&self, origin: Origin, epoch_rewards: Vec<MinerData>, reward_epoch_number: u32) -> (r: Result<Vec<Transfer>, DispatchError>)
        requires
            origin matches Origin::Signed(who) ==> (self.ocw == Some(who) && self.foundations is Some
                ==> self.current_epoc_cycle_info is Some),
        ensures
            r is Ok ==> self.current_epoc_cycle_info == Some(
                EpochInfo { epoch_num: reward_epoch_number, reward_status: EpochRewardStatus::Incomplete },
            ),
            self.current_epoc_cycle_info matches Some(info) && info.epoch_num != reward_epoch_number ==> r
                is Err,
            origin matches Origin::Signed(w) ==> (self.ocw == Some(w) ==> (self.foundations matches Some(f)
                ==> (self.current_epoc_cycle_info == Some(
                EpochInfo { epoch_num: reward_epoch_number, reward_status: EpochRewardStatus::Incomplete },
            ) ==> (r matches Ok(t) && t@ == reward_transfers(f, epoch_rewards@))))),
            match self.reward_check(origin, reward_epoch_number) {
                Err(e) => r == Err::<Vec<Transfer>, DispatchError>(e),
                Ok(f) => r matches Ok(t) && t@ == reward_transfers(f, epoch_rewards@),
            },
    {
        let who = ensure_signed(origin)?;
        match self.ocw {
            None => return Err(DispatchError::Module(Error::StatusIsNotAirDrop)),
            Some(aid) => {
                if aid != who {
                    return Err(DispatchError::Module(Error::StatusIsNotAirDrop));
                }
            },
        }
        let foundations = match self.foundations {
            None => return Err(DispatchError::Module(Error::StatusIsNotAirDrop)),
            Some(f) => f,
        };
        let current_epoch_cycle_info = match self.current_epoc_cycle_info {
            Some(info) => info,
            None => return Err(DispatchError::Module(Error::StatusIsNotAirDrop)),
        };
        let completed = match current_epoch_cycle_info.reward_status {
            EpochRewardStatus::Completed => true,
            EpochRewardStatus::Incomplete => false,
        };
        if current_epoch_cycle_info.epoch_num != reward_epoch_number || completed {
            return Err(DispatchError::Module(Error::StatusIsNotAirDrop));
        }
        let mut transfers: Vec<Transfer> = Vec::new();
        let mut i: usize = 0;
        while i < epoch_rewards.len()
            invariant
                i <= epoch_rewards@.len(),
                transfers@ == reward_transfers(foundations, epoch_rewards@).take(i as int),
            decreases epoch_rewards@.len() - i,
        {
            let mr = epoch_rewards[i];
            transfers.push(Transfer { from: foundations, to: mr.miner, amount: mr.data as Balance });
            proof {
                assert(transfers@ =~= reward_transfers(foundations, epoch_rewards@).take(i + 1));
            }
            i = i + 1;
        }
        proof {
            assert(reward_transfers(foundations, epoch_rewards@).take(i as int) =~= reward_transfers(foundations, epoch_rewards@));
        }
        Ok(transfers)
    }

    /// A signed miner adds `effectivedata` to its activity in the running
    /// epoch. A miner reporting for the first time in the epoch is placed
    /// last in the report order.
    pub fn miner_report(&mut self, origin: Origin, effectivedata: u8) -> (r: Result<(), DispatchError>)
        requires
            old(self).wf(),
            origin matches Origin::Signed(m) ==> (old(self).current_epoch_data@.dom().contains(m)
                ==> old(self).current_epoch_data@[m] + effectivedata <= u32::MAX),
        ensures
            final(self).wf(),
            match origin {
                Origin::Signed(m) => {
                    let before = old(self).current_epoch_data;
                    &&& r is Ok
                    &&& final(self).current_epoch_data@ == report_added(before@, m, effectivedata)
                    &&& final(self).current_epoch_data.key_seq() == (if before@.dom().contains(m) {
                        before.key_seq()
                    } else {
                        before.key_seq().push(m)
                    })
                    &&& *final(self) == (Pallet { current_epoch_data: final(self).current_epoch_data, ..*old(self) })
                },
                _ => r == Err::<(), DispatchError>(DispatchError::BadOrigin) && *final(self) == *old(self),
            },
    {
        let miner = ensure_signed(origin)?;
        match self.current_epoch_data.get(miner) {
            None => {
                self.current_epoch_data.insert(miner, effectivedata as u32);
            },
            Some(v) => {
                let v: u32 = *v;
                self.current_epoch_data.insert(miner, v + effectivedata as u32);
            },
        }
        Ok(())
    }
}

} // verus!

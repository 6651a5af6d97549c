use vstd::prelude::*;
use crate::account_map::AccountMap;
use crate::lists::list_view;
use crate::keys::{in_storage_order, insert_in_storage_order};
use crate::lists::lemma_take_one_more;
use crate::history::{
    capped, is_advanced_record, is_fresh_record, new_history_record, slot_of, update_history_record, window,
};
use crate::types::{
    AccountId, BlockNumber, EpochInfo, EpochRewardStatus, Event, Miner, MinerEpoches,
    MinerStaticData, MinerStatus, block_number_to_u32, block_u32,
};

verus! {

/// The constants that the runtime configures the pallet with.
#[derive(Clone, Copy, Debug, PartialEq, Eq, Structural)]
pub struct Config {
    /// The most miners that one owner may hold.
    pub max_miners_owned: u32,
    /// The length of an epoch in blocks.
    pub epoch_cycle_blocks: u32,
    /// The tokens shared among the rewarded miners of an epoch.
    pub epoch_total_rewards: u32,
}

/// The pallet: its configuration constants and everything it stores.
#[derive(Clone)]
pub struct Pallet {
    /// The constants that the runtime configures.
    pub config: Config,
    /// The registered miners, by address.
    pub miners: AccountMap<Miner>,
    /// The static data of the on-boarded miners, by address.
    pub static_data: AccountMap<MinerStaticData>,
    /// The administrator.
    pub admin: Option<AccountId>,
    /// The miners that each owner holds.
    pub owned_miners: AccountMap<Vec<AccountId>>,
    /// The air-dropped miners whose offer ends at a block, by block number.
    pub air_drop_expire: AccountMap<Vec<AccountId>>,
    /// The activity history of each miner.
    pub history_epoch_data: AccountMap<MinerEpoches>,
    /// The current epoch and whether its rewards were paid.
    pub current_epoc_cycle_info: Option<EpochInfo>,
    /// The activity that each miner reported in the running epoch.
    pub current_epoch_data: AccountMap<u32>,
    /// The miners that reported in the last closed epoch.
    pub current_epoch_miners: Option<Vec<AccountId>>,
    /// The account that signs the reward calls of the offchain worker.
    pub ocw: Option<AccountId>,
    /// The account that pays the rewards.
    pub foundations: Option<AccountId>,
    /// The events deposited so far.
    pub events: Vec<Event>,
}

/// The epoch that block `n` closes, if the block closes one: the block
/// number must fit in 32 bits, be nonzero and be a multiple of the cycle.
pub open spec fn closed_epoch(cycle: u32, n: BlockNumber) -> Option<u32> {
    let b = block_u32(n);
    if b == 0 || b % cycle != 0 {
        None
    } else {
        Some((b / cycle) as u32)
    }
}

/// Law: a block closes an epoch exactly when its 32-bit number is a nonzero
/// multiple of the cycle, and the epoch it closes is that number divided by
/// the cycle: a positive `e` with `e * cycle` equal to the block number.
pub proof fn lemma_closed_epoch_number(cycle: u32, n: BlockNumber)
    requires
        cycle > 0,
    ensures
        closed_epoch(cycle, n) is Some <==> (block_u32(n) != 0 && block_u32(n) % cycle == 0),
        closed_epoch(cycle, n) matches Some(e) ==> e > 0 && e * cycle == block_u32(n),
{
    let b = block_u32(n);
    if b != 0 && b % cycle == 0 {
        vstd::arithmetic::div_mod::lemma_fundamental_div_mod(b as int, cycle as int);
        vstd::arithmetic::div_mod::lemma_div_pos_is_pos(b as int, cycle as int);
        assert((b / cycle) as int * cycle == cycle * (b as int / cycle as int)) by (nonlinear_arith);
    }
}

/// What the history of miner `m` becomes when epoch `e` closes:
/// a reporting miner's record is created or moved on, any other is kept.
pub open spec fn history_after_epoch(
    old_history: Map<AccountId, MinerEpoches>,
    reports: Map<AccountId, u32>,
    e: u32,
    m: AccountId,
    r: MinerEpoches,
) -> bool {
    if reports.dom().contains(m) {
        if old_history.dom().contains(m) {
            is_advanced_record(old_history[m], e, reports[m], r)
        } else {
            is_fresh_record(e, reports[m], r)
        }
    } else {
        r == old_history[m]
    }
}

/// Law: when an epoch closes, the record of each miner that reported in it
/// has that epoch as its last, and the epoch's slot holds the reported
/// activity, capped at 12.
pub proof fn lemma_closed_epoch_slot(
    old_history: Map<AccountId, MinerEpoches>,
    reports: Map<AccountId, u32>,
    e: u32,
    m: AccountId,
    r: MinerEpoches,
)
    requires
        reports.dom().contains(m),
        history_after_epoch(old_history, reports, e, m, r),
    ensures
        r.last_epoch == e,
        r.epochs@[slot_of(e as int)] == capped(reports[m]),
{
    if !old_history.dom().contains(m) {
        vstd::arithmetic::div_mod::lemma_mod_bound(e as int, window());
    }
}

/// A miner's status may go from `a` to `b`: it stays, a registered miner is
/// on-boarded or air-dropped, an air-dropped miner is claimed, any miner is
/// terminated, and a miner that is not on board expires.
pub open spec fn lifecycle_step(a: MinerStatus, b: MinerStatus) -> bool {
    ||| a == b
    ||| (a is Registered && (b is Onboard || b is AirDrop))
    ||| (a is AirDrop && b is Onboard)
    ||| b is Terminated
    ||| (!(a is Onboard) && b is Expire)
}

/// From `before` to `after` no miner disappears and every status moves
/// along the life cycle.
pub open spec fn miners_step(before: Map<AccountId, Miner>, after: Map<AccountId, Miner>) -> bool {
    forall|m: AccountId|
        #[trigger] before.dom().contains(m) ==> after.dom().contains(m) && lifecycle_step(
            before[m].status,
            after[m].status,
        )
}

/// Whether `x` is on one of the lists.
pub open spec fn is_listed(lists: Map<u64, Seq<AccountId>>, x: AccountId) -> bool {
    exists|o: u64| lists.dom().contains(o) && #[trigger] lists[o].contains(x)
}

/// The places (list owner, position) where `x` stands over all lists.
pub open spec fn positions(lists: Map<u64, Seq<AccountId>>, x: AccountId) -> Set<(u64, int)> {
    Set::new(|p: (u64, int)| lists.dom().contains(p.0) && 0 <= p.1 < lists[p.0].len() && lists[p.0][p.1] == x)
}

/// How many times `x` stands in the lists taken together (its count in
/// the multiset union of the lists).
pub open spec fn occurrences(lists: Map<u64, Seq<AccountId>>, x: AccountId) -> nat {
    positions(lists, x).len()
}

/// The miners once every miner listed in `list` that is not on board is
/// marked expired.
pub open spec fn expired(miners: Map<AccountId, Miner>, list: Seq<AccountId>) -> Map<AccountId, Miner> {
    Map::new(
        |k: AccountId| miners.dom().contains(k),
        |k: AccountId|
            if list.contains(k) && miners[k].status != MinerStatus::Onboard {
                Miner { status: MinerStatus::Expire, ..miners[k] }
            } else {
                miners[k]
            },
    )
}

/// `k` is the first position of `list` whose miner is not registered.
pub open spec fn is_first_unregistered(miners: Map<AccountId, Miner>, list: Seq<AccountId>, k: int) -> bool {
    &&& 0 <= k < list.len()
    &&& !miners.dom().contains(list[k])
    &&& forall|j: int| 0 <= j < k ==> #[trigger] miners.dom().contains(list[j])
}

/// What the start of block `n` does to the pallet `before`, giving
/// `after`: with no air drops ending at `n`, nothing. Otherwise each listed
/// miner that is not on board expires and the list is dropped; but a listed
/// miner that is not registered stops the walk there, the miners before it
/// expired and the list kept.
pub open spec fn expiry_step(before: Pallet, n: BlockNumber, after: Pallet) -> bool {
    if !before.air_drop_expire@.dom().contains(n) {
        after == before
    } else {
        let list = before.air_drop_expire@[n]@;
        &&& (forall|i: int| 0 <= i < list.len() ==> before.miners@.dom().contains(#[trigger] list[i])) ==> {
            &&& after.miners@ == expired(before.miners@, list)
            &&& after.air_drop_expire@ == before.air_drop_expire@.remove(n)
        }
        &&& !(forall|i: int| 0 <= i < list.len() ==> before.miners@.dom().contains(#[trigger] list[i])) ==> {
            let k = choose|k: int| is_first_unregistered(before.miners@, list, k);
            &&& after.miners@ == expired(before.miners@, list.take(k))
            &&& after.air_drop_expire@ == before.air_drop_expire@
        }
        &&& after == (Pallet { miners: after.miners, air_drop_expire: after.air_drop_expire, ..before })
    }
}

/// Law: an air drop that nobody claimed expires exactly at its expiry
/// block. Where every air-dropped miner is on the list of its expiry block,
/// a miner still offered until block `x` is expired by the start of block
/// `x`, and the list of `x` is dropped, provided every miner on that list is
/// registered.
pub proof fn lemma_unclaimed_air_drop_expires(
    before: Pallet,
    x: BlockNumber,
    after: Pallet,
    a: AccountId,
    receiver: AccountId,
)
    requires
        before.air_drops_listed(),
        before.miners@.dom().contains(a),
        before.miners@[a].status == MinerStatus::AirDrop(receiver, x),
        before.air_drop_expire@.dom().contains(x) ==> forall|i: int|
            0 <= i < before.air_drop_expire@[x]@.len() ==> before.miners@.dom().contains(
                #[trigger] before.air_drop_expire@[x]@[i],
            ),
        expiry_step(before, x, after),
    ensures
        after.miners@.dom().contains(a),
        after.miners@[a].status == MinerStatus::Expire,
        !after.air_drop_expire@.dom().contains(x),
{
    assert(before.air_drop_expire@.dom().contains(x) && before.air_drop_expire@[x]@.contains(a));
}

/// Where a listed miner is not registered, there is a first such one.
proof fn lemma_first_unregistered_exists(miners: Map<AccountId, Miner>, list: Seq<AccountId>, j: int)
    requires
        0 <= j < list.len(),
        !miners.dom().contains(list[j]),
    ensures
        exists|k: int| is_first_unregistered(miners, list, k),
    decreases j,
{
    if forall|i: int| 0 <= i < j ==> #[trigger] miners.dom().contains(list[i]) {
        assert(is_first_unregistered(miners, list, j));
    } else {
        let i = choose|i: int| 0 <= i < j && !miners.dom().contains(#[trigger] list[i]);
        lemma_first_unregistered_exists(miners, list, i);
    }
}

/// Law: the start of a block expires only air drops: an on-board miner
/// stays on board, and a miner on no list of that block keeps its record;
/// no miner is added or removed.
pub proof fn lemma_expiry_spares_onboard(before: Pallet, n: BlockNumber, after: Pallet, a: AccountId)
    requires
        expiry_step(before, n, after),
        before.miners@.dom().contains(a),
    ensures
        after.miners@.dom() == before.miners@.dom(),
        before.miners@[a].status == MinerStatus::Onboard ==> after.miners@[a] == before.miners@[a],
        !(before.air_drop_expire@.dom().contains(n) && before.air_drop_expire@[n]@.contains(a))
            ==> after.miners@[a] == before.miners@[a],
{
    if before.air_drop_expire@.dom().contains(n) {
        let list = before.air_drop_expire@[n]@;
        if !(forall|i: int| 0 <= i < list.len() ==> before.miners@.dom().contains(#[trigger] list[i])) {
            let k = choose|k: int| is_first_unregistered(before.miners@, list, k);
            assert(exists|k: int| is_first_unregistered(before.miners@, list, k)) by {
                let j = choose|j: int| 0 <= j < list.len() && !before.miners@.dom().contains(#[trigger] list[j]);
                lemma_first_unregistered_exists(before.miners@, list, j);
            }
            if list.take(k).contains(a) {
                let j = choose|j: int| 0 <= j < k && list.take(k)[j] == a;
                assert(list[j] == a);
            }
            assert(after.miners@.dom() =~= before.miners@.dom());
        } else {
            assert(after.miners@.dom() =~= before.miners@.dom());
        }
    }
}

impl Pallet {
    /// Every storage map is well formed.
    pub open spec fn wf(&self) -> bool {
        &&& self.miners.wf()
        &&& self.static_data.wf()
        &&& self.owned_miners.wf()
        &&& self.air_drop_expire.wf()
        &&& self.history_epoch_data.wf()
        &&& self.current_epoch_data.wf()
    }

    /// The owned-miner lists agree with the miner records: every listed
    /// miner is registered, owned by the list's owner, and past the
    /// registered and air-dropped states, and no list holds a miner twice.
    /// So a miner is listed at most once over all lists.
    pub open spec fn owned_consistent(&self) -> bool {
        &&& forall|o: AccountId, i: int|
            #![trigger self.owned_miners@[o]@[i]]
            self.owned_miners@.dom().contains(o) && 0 <= i < self.owned_miners@[o]@.len() ==> {
                let m = self.owned_miners@[o]@[i];
                &&& self.miners@.dom().contains(m)
                &&& self.miners@[m].owner == o
                &&& !(self.miners@[m].status is Registered)
                &&& !(self.miners@[m].status is AirDrop)
            }
        &&& forall|o: AccountId|
            #[trigger] self.owned_miners@.dom().contains(o) ==> self.owned_miners@[o]@.no_duplicates()
    }

    /// Every on-board miner is on its owner's list. (The calls other than
    /// `claim` keep this; a claimed miner is on board but on no list.)
    pub open spec fn onboard_listed(&self) -> bool {
        forall|x: AccountId|
            #[trigger] self.miners@.dom().contains(x) && self.miners@[x].status is Onboard ==> {
                let o = self.miners@[x].owner;
                self.owned_miners@.dom().contains(o) && self.owned_miners@[o]@.contains(x)
            }
    }

    /// No owner's list is longer than the configured maximum.
    pub open spec fn lists_bounded(&self) -> bool {
        forall|o: AccountId|
            #[trigger] self.owned_miners@.dom().contains(o) ==> self.owned_miners@[o]@.len()
                <= self.config.max_miners_owned
    }

    /// Every miner record is stored under its own address.
    pub open spec fn addresses_match(&self) -> bool {
        forall|k: AccountId| #[trigger] self.miners@.dom().contains(k) ==> self.miners@[k].address == k
    }

    /// Every air-dropped miner is on the air-drop list of its expiry block.
    pub open spec fn air_drops_listed(&self) -> bool {
        forall|x: AccountId|
            #[trigger] self.miners@.dom().contains(x) ==> match self.miners@[x].status {
                MinerStatus::AirDrop(_, b) => self.air_drop_expire@.dom().contains(b)
                    && self.air_drop_expire@[b]@.contains(x),
                _ => true,
            }
    }

    /// Law: where the owned lists are consistent and every on-board miner
    /// is listed, an on-board miner is on exactly one list, its owner's,
    /// and there exactly once: it stands once in the lists taken together.
    pub proof fn lemma_onboard_listed_once(&self, x: AccountId)
        requires
            self.owned_consistent(),
            self.onboard_listed(),
            self.miners@.dom().contains(x),
            self.miners@[x].status is Onboard,
        ensures
            ({
                let o = self.miners@[x].owner;
                &&& self.owned_miners@.dom().contains(o)
                &&& self.owned_miners@[o]@.contains(x)
                &&& forall|i: int, j: int|
                    0 <= i < j < self.owned_miners@[o]@.len() ==> !(self.owned_miners@[o]@[i] == x
                        && self.owned_miners@[o]@[j] == x)
                &&& forall|p: AccountId|
                    #[trigger] self.owned_miners@.dom().contains(p) && self.owned_miners@[p]@.contains(x)
                        ==> p == o
                &&& occurrences(list_view(self.owned_miners@), x) == 1
            }),
    {
        self.lemma_occurrences(x);
        let l = list_view(self.owned_miners@);
        assert(l.dom().contains(self.miners@[x].owner) && l[self.miners@[x].owner] == self.owned_miners@[self.miners@[x].owner]@);
        let o = self.miners@[x].owner;
        assert(self.owned_miners@[o]@.no_duplicates());
        assert forall|p: AccountId|
            #[trigger] self.owned_miners@.dom().contains(p) && self.owned_miners@[p]@.contains(x) implies p == o by {
            let i = choose|i: int| 0 <= i < self.owned_miners@[p]@.len() && self.owned_miners@[p]@[i] == x;
            assert(self.miners@[self.owned_miners@[p]@[i]].owner == p);
        }
    }

    /// Law: where the owned lists are consistent, a miner stands once in
    /// the lists taken together if it is listed, and not at all otherwise.
    pub proof fn lemma_occurrences(&self, x: AccountId)
        requires
            self.owned_consistent(),
        ensures
            positions(list_view(self.owned_miners@), x).finite(),
            occurrences(list_view(self.owned_miners@), x) == (if is_listed(list_view(self.owned_miners@), x) {
                1nat
            } else {
                0nat
            }),
    {
        let l = list_view(self.owned_miners@);
        let ps = positions(l, x);
        if is_listed(l, x) {
            let o = choose|o: u64| l.dom().contains(o) && #[trigger] l[o].contains(x);
            let i = choose|i: int| 0 <= i < l[o].len() && l[o][i] == x;
            assert(self.owned_miners@[o]@[i] == x);
            assert forall|p: (u64, int)| #[trigger] ps.contains(p) implies p == (o, i) by {
                assert(self.owned_miners@[p.0]@[p.1] == x);
                assert(self.miners@[x].owner == p.0);
                assert(self.owned_miners@[o]@.no_duplicates());
            }
            assert(ps =~= set![(o, i)]);
        } else {
            assert forall|p: (u64, int)| !#[trigger] ps.contains(p) by {
                if ps.contains(p) {
                    assert(l[p.0][p.1] == x);
                    assert(l.dom().contains(p.0) && l[p.0].contains(x));
                }
            }
            assert(ps =~= Set::<(u64, int)>::empty());
        }
    }

    /// A pallet with the given constants and empty storage.
    pub fn new(config: Config) -> (r: Self)
        ensures
            r.wf(),
            r.owned_consistent(),
            r.onboard_listed(),
            r.lists_bounded(),
            r.addresses_match(),
            r.air_drops_listed(),
            r.config == config,
            r.miners@ == Map::<AccountId, Miner>::empty(),
            r.static_data@ == Map::<AccountId, MinerStaticData>::empty(),
            r.admin is None,
            r.owned_miners@ == Map::<AccountId, Vec<AccountId>>::empty(),
            r.air_drop_expire@ == Map::<BlockNumber, Vec<AccountId>>::empty(),
            r.history_epoch_data@ == Map::<AccountId, MinerEpoches>::empty(),
            r.current_epoc_cycle_info is None,
            r.current_epoch_data@ == Map::<AccountId, u32>::empty(),
            r.current_epoch_data.key_seq() == Seq::<AccountId>::empty(),
            r.current_epoch_miners is None,
            r.ocw is None,
            r.foundations is None,
            r.events@ == Seq::<Event>::empty(),
    {
        Pallet {
            config,
            miners: AccountMap::new(),
            static_data: AccountMap::new(),
            admin: None,
            owned_miners: AccountMap::new(),
            air_drop_expire: AccountMap::new(),
            history_epoch_data: AccountMap::new(),
            current_epoc_cycle_info: None,
            current_epoch_data: AccountMap::new(),
            current_epoch_miners: None,
            ocw: None,
            foundations: None,
            events: Vec::new(),
        }
    }

    /// The miner registered at `addr`.
    pub fn get_miners(&self, addr: AccountId) -> (r: Option<&Miner>)
        requires
            self.wf(),
        ensures
            match r {
                Some(x) => self.miners@.dom().contains(addr) && *x == self.miners@[addr],
                None => !self.miners@.dom().contains(addr),
            },
    {
        self.miners.get(addr)
    }

    /// The static data of the miner at `addr`.
    pub fn get_static_data(&self, addr: AccountId) -> (r: Option<&MinerStaticData>)
        requires
            self.wf(),
        ensures
            match r {
                Some(x) => self.static_data@.dom().contains(addr) && *x == self.static_data@[addr],
                None => !self.static_data@.dom().contains(addr),
            },
    {
        self.static_data.get(addr)
    }

    /// The administrator.
    pub fn get_admin(&self) -> (r: Option<AccountId>)
        ensures
            r == self.admin,
    {
        self.admin
    }

    /// The miners that `owner` holds.
    pub fn get_owned_miners(&self, owner: AccountId) -> (r: Option<&Vec<AccountId>>)
        requires
            self.wf(),
        ensures
            match r {
                Some(x) => self.owned_miners@.dom().contains(owner) && *x == self.owned_miners@[owner],
                None => !self.owned_miners@.dom().contains(owner),
            },
    {
        self.owned_miners.get(owner)
    }

    /// The air-dropped miners whose offer ends at block `n`.
    pub fn get_ari_drop_miners(&self, n: BlockNumber) -> (r: Option<&Vec<AccountId>>)
        requires
            self.wf(),
        ensures
            match r {
                Some(x) => self.air_drop_expire@.dom().contains(n) && *x == self.air_drop_expire@[n],
                None => !self.air_drop_expire@.dom().contains(n),
            },
    {
        self.air_drop_expire.get(n)
    }

    /// The activity history of the miner at `addr`.
    pub fn get_miners_epoc_data(&self, addr: AccountId) -> (r: Option<MinerEpoches>)
        requires
            self.wf(),
        ensures
            r == self.history_epoch_data@.get(addr),
    {
        match self.history_epoch_data.get(addr) {
            Some(h) => Some(*h),
            None => None,
        }
    }

    /// At the start of block `n`, the air drops that end at `n` expire:
    /// each listed miner that is not on board is marked expired, and the
    /// list is dropped. A listed miner that is not registered stops the
    /// walk there: the miners before it stay changed and the list stays.
    /// Returns the weight used, 0.
    pub fn on_initialize(&mut self, n: BlockNumber) -> (r: u64)
        requires
            old(self).wf(),
        ensures
            r == 0,
            final(self).wf(),
            miners_step(old(self).miners@, final(self).miners@),
            old(self).onboard_listed() ==> final(self).onboard_listed(),
            old(self).addresses_match() ==> final(self).addresses_match(),
            old(self).air_drops_listed() ==> final(self).air_drops_listed(),
            old(self).owned_consistent() ==> final(self).owned_consistent(),
            expiry_step(*old(self), n, *final(self)),
    {
        if !self.air_drop_expire.contains_key(n) {
            return 0;
        }
        let ghost old_miners = self.miners@;
        let v = match self.air_drop_expire.get(n) {
            None => return 0,
            Some(v) => v,
        };
        let ghost list = v@;
        let mut i: usize = 0;
        while i < v.len()
            invariant
                self.wf(),
                list == v@,
                old(self).air_drop_expire@.dom().contains(n),
                list == old(self).air_drop_expire@[n]@,
                *self == (Pallet { miners: self.miners, ..*old(self) }),
                old_miners == old(self).miners@,
                i <= list.len(),
                forall|j: int| 0 <= j < i ==> old_miners.dom().contains(#[trigger] list[j]),
                self.miners@ == expired(old_miners, list.take(i as int)),
            decreases list.len() - i,
        {
            let miner_address = v[i];
            let mut miner = match self.miners.remove(miner_address) {
                None => {
                    proof {
                        assert(!old_miners.dom().contains(list[i as int]));
                        assert(is_first_unregistered(old_miners, list, i as int));
                        let k = choose|k: int| is_first_unregistered(old_miners, list, k);
                        if k < i {
                            assert(old_miners.dom().contains(list[k]));
                        } else if k > i {
                            assert(old_miners.dom().contains(list[i as int]));
                        }
                        if old(self).owned_consistent() {
                            self.lemma_expired_consistent(*old(self), list.take(i as int));
                        }
                    }
                    return 0;
                },
                Some(m) => m,
            };
            match miner.status {
                MinerStatus::Onboard => {},
                _ => {
                    miner.status = MinerStatus::Expire;
                },
            }
            self.miners.insert(miner_address, miner);
            proof {
                lemma_take_one_more(list, i as int);
                assert(self.miners@ =~= expired(old_miners, list.take(i + 1)));
            }
            i = i + 1;
        }
        proof {
            assert(list.take(i as int) =~= list);
        }
        self.air_drop_expire.remove(n);
        proof {
            if old(self).owned_consistent() {
                self.lemma_expired_consistent(*old(self), list);
            }
        }
        0
    }

    /// Expiring miners keeps the owned lists consistent.
    proof fn lemma_expired_consistent(&self, prev: Pallet, list: Seq<AccountId>)
        requires
            prev.owned_consistent(),
            self.miners@ == expired(prev.miners@, list),
            self.owned_miners == prev.owned_miners,
        ensures
            self.owned_consistent(),
    {
        assert forall|o: AccountId, i: int|
            self.owned_miners@.dom().contains(o) && 0 <= i < self.owned_miners@[o]@.len() implies {
                let m = #[trigger] self.owned_miners@[o]@[i];
                &&& self.miners@.dom().contains(m)
                &&& self.miners@[m].owner == o
                &&& !(self.miners@[m].status is Registered)
                &&& !(self.miners@[m].status is AirDrop)
            } by {
            assert(prev.owned_miners@[o]@[i] == self.owned_miners@[o]@[i]);
        }
    }

    /// Closes an epoch at the end of a block whose number is a nonzero
    /// multiple of the cycle: records the epoch as unrewarded, lists the
    /// miners that reported in it in the order in which the storage walks
    /// the reports (by storage key), moves each such miner's history on to it
    /// and clears the reports. Any other block changes nothing.
    pub fn on_finalize(&mut self, n: BlockNumber)
        requires
            old(self).wf(),
            old(self).config.epoch_cycle_blocks > 0,
            closed_epoch(old(self).config.epoch_cycle_blocks, n) matches Some(e) ==> forall|m: AccountId|
                old(self).current_epoch_data@.dom().contains(m)
                    && old(self).history_epoch_data@.dom().contains(m) ==> #[trigger] old(
                    self,
                ).history_epoch_data@[m].last_epoch < e,
        ensures
            final(self).wf(),
            block_u32(n) != 0 && block_u32(n) % old(self).config.epoch_cycle_blocks == 0 ==> {
                &&& final(self).current_epoc_cycle_info matches Some(info)
                    && info.epoch_num * old(self).config.epoch_cycle_blocks == block_u32(n)
                    && info.reward_status == EpochRewardStatus::Incomplete
                &&& forall|m: AccountId|
                    #[trigger] old(self).current_epoch_data@.dom().contains(m) ==> {
                        let r = final(self).history_epoch_data@[m];
                        &&& final(self).history_epoch_data@.dom().contains(m)
                        &&& r.last_epoch * old(self).config.epoch_cycle_blocks == block_u32(n)
                        &&& r.epochs@[slot_of(r.last_epoch as int)] == capped(
                            old(self).current_epoch_data@[m],
                        )
                    }
            },
            block_u32(n) == 0 || block_u32(n) % old(self).config.epoch_cycle_blocks != 0 ==> *final(self)
                == *old(self),
            match closed_epoch(old(self).config.epoch_cycle_blocks, n) {
                None => *final(self) == *old(self),
                Some(e) => {
                    &&& final(self).current_epoc_cycle_info == Some(
                        EpochInfo { epoch_num: e, reward_status: EpochRewardStatus::Incomplete },
                    )
                    &&& final(self).current_epoch_miners matches Some(v) && in_storage_order(v@) && forall|x: AccountId|
                        #[trigger] v@.contains(x) <==> old(self).current_epoch_data@.dom().contains(x)
                    &&& final(self).current_epoch_data@ == Map::<AccountId, u32>::empty()
                    &&& final(self).history_epoch_data@.dom() == old(
                        self,
                    ).history_epoch_data@.dom().union(old(self).current_epoch_data@.dom())
                    &&& forall|m: AccountId|
                        #[trigger] final(self).history_epoch_data@.dom().contains(m)
                            ==> history_after_epoch(
                            old(self).history_epoch_data@,
                            old(self).current_epoch_data@,
                            e,
                            m,
                            final(self).history_epoch_data@[m],
                        )
                    &&& *final(self) == (Pallet {
                        current_epoc_cycle_info: final(self).current_epoc_cycle_info,
                        current_epoch_miners: final(self).current_epoch_miners,
                        current_epoch_data: final(self).current_epoch_data,
                        history_epoch_data: final(self).history_epoch_data,
                        ..*old(self)
                    })
                },
            },
    {
        let block_num: u32 = block_number_to_u32(n);
        if block_num % self.config.epoch_cycle_blocks != 0 || block_num == 0 {
            return;
        }
        let epoch_num = block_num / self.config.epoch_cycle_blocks;
        self.current_epoc_cycle_info = Some(
            EpochInfo { epoch_num, reward_status: EpochRewardStatus::Incomplete },
        );
        let mut epoch_miners: Vec<AccountId> = Vec::new();
        let ghost reports = self.current_epoch_data@;
        let ghost keys = self.current_epoch_data.key_seq();
        let ghost old_history = self.history_epoch_data@;
        proof {
            self.current_epoch_data.lemma_key_seq();
        }
        let len = self.current_epoch_data.len();
        let mut i: usize = 0;
        while i < len
            invariant
                self.wf(),
                *self == (Pallet {
                    history_epoch_data: self.history_epoch_data,
                    current_epoc_cycle_info: self.current_epoc_cycle_info,
                    ..*old(self)
                }),
                self.current_epoc_cycle_info == Some(
                    EpochInfo { epoch_num, reward_status: EpochRewardStatus::Incomplete },
                ),
                i <= len,
                len == keys.len(),
                keys.no_duplicates(),
                forall|m: AccountId| reports.dom().contains(m) <==> #[trigger] keys.contains(m),
                self.current_epoch_data@ == reports,
                self.current_epoch_data.key_seq() == keys,
                in_storage_order(epoch_miners@),
                forall|x: AccountId| #[trigger] epoch_miners@.contains(x) <==> keys.take(i as int).contains(x),
                forall|m: AccountId|
                    reports.dom().contains(m) && old_history.dom().contains(m) ==> #[trigger] old_history[m].last_epoch
                        < epoch_num,
                forall|m: AccountId|
                    #[trigger] self.history_epoch_data@.dom().contains(m) <==> old_history.dom().contains(m)
                        || keys.take(i as int).contains(m),
                forall|m: AccountId|
                    #[trigger] self.history_epoch_data@.dom().contains(m) ==> history_after_epoch(
                        old_history,
                        if keys.take(i as int).contains(m) { reports } else { Map::empty() },
                        epoch_num,
                        m,
                        self.history_epoch_data@[m],
                    ),
            decreases len - i,
        {
            let (miner, value) = self.current_epoch_data.entry_at(i);
            let value: u32 = *value;
            proof {
                // each reporting miner is visited once
                assert(!keys.take(i as int).contains(miner)) by {
                    if keys.take(i as int).contains(miner) {
                        let j = choose|j: int| 0 <= j < i && keys.take(i as int)[j] == miner;
                        assert(keys[j] == keys[i as int]);
                    }
                }
                assert(keys.take(i + 1) =~= keys.take(i as int).push(miner));
            }
            let record = match self.history_epoch_data.get(miner) {
                None => new_history_record(epoch_num, value),
                Some(s) => update_history_record(*s, epoch_num, value),
            };
            let ghost prev = self.history_epoch_data@;
            self.history_epoch_data.insert(miner, record);
            insert_in_storage_order(&mut epoch_miners, miner);
            proof {
                let after = keys.take(i + 1);
                lemma_take_one_more(keys, i as int);
                assert forall|m: AccountId| #[trigger] self.history_epoch_data@.dom().contains(m)
                    implies history_after_epoch(
                        old_history,
                        if after.contains(m) { reports } else { Map::empty() },
                        epoch_num,
                        m,
                        self.history_epoch_data@[m],
                    ) by {
                    if m != miner {
                        assert(prev.dom().contains(m));
                    }
                }
            }
            i = i + 1;
        }
        proof {
            assert(keys.take(len as int) =~= keys);
        }
        self.current_epoch_miners = Some(epoch_miners);
        self.current_epoch_data.clear();
        proof {
            assert(self.history_epoch_data@.dom() =~= old_history.dom().union(reports.dom()));
            assert(closed_epoch(old(self).config.epoch_cycle_blocks, n) == Some(epoch_num));
            lemma_closed_epoch_number(old(self).config.epoch_cycle_blocks, n);
            assert forall|m: AccountId| #[trigger] self.history_epoch_data@.dom().contains(m)
                implies history_after_epoch(old_history, reports, epoch_num, m, self.history_epoch_data@[m]) by {
                assert(keys.take(len as int).contains(m) == keys.contains(m));
            }
            assert forall|m: AccountId| #[trigger] reports.dom().contains(m) implies {
                let r = self.history_epoch_data@[m];
                &&& self.history_epoch_data@.dom().contains(m)
                &&& r.last_epoch * old(self).config.epoch_cycle_blocks == block_u32(n)
                &&& r.epochs@[slot_of(r.last_epoch as int)] == capped(reports[m])
            } by {
                assert(self.history_epoch_data@.dom().contains(m));
                lemma_closed_epoch_slot(old_history, reports, epoch_num, m, self.history_epoch_data@[m]);
            }
            assert forall|x: AccountId| #[trigger] epoch_miners@.contains(x) <==> reports.dom().contains(x) by {
                assert(keys.take(len as int).contains(x) == keys.contains(x));
            }
        }
    }
}

} // verus!

use vstd::prelude::*;

verus! {

/// An account of the chain, identified by a 64-bit number.
pub type AccountId = u64;

/// A block height.
pub type BlockNumber = u64;

/// An amount of the chain's currency.
pub type Balance = u128;

/// The number of epochs that a miner's activity history keeps.
pub const STATISTICSWINDOW: usize = 10;

/// The most that one epoch slot of a miner's history counts.
pub const EPOCH_SLOT_CAP: u32 = 12;

/// The kind of device a miner is.
#[derive(Clone, Copy, Debug, PartialEq, Eq, Structural)]
pub enum MinerClass {
    Game,
    Virtual,
    API,
    LitePV,
    StandardPV,
}

/// Where a miner stands in its life cycle.
#[derive(Clone, Copy, Debug, PartialEq, Eq, Structural)]
pub enum MinerStatus {
    Locked,
    Registered,
    Onboard,
    /// Offered to the receiver until the given block.
    AirDrop(AccountId, BlockNumber),
    Expire,
    Terminated,
}

/// The energy source of a miner.
#[derive(Clone, Copy, Debug, PartialEq, Eq, Structural)]
pub enum Energy {
    Light,
    Wind,
    Water,
    Other,
}

/// Whether the rewards of an epoch were paid.
#[derive(Clone, Copy, Debug, PartialEq, Eq, Structural)]
pub enum EpochRewardStatus {
    Completed,
    Incomplete,
}

/// The epoch that the chain is in and the state of its rewards.
#[derive(Clone, Copy, Debug, PartialEq, Eq, Structural)]
pub struct EpochInfo {
    pub epoch_num: u32,
    pub reward_status: EpochRewardStatus,
}

/// The static description of a miner, given when it is on-boarded.
#[derive(Clone, Debug, PartialEq, Eq)]
pub struct MinerStaticData {
    pub start_hight: u32,
    pub location: Vec<u8>,
    pub energy: Energy,
    pub capabilities: u32,
    pub device_model: Vec<u8>,
    pub serial_num: Vec<u8>,
    pub sg_voltage: u32,
    pub sg_current: u32,
    pub sg_power_low: u32,
    pub sg_power_high: u32,
    pub sb_voltage: u32,
    pub sb_current: u32,
    pub sb_power_low: u32,
    pub sb_power_high: u32,
    pub sl_voltage: u32,
    pub sl_current: u32,
    pub sl_power_low: u32,
    pub sl_power_high: u32,
    pub total_charge_vol: u32,
    pub total_usage_vol: u32,
}

/// A registered miner.
#[derive(Clone, Debug, PartialEq, Eq)]
pub struct Miner {
    pub class: MinerClass,
    pub maker: Vec<u8>,
    pub address: AccountId,
    pub status: MinerStatus,
    pub owner: AccountId,
    pub location: Vec<u8>,
    pub staking_fee: u128,
}

/// A miner's activity over the last `STATISTICSWINDOW` epochs: slot
/// `e % STATISTICSWINDOW` holds the capped activity of epoch `e`.
#[derive(Clone, Copy, Debug, PartialEq, Eq)]
pub struct MinerEpoches {
    pub epochs: [u8; 10],
    pub last_epoch: u32,
    pub total_count: u32,
}

/// A miner with a number attached: its activity count, or its reward.
#[derive(Clone, Copy, Debug, PartialEq, Eq, Structural)]
pub struct MinerData {
    pub miner: AccountId,
    pub data: u32,
}

/// The events that the pallet deposits.
#[derive(Clone, Debug, PartialEq, Eq)]
pub enum Event {
    SomethingStored(u32, AccountId),
    NewMinerRegisted(AccountId),
    AdminIsSet(AccountId),
    MinerOnBoard(AccountId, Vec<u8>, u128),
}

/// The errors of the pallet.
#[derive(Clone, Copy, Debug, PartialEq, Eq, Structural)]
pub enum Error {
    NoneValue,
    StorageOverflow,
    AdminIsNotSet,
    CallerIsNotAdmin,
    MinerIsNotExist,
    OwnerNotMatch,
    ExceedMaxMainerOwned,
    AlreadyOnBoard,
    NoOwnedVectorFound,
    MinerNotFound,
    NoDropVectorFound,
    StatusIsNotRegistered,
    StatusIsNotAirDrop,
    CallerIsNotAirDropReceiver,
    SignatureVerifyError,
    OffchainSignedTxError,
    NoLocalAcctForSigning,
}

/// Why a call was refused: its origin was not the one it needs, or the
/// pallet refused it with one of its errors.
#[derive(Clone, Copy, Debug, PartialEq, Eq, Structural)]
pub enum DispatchError {
    BadOrigin,
    Module(Error),
}

/// Who made a call: the root account, a signed account, or nobody
/// (an unsigned call).
#[derive(Clone, Copy, Debug, PartialEq, Eq, Structural)]
pub enum Origin {
    Root,
    Signed(AccountId),
    Unsigned,
}

/// A transfer that a call asks the chain's currency to make, keeping the
/// sender's account alive.
#[derive(Clone, Copy, Debug, PartialEq, Eq, Structural)]
pub struct Transfer {
    pub from: AccountId,
    pub to: AccountId,
    pub amount: Balance,
}

/// The signed account of an origin, or the refusal that a call requiring one
/// gives.
pub fn ensure_signed(origin: Origin) -> (r: Result<AccountId, DispatchError>)
    ensures
        match origin {
            Origin::Signed(who) => r == Ok::<AccountId, DispatchError>(who),
            _ => r == Err::<AccountId, DispatchError>(DispatchError::BadOrigin),
        },
{
    match origin {
        Origin::Signed(who) => Ok(who),
        _ => Err(DispatchError::BadOrigin),
    }
}

/// Accepts the root origin only.
pub fn ensure_root(origin: Origin) -> (r: Result<(), DispatchError>)
    ensures
        match origin {
            Origin::Root => r == Ok::<(), DispatchError>(()),
            _ => r == Err::<(), DispatchError>(DispatchError::BadOrigin),
        },
{
    match origin {
        Origin::Root => Ok(()),
        _ => Err(DispatchError::BadOrigin),
    }
}

/// A block number as a 32-bit number, or 0 where it does not fit.
pub open spec fn block_u32(n: BlockNumber) -> u32 {
    if n <= u32::MAX { n as u32 } else { 0u32 }
}

/// A block number as a 32-bit number, or 0 where it does not fit.
pub fn block_number_to_u32(n: BlockNumber) -> (r: u32)
    ensures
        r == block_u32(n),
{
    if n <= u32::MAX as u64 {
        n as u32
    } else {
        0
    }
}

} // verus!

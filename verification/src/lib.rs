//! The xenon miner pallet: miner registration, on-boarding,
//! ownership transfer, air drops, per-epoch activity statistics and the
//! selection of miners that share the epoch rewards.

pub mod account_map;
pub mod types;
pub mod history;
pub mod keys;
pub mod lists;
pub mod pallet;
pub mod calls;
pub mod word;
pub mod crypto;
pub mod offchain;

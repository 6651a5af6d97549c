# xenon

The xenon miner pallet as a verified Verus library: an administrator
registers miners; owners on-board them and transfer them between each other;
miners can be air-dropped to a receiver, who claims them before the offer
expires; miners report their activity each epoch, a ten-epoch activity
history is kept per miner, and after each epoch an offchain worker draws the
miners that share the epoch's rewards.

Layout:

- `src/types.rs` — accounts, miner records, events, errors, origins.
- `src/account_map.rs` — the keyed store behind every storage map.
- `src/lists.rs` — the owner and air-drop lists of miners.
- `src/keys.rs` — storage keys of accounts and the order the storage walks them in.
- `src/history.rs` — the ring buffer of a miner's last ten epochs.
- `src/pallet.rs` — the pallet's state, its block hooks and its laws.
- `src/calls.rs` — the calls: administration, miners' life cycle, rewards.
- `src/word.rs`, `src/crypto.rs` — the calls into `sp-core` and `sp-io`.
- `src/offchain.rs` — the reward draw and the shares of the rewards.
- `app/lib.rs` — the currency transfers and the offchain worker's I/O.

use vstd::prelude::*;
use crate::pallet::Pallet;
use crate::types::{AccountId, BlockNumber, Error, MinerData, MinerEpoches, block_number_to_u32, block_u32};
use crate::word::{
    le_value, lemma_le_value_parity, lemma_u64_le_bytes_value, sha2_256, sha2_256_digest,
    u256_eq, u256_from_big_endian, u256_from_little_endian, u256_from_u64, u256_rem,
    u256_to_big_endian, u256_xor, u64_le_bytes, xor_bytes, zero_padded,
};

verus! {

/// How many blocks' hashes of an epoch go into the reward draw.
pub const HASH_BLOCKS_PER_EPOCH: u32 = 5;

/// The most bytes of block hashes that the draw buffer holds.
pub const HASH_BYTES: usize = 160;

/// The random seed mixed with a miner's address and activity count.
pub open spec fn mixed_word(seed: Seq<u8>, miner: AccountId, count: u32) -> Seq<u8> {
    xor_bytes(xor_bytes(seed, u64_le_bytes(miner)), u64_le_bytes(count as u64))
}

/// The buffer that is hashed for a miner's draw: the mixed word, most
/// significant byte first, then the block hashes, then zeros.
pub open spec fn draw_buffer(mixed_be: Seq<u8>, hashes: Seq<u8>) -> Seq<u8> {
    Seq::new(
        192,
        |i: int|
            if i < 32 {
                mixed_be[i]
            } else if i - 32 < hashes.len() {
                hashes[i - 32]
            } else {
                0u8
            },
    )
}

/// A digest read as a number, most significant byte first, is even.
pub open spec fn digest_even(digest: Seq<u8>) -> bool {
    le_value(digest.reverse()) % 2 == 0
}

/// A digest is even exactly when its last byte is.
pub proof fn lemma_digest_even_last_byte(digest: Seq<u8>)
    requires
        digest.len() == 32,
    ensures
        digest_even(digest) <==> digest[31] % 2 == 0,
{
    lemma_le_value_parity(digest.reverse());
}

/// A miner with the given activity count wins the draw.
pub open spec fn qualifies(seed: Seq<u8>, miner: AccountId, count: u32, hashes: Seq<u8>) -> bool {
    digest_even(sha2_256_digest(draw_buffer(mixed_word(seed, miner, count).reverse(), hashes)))
}

/// The miners of `miners` that win the draw, in order, each with its
/// activity count.
pub open spec fn qualified_miners(
    miners: Seq<AccountId>,
    history: Map<AccountId, MinerEpoches>,
    seed: Seq<u8>,
    hashes: Seq<u8>,
) -> Seq<MinerData>
    decreases miners.len(),
{
    if miners.len() == 0 {
        Seq::empty()
    } else {
        let prev = qualified_miners(miners.drop_last(), history, seed, hashes);
        let m = miners.last();
        let c = history[m].total_count;
        if qualifies(seed, m, c, hashes) {
            prev.push(MinerData { miner: m, data: c })
        } else {
            prev
        }
    }
}

/// The sum of the numbers attached to the miners.
pub open spec fn data_sum(s: Seq<MinerData>) -> int
    decreases s.len(),
{
    if s.len() == 0 { 0 } else { data_sum(s.drop_last()) + s.last().data }
}

/// Each miner's share of `total`, in proportion to its number, rounded down.
pub open spec fn shares(s: Seq<MinerData>, total: u32) -> Seq<MinerData> {
    Seq::new(
        s.len(),
        |i: int| MinerData { miner: s[i].miner, data: ((s[i].data * total) / data_sum(s)) as u32 },
    )
}

/// The shares can be computed in 32-bit arithmetic: the numbers add up to
/// a nonzero 32-bit sum and each times `total` fits in 32 bits.
pub open spec fn shares_computable(s: Seq<MinerData>, total: u32) -> bool {
    &&& 0 < data_sum(s) <= u32::MAX
    &&& forall|i: int| 0 <= i < s.len() ==> #[trigger] s[i].data * total <= u32::MAX
}

/// The sum of the shares of `s`, each rounded down.
spec fn share_sum(s: Seq<MinerData>, total: u32, d: int) -> int
    decreases s.len(),
{
    if s.len() == 0 { 0 } else { share_sum(s.drop_last(), total, d) + (s.last().data * total) / d }
}

proof fn lemma_data_sum_nonneg(s: Seq<MinerData>)
    ensures
        data_sum(s) >= 0,
        forall|i: int| 0 <= i < s.len() ==> #[trigger] s[i].data <= data_sum(s),
    decreases s.len(),
{
    if s.len() > 0 {
        lemma_data_sum_nonneg(s.drop_last());
        assert forall|i: int| 0 <= i < s.len() implies #[trigger] s[i].data <= data_sum(s) by {
            if i < s.len() - 1 {
                assert(s.drop_last()[i] == s[i]);
            }
        }
    }
}

/// Rounding each share down pays out at most the exact shares.
proof fn lemma_share_sum_bound(s: Seq<MinerData>, total: u32, d: int)
    requires
        d > 0,
    ensures
        share_sum(s, total, d) * d <= data_sum(s) * total,
    decreases s.len(),
{
    if s.len() > 0 {
        let p = s.drop_last();
        lemma_share_sum_bound(p, total, d);
        let a = s.last().data * total;
        let q = a / d;
        assert(q * d <= a) by {
            vstd::arithmetic::div_mod::lemma_fundamental_div_mod(a as int, d);
            vstd::arithmetic::div_mod::lemma_mod_bound(a as int, d);
            assert(q * d == d * q) by (nonlinear_arith);
        }
        let sp = share_sum(p, total, d);
        assert((sp + q) * d == sp * d + q * d) by (nonlinear_arith);
        let dp = data_sum(p);
        let x = s.last().data;
        assert((dp + x) * total == dp * total + a) by (nonlinear_arith)
            requires
                a == x * total,
        ;
    }
}

/// The shares that the rewarded miners of an epoch receive: each miner's
/// activity count times the epoch's total reward, divided by the sum of
/// the counts. Together the shares never exceed the total.
pub fn reward_shares(selected: &Vec<MinerData>, total_rewards: u32) -> (r: Vec<MinerData>)
    requires
        shares_computable(selected@, total_rewards),
    ensures
        r@ == shares(selected@, total_rewards),
        data_sum(r@) <= total_rewards,
        r@.len() == selected@.len(),
        forall|i: int|
            0 <= i < r@.len() ==> #[trigger] r@[i].miner == selected@[i].miner && r@[i].data * data_sum(
                selected@,
            ) <= selected@[i].data * total_rewards < (r@[i].data + 1) * data_sum(selected@),
{
    let mut sum: u32 = 0;
    let mut i: usize = 0;
    proof {
        lemma_data_sum_nonneg(selected@);
    }
    while i < selected.len()
        invariant
            i <= selected@.len(),
            sum == data_sum(selected@.take(i as int)),
            shares_computable(selected@, total_rewards),
        decreases selected@.len() - i,
    {
        proof {
            assert(selected@.take(i + 1).drop_last() =~= selected@.take(i as int));
            lemma_data_sum_nonneg(selected@.take(i + 1));
            prefix_sum_bound(selected@, i as int + 1);
        }
        sum = sum + selected[i].data;
        i = i + 1;
    }
    proof {
        assert(selected@.take(i as int) =~= selected@);
    }
    let mut out: Vec<MinerData> = Vec::new();
    let mut j: usize = 0;
    while j < selected.len()
        invariant
            j <= selected@.len(),
            sum == data_sum(selected@),
            shares_computable(selected@, total_rewards),
            out@ == shares(selected@, total_rewards).take(j as int),
        decreases selected@.len() - j,
    {
        let md = selected[j];
        assert(md.data * total_rewards <= u32::MAX);
        let share = md.data * total_rewards / sum;
        out.push(MinerData { miner: md.miner, data: share });
        proof {
            assert(out@ =~= shares(selected@, total_rewards).take(j + 1));
        }
        j = j + 1;
    }
    proof {
        let sh = shares(selected@, total_rewards);
        assert(sh.take(selected@.len() as int) =~= sh);
        lemma_shares_sum(selected@, total_rewards);
        assert forall|i: int| 0 <= i < sh.len() implies #[trigger] sh[i].miner == selected@[i].miner
            && sh[i].data * data_sum(selected@) <= selected@[i].data * total_rewards < (sh[i].data + 1)
            * data_sum(selected@) by {
            lemma_share_is_floor(selected@[i].data * total_rewards, data_sum(selected@));
        }
    }
    out
}

/// A quotient rounded down: `q * d <= a < (q + 1) * d` for `q = a / d`,
/// where `a / d` fits in 32 bits.
proof fn lemma_share_is_floor(a: int, d: int)
    requires
        0 <= a <= u32::MAX,
        d > 0,
    ensures
        ((a / d) as u32) * d <= a < (((a / d) as u32) + 1) * d,
{
    vstd::arithmetic::div_mod::lemma_fundamental_div_mod(a, d);
    vstd::arithmetic::div_mod::lemma_div_pos_is_pos(a, d);
    vstd::arithmetic::div_mod::lemma_div_is_ordered_by_denominator(a, 1, d);
    assert(a / 1 == a);
    let q = a / d;
    assert(q * d <= a < (q + 1) * d) by (nonlinear_arith)
        requires
            a == d * q + a % d,
            0 <= a % d < d,
    ;
}

/// A prefix of the numbers adds up to at most the whole sum.
proof fn prefix_sum_bound(s: Seq<MinerData>, k: int)
    requires
        0 <= k <= s.len(),
    ensures
        data_sum(s.take(k)) <= data_sum(s),
    decreases s.len() - k,
{
    if k < s.len() {
        prefix_sum_bound(s, k + 1);
        assert(s.take(k + 1).drop_last() =~= s.take(k));
    } else {
        assert(s.take(k) =~= s);
    }
}

/// The shares add up to at most the total.
proof fn lemma_shares_sum(s: Seq<MinerData>, total: u32)
    requires
        data_sum(s) > 0,
        forall|i: int| 0 <= i < s.len() ==> #[trigger] s[i].data * total <= u32::MAX,
    ensures
        data_sum(shares(s, total)) <= total,
{
    let d = data_sum(s);
    lemma_shares_prefix(s, total, d, s.len() as int);
    lemma_share_sum_bound(s, total, d);
    assert(shares(s, total).take(s.len() as int) =~= shares(s, total));
    assert(s.take(s.len() as int) =~= s);
    assert(share_sum(s, total, d) <= total) by (nonlinear_arith)
        requires
            share_sum(s, total, d) * d <= d * total,
            d > 0,
    ;
}

/// The sum of the first `k` shares, computed by `share_sum`.
proof fn lemma_shares_prefix(s: Seq<MinerData>, total: u32, d: int, k: int)
    requires
        d == data_sum(s),
        d > 0,
        0 <= k <= s.len(),
        forall|i: int| 0 <= i < s.len() ==> #[trigger] s[i].data * total <= u32::MAX,
    ensures
        data_sum(shares(s, total).take(k)) == share_sum(s.take(k), total, d),
    decreases k,
{
    if k > 0 {
        lemma_shares_prefix(s, total, d, k - 1);
        assert(shares(s, total).take(k).drop_last() =~= shares(s, total).take(k - 1));
        assert(s.take(k).drop_last() =~= s.take(k - 1));
        let a = s[k - 1].data * total;
        assert(0 <= a / d <= a) by {
            vstd::arithmetic::div_mod::lemma_div_pos_is_pos(a as int, d);
            vstd::arithmetic::div_mod::lemma_div_is_ordered_by_denominator(a as int, 1, d);
        }
    }
}

/// Whether the digest of a miner's draw buffer, read as a number most
/// significant byte first, is even.
pub fn digest_is_even(digest: [u8; 32]) -> (r: bool)
    ensures
        r == digest_even(digest@),
{
    let big_num = u256_from_big_endian(&digest);
    let two = u256_from_u64(2);
    let zero = u256_from_u64(0);
    proof {
        lemma_u64_le_bytes_value(2);
        lemma_u64_le_bytes_value(0);
    }
    let rem = u256_rem(big_num, two);
    u256_eq(rem, zero)
}

/// Whether a miner with activity count `count` wins the draw for the given
/// seed and block hashes.
pub fn miner_qualifies(random_seed: &[u8; 32], miner: AccountId, count: u32, epoch_hashes: &Vec<u8>) -> (r: bool)
    requires
        epoch_hashes@.len() <= HASH_BYTES,
    ensures
        r == qualifies(random_seed@, miner, count, epoch_hashes@),
{
    let random_number = u256_from_little_endian(random_seed);
    proof {
        assert(zero_padded(random_seed@) =~= random_seed@);
    }
    let miner_number = u256_from_u64(miner);
    let part_data = u256_xor(u256_xor(random_number, miner_number), u256_from_u64(count as u64));
    let part_data = u256_to_big_endian(part_data);
    let mut hash_data_buf: [u8; 192] = [0u8; 192];
    let mut i: usize = 0;
    while i < epoch_hashes.len()
        invariant
            epoch_hashes@.len() <= HASH_BYTES,
            i <= epoch_hashes@.len(),
            forall|j: int| 0 <= j < 32 ==> #[trigger] hash_data_buf@[j] == 0u8,
            forall|j: int| 32 <= j < 192 ==> #[trigger] hash_data_buf@[j] == (if j - 32 < i {
                epoch_hashes@[j - 32]
            } else {
                0u8
            }),
        decreases epoch_hashes@.len() - i,
    {
        hash_data_buf[i + 32] = epoch_hashes[i];
        i = i + 1;
    }
    let mut k: usize = 0;
    while k < 32
        invariant
            k <= 32,
            part_data@.len() == 32,
            forall|j: int| 0 <= j < 32 ==> #[trigger] hash_data_buf@[j] == (if j < k { part_data@[j] } else { 0u8 }),
            forall|j: int| 32 <= j < 192 ==> #[trigger] hash_data_buf@[j] == (if j - 32 < epoch_hashes@.len() {
                epoch_hashes@[j - 32]
            } else {
                0u8
            }),
        decreases 32 - k,
    {
        hash_data_buf[k] = part_data[k];
        k = k + 1;
    }
    proof {
        assert(hash_data_buf@ =~= draw_buffer(
            mixed_word(random_seed@, miner, count).reverse(),
            epoch_hashes@,
        ));
    }
    let final_hash = sha2_256(&hash_data_buf);
    digest_is_even(final_hash)
}

/// Whether the shares of `selected` can be computed in 32-bit arithmetic.
pub fn check_shares_computable(selected: &Vec<MinerData>, total_rewards: u32) -> (r: bool)
    ensures
        r == shares_computable(selected@, total_rewards),
{
    let mut sum: u32 = 0;
    let mut i: usize = 0;
    proof {
        lemma_data_sum_nonneg(selected@);
    }
    while i < selected.len()
        invariant
            i <= selected@.len(),
            sum == data_sum(selected@.take(i as int)),
            forall|j: int| 0 <= j < i ==> #[trigger] selected@[j].data * total_rewards <= u32::MAX,
        decreases selected@.len() - i,
    {
        proof {
            assert(selected@.take(i + 1).drop_last() =~= selected@.take(i as int));
        }
        let d = selected[i].data;
        assert((d as u64) * (total_rewards as u64) <= u64::MAX) by (nonlinear_arith)
            requires
                d <= u32::MAX,
                total_rewards <= u32::MAX,
        ;
        if (d as u64) * (total_rewards as u64) > u32::MAX as u64 {
            return false;
        }
        if (sum as u64) + (d as u64) > u32::MAX as u64 {
            proof {
                prefix_sum_bound(selected@, i + 1);
            }
            return false;
        }
        sum = sum + d;
        i = i + 1;
    }
    proof {
        assert(selected@.take(i as int) =~= selected@);
    }
    sum > 0
}

/// The first and last block whose hashes go into the reward draw of
/// epoch `epoch_num`.
pub fn epoch_hash_range(epoch_num: u32) -> (r: (u32, u32))
    requires
        1 <= epoch_num,
        epoch_num * HASH_BLOCKS_PER_EPOCH <= u32::MAX,
    ensures
        r.0 == (epoch_num - 1) * HASH_BLOCKS_PER_EPOCH + 1,
        r.1 == epoch_num * HASH_BLOCKS_PER_EPOCH,
{
    ((epoch_num - 1) * HASH_BLOCKS_PER_EPOCH + 1, epoch_num * HASH_BLOCKS_PER_EPOCH)
}

impl Pallet {
    /// The epoch whose rewards the offchain worker of block `n` draws:
    /// the block number fits in 32 bits, comes after the first cycle and
    /// is one past a multiple of the (nonzero) cycle; the last closed epoch listed
    /// reporting miners; and an epoch is recorded whose hash blocks have
    /// 32-bit numbers.
    pub open spec fn offchain_epoch_spec(&self, n: BlockNumber) -> Option<u32> {
        let b = block_u32(n);
        let cycle = self.config.epoch_cycle_blocks;
        if cycle == 0 || b <= cycle || b % cycle != 1 {
            None
        } else {
            match self.current_epoch_miners {
                None => None,
                Some(v) => if v@.len() == 0 {
                    None
                } else {
                    match self.current_epoc_cycle_info {
                        None => None,
                        Some(info) => if info.epoch_num == 0 || info.epoch_num * HASH_BLOCKS_PER_EPOCH
                            > u32::MAX {
                            None
                        } else {
                            Some(info.epoch_num)
                        },
                    }
                },
            }
        }
    }

    /// Law: the offchain worker draws at a block one past a multiple of the
    /// cycle, after the first cycle, exactly when the last closed epoch
    /// listed at least one reporting miner (any number of them) and an
    /// epoch with 32-bit hash block numbers is recorded; it then draws for
    /// that recorded epoch.
    pub proof fn lemma_offchain_draws_for_any_reporter(&self, n: BlockNumber)
        requires
            self.config.epoch_cycle_blocks > 0,
            block_u32(n) > self.config.epoch_cycle_blocks,
            block_u32(n) % self.config.epoch_cycle_blocks == 1,
        ensures
            self.current_epoch_miners matches Some(v) ==> (v@.len() >= 1 ==> (self.current_epoc_cycle_info
                matches Some(info) ==> (1 <= info.epoch_num && info.epoch_num * HASH_BLOCKS_PER_EPOCH
                <= u32::MAX ==> self.offchain_epoch_spec(n) == Some(info.epoch_num)))),
            self.offchain_epoch_spec(n) matches Some(e) ==> ((self.current_epoch_miners matches Some(v)
                && v@.len() >= 1) && (self.current_epoc_cycle_info matches Some(info) && info.epoch_num == e)),
    {
    }

    /// The epoch whose rewards the offchain worker of block `n` draws, if
    /// it draws.
    pub fn offchain_epoch(&self, n: BlockNumber) -> (r: Option<u32>)
        ensures
            r is Some ==> self.config.epoch_cycle_blocks > 0 && block_u32(n) > self.config.epoch_cycle_blocks
                && block_u32(n) % self.config.epoch_cycle_blocks == 1,
            r matches Some(e) ==> ((self.current_epoch_miners matches Some(v) && v@.len() > 0) && (
            self.current_epoc_cycle_info matches Some(info) && info.epoch_num == e)),
            self.config.epoch_cycle_blocks > 0 && block_u32(n) > self.config.epoch_cycle_blocks && block_u32(n)
                % self.config.epoch_cycle_blocks == 1 ==> (self.current_epoch_miners matches Some(v) ==> (
            v@.len() >= 1 ==> (self.current_epoc_cycle_info matches Some(info) ==> (1 <= info.epoch_num
                && info.epoch_num * HASH_BLOCKS_PER_EPOCH <= u32::MAX ==> r == Some(info.epoch_num))))),
            r == self.offchain_epoch_spec(n),
    {
        let block_num = block_number_to_u32(n);
        // a zero cycle makes the worker fail before it draws
        if self.config.epoch_cycle_blocks == 0 {
            return None;
        }
        if block_num <= self.config.epoch_cycle_blocks || block_num % self.config.epoch_cycle_blocks != 1 {
            return None;
        }
        match &self.current_epoch_miners {
            None => return None,
            Some(v) => {
                if v.len() == 0 {
                    return None;
                }
            },
        }
        match self.current_epoc_cycle_info {
            None => None,
            Some(info) => {
                if info.epoch_num == 0 || info.epoch_num as u64 * HASH_BLOCKS_PER_EPOCH as u64
                    > u32::MAX as u64 {
                    None
                } else {
                    Some(info.epoch_num)
                }
            },
        }
    }

    /// The reward call that the offchain worker of block `n` sends, given
    /// the hashes of the epoch's hash blocks (32 bytes each, in order) and
    /// a random seed: every miner that reported in the last closed epoch
    /// and wins the draw is rewarded in proportion to its activity count.
    /// Gives `None` when the worker sends nothing: it is not a drawing
    /// block, no miner won, or the draw cannot be carried out (a listed
    /// miner has no history, more than 160 bytes of hashes, or shares that
    /// do not fit in 32 bits).
    pub fn offchain_worker(&self, n: BlockNumber, epoch_hashes: &Vec<u8>, random_seed: [u8; 32]) -> (r: Option<(Vec<MinerData>, u32)>)
        requires
            self.wf(),
        ensures
            match self.offchain_epoch_spec(n) {
                None => r is None,
                Some(e) => {
                    let miners = self.current_epoch_miners.unwrap()@;
                    let history = self.history_epoch_data@;
                    if epoch_hashes@.len() > HASH_BYTES || exists|j: int|
                        0 <= j < miners.len() && !history.dom().contains(#[trigger] miners[j]) {
                        r is None
                    } else {
                        let selected = qualified_miners(miners, history, random_seed@, epoch_hashes@);
                        if selected.len() == 0 || !shares_computable(selected, self.config.epoch_total_rewards) {
                            r is None
                        } else {
                            r matches Some((rewards, epoch)) && epoch == e && rewards@ == shares(
                                selected,
                                self.config.epoch_total_rewards,
                            )
                        }
                    }
                },
            },
    {
        let epoch_num = match self.offchain_epoch(n) {
            None => return None,
            Some(e) => e,
        };
        if epoch_hashes.len() > HASH_BYTES {
            return None;
        }
        let epoch_miners = match &self.current_epoch_miners {
            None => return None,
            Some(v) => v,
        };
        let ghost miners = epoch_miners@;
        let ghost history = self.history_epoch_data@;
        let mut epoch_reward_miners: Vec<MinerData> = Vec::new();
        let mut i: usize = 0;
        while i < epoch_miners.len()
            invariant
                self.wf(),
                miners == epoch_miners@,
                self.current_epoch_miners is Some,
                miners == self.current_epoch_miners.unwrap()@,
                self.offchain_epoch_spec(n) == Some(epoch_num),
                history == self.history_epoch_data@,
                epoch_hashes@.len() <= HASH_BYTES,
                i <= miners.len(),
                forall|j: int| 0 <= j < i ==> history.dom().contains(#[trigger] miners[j]),
                epoch_reward_miners@ == qualified_miners(
                    miners.take(i as int),
                    history,
                    random_seed@,
                    epoch_hashes@,
                ),
            decreases miners.len() - i,
        {
            let miner = epoch_miners[i];
            let miner_total_count = match self.history_epoch_data.get(miner) {
                None => {
                    assert(!history.dom().contains(miners[i as int]));
                    return None;
                },
                Some(h) => h.total_count,
            };
            proof {
                assert(miners.take(i + 1).drop_last() =~= miners.take(i as int));
            }
            if miner_qualifies(&random_seed, miner, miner_total_count, epoch_hashes) {
                epoch_reward_miners.push(MinerData { miner, data: miner_total_count });
            }
            i = i + 1;
        }
        proof {
            assert(miners.take(i as int) =~= miners);
        }
        if epoch_reward_miners.len() == 0 {
            return None;
        }
        if !check_shares_computable(&epoch_reward_miners, self.config.epoch_total_rewards) {
            return None;
        }
        let rewards = reward_shares(&epoch_reward_miners, self.config.epoch_total_rewards);
        Some((rewards, epoch_num))
    }
}

/// The outcome of sending the signed reward call: `None` when no local
/// account could sign it, else whether the chain accepted it.
pub fn signed_tx_result(sent: Option<bool>) -> (r: Result<(), Error>)
    ensures
        r == (match sent {
            None => Err(Error::NoLocalAcctForSigning),
            Some(false) => Err(Error::OffchainSignedTxError),
            Some(true) => Ok::<(), Error>(()),
        }),
{
    match sent {
        None => Err(Error::NoLocalAcctForSigning),
        Some(false) => Err(Error::OffchainSignedTxError),
        Some(true) => Ok(()),
    }
}

} // verus!

use vstd::prelude::*;
use crate::types::{MinerEpoches, STATISTICSWINDOW, EPOCH_SLOT_CAP};

verus! {

/// The window length as a mathematical integer.
pub open spec fn window() -> int {
    STATISTICSWINDOW as int
}

/// The slot of the window that epoch `k` occupies.
pub open spec fn slot_of(k: int) -> int {
    k % window()
}

/// What one epoch's activity counts for in the window: at most 12.
pub open spec fn capped(value: u32) -> u8 {
    if value >= EPOCH_SLOT_CAP { 12u8 } else { value as u8 }
}

/// The sum of a sequence of slot values.
pub open spec fn slots_sum(s: Seq<u8>) -> int
    decreases s.len(),
{
    if s.len() == 0 { 0 } else { slots_sum(s.drop_last()) + s.last() }
}

/// `r` is the first record of a miner whose first reported epoch is `epoch`
/// with activity `value`: the slot of that epoch holds the capped value,
/// every other slot 0, and the total is the uncapped value.
pub open spec fn is_fresh_record(epoch: u32, value: u32, r: MinerEpoches) -> bool {
    &&& r.last_epoch == epoch
    &&& r.total_count == value
    &&& forall|s: int|
        0 <= s < window() ==> #[trigger] r.epochs@[s] == (if s == slot_of(epoch as int) {
            capped(value)
        } else {
            0u8
        })
}

/// `r` is `rec` moved on to `epoch` with activity `value`: for every epoch
/// `k` of the window that ends at `epoch`, the slot of `k` holds the capped
/// value if `k` is `epoch`, 0 if `k` came after the last recorded epoch
/// (nothing was reported in it), and what it held before otherwise; the
/// total is the sum of the slots.
pub open spec fn is_advanced_record(rec: MinerEpoches, epoch: u32, value: u32, r: MinerEpoches) -> bool {
    &&& r.last_epoch == epoch
    &&& forall|k: int|
        epoch - window() < k <= epoch ==> #[trigger] r.epochs@[slot_of(k)] == (if k == epoch {
            capped(value)
        } else if k > rec.last_epoch {
            0u8
        } else {
            rec.epochs@[slot_of(k)]
        })
    &&& r.total_count == slots_sum(r.epochs@)
}

/// The number `c` in `1..=10` with `(last + c) % 10 == s`: how many slots
/// after the slot of `last` the slot `s` lies.
spec fn slot_offset(last: int, s: int) -> int {
    if (s - last) % 10 == 0 { 10 } else { (s - last) % 10 }
}

proof fn lemma_mod10_small(x: int)
    requires
        -10 < x < 10,
    ensures
        x % 10 == (if x >= 0 { x } else { x + 10 }),
{
    if x >= 0 {
        vstd::arithmetic::div_mod::lemma_fundamental_div_mod_converse_mod(x, 10, 0, x);
    } else {
        vstd::arithmetic::div_mod::lemma_fundamental_div_mod_converse_mod(x, 10, -1, x + 10);
    }
}

/// Reducing `a` modulo 10 first does not change `(a - b) % 10`.
proof fn lemma_mod10_diff(a: int, b: int)
    ensures
        (a % 10 - b) % 10 == (a - b) % 10,
{
    vstd::arithmetic::div_mod::lemma_fundamental_div_mod(a, 10);
    let q = a / 10;
    assert(a % 10 - b == 10 * (-q) + (a - b)) by (nonlinear_arith)
        requires
            a == 10 * q + a % 10,
    ;
    vstd::arithmetic::div_mod::lemma_mod_multiples_vanish(-q, a - b, 10);
}

/// Numbers with the same slot differ by a multiple of 10.
proof fn lemma_mod10_same(a: int, b: int)
    requires
        a % 10 == b % 10,
    ensures
        (a - b) % 10 == 0,
{
    lemma_mod10_diff(a, b);
    lemma_mod10_diff(b, b);
    lemma_mod10_small(0);
}

/// The sum of the slots of a record.
fn sum_slots(epochs: &[u8; 10]) -> (total: u32)
    ensures
        total == slots_sum(epochs@),
{
    let mut total: u32 = 0;
    let mut i: usize = 0;
    while i < STATISTICSWINDOW
        invariant
            i <= STATISTICSWINDOW,
            epochs@.len() == STATISTICSWINDOW,
            total == slots_sum(epochs@.take(i as int)),
            total <= 255 * i,
        decreases STATISTICSWINDOW - i,
    {
        proof {
            assert(epochs@.take(i + 1).drop_last() =~= epochs@.take(i as int));
        }
        total = total + epochs[i] as u32;
        i = i + 1;
    }
    proof {
        assert(epochs@.take(STATISTICSWINDOW as int) =~= epochs@);
    }
    total
}

fn capped_slot(value: u32) -> (r: u8)
    ensures
        r == capped(value),
{
    if value >= EPOCH_SLOT_CAP {
        12
    } else {
        value as u8
    }
}

/// The history record of a miner that reports for the first time.
pub fn new_history_record(epoch_num: u32, value: u32) -> (r: MinerEpoches)
    ensures
        is_fresh_record(epoch_num, value, r),
{
    let mut new_record = MinerEpoches { epochs: [0u8; 10], last_epoch: epoch_num, total_count: value };
    let slot = (epoch_num % (STATISTICSWINDOW as u32)) as usize;
    new_record.epochs[slot] = capped_slot(value);
    new_record
}

/// Moves a miner's history record on to `epoch_num`, in which it reported
/// `value`: the slots of the epochs it skipped are cleared, the slot of
/// `epoch_num` takes the capped value, and the total is recounted.
pub fn update_history_record(record: MinerEpoches, epoch_num: u32, value: u32) -> (r: MinerEpoches)
    requires
        record.last_epoch < epoch_num,
    ensures
        is_advanced_record(record, epoch_num, value, r),
{
    let w: u32 = STATISTICSWINDOW as u32;
    let mut update_record = record;
    let skip_distance = epoch_num - update_record.last_epoch;
    let mut count = if skip_distance >= w { w } else { skip_distance - 1 };
    let ghost c0 = count as int;
    let ghost last = record.last_epoch as int;
    while count > 0
        invariant
            0 <= count <= c0 <= 10,
            c0 == (if skip_distance >= 10 { 10 } else { skip_distance - 1 }),
            skip_distance == epoch_num - last,
            last == record.last_epoch,
            last == update_record.last_epoch,
            w == 10,
            forall|s: int| 0 <= s < 10 ==> #[trigger] update_record.epochs@[s] == (if count < slot_offset(last, s) <= c0 {
                0u8
            } else {
                record.epochs@[s]
            }),
        decreases count,
    {
        let t = ((update_record.last_epoch + count) % w) as usize;
        update_record.epochs[t] = 0;
        proof {
            // t is `count` slots after the slot of `last`
            lemma_mod10_diff(last + count, last);
            if count < 10 {
                lemma_mod10_small(count as int);
            } else {
                vstd::arithmetic::div_mod::lemma_fundamental_div_mod_converse_mod(10, 10, 1, 0);
            }
            assert(slot_offset(last, t as int) == count);
            assert forall|s: int| 0 <= s < 10 && s != t implies #[trigger] slot_offset(last, s) != count by {
                if slot_offset(last, s) == count {
                    lemma_mod10_same(s - last, t - last);
                    lemma_mod10_small(s - t);
                }
            }
        }
        count = count - 1;
    }
    let slot = (epoch_num % w) as usize;
    update_record.epochs[slot] = capped_slot(value);
    update_record.last_epoch = epoch_num;
    let total_count = sum_slots(&update_record.epochs);
    update_record.total_count = total_count;
    proof {
        let e = epoch_num as int;
        assert forall|k: int| e - 10 < k <= e implies #[trigger] update_record.epochs@[slot_of(k)] == (
        if k == e {
            capped(value)
        } else if k > last {
            0u8
        } else {
            record.epochs@[slot_of(k)]
        }) by {
            if k != e {
                assert(slot_of(k) != slot as int) by {
                    if slot_of(k) == slot as int {
                        lemma_mod10_same(e, k);
                        lemma_mod10_small(e - k);
                    }
                }
                lemma_mod10_diff(k, last);
                vstd::arithmetic::div_mod::lemma_mod_bound(k - last, 10);
                if k > last {
                    if skip_distance < 10 {
                        lemma_mod10_small(k - last);
                    }
                    assert(slot_offset(last, slot_of(k)) <= c0);
                } else {
                    lemma_mod10_small(k - last);
                    assert(slot_offset(last, slot_of(k)) > c0);
                }
            }
        }
    }
    update_record
}

/// Every slot holds at most 12.
pub open spec fn slots_capped(r: MinerEpoches) -> bool {
    forall|s: int| 0 <= s < window() ==> #[trigger] r.epochs@[s] <= EPOCH_SLOT_CAP
}

proof fn lemma_slots_sum_capped(s: Seq<u8>)
    requires
        forall|i: int| 0 <= i < s.len() ==> #[trigger] s[i] <= EPOCH_SLOT_CAP,
    ensures
        slots_sum(s) <= EPOCH_SLOT_CAP * s.len(),
    decreases s.len(),
{
    if s.len() > 0 {
        let p = s.drop_last();
        assert forall|i: int| 0 <= i < p.len() implies #[trigger] p[i] <= EPOCH_SLOT_CAP by {
            assert(p[i] == s[i]);
        }
        lemma_slots_sum_capped(p);
    }
}

/// Law: a fresh record holds at most 12 in each slot; a record moved on
/// from one that did still does, and then its total is at most 12 for each
/// epoch of the window.
pub proof fn lemma_records_stay_capped(rec: MinerEpoches, epoch: u32, value: u32, r: MinerEpoches)
    ensures
        is_fresh_record(epoch, value, r) ==> slots_capped(r),
        is_advanced_record(rec, epoch, value, r) && slots_capped(rec) ==> {
            &&& slots_capped(r)
            &&& r.total_count <= EPOCH_SLOT_CAP * window()
        },
{
    if is_advanced_record(rec, epoch, value, r) && slots_capped(rec) {
        assert forall|s: int| 0 <= s < window() implies #[trigger] r.epochs@[s] <= EPOCH_SLOT_CAP by {
            let e = epoch as int;
            let d = (e - s) % 10;
            vstd::arithmetic::div_mod::lemma_mod_bound(e - s, 10);
            let k = e - d;
            assert(slot_of(k) == s) by {
                // (d - e) and -s agree modulo 10, so k = -(d - e) lies in slot s
                lemma_mod10_diff(e - s, e);
                lemma_neg_mod10(d - e, s);
            }
            assert(r.epochs@[slot_of(k)] <= EPOCH_SLOT_CAP);
        }
        lemma_slots_sum_capped(r.epochs@);
    }
}

/// If `x % 10 == (-s) % 10` for a slot `s`, then `(-x) % 10 == s`.
proof fn lemma_neg_mod10(x: int, s: int)
    requires
        0 <= s < 10,
        x % 10 == (-s) % 10,
    ensures
        (-x) % 10 == s,
{
    vstd::arithmetic::div_mod::lemma_fundamental_div_mod(x, 10);
    vstd::arithmetic::div_mod::lemma_fundamental_div_mod(-s, 10);
    let q = x / 10;
    let p = (-s) / 10;
    assert(x - 10 * q == -s - 10 * p);
    assert(-x == 10 * (p - q) + s) by (nonlinear_arith)
        requires
            x - 10 * q == -s - 10 * p,
    ;
    vstd::arithmetic::div_mod::lemma_fundamental_div_mod_converse_mod(-x, 10, p - q, s);
    assert((p - q) * 10 == 10 * (p - q)) by (nonlinear_arith);
}

} // verus!

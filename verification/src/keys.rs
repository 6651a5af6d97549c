use vstd::prelude::*;
use crate::types::AccountId;

verus! {

// The pallet's storage maps are keyed by `Twox64Concat`: the storage key of
// an account is the twox-64 hash of its encoding followed by the encoding,
// and the storage walks a map's entries in the byte order of these keys.

/// The twox-64 hash of `data`.
pub uninterp spec fn twox_64_digest(data: Seq<u8>) -> Seq<u8>;

/// `sp_io::hashing::twox_64`: the twox-64 hash of `data`.
#[verifier::external_body]
pub(crate) fn twox_64(data: &[u8]) -> (r: [u8; 8])
    ensures
        r@ == twox_64_digest(data@),
{
    sp_io::hashing::twox_64(data)
}

/// The encoding of an account: its 8 bytes, least significant first.
pub open spec fn encoded_account(m: AccountId) -> Seq<u8> {
    Seq::new(8, |i: int| (m >> (8 * i) as u64) as u8)
}

/// The storage key of an account: the hash of its encoding, then the
/// encoding.
pub open spec fn storage_key(m: AccountId) -> Seq<u8> {
    Seq::new(
        16,
        |i: int|
            if i < 8 {
                twox_64_digest(encoded_account(m))[i]
            } else {
                encoded_account(m)[i - 8]
            },
    )
}

/// `a` comes before `b` in byte order: at the first place where they
/// differ, `a` has the smaller byte.
pub open spec fn bytes_lt(a: Seq<u8>, b: Seq<u8>) -> bool {
    exists|k: int|
        0 <= k < a.len() && k < b.len() && #[trigger] a[k] < b[k] && forall|j: int|
            0 <= j < k ==> a[j] == b[j]
}

/// The accounts of `v` stand in the order in which the storage walks
/// them, each once.
pub open spec fn in_storage_order(v: Seq<AccountId>) -> bool {
    forall|i: int, j: int| 0 <= i < j < v.len() ==> bytes_lt(#[trigger] storage_key(v[i]), #[trigger] storage_key(v[j]))
}

proof fn lemma_bytes_lt_irreflexive(a: Seq<u8>)
    ensures
        !bytes_lt(a, a),
{
}

proof fn lemma_bytes_lt_transitive(a: Seq<u8>, b: Seq<u8>, c: Seq<u8>)
    requires
        bytes_lt(a, b),
        bytes_lt(b, c),
    ensures
        bytes_lt(a, c),
{
    let k1 = choose|k: int| 0 <= k < a.len() && k < b.len() && #[trigger] a[k] < b[k] && forall|j: int| 0 <= j < k ==> a[j] == b[j];
    let k2 = choose|k: int| 0 <= k < b.len() && k < c.len() && #[trigger] b[k] < c[k] && forall|j: int| 0 <= j < k ==> b[j] == c[j];
    if k1 <= k2 {
        assert(a[k1] < c[k1]);
    } else {
        assert(a[k2] < c[k2]);
    }
}

/// The first place at or after `k` where `a` and `b` differ.
proof fn first_difference(a: Seq<u8>, b: Seq<u8>, k: int) -> (d: int)
    requires
        a.len() == b.len(),
        0 <= k <= a.len(),
        forall|j: int| 0 <= j < k ==> a[j] == b[j],
        exists|j: int| k <= j < a.len() && a[j] != b[j],
    ensures
        k <= d < a.len(),
        a[d] != b[d],
        forall|j: int| 0 <= j < d ==> a[j] == b[j],
    decreases a.len() - k,
{
    if a[k] != b[k] {
        k
    } else {
        let w = choose|j: int| k <= j < a.len() && a[j] != b[j];
        assert(k + 1 <= w);
        first_difference(a, b, k + 1)
    }
}

/// Two different byte strings of one length are ordered one way or the
/// other.
proof fn lemma_bytes_lt_total(a: Seq<u8>, b: Seq<u8>)
    requires
        a.len() == b.len(),
        a != b,
    ensures
        bytes_lt(a, b) || bytes_lt(b, a),
{
    assert(exists|j: int| 0 <= j < a.len() && a[j] != b[j]) by {
        if forall|j: int| 0 <= j < a.len() ==> a[j] == b[j] {
            assert(a =~= b);
        }
    }
    let d = first_difference(a, b, 0);
    if a[d] < b[d] {
        assert(bytes_lt(a, b));
    } else {
        assert(b[d] < a[d]);
        assert(bytes_lt(b, a));
    }
}

/// Different accounts have different storage keys.
proof fn lemma_storage_key_injective(x: AccountId, y: AccountId)
    requires
        storage_key(x) == storage_key(y),
    ensures
        x == y,
{
    let kx = storage_key(x);
    let ky = storage_key(y);
    assert forall|i: int| 0 <= i < 8 implies encoded_account(x)[i] == encoded_account(y)[i] by {
        assert(kx[i + 8] == ky[i + 8]);
    }
    let ex = encoded_account(x);
    let ey = encoded_account(y);
    assert(ex[0] == ey[0] && ex[1] == ey[1] && ex[2] == ey[2] && ex[3] == ey[3]);
    assert(ex[4] == ey[4] && ex[5] == ey[5] && ex[6] == ey[6] && ex[7] == ey[7]);
    assert(x == y) by (bit_vector)
        requires
            (x >> 0u64) as u8 == (y >> 0u64) as u8,
            (x >> 8u64) as u8 == (y >> 8u64) as u8,
            (x >> 16u64) as u8 == (y >> 16u64) as u8,
            (x >> 24u64) as u8 == (y >> 24u64) as u8,
            (x >> 32u64) as u8 == (y >> 32u64) as u8,
            (x >> 40u64) as u8 == (y >> 40u64) as u8,
            (x >> 48u64) as u8 == (y >> 48u64) as u8,
            (x >> 56u64) as u8 == (y >> 56u64) as u8,
    ;
}

/// The encoding of an account.
fn encode_account(m: AccountId) -> (r: [u8; 8])
    ensures
        r@ == encoded_account(m),
{
    let mut r = [0u8; 8];
    let mut i: usize = 0;
    while i < 8
        invariant
            i <= 8,
            forall|j: int| 0 <= j < i ==> #[trigger] r@[j] == (m >> (8 * j) as u64) as u8,
        decreases 8 - i,
    {
        r[i] = (m >> (8 * i as u64)) as u8;
        i = i + 1;
    }
    assert(r@ =~= encoded_account(m));
    r
}

/// The storage key of an account.
pub fn storage_key_of(m: AccountId) -> (r: [u8; 16])
    ensures
        r@ == storage_key(m),
{
    let enc = encode_account(m);
    let hash = twox_64(&enc);
    let mut r = [0u8; 16];
    let mut i: usize = 0;
    while i < 16
        invariant
            i <= 16,
            enc@ == encoded_account(m),
            hash@ == twox_64_digest(encoded_account(m)),
            forall|j: int| 0 <= j < i ==> #[trigger] r@[j] == storage_key(m)[j],
        decreases 16 - i,
    {
        if i < 8 {
            r[i] = hash[i];
        } else {
            r[i] = enc[i - 8];
        }
        i = i + 1;
    }
    assert(r@ =~= storage_key(m));
    r
}

/// Whether `a` comes before `b` in byte order.
fn key_lt(a: &[u8; 16], b: &[u8; 16]) -> (r: bool)
    ensures
        r == bytes_lt(a@, b@),
{
    let mut k: usize = 0;
    while k < 16
        invariant
            k <= 16,
            forall|j: int| 0 <= j < k ==> a@[j] == b@[j],
        decreases 16 - k,
    {
        if a[k] != b[k] {
            let r = a[k] < b[k];
            proof {
                if !r {
                    if bytes_lt(a@, b@) {
                        let c = choose|c: int| 0 <= c < a@.len() && c < b@.len() && #[trigger] a@[c] < b@[c] && forall|j: int|
                            0 <= j < c ==> a@[j] == b@[j];
                        if c < k {
                        } else if c > k {
                            assert(a@[k as int] == b@[k as int]);
                        }
                    }
                }
            }
            return r;
        }
        k = k + 1;
    }
    proof {
        assert(a@ =~= b@);
        lemma_bytes_lt_irreflexive(a@);
    }
    false
}

/// Inserts `m` into `v`, which is in storage order, where the storage
/// would walk it.
pub fn insert_in_storage_order(v: &mut Vec<AccountId>, m: AccountId)
    requires
        in_storage_order(old(v)@),
        !old(v)@.contains(m),
    ensures
        in_storage_order(final(v)@),
        final(v)@.len() == old(v)@.len() + 1,
        forall|x: AccountId| #[trigger] final(v)@.contains(x) <==> old(v)@.contains(x) || x == m,
{
    let km = storage_key_of(m);
    let mut p: usize = 0;
    while p < v.len()
        invariant
            p <= v@.len(),
            km@ == storage_key(m),
            forall|j: int| 0 <= j < p ==> bytes_lt(#[trigger] storage_key(v@[j]), storage_key(m)),
        ensures
            p <= v@.len(),
            forall|j: int| 0 <= j < p ==> bytes_lt(#[trigger] storage_key(v@[j]), storage_key(m)),
            p < v@.len() ==> !bytes_lt(storage_key(v@[p as int]), storage_key(m)),
        decreases v@.len() - p,
    {
        let kp = storage_key_of(v[p]);
        if !key_lt(&kp, &km) {
            break;
        }
        p = p + 1;
    }
    let ghost s = v@;
    proof {
        // every later account comes after m
        if p < s.len() {
            assert(s[p as int] != m);
            if storage_key(s[p as int]) == storage_key(m) {
                lemma_storage_key_injective(s[p as int], m);
            }
            lemma_bytes_lt_total(storage_key(s[p as int]), storage_key(m));
        }
        assert forall|j: int| p <= j < s.len() implies bytes_lt(storage_key(m), #[trigger] storage_key(s[j])) by {
            if j > p {
                lemma_bytes_lt_transitive(storage_key(m), storage_key(s[p as int]), storage_key(s[j]));
            }
        }
    }
    v.insert(p, m);
    proof {
        let t = v@;
        assert forall|i: int, j: int| 0 <= i < j < t.len() implies bytes_lt(
            #[trigger] storage_key(t[i]),
            #[trigger] storage_key(t[j]),
        ) by {
            if j < p {
                assert(t[i] == s[i] && t[j] == s[j]);
            } else if j == p {
                assert(t[i] == s[i]);
            } else if i < p {
                assert(t[i] == s[i] && t[j] == s[j - 1]);
                lemma_bytes_lt_transitive(storage_key(s[i]), storage_key(m), storage_key(s[j - 1]));
            } else if i == p {
                assert(t[j] == s[j - 1]);
            } else {
                assert(t[i] == s[i - 1] && t[j] == s[j - 1]);
            }
        }
        assert forall|x: AccountId| #[trigger] t.contains(x) <==> s.contains(x) || x == m by {
            if t.contains(x) {
                let i = choose|i: int| 0 <= i < t.len() && t[i] == x;
                if i < p {
                    assert(s[i] == x);
                } else if i > p {
                    assert(s[i - 1] == x);
                }
            }
            if s.contains(x) {
                let i = choose|i: int| 0 <= i < s.len() && s[i] == x;
                if i < p {
                    assert(t[i] == x);
                } else {
                    assert(t[i + 1] == x);
                }
            }
            if x == m {
                assert(t[p as int] == x);
            }
        }
    }
}

} // verus!

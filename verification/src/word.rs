use vstd::prelude::*;
use sp_core::U256;

verus! {

// A 256-bit number is handled here as its 32 little-endian bytes; each
// operation below converts to `sp_core::U256`, makes one call, and converts
// back.

/// The number whose little-endian bytes are `b`.
pub open spec fn le_value(b: Seq<u8>) -> nat
    decreases b.len(),
{
    if b.len() == 0 {
        0
    } else {
        b[0] as nat + 256 * le_value(b.drop_first())
    }
}

/// The 32 little-endian bytes of the number `x`.
pub open spec fn u64_le_bytes(x: u64) -> Seq<u8> {
    Seq::new(32, |i: int| if i < 8 { (x >> (8 * i) as u64) as u8 } else { 0u8 })
}

/// `b` followed by zeros up to 32 bytes.
pub open spec fn zero_padded(b: Seq<u8>) -> Seq<u8> {
    Seq::new(32, |i: int| if i < b.len() { b[i] } else { 0u8 })
}

/// The bitwise exclusive or of two 32-byte words.
pub open spec fn xor_bytes(a: Seq<u8>, b: Seq<u8>) -> Seq<u8> {
    Seq::new(32, |i: int| a[i] ^ b[i])
}

/// The SHA2-256 digest of `data`.
pub uninterp spec fn sha2_256_digest(data: Seq<u8>) -> Seq<u8>;

/// `U256::from_little_endian`: the number whose little-endian bytes are
/// `bytes`, padded with zeros. The outside function panics on more than 32
/// bytes.
#[verifier::external_body]
pub(crate) fn u256_from_little_endian(bytes: &[u8]) -> (r: [u8; 32])
    requires
        bytes@.len() <= 32,
    ensures
        r@ == zero_padded(bytes@),
{
    U256::from_little_endian(bytes).to_little_endian()
}

/// `U256::from(u64)`: the number `x`.
#[verifier::external_body]
pub(crate) fn u256_from_u64(x: u64) -> (r: [u8; 32])
    ensures
        r@ == u64_le_bytes(x),
{
    U256::from(x).to_little_endian()
}

/// `U256 ^ U256`: the bitwise exclusive or.
#[verifier::external_body]
pub(crate) fn u256_xor(a: [u8; 32], b: [u8; 32]) -> (r: [u8; 32])
    ensures
        r@ == xor_bytes(a@, b@),
{
    (U256::from_little_endian(&a) ^ U256::from_little_endian(&b)).to_little_endian()
}

/// `U256::to_big_endian`: the bytes of the number, most significant first.
#[verifier::external_body]
pub(crate) fn u256_to_big_endian(a: [u8; 32]) -> (r: [u8; 32])
    ensures
        r@ == a@.reverse(),
{
    U256::from_little_endian(&a).to_big_endian()
}

/// `U256::from_big_endian` on 32 bytes: the number whose bytes, most
/// significant first, are `bytes`.
#[verifier::external_body]
pub(crate) fn u256_from_big_endian(bytes: &[u8; 32]) -> (r: [u8; 32])
    ensures
        r@ == bytes@.reverse(),
{
    U256::from_big_endian(bytes).to_little_endian()
}

/// `U256 % U256`: the remainder of `a` divided by `m`. The outside function
/// panics when `m` is zero.
#[verifier::external_body]
pub(crate) fn u256_rem(a: [u8; 32], m: [u8; 32]) -> (r: [u8; 32])
    requires
        le_value(m@) > 0,
    ensures
        le_value(r@) == le_value(a@) % le_value(m@),
{
    (U256::from_little_endian(&a) % U256::from_little_endian(&m)).to_little_endian()
}

/// `U256 == U256`: whether two numbers are equal.
#[verifier::external_body]
pub(crate) fn u256_eq(a: [u8; 32], b: [u8; 32]) -> (r: bool)
    ensures
        r == (le_value(a@) == le_value(b@)),
{
    U256::from_little_endian(&a) == U256::from_little_endian(&b)
}

/// `sp_io::hashing::sha2_256`: the SHA2-256 digest of `data`.
#[verifier::external_body]
pub(crate) fn sha2_256(data: &[u8]) -> (r: [u8; 32])
    ensures
        r@ == sha2_256_digest(data@),
{
    sp_io::hashing::sha2_256(data)
}

/// A number is determined modulo 2 by its lowest byte.
pub proof fn lemma_le_value_parity(b: Seq<u8>)
    requires
        b.len() > 0,
    ensures
        le_value(b) % 2 == (b[0] as nat) % 2,
{
    let rest = le_value(b.drop_first());
    assert((b[0] as nat + 256 * rest) % 2 == (b[0] as nat) % 2) by (nonlinear_arith);
}

/// The value of the bytes of a small number.
pub proof fn lemma_u64_le_bytes_value(x: u64)
    requires
        x < 256,
    ensures
        le_value(u64_le_bytes(x)) == x,
{
    let b = u64_le_bytes(x);
    assert(b[0] == x) by {
        assert((x >> 0u64) as u8 == x) by (bit_vector)
            requires
                x < 256,
        ;
    }
    assert forall|i: int| 1 <= i < 32 implies b[i] == 0u8 by {
        if i < 8 {
            let s = (8 * i) as u64;
            assert(x >> s == 0) by (bit_vector)
                requires
                    x < 256,
                    8 <= s < 64,
            ;
        }
    }
    lemma_le_value_zeros(b.drop_first());
}

/// Only zero bytes give the number 0, and they always do.
pub proof fn lemma_le_value_zeros(b: Seq<u8>)
    ensures
        (le_value(b) == 0) <==> (forall|i: int| 0 <= i < b.len() ==> b[i] == 0u8),
    decreases b.len(),
{
    if b.len() > 0 {
        lemma_le_value_zeros(b.drop_first());
        if le_value(b) == 0 {
            assert forall|i: int| 0 <= i < b.len() implies b[i] == 0u8 by {
                if i > 0 {
                    assert(b.drop_first()[i - 1] == b[i]);
                }
            }
        }
        if forall|i: int| 0 <= i < b.len() ==> b[i] == 0u8 {
            assert forall|i: int| 0 <= i < b.drop_first().len() implies b.drop_first()[i] == 0u8 by {
                assert(b[i + 1] == 0u8);
            }
        }
    }
}

} // verus!

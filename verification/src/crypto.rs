use vstd::prelude::*;

verus! {

/// Whether `sig` is a valid sr25519 signature of `msg` by the key `public`.
pub uninterp spec fn sr25519_valid(sig: Seq<u8>, msg: Seq<u8>, public: Seq<u8>) -> bool;

/// `sp_io::crypto::sr25519_verify`: whether the 64-byte `sig` is a valid
/// sr25519 signature of `msg` by the 32-byte public key `public`. The
/// outcome depends on these bytes alone; what makes a signature valid is
/// left to the name.
#[verifier::external_body]
pub(crate) fn sr25519_verify(sig: &[u8; 64], msg: &[u8], public: &[u8; 32]) -> (r: bool)
    ensures
        r == sr25519_valid(sig@, msg@, public@),
{
    sp_io::crypto::sr25519_verify(
        &sp_core::sr25519::Signature::from_raw(*sig),
        msg,
        &sp_core::sr25519::Public::from_raw(*public),
    )
}

} // verus!

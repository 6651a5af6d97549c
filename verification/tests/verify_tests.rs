use sp_core::sr25519::Pair;
use sp_core::Pair as PairT;
use xenon::pallet::{Config, Pallet};
use xenon::types::{DispatchError, Error, Origin};

#[test]
fn my_verify_accepts_a_valid_signature_only() {
    let pair = Pair::from_seed(&[7u8; 32]);
    let data = b"reward report".to_vec();
    let sig = pair.sign(&data);
    let public = pair.public();
    let p = Pallet::new(Config { max_miners_owned: 3, epoch_cycle_blocks: 10, epoch_total_rewards: 1000 });
    assert_eq!(p.my_verify(Origin::Unsigned, &data, sig.0, public.0), Ok(()));
    let other = b"reward report!".to_vec();
    assert_eq!(
        p.my_verify(Origin::Signed(1), &other, sig.0, public.0),
        Err(DispatchError::Module(Error::SignatureVerifyError))
    );
    let stranger = Pair::from_seed(&[8u8; 32]).public();
    assert_eq!(
        p.my_verify(Origin::Root, &data, sig.0, stranger.0),
        Err(DispatchError::Module(Error::SignatureVerifyError))
    );
}

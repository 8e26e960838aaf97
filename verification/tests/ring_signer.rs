use curve25519_dalek::ristretto::RistrettoPoint;
use curve25519_dalek::scalar::Scalar;
use leaderless_consensus::ring_signer::{
    InputSecret, KeyError, NoKeysRingSigner, OneTimeKeyDeriveData, RingMember, RingSignatureError,
    SignableInputRing, SignerError,
};
use leaderless_consensus::validation::TransactionValidationError;

fn private_key(tag: u8) -> [u8; 32] {
    let mut bytes = [0u8; 32];
    bytes[0] = tag;
    bytes[1] = 1;
    bytes
}

fn public_key(private: &[u8; 32]) -> [u8; 32] {
    RistrettoPoint::mul_base(&Scalar::from_bytes_mod_order(*private)).compress().to_bytes()
}

fn ring_of(real: usize, secret: OneTimeKeyDeriveData) -> SignableInputRing {
    let members = (0u8..4)
        .map(|i| RingMember { target_key: public_key(&private_key(10 + i)) })
        .collect();
    SignableInputRing {
        members,
        real_input_index: real,
        input_secret: InputSecret { onetime_key_derive_data: secret },
    }
}

#[test]
fn a_ring_is_signed_with_the_key_that_owns_the_real_input() {
    let ring = ring_of(2, OneTimeKeyDeriveData::OneTimeKey(private_key(12)));
    let request = NoKeysRingSigner {}.sign(b"message", &ring).expect("the key owns the input");
    assert_eq!(request.onetime_private_key, private_key(12));
    assert_eq!(request.message, b"message".to_vec());
    assert_eq!(
        request.ring,
        vec![
            public_key(&private_key(10)),
            public_key(&private_key(11)),
            public_key(&private_key(12)),
            public_key(&private_key(13)),
        ]
    );
}

#[test]
fn a_key_that_does_not_own_the_real_input_is_refused() {
    let ring = ring_of(2, OneTimeKeyDeriveData::OneTimeKey(private_key(11)));
    assert_eq!(NoKeysRingSigner {}.sign(b"message", &ring), Err(SignerError::TrueInputNotOwned));
    // the private key itself is not its public key
    let mut ring = ring_of(2, OneTimeKeyDeriveData::OneTimeKey(private_key(12)));
    ring.members[2].target_key = private_key(12);
    let refused = NoKeysRingSigner {}.sign(b"message", &ring);
    assert!(refused.is_err());
}

#[test]
fn an_index_outside_the_ring_is_refused() {
    let ring = ring_of(4, OneTimeKeyDeriveData::OneTimeKey(private_key(12)));
    assert_eq!(
        NoKeysRingSigner {}.sign(b"message", &ring),
        Err(SignerError::RealInputIndexOutOfBounds)
    );
    let empty = SignableInputRing {
        members: vec![],
        real_input_index: 0,
        input_secret: InputSecret {
            onetime_key_derive_data: OneTimeKeyDeriveData::OneTimeKey(private_key(12)),
        },
    };
    assert_eq!(
        NoKeysRingSigner {}.sign(b"message", &empty),
        Err(SignerError::RealInputIndexOutOfBounds)
    );
}

#[test]
fn a_subaddress_index_is_no_path_to_the_spend_key() {
    let ring = ring_of(2, OneTimeKeyDeriveData::SubaddressIndex(7));
    assert_eq!(NoKeysRingSigner {}.sign(b"message", &ring), Err(SignerError::NoPathToSpendKey));
}

#[test]
fn a_target_key_that_is_no_point_is_refused() {
    let mut ring = ring_of(2, OneTimeKeyDeriveData::OneTimeKey(private_key(12)));
    ring.members[2].target_key = [0xff; 32];
    assert_eq!(
        NoKeysRingSigner {}.sign(b"message", &ring),
        Err(SignerError::Keys(KeyError::InvalidPublicKey))
    );
    // the target key is looked at before the kind of secret
    let mut ring = ring_of(2, OneTimeKeyDeriveData::SubaddressIndex(7));
    ring.members[2].target_key = [0xff; 32];
    assert_eq!(
        NoKeysRingSigner {}.sign(b"message", &ring),
        Err(SignerError::Keys(KeyError::InvalidPublicKey))
    );
}

#[test]
fn a_member_whose_target_key_is_no_point_is_refused() {
    let mut ring = ring_of(2, OneTimeKeyDeriveData::OneTimeKey(private_key(12)));
    ring.members[0].target_key = [0xff; 32];
    assert_eq!(
        NoKeysRingSigner {}.sign(b"", &ring),
        Err(SignerError::Keys(KeyError::InvalidPublicKey))
    );
    // ownership is looked at before the other members
    let mut ring = ring_of(2, OneTimeKeyDeriveData::OneTimeKey(private_key(11)));
    ring.members[3].target_key = [0xff; 32];
    assert_eq!(NoKeysRingSigner {}.sign(b"", &ring), Err(SignerError::TrueInputNotOwned));
    // and so is the kind of secret
    let mut ring = ring_of(2, OneTimeKeyDeriveData::SubaddressIndex(7));
    ring.members[3].target_key = [0xff; 32];
    assert_eq!(NoKeysRingSigner {}.sign(b"", &ring), Err(SignerError::NoPathToSpendKey));
}

#[test]
fn an_empty_message_is_signed_too() {
    let ring = ring_of(2, OneTimeKeyDeriveData::OneTimeKey(private_key(12)));
    let request = NoKeysRingSigner {}.sign(b"", &ring).expect("the key owns the input");
    assert!(request.message.is_empty());
    assert_eq!(request.ring.len(), 4);
}

#[test]
fn the_checks_come_in_order() {
    let signer = NoKeysRingSigner {};
    let none = vec![false; 4];
    let all = vec![true; 4];
    let ring = ring_of(9, OneTimeKeyDeriveData::SubaddressIndex(7));
    // the index comes first, whatever the keys say
    assert_eq!(
        signer.check(b"m", &ring, &none, &[0u8; 32]),
        Err(SignerError::RealInputIndexOutOfBounds)
    );
    let ring = ring_of(1, OneTimeKeyDeriveData::SubaddressIndex(7));
    assert_eq!(
        signer.check(b"m", &ring, &none, &[0u8; 32]),
        Err(SignerError::Keys(KeyError::InvalidPublicKey))
    );
    assert_eq!(signer.check(b"m", &ring, &all, &[0u8; 32]), Err(SignerError::NoPathToSpendKey));
    let ring = ring_of(1, OneTimeKeyDeriveData::OneTimeKey(private_key(11)));
    assert_eq!(signer.check(b"m", &ring, &all, &[0u8; 32]), Err(SignerError::TrueInputNotOwned));
    let target = ring.members[1].target_key;
    assert_eq!(
        signer.check(b"m", &ring, &vec![true, true, true, false], &target),
        Err(SignerError::Keys(KeyError::InvalidPublicKey))
    );
    assert_eq!(
        signer.check(b"m", &ring, &vec![true, true, true, false], &[0u8; 32]),
        Err(SignerError::TrueInputNotOwned)
    );
    let request = signer.check(b"m", &ring, &all, &target).expect("the public key is the target");
    assert_eq!(request.onetime_private_key, private_key(11));
}

#[test]
fn a_key_error_becomes_a_validation_error() {
    assert_eq!(
        TransactionValidationError::from(KeyError::InvalidPublicKey),
        TransactionValidationError::KeyError
    );
}

#[test]
fn a_ring_signature_error_becomes_a_validation_error() {
    assert_eq!(
        TransactionValidationError::from(RingSignatureError {}),
        TransactionValidationError::SignatureError
    );
}

#[test]
fn validation_errors_are_compared_by_what_they_hold() {
    assert_eq!(
        TransactionValidationError::Ledger("full".to_string()),
        TransactionValidationError::Ledger("full".to_string())
    );
    assert_ne!(
        TransactionValidationError::Ledger("full".to_string()),
        TransactionValidationError::Ledger("empty".to_string())
    );
    assert_ne!(
        TransactionValidationError::LedgerTxOutIndexOutOfBounds(1),
        TransactionValidationError::LedgerTxOutIndexOutOfBounds(2)
    );
    assert!(TransactionValidationError::NoInputs < TransactionValidationError::TooManyInputs);
}

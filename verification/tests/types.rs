use leaderless_consensus::types::{Digest, PublicKey, Signature};

fn digest_with(first: u8, last: u8) -> Digest {
    let mut bytes = [0u8; 32];
    bytes[0] = first;
    bytes[31] = last;
    Digest::new(bytes)
}

#[test]
fn digests_are_equal_when_their_bytes_are() {
    assert!(digest_with(1, 2) == digest_with(1, 2));
    assert!(digest_with(1, 2) != digest_with(1, 3));
    assert!(digest_with(1, 2) != digest_with(2, 2));
    assert!(Digest::zero() == Digest::new([0u8; 32]));
}

#[test]
fn digests_are_ranked_by_their_first_difference() {
    assert!(digest_with(1, 9).less_than(&digest_with(2, 0)));
    assert!(!digest_with(2, 0).less_than(&digest_with(1, 9)));
    assert!(digest_with(1, 1).less_than(&digest_with(1, 2)));
    assert!(!digest_with(1, 2).less_than(&digest_with(1, 1)));
}

#[test]
fn no_digest_ranks_below_itself() {
    assert!(!digest_with(7, 7).less_than(&digest_with(7, 7)));
}

#[test]
fn the_higher_of_two_digests_does_not_depend_on_the_order() {
    let low = digest_with(1, 200);
    let high = digest_with(3, 0);
    assert!(low.max_with(high) == high);
    assert!(high.max_with(low) == high);
    assert!(high.max_with(high) == high);
}

#[test]
fn keys_and_signatures_are_compared_by_bytes() {
    assert!(PublicKey::new([4u8; 32]) == PublicKey::new([4u8; 32]));
    assert!(PublicKey::new([4u8; 32]) != PublicKey::new([5u8; 32]));
    assert!(Signature::unsigned() == Signature::new([0u8; 64]));
    let mut bytes = [0u8; 64];
    bytes[63] = 1;
    assert!(Signature::new(bytes) != Signature::unsigned());
}

use leaderless_consensus::committee::{Authority, Committee};
use leaderless_consensus::disseminator::QuorumDisseminator;
use leaderless_consensus::types::{Digest, PublicKey};

fn key(tag: u8) -> PublicKey {
    PublicKey::new([tag; 32])
}

fn hash(tag: u8) -> Digest {
    Digest::new([tag; 32])
}

fn committee_of(stakes: &[u32]) -> Committee {
    let mut authorities = Vec::new();
    for (i, stake) in stakes.iter().enumerate() {
        authorities.push(Authority { name: key(i as u8 + 1), stake: *stake });
    }
    Committee::new(authorities).expect("distinct names")
}

#[test]
fn a_batch_is_released_on_two_acknowledgements_of_four() {
    let mut disseminator = QuorumDisseminator::new(key(1), committee_of(&[1, 1, 1, 1]));
    assert_eq!(disseminator.submit(hash(50)), vec![]);
    assert_eq!(disseminator.waiting(), 1);
    assert_eq!(disseminator.ack(&hash(50), key(2)), vec![]);
    assert_eq!(disseminator.ack(&hash(50), key(3)), vec![hash(50)]);
    assert_eq!(disseminator.waiting(), 0);
    // a late acknowledgement finds nothing
    assert_eq!(disseminator.ack(&hash(50), key(4)), vec![]);
}

#[test]
fn a_repeated_acknowledgement_is_counted_once() {
    let mut disseminator = QuorumDisseminator::new(key(1), committee_of(&[1, 1, 1, 1]));
    disseminator.submit(hash(50));
    assert_eq!(disseminator.ack(&hash(50), key(2)), vec![]);
    assert_eq!(disseminator.ack(&hash(50), key(2)), vec![]);
    assert_eq!(disseminator.ack(&hash(50), key(1)), vec![]);
    assert_eq!(disseminator.waiting(), 1);
    assert_eq!(disseminator.ack(&hash(50), key(4)), vec![hash(50)]);
}

#[test]
fn an_acknowledgement_of_a_stranger_adds_no_stake() {
    let mut disseminator = QuorumDisseminator::new(key(1), committee_of(&[1, 1, 1, 1]));
    disseminator.submit(hash(50));
    assert_eq!(disseminator.ack(&hash(50), key(2)), vec![]);
    assert_eq!(disseminator.ack(&hash(50), key(9)), vec![]);
    assert_eq!(disseminator.ack(&hash(50), key(3)), vec![hash(50)]);
}

#[test]
fn a_single_worker_releases_at_once() {
    let mut disseminator = QuorumDisseminator::new(key(1), committee_of(&[1]));
    assert_eq!(disseminator.submit(hash(50)), vec![hash(50)]);
    assert_eq!(disseminator.waiting(), 0);
}

#[test]
fn batches_are_released_in_the_order_of_sealing() {
    let mut disseminator = QuorumDisseminator::new(key(1), committee_of(&[1, 1, 1, 1]));
    disseminator.submit(hash(50));
    disseminator.submit(hash(51));
    disseminator.submit(hash(52));
    // the second and third batch reach their quorum first
    assert_eq!(disseminator.ack(&hash(52), key(2)), vec![]);
    assert_eq!(disseminator.ack(&hash(52), key(3)), vec![]);
    assert_eq!(disseminator.ack(&hash(51), key(2)), vec![]);
    assert_eq!(disseminator.ack(&hash(51), key(4)), vec![]);
    assert_eq!(disseminator.waiting(), 3);
    assert_eq!(disseminator.ack(&hash(50), key(4)), vec![]);
    assert_eq!(disseminator.ack(&hash(50), key(3)), vec![hash(50), hash(51), hash(52)]);
    assert_eq!(disseminator.waiting(), 0);
}

#[test]
fn acknowledgements_are_weighed_by_the_stake_of_the_holder() {
    // total 10, quorum 7
    let mut disseminator = QuorumDisseminator::new(key(2), committee_of(&[6, 2, 1, 1]));
    disseminator.submit(hash(50));
    assert_eq!(disseminator.ack(&hash(50), key(3)), vec![]);
    assert_eq!(disseminator.ack(&hash(50), key(4)), vec![]);
    assert_eq!(disseminator.ack(&hash(50), key(1)), vec![hash(50)]);
    let mut heavy = QuorumDisseminator::new(key(1), committee_of(&[7, 1, 1, 1]));
    assert_eq!(heavy.submit(hash(51)), vec![hash(51)]);
}

#[test]
fn an_acknowledgement_of_an_unknown_batch_changes_nothing() {
    let mut disseminator = QuorumDisseminator::new(key(1), committee_of(&[1, 1, 1, 1]));
    assert_eq!(disseminator.ack(&hash(50), key(2)), vec![]);
    disseminator.submit(hash(50));
    assert_eq!(disseminator.ack(&hash(51), key(2)), vec![]);
    assert_eq!(disseminator.ack(&hash(51), key(3)), vec![]);
    assert_eq!(disseminator.waiting(), 1);
}

#[test]
fn a_batch_sealed_twice_is_released_twice() {
    let mut disseminator = QuorumDisseminator::new(key(1), committee_of(&[1, 1, 1, 1]));
    disseminator.submit(hash(50));
    disseminator.submit(hash(50));
    assert_eq!(disseminator.ack(&hash(50), key(2)), vec![]);
    assert_eq!(disseminator.ack(&hash(50), key(3)), vec![hash(50)]);
    assert_eq!(disseminator.ack(&hash(50), key(2)), vec![]);
    assert_eq!(disseminator.ack(&hash(50), key(3)), vec![hash(50)]);
}

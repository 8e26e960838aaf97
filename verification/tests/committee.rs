use leaderless_consensus::committee::{Authority, Committee, CommitteeError};
use leaderless_consensus::types::PublicKey;

fn key(tag: u8) -> PublicKey {
    PublicKey::new([tag; 32])
}

fn committee_of(stakes: &[u32]) -> Committee {
    let mut authorities = Vec::new();
    for (i, stake) in stakes.iter().enumerate() {
        authorities.push(Authority { name: key(i as u8 + 1), stake: *stake });
    }
    Committee::new(authorities).expect("distinct names")
}

#[test]
fn quorum_of_one_is_one() {
    let committee = committee_of(&[1]);
    assert_eq!(committee.total_stake(), 1);
    assert_eq!(committee.quorum_threshold(), 1);
    assert_eq!(committee.validity_threshold(), 1);
}

#[test]
fn quorum_of_four_is_three() {
    let committee = committee_of(&[1, 1, 1, 1]);
    assert_eq!(committee.total_stake(), 4);
    assert_eq!(committee.quorum_threshold(), 3);
    assert_eq!(committee.validity_threshold(), 2);
}

#[test]
fn thresholds_follow_the_total_stake() {
    // total, quorum = 2 * total / 3 + 1, validity = (total + 2) / 3
    let expected = [
        (1, 1, 1),
        (2, 2, 1),
        (3, 3, 1),
        (4, 3, 2),
        (5, 4, 2),
        (6, 5, 2),
        (7, 5, 3),
        (10, 7, 4),
        (100, 67, 34),
    ];
    for (total, quorum, validity) in expected {
        let committee = committee_of(&[total]);
        assert_eq!(committee.total_stake(), total);
        assert_eq!(committee.quorum_threshold(), quorum, "quorum of {}", total);
        assert_eq!(committee.validity_threshold(), validity, "validity of {}", total);
    }
}

#[test]
fn two_quorums_always_overlap_in_a_validity_threshold() {
    for total in 1u32..200 {
        let committee = committee_of(&[total]);
        let quorum = committee.quorum_threshold();
        let validity = committee.validity_threshold();
        assert!(2 * quorum > total);
        assert!(2 * quorum - total >= validity);
        assert!((total - 1) / 3 < validity);
    }
}

#[test]
fn stake_is_looked_up_by_name() {
    let committee = committee_of(&[5, 7, 11]);
    assert_eq!(committee.size(), 3);
    assert_eq!(committee.stake(&key(1)), 5);
    assert_eq!(committee.stake(&key(2)), 7);
    assert_eq!(committee.stake(&key(3)), 11);
    assert_eq!(committee.total_stake(), 23);
    assert_eq!(committee.member(1), Authority { name: key(2), stake: 7 });
}

#[test]
fn a_stranger_has_no_stake() {
    let committee = committee_of(&[5, 7, 11]);
    assert_eq!(committee.stake(&key(9)), 0);
}

#[test]
fn a_repeated_authority_is_refused() {
    let authorities = vec![
        Authority { name: key(1), stake: 1 },
        Authority { name: key(2), stake: 1 },
        Authority { name: key(1), stake: 3 },
    ];
    match Committee::new(authorities) {
        Err(error) => assert_eq!(error, CommitteeError::DuplicateAuthority(key(1))),
        Ok(_) => panic!("a committee with a repeated authority"),
    }
}

#[test]
fn a_total_stake_beyond_the_limit_is_refused() {
    let authorities = vec![
        Authority { name: key(1), stake: u32::MAX },
        Authority { name: key(2), stake: 1 },
    ];
    match Committee::new(authorities) {
        Err(error) => assert_eq!(error, CommitteeError::StakeOverflow),
        Ok(_) => panic!("a committee whose stake overflows"),
    }
}

#[test]
fn a_repeated_authority_is_reported_before_the_overflow() {
    let authorities = vec![
        Authority { name: key(1), stake: u32::MAX },
        Authority { name: key(2), stake: 1 },
        Authority { name: key(2), stake: 1 },
    ];
    match Committee::new(authorities) {
        Err(error) => assert_eq!(error, CommitteeError::DuplicateAuthority(key(2))),
        Ok(_) => panic!("a committee with a repeated authority"),
    }
}

#[test]
fn the_largest_total_stake_is_accepted() {
    let committee = committee_of(&[u32::MAX - 1, 1]);
    assert_eq!(committee.total_stake(), u32::MAX);
    assert_eq!(committee.quorum_threshold(), 2863311531);
    assert_eq!(committee.validity_threshold(), 1431655765);
}

#[test]
fn a_committee_without_stake_is_refused() {
    match Committee::new(Vec::new()) {
        Err(error) => assert_eq!(error, CommitteeError::NoStake),
        Ok(_) => panic!("a committee of nobody"),
    }
    let authorities = vec![
        Authority { name: key(1), stake: 0 },
        Authority { name: key(2), stake: 0 },
    ];
    match Committee::new(authorities) {
        Err(error) => assert_eq!(error, CommitteeError::NoStake),
        Ok(_) => panic!("a committee without stake"),
    }
    // an authority without stake beside one with stake is no fault
    let committee = committee_of(&[0, 3]);
    assert_eq!(committee.stake(&key(1)), 0);
    assert_eq!(committee.quorum_threshold(), 3);
}

use leaderless_consensus::committee::{Authority, Committee};
use leaderless_consensus::tally::{Ballot, Tally};
use leaderless_consensus::types::{Digest, PublicKey};

fn key(tag: u8) -> PublicKey {
    PublicKey::new([tag; 32])
}

fn hash(tag: u8) -> Digest {
    Digest::new([tag; 32])
}

fn committee_of(stakes: &[u32]) -> Committee {
    let mut authorities = Vec::new();
    for (i, stake) in stakes.iter().enumerate() {
        authorities.push(Authority { name: key(i as u8 + 1), stake: *stake });
    }
    Committee::new(authorities).expect("distinct names")
}

fn vote(tx: u8) -> Ballot {
    Ballot { tx_hash: hash(tx), commit: false }
}

fn commit(tx: u8) -> Ballot {
    Ballot { tx_hash: hash(tx), commit: true }
}

#[test]
fn an_empty_tally_has_no_votes_and_a_running_timer() {
    let committee = committee_of(&[1, 1, 1, 1]);
    let tally = Tally::new();
    assert_eq!(tally.len(), 0);
    assert_eq!(tally.total_votes(&committee), 0);
    assert!(!tally.expired());
    assert_eq!(tally.find_quorum_of_votes(&committee), None);
    assert_eq!(tally.find_quorum_of_commits(&committee), None);
}

#[test]
fn a_later_vote_of_an_author_replaces_the_earlier() {
    let committee = committee_of(&[1, 1, 1, 1]);
    let mut tally = Tally::new();
    tally.insert(key(1), vote(10));
    tally.insert(key(1), vote(20));
    assert_eq!(tally.len(), 1);
    assert_eq!(tally.total_votes(&committee), 1);
    assert_eq!(tally.ballot_of(&key(1)), Some(vote(20)));
    assert_eq!(tally.backing(&committee, &hash(10), false), 0);
    assert_eq!(tally.backing(&committee, &hash(20), false), 1);
}

#[test]
fn stake_is_summed_by_author_not_by_message() {
    let committee = committee_of(&[1, 1, 1, 1]);
    let mut tally = Tally::new();
    for _ in 0..5 {
        tally.insert(key(1), vote(10));
        tally.insert(key(2), vote(10));
    }
    assert_eq!(tally.total_votes(&committee), 2);
    assert_eq!(tally.find_quorum_of_votes(&committee), None);
}

#[test]
fn three_of_four_votes_are_a_quorum() {
    let committee = committee_of(&[1, 1, 1, 1]);
    let mut tally = Tally::new();
    tally.insert(key(1), vote(10));
    tally.insert(key(2), vote(10));
    assert_eq!(tally.find_quorum_of_votes(&committee), None);
    tally.insert(key(3), vote(10));
    assert_eq!(tally.find_quorum_of_votes(&committee), Some(hash(10)));
    assert_eq!(tally.find_quorum_of_commits(&committee), None);
}

#[test]
fn votes_and_commits_are_counted_apart() {
    let committee = committee_of(&[1, 1, 1, 1]);
    let mut tally = Tally::new();
    tally.insert(key(1), vote(10));
    tally.insert(key(2), commit(10));
    tally.insert(key(3), commit(10));
    assert_eq!(tally.find_quorum_of_votes(&committee), None);
    assert_eq!(tally.find_quorum_of_commits(&committee), None);
    tally.insert(key(4), commit(10));
    assert_eq!(tally.find_quorum_of_commits(&committee), Some(hash(10)));
    assert_eq!(tally.find_quorum_of_votes(&committee), None);
    assert_eq!(tally.total_votes(&committee), 4);
}

#[test]
fn a_split_round_has_no_quorum() {
    let committee = committee_of(&[1, 1, 1, 1]);
    let mut tally = Tally::new();
    tally.insert(key(1), vote(10));
    tally.insert(key(2), vote(10));
    tally.insert(key(3), vote(20));
    tally.insert(key(4), vote(20));
    assert_eq!(tally.total_votes(&committee), 4);
    assert_eq!(tally.find_quorum_of_votes(&committee), None);
}

#[test]
fn votes_are_weighed_by_stake() {
    let committee = committee_of(&[5, 1, 1]);
    // total 7, quorum 5
    let mut tally = Tally::new();
    tally.insert(key(2), vote(10));
    tally.insert(key(3), vote(10));
    assert_eq!(tally.find_quorum_of_votes(&committee), None);
    tally.insert(key(1), vote(20));
    assert_eq!(tally.find_quorum_of_votes(&committee), Some(hash(20)));
    assert_eq!(tally.backing(&committee, &hash(20), false), 5);
    assert_eq!(tally.backing(&committee, &hash(10), false), 2);
    assert_eq!(tally.total_votes(&committee), 7);
}

#[test]
fn a_stranger_adds_no_stake() {
    let committee = committee_of(&[1, 1, 1, 1]);
    let mut tally = Tally::new();
    tally.insert(key(1), vote(10));
    tally.insert(key(2), vote(10));
    tally.insert(key(77), vote(10));
    assert!(tally.voted(&key(77)));
    assert_eq!(tally.len(), 3);
    assert_eq!(tally.total_votes(&committee), 2);
    assert_eq!(tally.find_quorum_of_votes(&committee), None);
}

#[test]
fn the_timer_expires_once_and_stays_expired() {
    let mut tally = Tally::new();
    tally.insert(key(1), vote(10));
    assert!(!tally.expired());
    tally.expire();
    assert!(tally.expired());
    tally.insert(key(2), vote(10));
    tally.expire();
    assert!(tally.expired());
    assert_eq!(tally.len(), 2);
}

#[test]
fn a_tally_knows_who_has_voted() {
    let mut tally = Tally::new();
    assert!(!tally.voted(&key(1)));
    tally.insert(key(1), commit(10));
    assert!(tally.voted(&key(1)));
    assert!(!tally.voted(&key(2)));
    assert_eq!(tally.ballot_of(&key(2)), None);
}

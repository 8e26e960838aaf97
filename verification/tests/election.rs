use leaderless_consensus::committee::{Authority, Committee};
use leaderless_consensus::election::{Action, Election};
use leaderless_consensus::messages::Vote;
use leaderless_consensus::types::{Digest, PublicKey};

fn key(tag: u8) -> PublicKey {
    PublicKey::new([tag; 32])
}

fn hash(tag: u8) -> Digest {
    Digest::new([tag; 32])
}

fn committee_of(n: u8) -> Committee {
    let mut authorities = Vec::new();
    for i in 0..n {
        authorities.push(Authority { name: key(i + 1), stake: 1 });
    }
    Committee::new(authorities).expect("distinct names")
}

const ELECTION: u8 = 200;
const HEADER: u8 = 201;

fn vote(round: u64, tx: u8, commit: bool, author: u8) -> Vote {
    Vote::new(round, hash(tx), hash(ELECTION), 0, commit, key(author), hash(HEADER))
}

fn timer(vote_round: u64) -> Action {
    Action::StartTimer { proposal_round: 0, election_id: hash(ELECTION), vote_round }
}

#[test]
fn a_new_election_holds_nothing() {
    let election = Election::new();
    assert!(!election.decided());
    assert_eq!(election.decision(), None);
    assert_eq!(election.commit(), None);
    assert_eq!(election.proof_round(), None);
    assert_eq!(election.highest(), None);
    assert!(!election.voted_or_committed(&key(1), 0));
    assert_eq!(election.total_votes(0, &committee_of(4)), 0);
}

#[test]
fn counting_a_vote_opens_its_round_once() {
    let mut election = Election::new();
    assert!(election.insert_vote(&vote(0, 10, false, 2)));
    assert!(!election.insert_vote(&vote(0, 10, false, 3)));
    assert!(election.insert_vote(&vote(5, 10, false, 3)));
    assert!(election.voted_or_committed(&key(2), 0));
    assert!(election.voted_or_committed(&key(3), 5));
    assert!(!election.voted_or_committed(&key(2), 5));
    assert_eq!(election.total_votes(0, &committee_of(4)), 2);
    assert_eq!(election.total_votes(5, &committee_of(4)), 1);
}

#[test]
fn the_highest_hash_is_the_greatest_seen() {
    let mut election = Election::new();
    election.insert_vote(&vote(0, 10, false, 2));
    assert_eq!(election.highest(), Some(hash(10)));
    election.insert_vote(&vote(0, 30, false, 3));
    assert_eq!(election.highest(), Some(hash(30)));
    election.insert_vote(&vote(1, 20, false, 4));
    assert_eq!(election.highest(), Some(hash(30)));
    // a replaced vote has still been seen
    election.insert_vote(&vote(0, 5, false, 3));
    assert_eq!(election.highest(), Some(hash(30)));
}

#[test]
fn the_first_vote_is_answered_with_an_initial_vote() {
    let committee = committee_of(4);
    let mut election = Election::new();
    let actions = election.receive(&vote(0, 10, false, 2), &key(1), &committee);
    let own = vote(0, 10, false, 1);
    assert_eq!(actions, vec![timer(0), Action::SendVote(own)]);
    assert!(election.voted_or_committed(&key(1), 0));
    assert_eq!(election.total_votes(0, &committee), 2);
    assert_eq!(election.commit(), None);
    assert!(!election.decided());
}

#[test]
fn the_initial_vote_prefers_the_highest_hash_seen() {
    let committee = committee_of(4);
    let mut election = Election::new();
    election.insert_vote(&vote(0, 30, false, 3));
    // the vote that triggers the rules is in round 1, where the replica has not voted
    let actions = election.receive(&vote(1, 10, false, 2), &key(1), &committee);
    assert_eq!(actions, vec![timer(1), Action::SendVote(vote(1, 30, false, 1))]);
}

#[test]
fn the_initial_vote_copies_the_commit_bit() {
    let committee = committee_of(4);
    let mut election = Election::new();
    let actions = election.receive(&vote(3, 10, true, 2), &key(1), &committee);
    assert_eq!(actions, vec![timer(3), Action::SendVote(vote(3, 10, true, 1))]);
    assert_eq!(election.commit(), None);
}

#[test]
fn a_quorum_of_votes_makes_the_replica_commit() {
    let committee = committee_of(4);
    let mut election = Election::new();
    election.insert_vote(&vote(0, 10, false, 1));
    election.insert_vote(&vote(0, 10, false, 2));
    let actions = election.receive(&vote(0, 10, false, 3), &key(1), &committee);
    assert_eq!(actions, vec![Action::SendVote(vote(1, 10, true, 1)), timer(1)]);
    assert_eq!(election.commit(), Some(hash(10)));
    assert_eq!(election.proof_round(), Some(0));
    assert!(election.voted_or_committed(&key(1), 1));
    assert!(!election.decided());
}

#[test]
fn a_quorum_of_commits_decides() {
    let committee = committee_of(4);
    let mut election = Election::new();
    election.insert_vote(&vote(1, 10, true, 1));
    election.insert_vote(&vote(1, 10, true, 2));
    let actions = election.receive(&vote(1, 10, true, 3), &key(1), &committee);
    assert_eq!(actions, vec![]);
    assert!(election.decided());
    assert_eq!(election.decision(), Some(hash(10)));
}

#[test]
fn the_decision_is_what_the_quorum_commits_to() {
    let committee = committee_of(4);
    let mut election = Election::new();
    // the replica itself has committed to nothing
    election.insert_vote(&vote(2, 30, true, 2));
    election.insert_vote(&vote(2, 30, true, 3));
    election.insert_vote(&vote(2, 10, false, 1));
    election.receive(&vote(2, 30, true, 4), &key(1), &committee);
    assert_eq!(election.decision(), Some(hash(30)));
    assert_eq!(election.commit(), None);
}

#[test]
fn a_decided_election_takes_no_further_vote() {
    let committee = committee_of(4);
    let mut election = Election::new();
    election.insert_vote(&vote(1, 10, true, 1));
    election.insert_vote(&vote(1, 10, true, 2));
    election.receive(&vote(1, 10, true, 3), &key(1), &committee);
    assert!(election.decided());
    let actions = election.receive(&vote(1, 20, true, 4), &key(1), &committee);
    assert_eq!(actions, vec![]);
    assert!(!election.voted_or_committed(&key(4), 1));
    assert_eq!(election.decision(), Some(hash(10)));
    assert_eq!(election.highest(), Some(hash(10)));
    let actions = election.propose(&vote(0, 20, false, 4), &key(1), &committee);
    assert_eq!(actions, vec![]);
    assert_eq!(election.decision(), Some(hash(10)));
}

#[test]
fn the_vote_changes_when_everybody_has_voted_without_quorum() {
    let committee = committee_of(4);
    let mut election = Election::new();
    election.insert_vote(&vote(0, 10, false, 1));
    election.insert_vote(&vote(0, 10, false, 2));
    election.insert_vote(&vote(0, 20, false, 3));
    let actions = election.receive(&vote(0, 20, false, 4), &key(1), &committee);
    // the timer runs still: everybody has voted
    assert_eq!(actions, vec![Action::SendVote(vote(1, 20, false, 1)), timer(1)]);
    assert_eq!(election.commit(), None);
    assert!(election.voted_or_committed(&key(1), 1));
}

#[test]
fn the_vote_does_not_change_while_the_timer_runs() {
    let committee = committee_of(4);
    let mut election = Election::new();
    election.insert_vote(&vote(0, 10, false, 1));
    election.insert_vote(&vote(0, 10, false, 2));
    let actions = election.receive(&vote(0, 20, false, 3), &key(1), &committee);
    assert_eq!(actions, vec![]);
    assert!(!election.voted_or_committed(&key(1), 1));
}

#[test]
fn the_vote_changes_on_a_quorum_of_voters_once_the_timer_has_expired() {
    let committee = committee_of(4);
    let mut election = Election::new();
    election.insert_vote(&vote(0, 10, false, 1));
    election.insert_vote(&vote(0, 10, false, 2));
    election.expire(0);
    let actions = election.receive(&vote(0, 20, false, 3), &key(1), &committee);
    assert_eq!(actions, vec![Action::SendVote(vote(1, 20, false, 1)), timer(1)]);
}

#[test]
fn the_expiry_alone_changes_no_vote() {
    let committee = committee_of(4);
    let mut election = Election::new();
    election.insert_vote(&vote(0, 10, false, 1));
    election.insert_vote(&vote(0, 10, false, 2));
    election.insert_vote(&vote(0, 20, false, 3));
    election.expire(0);
    assert!(!election.voted_or_committed(&key(1), 1));
    // the rules are applied again on the next vote
    let actions = election.receive(&vote(0, 20, false, 3), &key(1), &committee);
    assert_eq!(actions, vec![Action::SendVote(vote(1, 20, false, 1)), timer(1)]);
}

#[test]
fn a_changed_vote_keeps_the_commit() {
    let committee = committee_of(4);
    let mut election = Election::new();
    // the replica commits to 10 on the quorum of round 0
    election.insert_vote(&vote(0, 10, false, 1));
    election.insert_vote(&vote(0, 10, false, 2));
    election.receive(&vote(0, 10, false, 3), &key(1), &committee);
    assert_eq!(election.commit(), Some(hash(10)));
    // round 1 fills up without a quorum, with higher hashes
    election.insert_vote(&vote(1, 30, false, 2));
    election.insert_vote(&vote(1, 30, false, 3));
    let actions = election.receive(&vote(1, 20, false, 4), &key(1), &committee);
    assert_eq!(actions, vec![Action::SendVote(vote(2, 10, true, 1)), timer(2)]);
    assert_eq!(election.commit(), Some(hash(10)));
    assert_eq!(election.proof_round(), Some(0));
}

#[test]
fn a_later_quorum_of_votes_moves_the_commit() {
    let committee = committee_of(4);
    let mut election = Election::new();
    election.insert_vote(&vote(0, 10, false, 1));
    election.insert_vote(&vote(0, 10, false, 2));
    election.receive(&vote(0, 10, false, 3), &key(1), &committee);
    assert_eq!(election.commit(), Some(hash(10)));
    election.insert_vote(&vote(4, 30, false, 2));
    election.insert_vote(&vote(4, 30, false, 3));
    let actions = election.receive(&vote(4, 30, false, 4), &key(1), &committee);
    assert_eq!(actions, vec![Action::SendVote(vote(5, 30, true, 1)), timer(5)]);
    assert_eq!(election.commit(), Some(hash(30)));
    assert_eq!(election.proof_round(), Some(4));
}

#[test]
fn the_replica_votes_once_in_a_round() {
    let committee = committee_of(4);
    let mut election = Election::new();
    election.insert_vote(&vote(0, 10, false, 1));
    election.insert_vote(&vote(0, 10, false, 2));
    let first = election.receive(&vote(0, 10, false, 3), &key(1), &committee);
    assert_eq!(first.len(), 2);
    // the quorum is still there, the replica has voted in round 1 already
    let second = election.receive(&vote(0, 10, false, 4), &key(1), &committee);
    assert_eq!(second, vec![]);
    assert_eq!(election.total_votes(1, &committee), 1);
}

#[test]
fn own_votes_are_handled_in_turn_until_the_decision() {
    // a committee of one: the own vote is a quorum of votes, the own commit a quorum of commits
    let committee = committee_of(1);
    let mut election = Election::new();
    let actions = election.propose(&vote(0, 10, false, 1), &key(1), &committee);
    assert_eq!(actions, vec![timer(0), Action::SendVote(vote(1, 10, true, 1)), timer(1)]);
    assert!(election.decided());
    assert_eq!(election.decision(), Some(hash(10)));
    assert_eq!(election.commit(), Some(hash(10)));
    assert_eq!(election.proof_round(), Some(0));
}

#[test]
fn a_proposal_of_another_replica_is_voted_for() {
    let committee = committee_of(4);
    let mut election = Election::new();
    let actions = election.propose(&vote(0, 10, false, 2), &key(1), &committee);
    assert_eq!(actions, vec![timer(0), Action::SendVote(vote(0, 10, false, 1))]);
    assert!(election.voted_or_committed(&key(1), 0));
    assert!(election.voted_or_committed(&key(2), 0));
    assert_eq!(election.total_votes(0, &committee), 2);
}

#[test]
fn an_own_proposal_is_not_voted_for_twice() {
    let committee = committee_of(4);
    let mut election = Election::new();
    let actions = election.propose(&vote(0, 10, false, 1), &key(1), &committee);
    assert_eq!(actions, vec![timer(0)]);
    assert_eq!(election.total_votes(0, &committee), 1);
}

#[test]
fn two_replicas_are_a_quorum_of_two() {
    let committee = committee_of(2);
    let mut election = Election::new();
    let actions = election.propose(&vote(0, 10, false, 2), &key(1), &committee);
    assert_eq!(
        actions,
        vec![
            timer(0),
            Action::SendVote(vote(0, 10, false, 1)),
            Action::SendVote(vote(1, 10, true, 1)),
            timer(1),
        ]
    );
    assert_eq!(election.commit(), Some(hash(10)));
    assert!(!election.decided());
    let actions = election.receive(&vote(1, 10, true, 2), &key(1), &committee);
    assert_eq!(actions, vec![]);
    assert_eq!(election.decision(), Some(hash(10)));
}

#[test]
fn the_last_round_has_no_next_round() {
    let committee = committee_of(4);
    let mut election = Election::new();
    election.insert_vote(&vote(u64::MAX, 10, false, 2));
    election.insert_vote(&vote(u64::MAX, 10, false, 3));
    // a quorum of votes in the last round: no commit can follow, the replica casts its vote
    let actions = election.receive(&vote(u64::MAX, 10, false, 4), &key(1), &committee);
    assert_eq!(actions, vec![Action::SendVote(vote(u64::MAX, 10, false, 1))]);
    assert_eq!(election.commit(), None);
    let actions = election.receive(&vote(u64::MAX, 10, false, 4), &key(1), &committee);
    assert_eq!(actions, vec![]);
}

#[test]
fn expiring_a_round_without_votes_changes_nothing() {
    let committee = committee_of(4);
    let mut election = Election::new();
    election.expire(3);
    assert_eq!(election.total_votes(3, &committee), 0);
    // the round opens later with a running timer
    election.insert_vote(&vote(3, 10, false, 1));
    election.insert_vote(&vote(3, 10, false, 2));
    let actions = election.receive(&vote(3, 20, false, 3), &key(1), &committee);
    assert_eq!(actions, vec![]);
}

#[test]
fn votes_in_any_order_show_the_same_quorum() {
    let committee = committee_of(4);
    let votes = [
        vote(0, 10, false, 1),
        vote(0, 10, false, 2),
        vote(0, 20, false, 3),
        vote(0, 10, false, 4),
        vote(1, 10, true, 2),
        vote(1, 10, true, 3),
        vote(1, 10, true, 4),
    ];
    let orders: [[usize; 7]; 4] = [
        [0, 1, 2, 3, 4, 5, 6],
        [6, 5, 4, 3, 2, 1, 0],
        [3, 0, 6, 1, 5, 2, 4],
        [4, 2, 0, 5, 3, 6, 1],
    ];
    for order in orders {
        let mut election = Election::new();
        for i in order {
            election.insert_vote(&votes[i]);
        }
        assert_eq!(election.find_quorum(0, &committee, false), Some(hash(10)));
        assert_eq!(election.find_quorum(0, &committee, true), None);
        assert_eq!(election.find_quorum(1, &committee, true), Some(hash(10)));
        assert_eq!(election.highest(), Some(hash(20)));
        assert_eq!(election.total_votes(0, &committee), 4);
        assert_eq!(election.total_votes(1, &committee), 3);
    }
}

#[test]
fn a_replica_outside_the_committee_still_follows_the_rules() {
    let committee = committee_of(4);
    let mut election = Election::new();
    let actions = election.receive(&vote(0, 10, false, 2), &key(9), &committee);
    assert_eq!(actions, vec![timer(0), Action::SendVote(vote(0, 10, false, 9))]);
    // its vote has no stake
    assert_eq!(election.total_votes(0, &committee), 1);
}

#[test]
fn the_votes_that_the_replica_casts_depend_on_the_order_of_arrival() {
    let committee = committee_of(4);
    let round1 = [vote(1, 10, false, 3), vote(1, 20, false, 4), vote(1, 10, false, 2)];

    // the votes for hash 10 first: the replica joins them, and commits on their quorum
    let mut election = Election::new();
    election.propose(&vote(0, 10, false, 2), &key(1), &committee);
    let mut cast = Vec::new();
    for i in [0, 1, 2] {
        cast.extend(election.receive(&round1[i], &key(1), &committee));
    }
    assert_eq!(
        cast,
        vec![
            timer(1),
            Action::SendVote(vote(1, 10, false, 1)),
            Action::SendVote(vote(2, 10, true, 1)),
            timer(2),
        ]
    );
    assert_eq!(election.commit(), Some(hash(10)));

    // the vote for hash 20 first: the replica joins it, and the round ends without a quorum
    let mut election = Election::new();
    election.propose(&vote(0, 10, false, 2), &key(1), &committee);
    let mut cast = Vec::new();
    for i in [1, 0, 2] {
        cast.extend(election.receive(&round1[i], &key(1), &committee));
    }
    assert_eq!(
        cast,
        vec![
            timer(1),
            Action::SendVote(vote(1, 20, false, 1)),
            Action::SendVote(vote(2, 20, false, 1)),
            timer(2),
        ]
    );
    assert_eq!(election.commit(), None);
}

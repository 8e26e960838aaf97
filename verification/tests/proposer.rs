use leaderless_consensus::committee::{Authority, Committee};
use leaderless_consensus::election::Action;
use leaderless_consensus::hashing::{has_valid_id, header_digest};
use leaderless_consensus::messages::{Header, Vote};
use leaderless_consensus::proposer::Proposer;
use leaderless_consensus::types::{Digest, PublicKey, Signature};

fn key(tag: u8) -> PublicKey {
    PublicKey::new([tag; 32])
}

fn hash(tag: u8) -> Digest {
    Digest::new([tag; 32])
}

fn committee_of(n: u8) -> Committee {
    let mut authorities = Vec::new();
    for i in 0..n {
        authorities.push(Authority { name: key(i + 1), stake: 1 });
    }
    Committee::new(authorities).expect("distinct names")
}

fn proposer(me: u8, n: u8, header_size: usize) -> Proposer {
    Proposer::new(key(me), committee_of(n), header_size, false)
}

fn header(round: u64, author: u8, proposals: &[(u8, u8)], id: u8) -> Header {
    let mut header = Header::new(
        round,
        key(author),
        proposals.iter().map(|(tx, election)| (hash(*tx), hash(*election))).collect(),
    );
    header.id = hash(id);
    header
}

fn vote(round: u64, tx: u8, election: u8, proposal_round: u64, commit: bool, author: u8, id: u8) -> Vote {
    Vote::new(round, hash(tx), hash(election), proposal_round, commit, key(author), hash(id))
}

fn timer(proposal_round: u64, election: u8, vote_round: u64) -> Action {
    Action::StartTimer { proposal_round, election_id: hash(election), vote_round }
}

#[test]
fn a_new_proposer_is_in_round_zero() {
    let proposer = proposer(1, 4, 3);
    assert_eq!(proposer.round(), 0);
    assert!(proposer.name() == key(1));
    assert!(proposer.proposals().is_empty());
    assert!(proposer.pending_votes().is_empty());
    assert!(proposer.own_proposals().is_empty());
    assert!(proposer.active_elections().is_empty());
    assert!(proposer.election(0, &hash(100)).is_none());
    assert!(!proposer.is_decided(&hash(100)));
    assert!(!proposer.header_committed(&hash(50)));
}

#[test]
fn a_header_is_made_when_enough_proposals_wait() {
    let mut proposer = proposer(1, 4, 2);
    assert_eq!(proposer.offer(hash(10), hash(100)), None);
    let made = proposer.offer(hash(11), hash(101)).expect("two proposals wait");
    assert_eq!(made.round, 0);
    assert!(made.author == key(1));
    assert_eq!(made.proposals, vec![(hash(10), hash(100)), (hash(11), hash(101))]);
    assert!(made.id == header_digest(&made));
    assert!(has_valid_id(&made));
    assert!(made.signature == Signature::unsigned());
    assert!(proposer.proposals().is_empty());
    assert_eq!(proposer.own_proposals(), &vec![0]);
}

#[test]
fn one_header_is_made_in_a_round() {
    let mut proposer = proposer(1, 4, 1);
    assert!(proposer.offer(hash(10), hash(100)).is_some());
    assert_eq!(proposer.offer(hash(11), hash(101)), None);
    assert_eq!(proposer.offer(hash(12), hash(102)), None);
    assert_eq!(proposer.tick(), None);
    assert_eq!(proposer.make_header(), None);
    assert_eq!(proposer.proposals().len(), 2);
    assert_eq!(proposer.own_proposals(), &vec![0]);
}

#[test]
fn the_timer_makes_a_header_of_what_waits() {
    let mut proposer = proposer(1, 4, 10);
    assert_eq!(proposer.tick(), None);
    assert_eq!(proposer.offer(hash(10), hash(100)), None);
    let made = proposer.tick().expect("a proposal waits");
    assert_eq!(made.proposals, vec![(hash(10), hash(100))]);
    assert_eq!(proposer.tick(), None);
}

#[test]
fn a_header_takes_no_more_than_its_size() {
    let mut proposer = proposer(1, 4, 2);
    // the replica has a header in round 0 already, so proposals pile up
    assert!(proposer.make_header().is_some());
    for i in 0..5 {
        assert_eq!(proposer.offer(hash(10 + i), hash(100 + i)), None);
    }
    // a decision moves the replica to round 1
    let opened = header(7, 2, &[(50, 150)], 60);
    proposer.process_header(&opened);
    for author in 2..=4 {
        proposer.process_vote(&vote(1, 50, 150, 7, true, author, 60));
    }
    assert_eq!(proposer.round(), 1);
    let made = proposer.tick().expect("proposals wait in a new round");
    assert_eq!(made.round, 1);
    assert_eq!(made.proposals, vec![(hash(10), hash(100)), (hash(11), hash(101))]);
    assert_eq!(
        proposer.proposals(),
        &vec![(hash(12), hash(102)), (hash(13), hash(103)), (hash(14), hash(104))]
    );
    assert_eq!(proposer.own_proposals(), &vec![0, 1]);
}

#[test]
fn proposals_of_open_elections_are_left_out_of_a_header() {
    let mut proposer = proposer(1, 4, 10);
    proposer.offer(hash(10), hash(100));
    proposer.offer(hash(11), hash(101));
    // another replica opens election 101 with another hash
    proposer.process_header(&header(0, 2, &[(99, 101)], 60));
    assert_eq!(proposer.proposals(), &vec![(hash(10), hash(100))]);
    assert_eq!(proposer.active_elections(), &vec![hash(101)]);
    // a proposal for the open election that arrives later is dropped when the header is made
    proposer.offer(hash(12), hash(101));
    let made = proposer.tick().expect("proposals wait");
    assert_eq!(made.proposals, vec![(hash(10), hash(100))]);
    assert!(proposer.proposals().is_empty());
}

#[test]
fn a_header_of_another_replica_is_answered_with_a_vote() {
    let mut proposer = proposer(1, 4, 10);
    let actions = proposer.process_header(&header(3, 2, &[(10, 100), (11, 101)], 60));
    assert_eq!(
        actions,
        vec![
            timer(3, 100, 0),
            Action::SendVote(vote(0, 10, 100, 3, false, 1, 60)),
            timer(3, 101, 0),
            Action::SendVote(vote(0, 11, 101, 3, false, 1, 60)),
        ]
    );
    let election = proposer.election(3, &hash(100)).expect("the header opens the election");
    assert!(election.voted_or_committed(&key(1), 0));
    assert!(election.voted_or_committed(&key(2), 0));
    assert!(!election.voted_or_committed(&key(3), 0));
    assert_eq!(election.highest(), Some(hash(10)));
    assert!(proposer.election(3, &hash(101)).is_some());
    assert!(proposer.election(0, &hash(100)).is_none());
    assert_eq!(proposer.active_elections(), &vec![hash(100), hash(101)]);
    assert!(!proposer.header_committed(&hash(60)));
    assert_eq!(proposer.round(), 0);
}

#[test]
fn an_own_header_is_not_answered() {
    let mut proposer = proposer(1, 4, 10);
    let actions = proposer.process_header(&header(0, 1, &[(10, 100)], 60));
    assert_eq!(actions, vec![timer(0, 100, 0)]);
    let election = proposer.election(0, &hash(100)).expect("the header opens the election");
    assert!(election.voted_or_committed(&key(1), 0));
    assert_eq!(election.total_votes(0, &committee_of(4)), 1);
}

#[test]
fn a_silent_replica_does_nothing() {
    let mut proposer = Proposer::new(key(1), committee_of(4), 1, true);
    assert_eq!(proposer.offer(hash(10), hash(100)), None);
    assert!(proposer.proposals().is_empty());
    assert_eq!(proposer.tick(), None);
    assert_eq!(proposer.make_header(), None);
    assert_eq!(proposer.process_header(&header(0, 2, &[(10, 100)], 60)), vec![]);
    assert!(proposer.election(0, &hash(100)).is_none());
    assert_eq!(proposer.process_vote(&vote(0, 10, 100, 0, false, 2, 60)), vec![]);
    assert!(proposer.pending_votes().is_empty());
    assert!(proposer.own_proposals().is_empty());
    assert_eq!(proposer.round(), 0);
}

#[test]
fn a_committee_of_one_decides_at_once() {
    let mut proposer = proposer(1, 1, 1);
    let mut made = proposer.offer(hash(10), hash(100)).expect("one proposal is enough");
    made.id = hash(60);
    let actions = proposer.process_header(&made);
    assert_eq!(
        actions,
        vec![
            timer(0, 100, 0),
            Action::SendVote(vote(1, 10, 100, 0, true, 1, 60)),
            timer(0, 100, 1),
            Action::ResetHeaderTimer,
            Action::HeaderCommitted(hash(60)),
        ]
    );
    let election = proposer.election(0, &hash(100)).expect("the header opens the election");
    assert_eq!(election.decision(), Some(hash(10)));
    assert!(proposer.is_decided(&hash(100)));
    assert!(proposer.header_committed(&hash(60)));
    assert_eq!(proposer.round(), 1);
}

#[test]
fn a_decision_moves_the_replica_to_the_next_round() {
    let mut proposer = proposer(1, 4, 10);
    proposer.process_header(&header(0, 2, &[(10, 100)], 60));
    assert_eq!(proposer.process_vote(&vote(1, 10, 100, 0, true, 2, 60)), vec![
        timer(0, 100, 1),
        Action::SendVote(vote(1, 10, 100, 0, true, 1, 60)),
    ]);
    assert_eq!(proposer.process_vote(&vote(1, 10, 100, 0, true, 3, 60)), vec![
        Action::ResetHeaderTimer,
        Action::HeaderCommitted(hash(60)),
    ]);
    assert_eq!(proposer.round(), 1);
    assert!(proposer.is_decided(&hash(100)));
    assert!(proposer.header_committed(&hash(60)));
    // nothing more happens in a decided election
    assert_eq!(proposer.process_vote(&vote(1, 10, 100, 0, true, 4, 60)), vec![]);
    assert_eq!(proposer.round(), 1);
}

#[test]
fn a_header_is_committed_when_all_its_elections_are_decided() {
    let mut proposer = proposer(1, 4, 10);
    proposer.process_header(&header(0, 2, &[(10, 100), (11, 101)], 60));
    for author in 2..=4 {
        proposer.process_vote(&vote(1, 10, 100, 0, true, author, 60));
    }
    assert!(proposer.is_decided(&hash(100)));
    assert!(!proposer.is_decided(&hash(101)));
    assert!(!proposer.header_committed(&hash(60)));
    assert_eq!(proposer.round(), 1);
    let mut all = Vec::new();
    for author in 2..=4 {
        all.extend(proposer.process_vote(&vote(1, 11, 101, 0, true, author, 60)));
    }
    assert_eq!(
        all,
        vec![
            timer(0, 101, 1),
            Action::SendVote(vote(1, 11, 101, 0, true, 1, 60)),
            Action::ResetHeaderTimer,
            Action::HeaderCommitted(hash(60)),
        ]
    );
    assert!(proposer.header_committed(&hash(60)));
    assert_eq!(proposer.round(), 2);
}

#[test]
fn a_vote_without_its_header_waits() {
    let mut proposer = proposer(1, 4, 10);
    let early = vote(0, 10, 100, 5, false, 3, 60);
    assert_eq!(proposer.process_vote(&early), vec![]);
    assert_eq!(proposer.pending_votes(), &vec![early]);
    assert!(proposer.election(5, &hash(100)).is_none());
    // the same vote waits once
    assert_eq!(proposer.process_vote(&early), vec![]);
    assert_eq!(proposer.pending_votes().len(), 1);
    // a header of another round leaves it waiting
    proposer.process_header(&header(4, 2, &[(10, 100)], 61));
    assert_eq!(proposer.pending_votes(), &vec![early]);
}

#[test]
fn a_waiting_vote_is_handled_when_its_header_arrives() {
    let early = vote(0, 10, 100, 5, false, 3, 60);
    let opened = header(5, 2, &[(10, 100)], 60);

    let mut late = proposer(1, 4, 10);
    late.process_vote(&early);
    let with_header = late.process_header(&opened);

    let mut timely = proposer(1, 4, 10);
    let mut in_order = timely.process_header(&opened);
    in_order.extend(timely.process_vote(&early));

    assert_eq!(with_header, in_order);
    assert_eq!(
        with_header,
        vec![
            timer(5, 100, 0),
            Action::SendVote(vote(0, 10, 100, 5, false, 1, 60)),
            Action::SendVote(vote(1, 10, 100, 5, true, 1, 60)),
            timer(5, 100, 1),
        ]
    );
    assert!(late.pending_votes().is_empty());
    let election = late.election(5, &hash(100)).expect("the header opens the election");
    assert!(election.voted_or_committed(&key(3), 0));
    assert_eq!(election.commit(), Some(hash(10)));
    assert_eq!(election.total_votes(0, &committee_of(4)), 3);
}

#[test]
fn a_waiting_vote_for_another_election_of_the_round_waits_on() {
    let mut proposer = proposer(1, 4, 10);
    let other = vote(0, 11, 101, 5, false, 3, 62);
    let early = vote(0, 10, 100, 5, false, 3, 60);
    proposer.process_vote(&other);
    proposer.process_vote(&early);
    proposer.process_header(&header(5, 2, &[(10, 100)], 60));
    assert_eq!(proposer.pending_votes(), &vec![other]);
}

#[test]
fn waiting_votes_are_handled_in_the_order_of_arrival() {
    let mut proposer = proposer(1, 4, 10);
    proposer.process_vote(&vote(0, 30, 100, 5, false, 3, 60));
    proposer.process_vote(&vote(0, 20, 100, 5, false, 3, 60));
    proposer.process_header(&header(5, 2, &[(10, 100)], 60));
    let election = proposer.election(5, &hash(100)).expect("the header opens the election");
    // the later vote of the author replaces the earlier; both have been seen
    assert_eq!(election.highest(), Some(hash(30)));
    assert_eq!(election.find_quorum(0, &committee_of(4), false), None);
    assert_eq!(election.total_votes(0, &committee_of(4)), 3);
}

#[test]
fn the_timer_of_a_vote_round_is_latched_through_the_proposer() {
    let mut proposer = proposer(1, 4, 10);
    proposer.process_header(&header(0, 2, &[(10, 100)], 60));
    proposer.expire(0, &hash(100), 0);
    // an election that is not there has no timer
    proposer.expire(0, &hash(101), 0);
    assert!(proposer.election(0, &hash(101)).is_none());
    // three have voted without quorum and the timer has expired: the vote changes
    let actions = proposer.process_vote(&vote(0, 20, 100, 0, false, 3, 60));
    assert_eq!(
        actions,
        vec![Action::SendVote(vote(1, 20, 100, 0, false, 1, 60)), timer(0, 100, 1)]
    );
}

#[test]
fn a_header_seen_again_is_recorded_anew() {
    let mut proposer = proposer(1, 4, 10);
    let opened = header(0, 2, &[(10, 100)], 60);
    proposer.process_header(&opened);
    for author in 2..=4 {
        proposer.process_vote(&vote(1, 10, 100, 0, true, author, 60));
    }
    assert!(proposer.header_committed(&hash(60)));
    assert_eq!(proposer.process_header(&opened), vec![]);
    assert!(!proposer.header_committed(&hash(60)));
    assert_eq!(proposer.round(), 1);
}

#[test]
fn elections_of_different_rounds_are_kept_apart() {
    let mut proposer = proposer(1, 4, 10);
    proposer.process_header(&header(0, 2, &[(10, 100)], 60));
    proposer.process_header(&header(1, 3, &[(20, 100)], 61));
    let first = proposer.election(0, &hash(100)).expect("round 0");
    assert_eq!(first.highest(), Some(hash(10)));
    let second = proposer.election(1, &hash(100)).expect("round 1");
    assert_eq!(second.highest(), Some(hash(20)));
    assert_eq!(proposer.active_elections(), &vec![hash(100)]);
}

#[test]
fn a_header_names_each_election_once() {
    let mut proposer = proposer(1, 4, 10);
    assert_eq!(proposer.offer(hash(10), hash(100)), None);
    assert_eq!(proposer.offer(hash(11), hash(100)), None);
    assert_eq!(proposer.offer(hash(12), hash(101)), None);
    assert_eq!(proposer.offer(hash(13), hash(100)), None);
    let made = proposer.make_header().expect("proposals wait");
    // the first proposal for each election goes into the header, the later ones are dropped
    assert_eq!(made.proposals, vec![(hash(10), hash(100)), (hash(12), hash(101))]);
    assert!(proposer.proposals().is_empty());
}

#[test]
fn proposals_that_wait_on_name_each_election_once_too() {
    let mut proposer = proposer(1, 4, 1);
    // the round has a header already, so proposals pile up
    assert!(proposer.make_header().is_some());
    for (tx, election) in [(10, 100), (11, 101), (12, 100), (13, 101), (14, 102)] {
        assert_eq!(proposer.offer(hash(tx), hash(election)), None);
    }
    proposer.process_header(&header(7, 2, &[(50, 150)], 60));
    for author in 2..=4 {
        proposer.process_vote(&vote(1, 50, 150, 7, true, author, 60));
    }
    assert_eq!(proposer.round(), 1);
    let made = proposer.tick().expect("proposals wait in a new round");
    assert_eq!(made.proposals, vec![(hash(10), hash(100))]);
    assert_eq!(proposer.proposals(), &vec![(hash(11), hash(101)), (hash(14), hash(102))]);
}

#[test]
fn a_vote_before_its_header_is_handled_alike_while_other_votes_wait() {
    let others = [
        vote(0, 30, 100, 5, false, 4, 60),
        vote(0, 11, 101, 5, false, 3, 62),
        vote(1, 10, 100, 6, false, 3, 63),
    ];
    let early = vote(0, 10, 100, 5, false, 3, 60);
    let opened = header(5, 2, &[(10, 100)], 60);

    let mut late = proposer(1, 4, 10);
    for other in &others {
        late.process_vote(other);
    }
    late.process_vote(&early);
    let with_header = late.process_header(&opened);

    let mut timely = proposer(1, 4, 10);
    for other in &others {
        timely.process_vote(other);
    }
    let mut in_order = timely.process_header(&opened);
    in_order.extend(timely.process_vote(&early));

    assert_eq!(with_header, in_order);
    // the votes for the election of the header are handed on, the others wait on
    assert_eq!(late.pending_votes(), &vec![others[2], others[1]]);
    assert_eq!(timely.pending_votes(), late.pending_votes());
    let election = late.election(5, &hash(100)).expect("the header opens the election");
    assert!(election.voted_or_committed(&key(3), 0));
    assert!(election.voted_or_committed(&key(4), 0));
    assert_eq!(election.total_votes(0, &committee_of(4)), 4);
}

#[test]
fn a_silent_replica_ignores_timers() {
    let mut proposer = Proposer::new(key(1), committee_of(4), 1, true);
    proposer.expire(0, &hash(100), 0);
    assert!(proposer.election(0, &hash(100)).is_none());
    assert_eq!(proposer.round(), 0);
}

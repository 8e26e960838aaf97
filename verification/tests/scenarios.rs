use leaderless_consensus::committee::{Authority, Committee};
use leaderless_consensus::election::Action;
use leaderless_consensus::messages::{Header, Vote};
use leaderless_consensus::proposer::Proposer;
use leaderless_consensus::types::{Digest, PublicKey, Signature};
use std::collections::VecDeque;

fn key(tag: u8) -> PublicKey {
    PublicKey::new([tag; 32])
}

fn hash(tag: u8) -> Digest {
    Digest::new([tag; 32])
}

fn committee_of(n: u8) -> Committee {
    let mut authorities = Vec::new();
    for i in 0..n {
        authorities.push(Authority { name: key(i + 1), stake: 1 });
    }
    Committee::new(authorities).expect("distinct names")
}

#[derive(Clone)]
enum Message {
    Header(Header),
    Vote(Vote),
}

/// Replicas wired by a queue that stands for the network. Replica `i` has the key `i + 1`.
struct Cluster {
    replicas: Vec<Proposer>,
    queue: VecDeque<(usize, Message)>,
    /// whether replica `from` reaches replica `to`
    links: Vec<Vec<bool>>,
    timers: Vec<(usize, u64, Digest, u64)>,
    sent: Vec<(usize, Vote)>,
    resets: Vec<usize>,
}

impl Cluster {
    fn new(n: u8, header_size: usize, silent: &[usize]) -> Cluster {
        let mut replicas = Vec::new();
        for i in 0..n {
            let byzantine = silent.contains(&(i as usize));
            replicas.push(Proposer::new(key(i + 1), committee_of(n), header_size, byzantine));
        }
        Cluster {
            replicas,
            queue: VecDeque::new(),
            links: vec![vec![true; n as usize]; n as usize],
            timers: Vec::new(),
            sent: Vec::new(),
            resets: Vec::new(),
        }
    }

    fn cut(&mut self, from: usize, to: usize) {
        self.links[from][to] = false;
    }

    /// The hasher and the signer fill in the header; then it goes to everybody.
    fn send_header(&mut self, from: usize, mut header: Header, id: u8) {
        header.id = hash(id);
        header.signature = Signature::new([from as u8 + 1; 64]);
        for to in 0..self.replicas.len() {
            if self.links[from][to] {
                self.queue.push_back((to, Message::Header(header.clone())));
            }
        }
    }

    fn send_vote(&mut self, from: usize, vote: Vote) {
        let signed = vote.with_signature(Signature::new([from as u8 + 1; 64]));
        self.sent.push((from, signed));
        for to in 0..self.replicas.len() {
            if to != from && self.links[from][to] {
                self.queue.push_back((to, Message::Vote(signed)));
            }
        }
    }

    fn deliver(&mut self, to: usize, message: Message) {
        let actions = match &message {
            Message::Header(header) => self.replicas[to].process_header(header),
            Message::Vote(vote) => self.replicas[to].process_vote(vote),
        };
        for action in actions {
            match action {
                Action::SendVote(vote) => self.send_vote(to, vote),
                Action::StartTimer { proposal_round, election_id, vote_round } => {
                    self.timers.push((to, proposal_round, election_id, vote_round))
                }
                Action::ResetHeaderTimer => self.resets.push(to),
                Action::HeaderCommitted(_) => {}
            }
        }
    }

    /// Delivers what is in flight, in the order of sending, until nothing is left.
    fn run(&mut self) {
        while let Some((to, message)) = self.queue.pop_front() {
            self.deliver(to, message);
        }
    }

    /// Delivers what is in flight, the latest first.
    fn run_backwards(&mut self) {
        while let Some((to, message)) = self.queue.pop_back() {
            self.deliver(to, message);
        }
    }

    /// All timers that were started expire.
    fn expire_timers(&mut self) {
        let timers: Vec<_> = self.timers.drain(..).collect();
        for (at, proposal_round, election_id, vote_round) in timers {
            self.replicas[at].expire(proposal_round, &election_id, vote_round);
        }
    }

    fn decision(&self, at: usize, round: u64, election: u8) -> Option<Digest> {
        self.replicas[at].election(round, &hash(election)).and_then(|e| e.decision())
    }
}

#[test]
fn a_single_election_is_decided_by_all_four() {
    let mut cluster = Cluster::new(4, 1, &[]);
    let header = cluster.replicas[0].offer(hash(10), hash(100)).expect("a header");
    assert_eq!(header.round, 0);
    cluster.send_header(0, header, 60);
    cluster.run();
    for at in 0..4 {
        assert_eq!(cluster.decision(at, 0, 100), Some(hash(10)), "replica {}", at);
        assert_eq!(cluster.replicas[at].round(), 1);
        assert!(cluster.replicas[at].is_decided(&hash(100)));
        assert!(cluster.replicas[at].header_committed(&hash(60)));
        let election = cluster.replicas[at].election(0, &hash(100)).unwrap();
        assert_eq!(election.commit(), Some(hash(10)));
        assert_eq!(election.proof_round(), Some(0));
    }
    // the three that did not propose vote in round 0; all four commit in round 1
    let round0: Vec<_> = cluster.sent.iter().filter(|(_, v)| v.round == 0).collect();
    assert_eq!(round0.len(), 3);
    assert!(round0.iter().all(|(_, v)| !v.commit && v.tx_hash == hash(10)));
    let round1: Vec<_> = cluster.sent.iter().filter(|(_, v)| v.round == 1).collect();
    assert_eq!(round1.len(), 4);
    assert!(round1.iter().all(|(_, v)| v.commit && v.tx_hash == hash(10)));
    assert_eq!(cluster.sent.len(), 7);
    // each decision starts the header delay anew, once
    let mut resets = cluster.resets.clone();
    resets.sort();
    assert_eq!(resets, vec![0, 1, 2, 3]);
}

#[test]
fn the_order_of_delivery_does_not_change_the_decision() {
    let mut cluster = Cluster::new(4, 1, &[]);
    let header = cluster.replicas[0].offer(hash(10), hash(100)).expect("a header");
    cluster.send_header(0, header, 60);
    // headers first, then all votes latest first: votes overtake one another
    for _ in 0..4 {
        let (to, message) = cluster.queue.pop_front().unwrap();
        cluster.deliver(to, message);
    }
    cluster.run_backwards();
    for at in 0..4 {
        assert_eq!(cluster.decision(at, 0, 100), Some(hash(10)), "replica {}", at);
        assert_eq!(cluster.replicas[at].round(), 1);
    }
}

#[test]
fn votes_that_overtake_the_header_do_not_change_the_decision() {
    let mut cluster = Cluster::new(4, 1, &[]);
    let header = cluster.replicas[0].offer(hash(10), hash(100)).expect("a header");
    cluster.send_header(0, header, 60);
    // replica 3 gets the header last of all
    let late = cluster.queue.remove(3).unwrap();
    cluster.run();
    assert_eq!(cluster.decision(3, 0, 100), None);
    assert!(!cluster.replicas[3].pending_votes().is_empty());
    cluster.queue.push_back(late);
    cluster.run();
    assert!(cluster.replicas[3].pending_votes().is_empty());
    for at in 0..4 {
        assert_eq!(cluster.decision(at, 0, 100), Some(hash(10)), "replica {}", at);
        assert_eq!(cluster.replicas[at].round(), 1);
    }
}

#[test]
fn one_silent_replica_does_not_stop_the_decision() {
    let mut cluster = Cluster::new(4, 1, &[3]);
    let header = cluster.replicas[0].offer(hash(10), hash(100)).expect("a header");
    cluster.send_header(0, header, 60);
    cluster.run();
    for at in 0..3 {
        assert_eq!(cluster.decision(at, 0, 100), Some(hash(10)), "replica {}", at);
        assert_eq!(cluster.replicas[at].round(), 1);
        let election = cluster.replicas[at].election(0, &hash(100)).unwrap();
        // the quorum of votes is seen in round 0, the decision falls in round 1
        assert_eq!(election.proof_round(), Some(0));
        assert_eq!(election.total_votes(2, &committee_of(4)), 0);
    }
    assert_eq!(cluster.decision(3, 0, 100), None);
    assert_eq!(cluster.replicas[3].round(), 0);
    assert!(cluster.sent.iter().all(|(from, _)| *from != 3));
    assert!(cluster.sent.iter().all(|(_, v)| v.round <= 1));
    // no timer had to expire
    assert!(!cluster.timers.is_empty());
}

#[test]
fn two_silent_replicas_stop_the_decision() {
    let mut cluster = Cluster::new(4, 1, &[2, 3]);
    let header = cluster.replicas[0].offer(hash(10), hash(100)).expect("a header");
    cluster.send_header(0, header, 60);
    cluster.run();
    cluster.expire_timers();
    cluster.run();
    for at in 0..4 {
        assert_eq!(cluster.decision(at, 0, 100), None);
        assert_eq!(cluster.replicas[at].round(), 0);
    }
}

#[test]
fn split_votes_are_changed_to_the_highest_hash_after_the_timeout() {
    // replicas 0 and 1 see the header of replica 0 for hash 10, replicas 2 and 3 the header of
    // replica 2 for hash 20, both for election 100 in round 0
    let mut cluster = Cluster::new(4, 1, &[]);
    for (from, to) in [(0, 2), (0, 3), (2, 0), (2, 1)] {
        cluster.cut(from, to);
    }
    let low = cluster.replicas[0].offer(hash(10), hash(100)).expect("a header");
    let high = cluster.replicas[2].offer(hash(20), hash(100)).expect("a header");
    cluster.send_header(0, low, 60);
    cluster.send_header(2, high, 61);
    // only the replicas that did not propose send a vote: each replica sees three votes
    cluster.run();
    for at in 0..4 {
        let election = cluster.replicas[at].election(0, &hash(100)).unwrap();
        assert_eq!(election.total_votes(0, &committee_of(4)), 3);
        assert_eq!(election.find_quorum(0, &committee_of(4), false), None);
        assert_eq!(election.highest(), Some(hash(20)));
        assert!(!election.voted_or_committed(&key(at as u8 + 1), 1));
    }
    assert_eq!(cluster.sent.len(), 2);
    // the timers of round 0 expire; the network heals; the votes of round 0 are sent again
    cluster.expire_timers();
    for (from, to) in [(0, 2), (0, 3), (2, 0), (2, 1)] {
        cluster.links[from][to] = true;
    }
    let again: Vec<_> = cluster.sent.clone();
    for (from, vote) in again {
        for to in 0..4 {
            if to != from {
                cluster.queue.push_back((to, Message::Vote(vote)));
            }
        }
    }
    cluster.run();
    for at in 0..4 {
        assert_eq!(cluster.decision(at, 0, 100), Some(hash(20)), "replica {}", at);
        assert_eq!(cluster.replicas[at].round(), 1);
    }
    // every changed vote of round 1 is for the highest hash, without commit
    let round1: Vec<_> = cluster.sent.iter().filter(|(_, v)| v.round == 1).collect();
    assert_eq!(round1.len(), 4);
    assert!(round1.iter().all(|(_, v)| !v.commit && v.tx_hash == hash(20)));
    let round2: Vec<_> = cluster.sent.iter().filter(|(_, v)| v.round == 2).collect();
    assert!(round2.iter().all(|(_, v)| v.commit && v.tx_hash == hash(20)));
}

#[test]
fn a_vote_for_round_five_waits_for_the_header_of_round_five() {
    let mut replica = Proposer::new(key(1), committee_of(4), 1, false);
    let early = Vote::new(0, hash(10), hash(100), 5, false, key(3), hash(60));
    assert!(replica.process_vote(&early).is_empty());
    assert_eq!(replica.pending_votes().len(), 1);
    assert!(replica.election(5, &hash(100)).is_none());
    let mut header = Header::new(5, key(2), vec![(hash(10), hash(100))]);
    header.id = hash(60);
    let late = replica.process_header(&header);

    let mut other = Proposer::new(key(1), committee_of(4), 1, false);
    let mut timely = other.process_header(&header);
    timely.extend(other.process_vote(&early));
    assert_eq!(late, timely);

    assert!(replica.pending_votes().is_empty());
    for proposer in [&replica, &other] {
        let election = proposer.election(5, &hash(100)).unwrap();
        assert!(election.voted_or_committed(&key(3), 0));
        assert_eq!(election.commit(), Some(hash(10)));
        assert_eq!(election.proof_round(), Some(0));
        assert_eq!(election.total_votes(1, &committee_of(4)), 1);
    }
    // the vote is handled once: the header seen again finds nothing waiting, and the replica
    // only casts its vote of round 0 once more
    let own = Vote::new(0, hash(10), hash(100), 5, false, key(1), hash(60));
    assert_eq!(replica.process_header(&header), vec![Action::SendVote(own)]);
    assert!(replica.pending_votes().is_empty());
    let election = replica.election(5, &hash(100)).unwrap();
    assert_eq!(election.total_votes(0, &committee_of(4)), 3);
    assert_eq!(election.total_votes(1, &committee_of(4)), 1);
}

#[test]
fn several_elections_in_one_header_are_decided_one_by_one() {
    let mut cluster = Cluster::new(4, 3, &[]);
    assert_eq!(cluster.replicas[1].offer(hash(10), hash(100)), None);
    assert_eq!(cluster.replicas[1].offer(hash(11), hash(101)), None);
    let header = cluster.replicas[1].offer(hash(12), hash(102)).expect("a header");
    assert_eq!(header.proposals.len(), 3);
    cluster.send_header(1, header, 60);
    cluster.run();
    for at in 0..4 {
        for (tx, election) in [(10, 100), (11, 101), (12, 102)] {
            assert_eq!(cluster.decision(at, 0, election), Some(hash(tx)));
        }
        assert_eq!(cluster.replicas[at].round(), 3);
        assert!(cluster.replicas[at].header_committed(&hash(60)));
    }
}

#[test]
fn commits_that_do_not_stand_let_replicas_decide_apart() {
    // All four replicas follow the rules; the network only delays messages. Replica 0 proposes
    // hash 10 and replica 1 proposes hash 20 for the same election in the same round.
    let mut cluster = Cluster::new(4, 1, &[]);
    let low = cluster.replicas[0].offer(hash(10), hash(100)).expect("a header");
    let high = cluster.replicas[1].offer(hash(20), hash(100)).expect("a header");
    let mut low = low;
    low.id = hash(60);
    let mut high = high;
    high.id = hash(61);
    let vote = |round: u64, tx: u8, commit: bool, author: u8, id: u8| {
        Vote::new(round, hash(tx), hash(100), 0, commit, key(author), hash(id))
    };

    // Replicas 0, 2 and 3 see the header of replica 0; replica 0 sees a quorum for hash 10.
    for at in [0, 2, 3] {
        cluster.replicas[at].process_header(&low);
    }
    cluster.replicas[0].process_vote(&vote(0, 10, false, 3, 60));
    let committed = cluster.replicas[0].process_vote(&vote(0, 10, false, 4, 60));
    assert_eq!(committed[0], Action::SendVote(vote(1, 10, true, 1, 60)));

    // Replicas 2 and 3 have seen no quorum. They answer the commit of replica 0 with a commit
    // of their own for the highest hash they have seen, which is hash 10.
    let echo = cluster.replicas[2].process_vote(&vote(1, 10, true, 1, 60));
    assert_eq!(echo[1], Action::SendVote(vote(1, 10, true, 3, 60)));
    assert_eq!(cluster.replicas[2].election(0, &hash(100)).unwrap().commit(), None);
    let echo = cluster.replicas[3].process_vote(&vote(1, 10, true, 1, 60));
    assert_eq!(echo[1], Action::SendVote(vote(1, 10, true, 4, 60)));

    // Replica 0 counts three commits for hash 10 and decides.
    cluster.replicas[0].process_vote(&vote(1, 10, true, 3, 60));
    cluster.replicas[0].process_vote(&vote(1, 10, true, 4, 60));
    assert_eq!(cluster.decision(0, 0, 100), Some(hash(10)));

    // The header of replica 1 arrives at replicas 1, 2 and 3: hash 20 is now the highest.
    for at in [1, 2, 3] {
        cluster.replicas[at].process_header(&high);
        let election = cluster.replicas[at].election(0, &hash(100)).unwrap();
        assert_eq!(election.highest(), Some(hash(20)));
        assert_eq!(election.commit(), None);
    }
    // Replica 1 answers the commit of replica 0 with a commit for hash 20.
    let echo = cluster.replicas[1].process_vote(&vote(1, 10, true, 1, 60));
    assert_eq!(echo[1], Action::SendVote(vote(1, 20, true, 2, 60)));

    // The timers of round 1 expire. Each of replicas 1, 2 and 3 has three votes of round 1
    // without a quorum, and changes its vote to hash 20 in round 2.
    for at in [1, 2, 3] {
        cluster.replicas[at].expire(0, &hash(100), 1);
    }
    let changed = cluster.replicas[2].process_vote(&vote(1, 20, true, 2, 60));
    assert_eq!(changed[0], Action::SendVote(vote(2, 20, false, 3, 60)));
    let changed = cluster.replicas[3].process_vote(&vote(1, 20, true, 2, 60));
    assert_eq!(changed[0], Action::SendVote(vote(2, 20, false, 4, 60)));
    let changed = cluster.replicas[1].process_vote(&vote(1, 10, true, 3, 60));
    assert_eq!(changed[0], Action::SendVote(vote(2, 20, false, 2, 60)));

    // Round 2 gives a quorum of votes for hash 20, round 3 a quorum of commits.
    for at in [1usize, 2, 3] {
        for author in [2u8, 3, 4] {
            if author as usize != at + 1 {
                cluster.replicas[at].process_vote(&vote(2, 20, false, author, 60));
            }
        }
        let election = cluster.replicas[at].election(0, &hash(100)).unwrap();
        assert_eq!(election.commit(), Some(hash(20)));
    }
    for at in [1usize, 2, 3] {
        for author in [2u8, 3, 4] {
            if author as usize != at + 1 {
                cluster.replicas[at].process_vote(&vote(3, 20, true, author, 60));
            }
        }
        assert_eq!(cluster.decision(at, 0, 100), Some(hash(20)), "replica {}", at);
    }
    assert_eq!(cluster.decision(0, 0, 100), Some(hash(10)));
}

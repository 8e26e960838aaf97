//! The tally of one vote round of one election: at most one ballot per
//! author, weighed by stake.

use crate::assoc::{
    has_key, keys_distinct, lemma_push_distinct, lemma_to_map_domain, lemma_to_map_index,
    lemma_to_map_push, lemma_to_map_update, to_map,
};
use crate::committee::{Committee, CommitteeView, Stake};
use crate::types::{PublicKey, TxHash};
use vstd::prelude::*;

verus! {

/// What an author says in one vote round: the transaction hash it endorses,
/// and whether it commits to it.
#[derive(Clone, Copy, Debug, PartialEq, Eq)]
pub struct Ballot {
    pub tx_hash: TxHash,
    pub commit: bool,
}

/// The timer of a vote round. It runs from the first vote of the round and
/// expires once.
#[derive(Clone, Copy, Debug, PartialEq, Eq, Structural)]
pub enum Timer {
    Running,
    Expired,
}

/// A tally as a map from author to ballot.
pub struct TallyView {
    pub ballots: Map<PublicKey, Ballot>,
    pub timer: Timer,
}

impl TallyView {
    /// The tally of a round in which nobody has voted.
    pub open spec fn empty() -> TallyView {
        TallyView { ballots: Map::empty(), timer: Timer::Running }
    }

    /// Whether `author` has a ballot, commit or not.
    pub open spec fn voted(self, author: PublicKey) -> bool {
        self.ballots.contains_key(author)
    }

    /// The tally after `author` has cast `ballot`: it replaces what the
    /// author cast before.
    pub open spec fn insert(self, author: PublicKey, ballot: Ballot) -> TallyView {
        TallyView { ballots: self.ballots.insert(author, ballot), timer: self.timer }
    }

    /// The tally after its timer has expired.
    pub open spec fn expire(self) -> TallyView {
        TallyView { ballots: self.ballots, timer: Timer::Expired }
    }

    /// The authors that have a ballot.
    pub open spec fn voters(self) -> Set<PublicKey> {
        self.ballots.dom()
    }

    /// The authors whose ballot is for `tx_hash` with the given commit bit.
    pub open spec fn backers(self, tx_hash: TxHash, commit: bool) -> Set<PublicKey> {
        Set::new(
            |author: PublicKey|
                self.ballots.contains_key(author) && self.ballots[author] == (Ballot {
                    tx_hash,
                    commit,
                }),
        )
    }

    /// The stake of the authors that have a ballot.
    pub open spec fn total_votes(self, committee: CommitteeView) -> nat {
        committee.weight(self.voters())
    }

    /// The stake behind `tx_hash` with the given commit bit.
    pub open spec fn backing(self, committee: CommitteeView, tx_hash: TxHash, commit: bool) -> nat {
        committee.weight(self.backers(tx_hash, commit))
    }

    /// Whether the stake behind `tx_hash` with the given commit bit makes a
    /// quorum.
    pub open spec fn has_quorum(self, committee: CommitteeView, tx_hash: TxHash, commit: bool) -> bool {
        self.backing(committee, tx_hash, commit) >= committee.quorum()
    }

    /// A quorum of authors votes for `tx_hash` without committing.
    pub open spec fn quorum_of_votes(self, committee: CommitteeView, tx_hash: TxHash) -> bool {
        self.has_quorum(committee, tx_hash, false)
    }

    /// A quorum of authors commits to `tx_hash`.
    pub open spec fn quorum_of_commits(self, committee: CommitteeView, tx_hash: TxHash) -> bool {
        self.has_quorum(committee, tx_hash, true)
    }

    /// The transaction hash that has a quorum with the given commit bit, if
    /// one has.
    pub open spec fn winner(self, committee: CommitteeView, commit: bool) -> Option<TxHash> {
        if exists|x: TxHash| self.has_quorum(committee, x, commit) {
            Some(choose|x: TxHash| self.has_quorum(committee, x, commit))
        } else {
            None
        }
    }

    /// In one tally at most one transaction hash has a quorum, whatever the
    /// commit bits: each author has one ballot, and two quorums cannot be
    /// disjoint.
    pub proof fn lemma_quorum_unique(
        self,
        committee: CommitteeView,
        x: TxHash,
        x_commit: bool,
        y: TxHash,
        y_commit: bool,
    )
        requires
            self.has_quorum(committee, x, x_commit),
            self.has_quorum(committee, y, y_commit),
        ensures
            x == y,
            x_commit == y_commit,
    {
        let a = self.backers(x, x_commit);
        let b = self.backers(y, y_commit);
        if x != y || x_commit != y_commit {
            assert(a.disjoint(b));
            committee.lemma_weight_disjoint(a, b);
            committee.lemma_thresholds();
        }
    }

    /// Each author counts once: after a ballot of `author` is recorded, the
    /// author backs the hash of that ballot with its commit bit and nothing
    /// else, whatever the author cast before; the other authors back what
    /// they backed.
    pub proof fn lemma_one_ballot_per_author(self, author: PublicKey, ballot: Ballot)
        ensures
            forall|x: TxHash, commit: bool| #[trigger]
                self.insert(author, ballot).backers(x, commit).contains(author) <==> (x
                    == ballot.tx_hash && commit == ballot.commit),
            forall|other: PublicKey, x: TxHash, commit: bool|
                other != author ==> (#[trigger] self.insert(author, ballot).backers(
                    x,
                    commit,
                ).contains(other) <==> self.backers(x, commit).contains(other)),
            self.insert(author, ballot).voters() == self.voters().insert(author),
    {
        assert(self.insert(author, ballot).voters() =~= self.voters().insert(author));
    }

    /// A later ballot of an author replaces the earlier one.
    pub proof fn lemma_later_ballot_replaces(self, author: PublicKey, first: Ballot, second: Ballot)
        ensures
            self.insert(author, first).insert(author, second) == self.insert(author, second),
    {
        assert(self.ballots.insert(author, first).insert(author, second) =~= self.ballots.insert(
            author,
            second,
        ));
    }

    /// Ballots of different authors can be recorded in either order.
    pub proof fn lemma_insert_commutes(
        self,
        a: PublicKey,
        a_ballot: Ballot,
        b: PublicKey,
        b_ballot: Ballot,
    )
        requires
            a != b,
        ensures
            self.insert(a, a_ballot).insert(b, b_ballot) == self.insert(b, b_ballot).insert(
                a,
                a_ballot,
            ),
    {
        assert(self.ballots.insert(a, a_ballot).insert(b, b_ballot) =~= self.ballots.insert(
            b,
            b_ballot,
        ).insert(a, a_ballot));
    }

    /// Two views of one vote round never show quorums for different
    /// hashes, as long as they show the same ballot for every author that
    /// is not faulty and the faulty authors weigh less than the validity
    /// threshold. The quorums may be of votes or of commits.
    pub proof fn lemma_quorums_agree(
        self,
        other: TallyView,
        committee: CommitteeView,
        faulty: Set<PublicKey>,
        x: TxHash,
        x_commit: bool,
        y: TxHash,
        y_commit: bool,
    )
        requires
            committee.weight(faulty) < committee.validity(),
            forall|author: PublicKey|
                !faulty.contains(author) && self.voted(author) && other.voted(author)
                    ==> self.ballots[author] == other.ballots[author],
            self.has_quorum(committee, x, x_commit),
            other.has_quorum(committee, y, y_commit),
        ensures
            x == y,
            x_commit == y_commit,
    {
        let witness = committee.lemma_quorums_share_correct(
            self.backers(x, x_commit),
            other.backers(y, y_commit),
            faulty,
        );
        assert(self.ballots[witness] == other.ballots[witness]);
    }

    /// A quorum that stays put shuts out every other hash: if a quorum
    /// backs one hash in one tally, and every one of its authors that is
    /// not faulty and has a ballot in another tally, of whatever vote
    /// round, has a ballot for the same hash there, then no other hash has
    /// a quorum in that other tally, as long as the faulty authors weigh
    /// less than the validity threshold.
    pub proof fn lemma_locked_quorum_excludes_others(
        self,
        other: TallyView,
        committee: CommitteeView,
        faulty: Set<PublicKey>,
        x: TxHash,
        x_commit: bool,
        y: TxHash,
        y_commit: bool,
    )
        requires
            committee.weight(faulty) < committee.validity(),
            forall|author: PublicKey|
                !faulty.contains(author) && self.backers(x, x_commit).contains(author)
                    && other.voted(author) ==> other.ballots[author].tx_hash == x,
            self.has_quorum(committee, x, x_commit),
            other.has_quorum(committee, y, y_commit),
        ensures
            x == y,
    {
        let witness = committee.lemma_quorums_share_correct(
            self.backers(x, x_commit),
            other.backers(y, y_commit),
            faulty,
        );
        assert(other.ballots[witness].tx_hash == x);
    }

    /// The stake that has voted is no more than the committee has.
    pub proof fn lemma_total_votes_bounded(self, committee: CommitteeView)
        ensures
            self.total_votes(committee) <= committee.total(),
            forall|x: TxHash, commit: bool| #[trigger]
                self.backing(committee, x, commit) <= self.total_votes(committee),
    {
        committee.lemma_weight_bounded(self.voters());
        assert forall|x: TxHash, commit: bool| #[trigger]
            self.backing(committee, x, commit) <= self.total_votes(committee) by {
            committee.lemma_weight_monotone(self.backers(x, commit), self.voters());
        }
    }
}

/// One author's ballot in a tally.
#[derive(Clone, Copy, Debug)]
struct TallyEntry {
    author: PublicKey,
    ballot: Ballot,
}

/// The ballots of one vote round, one per author, and the round's timer.
#[derive(Debug)]
pub struct Tally {
    entries: Vec<TallyEntry>,
    timer: Timer,
}

impl View for Tally {
    type V = TallyView;

    closed spec fn view(&self) -> TallyView {
        TallyView { ballots: to_map(self.pairs()), timer: self.timer }
    }
}

impl Tally {
    /// The entries as pairs of author and ballot.
    closed spec fn pairs(&self) -> Seq<(PublicKey, Ballot)> {
        Seq::new(self.entries@.len(), |i: int| (self.entries@[i].author, self.entries@[i].ballot))
    }

    /// No author has two entries.
    pub closed spec fn wf(&self) -> bool {
        keys_distinct(self.pairs())
    }

    /// The tally of a round in which nobody has voted; its timer runs.
    pub fn new() -> (tally: Tally)
        ensures
            tally@ == TallyView::empty(),
            tally.wf(),
    {
        let tally = Tally { entries: Vec::new(), timer: Timer::Running };
        assert(tally.pairs() =~= Seq::empty());
        tally
    }

    /// Where `author` has its entry.
    fn position(&self, author: &PublicKey) -> (at: Option<usize>)
        requires
            self.wf(),
        ensures
            match at {
                Some(i) => i < self.pairs().len() && self.pairs()[i as int].0 == *author
                    && self@.ballots.contains_key(*author) && self@.ballots[*author]
                    == self.pairs()[i as int].1,
                None => !has_key(self.pairs(), *author) && !self@.ballots.contains_key(*author),
            },
    {
        let mut i: usize = 0;
        while i < self.entries.len()
            invariant
                i <= self.entries.len(),
                self.pairs().len() == self.entries@.len(),
                keys_distinct(self.pairs()),
                forall|k: int| 0 <= k < i ==> (#[trigger] self.pairs()[k]).0 != *author,
            decreases self.entries.len() - i,
        {
            if self.entries[i].author == *author {
                proof {
                    lemma_to_map_index(self.pairs(), i as int);
                }
                return Some(i);
            }
            i += 1;
        }
        proof {
            lemma_to_map_domain(self.pairs(), *author);
        }
        None
    }

    /// Records the ballot of `author`, in place of what the author cast
    /// before in this round.
    pub fn insert(&mut self, author: PublicKey, ballot: Ballot)
        requires
            old(self).wf(),
        ensures
            final(self).wf(),
            final(self)@ == old(self)@.insert(author, ballot),
    {
        match self.position(&author) {
            Some(i) => {
                proof {
                    lemma_to_map_update(self.pairs(), i as int, ballot);
                }
                let ghost before = self.pairs();
                self.entries[i] = TallyEntry { author, ballot };
                assert(self.pairs() =~= before.update(i as int, (author, ballot)));
            },
            None => {
                proof {
                    lemma_to_map_push(self.pairs(), author, ballot);
                    lemma_push_distinct(self.pairs(), author, ballot);
                }
                let ghost before = self.pairs();
                self.entries.push(TallyEntry { author, ballot });
                assert(self.pairs() =~= before.push((author, ballot)));
            },
        }
    }

    /// Latches the timer of the round.
    pub fn expire(&mut self)
        requires
            old(self).wf(),
        ensures
            final(self).wf(),
            final(self)@ == old(self)@.expire(),
    {
        self.timer = Timer::Expired;
        assert(self.pairs() =~= old(self).pairs());
    }

    /// Whether the timer of the round has expired.
    pub fn expired(&self) -> (yes: bool)
        ensures
            yes == (self@.timer == Timer::Expired),
    {
        self.timer == Timer::Expired
    }

    /// The ballot of `author`, if it has one.
    pub fn ballot_of(&self, author: &PublicKey) -> (found: Option<Ballot>)
        requires
            self.wf(),
        ensures
            found == if self@.voted(*author) {
                Some(self@.ballots[*author])
            } else {
                None::<Ballot>
            },
    {
        match self.position(author) {
            Some(i) => Some(self.entries[i].ballot),
            None => None,
        }
    }

    /// Whether `author` has a ballot in this round, commit or not.
    pub fn voted(&self, author: &PublicKey) -> (yes: bool)
        requires
            self.wf(),
        ensures
            yes == self@.voted(*author),
    {
        self.position(author).is_some()
    }

    /// The number of authors that have a ballot.
    pub fn len(&self) -> (n: usize)
        requires
            self.wf(),
        ensures
            n == self@.ballots.dom().len(),
    {
        proof {
            Self::lemma_len(self.pairs());
        }
        self.entries.len()
    }

    /// A list without repeated keys has as many entries as its map has keys.
    proof fn lemma_len(s: Seq<(PublicKey, Ballot)>)
        requires
            keys_distinct(s),
        ensures
            to_map(s).dom().len() == s.len(),
            to_map(s).dom().finite(),
        decreases s.len(),
    {
        if s.len() > 0 {
            crate::assoc::lemma_front_distinct(s);
            Self::lemma_len(s.drop_last());
            lemma_to_map_domain(s.drop_last(), s.last().0);
            if has_key(s.drop_last(), s.last().0) {
                let i = choose|i: int| 0 <= i < s.drop_last().len() && (#[trigger] s.drop_last()[i]).0 == s.last().0;
                assert(s[i].0 == s[s.len() - 1].0);
            }
        }
    }

    /// The stake of the committee members that have a ballot in this round.
    pub fn total_votes(&self, committee: &Committee) -> (stake: Stake)
        requires
            self.wf(),
        ensures
            stake == self@.total_votes(committee@),
    {
        let n = committee.size();
        let ghost voters = self@.voters();
        let mut stake: Stake = 0;
        let mut i: usize = 0;
        while i < n
            invariant
                i <= n,
                n == committee@.members.len(),
                committee@.wf(),
                voters == self@.voters(),
                self.wf(),
                stake == committee@.prefix(i as int).weight(voters),
            decreases n - i,
        {
            let member = committee.member(i);
            proof {
                committee@.lemma_prefix_step(i as int, voters);
                committee@.lemma_prefix_total(i as int + 1);
                committee@.prefix(i as int + 1).lemma_weight_bounded(voters);
            }
            if self.voted(&member.name) {
                stake = stake + member.stake;
            }
            i += 1;
        }
        proof {
            committee@.lemma_prefix_total(n as int);
        }
        stake
    }

    /// The stake of the committee members whose ballot is for `tx_hash` with
    /// the given commit bit.
    pub fn backing(&self, committee: &Committee, tx_hash: &TxHash, commit: bool) -> (stake: Stake)
        requires
            self.wf(),
        ensures
            stake == self@.backing(committee@, *tx_hash, commit),
    {
        let n = committee.size();
        let ghost backers = self@.backers(*tx_hash, commit);
        let mut stake: Stake = 0;
        let mut i: usize = 0;
        while i < n
            invariant
                i <= n,
                n == committee@.members.len(),
                committee@.wf(),
                backers == self@.backers(*tx_hash, commit),
                self.wf(),
                stake == committee@.prefix(i as int).weight(backers),
            decreases n - i,
        {
            let member = committee.member(i);
            proof {
                committee@.lemma_prefix_step(i as int, backers);
                committee@.lemma_prefix_total(i as int + 1);
                committee@.prefix(i as int + 1).lemma_weight_bounded(backers);
            }
            match self.ballot_of(&member.name) {
                Some(ballot) => {
                    if ballot.tx_hash == *tx_hash && ballot.commit == commit {
                        stake = stake + member.stake;
                    }
                },
                None => {},
            }
            i += 1;
        }
        proof {
            committee@.lemma_prefix_total(n as int);
        }
        stake
    }

    /// The transaction hash behind which a quorum stands with the given
    /// commit bit, if there is one.
    pub fn find_quorum(&self, committee: &Committee, commit: bool) -> (found: Option<TxHash>)
        requires
            self.wf(),
        ensures
            found == self@.winner(committee@, commit),
            match found {
                Some(x) => self@.has_quorum(committee@, x, commit),
                None => forall|x: TxHash| !self@.has_quorum(committee@, x, commit),
            },
    {
        let quorum = committee.quorum_threshold();
        let mut i: usize = 0;
        while i < self.entries.len()
            invariant
                i <= self.entries.len(),
                quorum == committee@.quorum(),
                self.wf(),
                self.pairs().len() == self.entries@.len(),
                forall|k: int|
                    0 <= k < i && (#[trigger] self.pairs()[k]).1.commit == commit
                        ==> !self@.has_quorum(committee@, self.pairs()[k].1.tx_hash, commit),
            decreases self.entries.len() - i,
        {
            let ballot = self.entries[i].ballot;
            if ballot.commit == commit {
                let stake = self.backing(committee, &ballot.tx_hash, commit);
                if stake >= quorum {
                    proof {
                        let x = ballot.tx_hash;
                        assert(self@.has_quorum(committee@, x, commit));
                        let y = choose|y: TxHash| self@.has_quorum(committee@, y, commit);
                        self@.lemma_quorum_unique(committee@, x, commit, y, commit);
                    }
                    return Some(ballot.tx_hash);
                }
            }
            i += 1;
        }
        proof {
            assert forall|x: TxHash| !self@.has_quorum(committee@, x, commit) by {
                if self@.has_quorum(committee@, x, commit) {
                    let backers = self@.backers(x, commit);
                    let name = committee@.lemma_weight_has_member(backers);
                    lemma_to_map_domain(self.pairs(), name);
                    let k = choose|k: int| 0 <= k < self.pairs().len() && (#[trigger] self.pairs()[k]).0 == name;
                    lemma_to_map_index(self.pairs(), k);
                    assert(self.pairs()[k].1.commit == commit);
                }
            }
        }
        None
    }

    /// The transaction hash for which a quorum votes without committing.
    pub fn find_quorum_of_votes(&self, committee: &Committee) -> (found: Option<TxHash>)
        requires
            self.wf(),
        ensures
            found == self@.winner(committee@, false),
            match found {
                Some(x) => self@.quorum_of_votes(committee@, x),
                None => forall|x: TxHash| !self@.quorum_of_votes(committee@, x),
            },
    {
        self.find_quorum(committee, false)
    }

    /// The transaction hash to which a quorum commits.
    pub fn find_quorum_of_commits(&self, committee: &Committee) -> (found: Option<TxHash>)
        requires
            self.wf(),
        ensures
            found == self@.winner(committee@, true),
            match found {
                Some(x) => self@.quorum_of_commits(committee@, x),
                None => forall|x: TxHash| !self@.quorum_of_commits(committee@, x),
            },
    {
        self.find_quorum(committee, true)
    }
}

} // verus!

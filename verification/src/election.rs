//! The state machine of one election: the tallies of its vote rounds, the
//! commit and vote-change rules, and the decision.

use crate::assoc::{
    has_key, keys_distinct, lemma_push_distinct, lemma_to_map_domain, lemma_to_map_index,
    lemma_to_map_push, lemma_to_map_update, to_map,
};
use crate::committee::{Committee, CommitteeView};
use crate::messages::Vote;
use crate::tally::{Ballot, Tally, TallyView, Timer};
use crate::types::{Digest, ElectionId, PublicKey, Round, TxHash};
use vstd::prelude::*;

verus! {

/// What the replica has to do after the library has changed its state.
#[derive(Clone, Copy, Debug, PartialEq, Eq)]
pub enum Action {
    /// Sign this vote of the replica's own and send it to the other primaries.
    SendVote(Vote),
    /// Start the timer of a vote round that has received its first vote, and
    /// report its expiry.
    StartTimer { proposal_round: Round, election_id: ElectionId, vote_round: Round },
    /// Start the header delay anew.
    ResetHeaderTimer,
    /// Every election of the header with this id is decided.
    HeaderCommitted(Digest),
}

/// An election as a map from vote round to tally.
pub struct ElectionView {
    pub tallies: Map<Round, TallyView>,
    /// The highest-ranked transaction hash among the votes received.
    pub highest: Option<TxHash>,
    /// The transaction hash that this replica has committed to.
    pub commit: Option<TxHash>,
    /// The vote round in which the replica saw the quorum that it committed on.
    pub proof_round: Option<Round>,
    /// The decided transaction hash.
    pub decision: Option<TxHash>,
}

impl ElectionView {
    /// An election in which nobody has voted.
    pub open spec fn new() -> ElectionView {
        ElectionView {
            tallies: Map::empty(),
            highest: None,
            commit: None,
            proof_round: None,
            decision: None,
        }
    }

    /// The tally of vote round `round`; empty where nobody has voted in it.
    pub open spec fn tally(self, round: Round) -> TallyView {
        if self.tallies.contains_key(round) {
            self.tallies[round]
        } else {
            TallyView::empty()
        }
    }

    /// Whether `author` has a vote, commit or not, in vote round `round`.
    pub open spec fn voted_or_committed(self, author: PublicKey, round: Round) -> bool {
        self.tally(round).voted(author)
    }

    /// Whether the election is decided.
    pub open spec fn decided(self) -> bool {
        self.decision is Some
    }

    /// The highest-ranked hash once `tx_hash` has been seen too.
    pub open spec fn raise(self, tx_hash: TxHash) -> Option<TxHash> {
        match self.highest {
            Some(highest) => Some(Digest::higher(highest, tx_hash)),
            None => Some(tx_hash),
        }
    }

    /// The election after `vote` has been counted: it replaces what its
    /// author cast before in the same vote round.
    pub open spec fn insert_vote(self, vote: Vote) -> ElectionView {
        ElectionView {
            tallies: self.tallies.insert(
                vote.round,
                self.tally(vote.round).insert(
                    vote.author,
                    Ballot { tx_hash: vote.tx_hash, commit: vote.commit },
                ),
            ),
            highest: self.raise(vote.tx_hash),
            ..self
        }
    }

    /// The election after the timer of vote round `round` has expired; a
    /// round in which nobody has voted has no timer.
    pub open spec fn expire(self, round: Round) -> ElectionView {
        if self.tallies.contains_key(round) {
            ElectionView { tallies: self.tallies.insert(round, self.tallies[round].expire()), ..self }
        } else {
            self
        }
    }

    /// What the replica votes for when it is free to choose: what it has
    /// committed to, else the highest-ranked hash it has seen, else
    /// `fallback`.
    pub open spec fn preferred(self, fallback: TxHash) -> TxHash {
        match self.commit {
            Some(commit) => commit,
            None => match self.highest {
                Some(highest) => highest,
                None => fallback,
            },
        }
    }

    /// Whether `me` is to change its vote after vote round `round`: it has
    /// voted in the round and not in the next, and either a quorum has voted
    /// and the round's timer has expired or everybody has voted.
    pub open spec fn may_change(self, round: Round, me: PublicKey, committee: CommitteeView) -> bool {
        let tally = self.tally(round);
        &&& round < Round::MAX
        &&& tally.voted(me)
        &&& ((tally.total_votes(committee) >= committee.quorum() && tally.timer == Timer::Expired)
            || tally.total_votes(committee) == committee.total())
        &&& !self.voted_or_committed(me, (round + 1) as Round)
    }

    /// Whether `me` is to commit after vote round `round`: a quorum votes for
    /// one hash without committing, and `me` has no vote in the next round.
    pub open spec fn may_commit(self, round: Round, me: PublicKey, committee: CommitteeView) -> bool {
        &&& round < Round::MAX
        &&& self.tally(round).winner(committee, false) is Some
        &&& !self.voted_or_committed(me, (round + 1) as Round)
    }

    /// What the replica is asked to do when it casts `vote`: send it, and
    /// start the timer of the vote round if the vote opens it.
    pub open spec fn casting(self, vote: Vote) -> Seq<Action> {
        seq![Action::SendVote(vote)] + self.opening(vote)
    }

    /// The request to start the timer of the vote round of `vote`, if the
    /// round has no tally yet.
    pub open spec fn opening(self, vote: Vote) -> Seq<Action> {
        if self.tallies.contains_key(vote.round) {
            seq![]
        } else {
            seq![
                Action::StartTimer {
                    proposal_round: vote.proposal_round,
                    election_id: vote.election_id,
                    vote_round: vote.round,
                },
            ]
        }
    }

    /// One application of the transition rules after `vote` has been
    /// counted, for the replica `me`. The first rule that applies fires:
    /// decision, commit, vote change, initial vote. The result is the new
    /// state, in which the replica's own vote is counted already, and that
    /// vote if one was cast.
    pub open spec fn step(self, vote: Vote, me: PublicKey, committee: CommitteeView) -> (
        ElectionView,
        Option<Vote>,
    ) {
        let round = vote.round;
        let tally = self.tally(round);
        let committed = tally.winner(committee, true);
        let endorsed = tally.winner(committee, false);
        if committed is Some {
            (ElectionView { decision: committed, ..self }, None)
        } else if self.may_commit(round, me, committee) {
            let own = vote.reply((round + 1) as Round, endorsed.unwrap(), true, me);
            (
                (ElectionView { commit: endorsed, proof_round: Some(round), ..self }).insert_vote(
                    own,
                ),
                Some(own),
            )
        } else if self.may_change(round, me, committee) {
            let own = vote.reply(
                (round + 1) as Round,
                self.preferred(vote.tx_hash),
                self.commit is Some,
                me,
            );
            (self.insert_vote(own), Some(own))
        } else if !self.voted_or_committed(me, round) {
            let own = vote.reply(round, self.preferred(vote.tx_hash), vote.commit, me);
            (self.insert_vote(own), Some(own))
        } else {
            (self, None)
        }
    }

    /// The transition rules applied until no vote is cast any more: each vote
    /// that the replica casts is counted and the rules are applied to it in
    /// turn. The result is the final state and what the replica is asked to
    /// do, in order.
    pub open spec fn settle(self, vote: Vote, me: PublicKey, committee: CommitteeView) -> (
        ElectionView,
        Seq<Action>,
    )
        decreases Round::MAX - vote.round, if self.voted_or_committed(me, vote.round) {
            0nat
        } else {
            1nat
        },
    {
        let (next, cast) = self.step(vote, me, committee);
        match cast {
            None => (next, seq![]),
            Some(own) => {
                let (last, rest) = next.settle(own, me, committee);
                (last, self.casting(own) + rest)
            },
        }
    }

    /// What a vote does to the election: nothing once it is decided; else
    /// the vote is counted and the transition rules are applied.
    pub open spec fn receive(self, vote: Vote, me: PublicKey, committee: CommitteeView) -> (
        ElectionView,
        Seq<Action>,
    ) {
        if self.decided() {
            (self, seq![])
        } else {
            let (last, rest) = self.insert_vote(vote).settle(vote, me, committee);
            (last, self.opening(vote) + rest)
        }
    }

    /// What a proposal does to the election, `proposed` being the vote that
    /// stands for it: nothing once the election is decided. Else the
    /// proposer's vote is counted; a replica other than the proposer casts
    /// the same vote in its own name; and the transition rules are applied
    /// to the vote counted last.
    pub open spec fn propose(self, proposed: Vote, me: PublicKey, committee: CommitteeView) -> (
        ElectionView,
        Seq<Action>,
    ) {
        if self.decided() {
            (self, seq![])
        } else if proposed.author == me {
            let (last, rest) = self.insert_vote(proposed).settle(proposed, me, committee);
            (last, self.opening(proposed) + rest)
        } else {
            let own = Vote { author: me, ..proposed };
            let (last, rest) = self.insert_vote(proposed).insert_vote(own).settle(
                own,
                me,
                committee,
            );
            (last, self.opening(proposed) + seq![Action::SendVote(own)] + rest)
        }
    }
}

/// The tally of one vote round.
#[derive(Debug)]
struct RoundTally {
    round: Round,
    tally: Tally,
}

/// One election: the tallies of its vote rounds, what the replica has seen
/// and committed to, and the decision.
#[derive(Debug)]
pub struct Election {
    tallies: Vec<RoundTally>,
    highest: Option<TxHash>,
    commit: Option<TxHash>,
    proof_round: Option<Round>,
    decision: Option<TxHash>,
}

impl View for Election {
    type V = ElectionView;

    closed spec fn view(&self) -> ElectionView {
        ElectionView {
            tallies: to_map(self.pairs()),
            highest: self.highest,
            commit: self.commit,
            proof_round: self.proof_round,
            decision: self.decision,
        }
    }
}

impl Election {
    /// The tallies as pairs of vote round and tally.
    closed spec fn pairs(&self) -> Seq<(Round, TallyView)> {
        Seq::new(self.tallies@.len(), |i: int| (self.tallies@[i].round, self.tallies@[i].tally@))
    }

    /// No vote round has two tallies, and every tally is well formed.
    pub closed spec fn wf(&self) -> bool {
        &&& keys_distinct(self.pairs())
        &&& forall|i: int| 0 <= i < self.tallies@.len() ==> (#[trigger] self.tallies@[i]).tally.wf()
    }

    /// An election in which nobody has voted.
    pub fn new() -> (election: Election)
        ensures
            election.wf(),
            election@ == ElectionView::new(),
    {
        let election = Election {
            tallies: Vec::new(),
            highest: None,
            commit: None,
            proof_round: None,
            decision: None,
        };
        assert(election.pairs() =~= Seq::empty());
        election
    }

    /// Where vote round `round` has its tally.
    fn position(&self, round: Round) -> (at: Option<usize>)
        requires
            self.wf(),
        ensures
            match at {
                Some(i) => i < self.tallies@.len() && self.tallies@[i as int].round == round
                    && self@.tallies.contains_key(round) && self@.tallies[round]
                    == self.tallies@[i as int].tally@,
                None => !has_key(self.pairs(), round) && !self@.tallies.contains_key(round),
            },
    {
        let mut i: usize = 0;
        while i < self.tallies.len()
            invariant
                i <= self.tallies.len(),
                self.pairs().len() == self.tallies@.len(),
                self.wf(),
                forall|k: int| 0 <= k < i ==> (#[trigger] self.pairs()[k]).0 != round,
            decreases self.tallies.len() - i,
        {
            if self.tallies[i].round == round {
                proof {
                    lemma_to_map_index(self.pairs(), i as int);
                }
                return Some(i);
            }
            i += 1;
        }
        proof {
            lemma_to_map_domain(self.pairs(), round);
        }
        None
    }

    /// Whether the election is decided.
    pub fn decided(&self) -> (yes: bool)
        ensures
            yes == self@.decided(),
    {
        self.decision.is_some()
    }

    /// The decided transaction hash.
    pub fn decision(&self) -> (decision: Option<TxHash>)
        ensures
            decision == self@.decision,
    {
        self.decision
    }

    /// The transaction hash that the replica has committed to.
    pub fn commit(&self) -> (commit: Option<TxHash>)
        ensures
            commit == self@.commit,
    {
        self.commit
    }

    /// The vote round in which the replica saw the quorum that it committed on.
    pub fn proof_round(&self) -> (round: Option<Round>)
        ensures
            round == self@.proof_round,
    {
        self.proof_round
    }

    /// The highest-ranked transaction hash among the votes received.
    pub fn highest(&self) -> (highest: Option<TxHash>)
        ensures
            highest == self@.highest,
    {
        self.highest
    }

    /// Whether `author` has a vote, commit or not, in vote round `round`.
    pub fn voted_or_committed(&self, author: &PublicKey, round: Round) -> (yes: bool)
        requires
            self.wf(),
        ensures
            yes == self@.voted_or_committed(*author, round),
    {
        match self.position(round) {
            Some(i) => self.tallies[i].tally.voted(author),
            None => false,
        }
    }

    /// The stake that has voted in vote round `round`.
    pub fn total_votes(&self, round: Round, committee: &Committee) -> (stake: crate::committee::Stake)
        requires
            self.wf(),
        ensures
            stake == self@.tally(round).total_votes(committee@),
    {
        match self.position(round) {
            Some(i) => self.tallies[i].tally.total_votes(committee),
            None => {
                proof {
                    assert(TallyView::empty().voters() =~= Set::empty());
                    committee@.lemma_weight_empty();
                }
                0
            },
        }
    }

    /// The transaction hash behind which a quorum stands in vote round
    /// `round`, with the given commit bit.
    pub fn find_quorum(&self, round: Round, committee: &Committee, commit: bool) -> (found: Option<
        TxHash,
    >)
        requires
            self.wf(),
        ensures
            found == self@.tally(round).winner(committee@, commit),
    {
        match self.position(round) {
            Some(i) => self.tallies[i].tally.find_quorum(committee, commit),
            None => {
                proof {
                    Self::lemma_empty_has_no_winner(committee@, commit);
                }
                None
            },
        }
    }

    /// In a round in which nobody has voted no hash has a quorum.
    proof fn lemma_empty_has_no_winner(committee: CommitteeView, commit: bool)
        ensures
            TallyView::empty().winner(committee, commit) is None,
    {
        assert forall|x: TxHash| !TallyView::empty().has_quorum(committee, x, commit) by {
            assert(TallyView::empty().backers(x, commit) =~= Set::empty());
            committee.lemma_weight_empty();
        }
    }

    /// Counts `vote`, in place of what its author cast before in the same
    /// vote round. Says whether the vote opened its vote round.
    pub fn insert_vote(&mut self, vote: &Vote) -> (opened: bool)
        requires
            old(self).wf(),
        ensures
            final(self).wf(),
            final(self)@ == old(self)@.insert_vote(*vote),
            opened == !old(self)@.tallies.contains_key(vote.round),
    {
        let ballot = Ballot { tx_hash: vote.tx_hash, commit: vote.commit };
        let ghost before = self.pairs();
        let opened = match self.position(vote.round) {
            Some(i) => {
                proof {
                    lemma_to_map_update(
                        before,
                        i as int,
                        before[i as int].1.insert(vote.author, ballot),
                    );
                }
                self.tallies[i].tally.insert(vote.author, ballot);
                assert(self.pairs() =~= before.update(
                    i as int,
                    (vote.round, before[i as int].1.insert(vote.author, ballot)),
                ));
                false
            },
            None => {
                let mut tally = Tally::new();
                tally.insert(vote.author, ballot);
                proof {
                    lemma_to_map_push(before, vote.round, tally@);
                    lemma_push_distinct(before, vote.round, tally@);
                }
                self.tallies.push(RoundTally { round: vote.round, tally });
                assert(self.pairs() =~= before.push((vote.round, tally@)));
                true
            },
        };
        self.highest = match self.highest {
            Some(highest) => Some(highest.max_with(vote.tx_hash)),
            None => Some(vote.tx_hash),
        };
        opened
    }

    /// Latches the timer of vote round `round`. A round in which nobody has
    /// voted has no timer.
    pub fn expire(&mut self, round: Round)
        requires
            old(self).wf(),
        ensures
            final(self).wf(),
            final(self)@ == old(self)@.expire(round),
    {
        let ghost before = self.pairs();
        match self.position(round) {
            Some(i) => {
                proof {
                    lemma_to_map_update(before, i as int, before[i as int].1.expire());
                }
                self.tallies[i].tally.expire();
                assert(self.pairs() =~= before.update(i as int, (round, before[i as int].1.expire())));
            },
            None => {},
        }
    }

    /// Applies the transition rules once after `vote` has been counted. A
    /// vote that the replica casts is counted, returned, and what it asks of
    /// the replica is added to `actions`.
    fn step(
        &mut self,
        vote: &Vote,
        me: &PublicKey,
        committee: &Committee,
        actions: &mut Vec<Action>,
    ) -> (cast: Option<Vote>)
        requires
            old(self).wf(),
        ensures
            final(self).wf(),
            (final(self)@, cast) == old(self)@.step(*vote, *me, committee@),
            final(actions)@ == old(actions)@ + match cast {
                Some(own) => old(self)@.casting(own),
                None => Seq::<Action>::empty(),
            },
    {
        let round = vote.round;
        let committed = self.find_quorum(round, committee, true);
        if committed.is_some() {
            self.decision = committed;
            assert(actions@ =~= old(actions)@ + Seq::<Action>::empty());
            return None;
        }
        let endorsed = self.find_quorum(round, committee, false);
        let next_free = round < Round::MAX && !self.voted_or_committed(me, round + 1);
        let voted = self.voted_or_committed(me, round);
        let own = if next_free && endorsed.is_some() {
            self.commit = endorsed;
            self.proof_round = Some(round);
            vote.make_reply(round + 1, endorsed.unwrap(), true, *me)
        } else if next_free && voted && self.change_is_due(round, committee) {
            vote.make_reply(round + 1, self.preferred(vote.tx_hash), self.commit.is_some(), *me)
        } else if !voted {
            vote.make_reply(round, self.preferred(vote.tx_hash), vote.commit, *me)
        } else {
            assert(actions@ =~= old(actions)@ + Seq::<Action>::empty());
            return None;
        };
        let opened = self.insert_vote(&own);
        actions.push(Action::SendVote(own));
        if opened {
            actions.push(
                Action::StartTimer {
                    proposal_round: own.proposal_round,
                    election_id: own.election_id,
                    vote_round: own.round,
                },
            );
        }
        assert(actions@ =~= old(actions)@ + old(self)@.casting(own));
        Some(own)
    }

    /// Whether enough of the committee has voted in vote round `round` for a
    /// vote change: a quorum with the round's timer expired, or everybody.
    fn change_is_due(&self, round: Round, committee: &Committee) -> (due: bool)
        requires
            self.wf(),
        ensures
            due == {
                let tally = self@.tally(round);
                (tally.total_votes(committee@) >= committee@.quorum() && tally.timer
                    == Timer::Expired) || tally.total_votes(committee@) == committee@.total()
            },
    {
        let total = self.total_votes(round, committee);
        let expired = match self.position(round) {
            Some(i) => self.tallies[i].tally.expired(),
            None => false,
        };
        (total >= committee.quorum_threshold() && expired) || total == committee.total_stake()
    }

    /// What the replica votes for when it is free to choose.
    fn preferred(&self, fallback: TxHash) -> (tx_hash: TxHash)
        ensures
            tx_hash == self@.preferred(fallback),
    {
        match self.commit {
            Some(commit) => commit,
            None => match self.highest {
                Some(highest) => highest,
                None => fallback,
            },
        }
    }

    /// Applies the transition rules to `trigger`, and to each vote that the
    /// replica casts in turn, until it casts none. What this asks of the
    /// replica is added to `actions`.
    fn settle(
        &mut self,
        trigger: Vote,
        me: &PublicKey,
        committee: &Committee,
        actions: &mut Vec<Action>,
    )
        requires
            old(self).wf(),
        ensures
            final(self).wf(),
            (final(self)@, final(actions)@) == ({
                let (last, rest) = old(self)@.settle(trigger, *me, committee@);
                (last, old(actions)@ + rest)
            }),
    {
        let mut trigger = trigger;
        let ghost goal = {
            let (last, rest) = old(self)@.settle(trigger, *me, committee@);
            (last, old(actions)@ + rest)
        };
        loop
            invariant_except_break
                self.wf(),
                goal == ({
                    let (last, rest) = self@.settle(trigger, *me, committee@);
                    (last, actions@ + rest)
                }),
            ensures
                self.wf(),
                goal == (self@, actions@),
            decreases
                    Round::MAX - trigger.round,
                    if self@.voted_or_committed(*me, trigger.round) {
                        0nat
                    } else {
                        1nat
                    },
        {
            let ghost before = self@;
            let ghost sofar = actions@;
            match self.step(&trigger, me, committee, actions) {
                Some(own) => {
                    proof {
                        let (last, rest) = self@.settle(own, *me, committee@);
                        assert(sofar + (before.casting(own) + rest) =~= (sofar + before.casting(
                            own,
                        )) + rest);
                    }
                    trigger = own;
                },
                None => {
                    assert(actions@ =~= sofar + Seq::<Action>::empty());
                    break ;
                },
            }
        }
    }

    /// Handles a vote for the replica `me`: nothing once the election is
    /// decided; else the vote is counted and the transition rules are
    /// applied until the replica casts no further vote. Returns what the
    /// replica is asked to do, in order.
    pub fn receive(&mut self, vote: &Vote, me: &PublicKey, committee: &Committee) -> (actions: Vec<
        Action,
    >)
        requires
            old(self).wf(),
        ensures
            final(self).wf(),
            (final(self)@, actions@) == old(self)@.receive(*vote, *me, committee@),
    {
        let mut actions: Vec<Action> = Vec::new();
        if self.decided() {
            return actions;
        }
        let opened = self.insert_vote(vote);
        if opened {
            actions.push(
                Action::StartTimer {
                    proposal_round: vote.proposal_round,
                    election_id: vote.election_id,
                    vote_round: vote.round,
                },
            );
        }
        assert(actions@ =~= old(self)@.opening(*vote));
        self.settle(*vote, me, committee, &mut actions);
        actions
    }

    /// Handles a proposal for the replica `me`, `proposed` being the vote
    /// that stands for it: nothing once the election is decided. Else the
    /// proposer's vote is counted, a replica other than the proposer casts
    /// the same vote in its own name, and the transition rules are applied.
    /// Returns what the replica is asked to do, in order.
    pub fn propose(&mut self, proposed: &Vote, me: &PublicKey, committee: &Committee) -> (actions: Vec<
        Action,
    >)
        requires
            old(self).wf(),
        ensures
            final(self).wf(),
            (final(self)@, actions@) == old(self)@.propose(*proposed, *me, committee@),
    {
        let mut actions: Vec<Action> = Vec::new();
        if self.decided() {
            return actions;
        }
        let opened = self.insert_vote(proposed);
        if opened {
            actions.push(
                Action::StartTimer {
                    proposal_round: proposed.proposal_round,
                    election_id: proposed.election_id,
                    vote_round: proposed.round,
                },
            );
        }
        assert(actions@ =~= old(self)@.opening(*proposed));
        if proposed.author == *me {
            self.settle(*proposed, me, committee, &mut actions);
        } else {
            let own = Vote { author: *me, ..*proposed };
            let _ = self.insert_vote(&own);
            actions.push(Action::SendVote(own));
            self.settle(own, me, committee, &mut actions);
        }
        actions
    }
}

} // verus!

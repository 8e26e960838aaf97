//! The proposer: the replica's position in the DAG, the proposals that wait
//! for a header, the elections it takes part in, and the votes that arrived
//! before their header.

use crate::assoc::{
    append_all, has_key, keys_distinct, lemma_filter_step, lemma_push_distinct, lemma_to_map_domain,
    lemma_to_map_index, lemma_to_map_push, lemma_to_map_update, to_map,
};
use crate::committee::{Committee, CommitteeView};
use crate::election::{Action, Election, ElectionView};
use crate::hashing::{hashed, with_id};
use crate::messages::{Header, HeaderView, Vote};
use crate::types::{Digest, ElectionId, PublicKey, Round, TxHash};
use vstd::prelude::*;

verus! {

/// What the proposer keeps of a header it has seen.
pub struct HeaderRecordView {
    /// The round of the header.
    pub round: Round,
    /// The elections that the header opens.
    pub elections: Seq<ElectionId>,
    /// Whether every one of them is decided.
    pub committed: bool,
}

/// A proposal for another election than `election_id`.
pub open spec fn not_for(election_id: ElectionId) -> spec_fn((TxHash, ElectionId)) -> bool {
    |proposal: (TxHash, ElectionId)| proposal.1 != election_id
}

/// A proposal whose election is neither decided nor open already.
pub open spec fn is_new(decided: Set<ElectionId>, active: Seq<ElectionId>) -> spec_fn(
    (TxHash, ElectionId),
) -> bool {
    |proposal: (TxHash, ElectionId)| !decided.contains(proposal.1) && !active.contains(proposal.1)
}

/// Whether one of `proposals` is for the election `election_id`.
pub open spec fn names(proposals: Seq<(TxHash, ElectionId)>, election_id: ElectionId) -> bool {
    exists|i: int| 0 <= i < proposals.len() && (#[trigger] proposals[i]).1 == election_id
}

/// No two of `proposals` are for one election.
pub open spec fn one_per_election(proposals: Seq<(TxHash, ElectionId)>) -> bool {
    forall|i: int, j: int| 0 <= i < j < proposals.len() ==> proposals[i].1 != proposals[j].1
}

/// The first proposal for each election, in the order of `proposals`: a
/// proposal for an election that an earlier one names is left out.
pub open spec fn first_of_each(proposals: Seq<(TxHash, ElectionId)>) -> Seq<(TxHash, ElectionId)>
    decreases proposals.len(),
{
    if proposals.len() == 0 {
        proposals
    } else {
        let front = first_of_each(proposals.drop_last());
        if names(front, proposals.last().1) {
            front
        } else {
            front.push(proposals.last())
        }
    }
}

/// The first proposals of each election name each election once, name the
/// elections that the list names, and are proposals of the list.
pub proof fn lemma_first_of_each(proposals: Seq<(TxHash, ElectionId)>)
    ensures
        one_per_election(first_of_each(proposals)),
        forall|election_id: ElectionId|
            names(first_of_each(proposals), election_id) <==> names(proposals, election_id),
        forall|i: int|
            0 <= i < first_of_each(proposals).len() ==> proposals.contains(
                #[trigger] first_of_each(proposals)[i],
            ),
    decreases proposals.len(),
{
    if proposals.len() > 0 {
        let front = proposals.drop_last();
        let last = proposals.last();
        lemma_first_of_each(front);
        let kept = first_of_each(front);
        let all = first_of_each(proposals);
        assert forall|election_id: ElectionId| names(all, election_id) <==> names(
            proposals,
            election_id,
        ) by {
            if names(all, election_id) {
                let i = choose|i: int| 0 <= i < all.len() && (#[trigger] all[i]).1 == election_id;
                if i < kept.len() {
                    assert(kept[i].1 == election_id);
                    assert(names(front, election_id));
                    let k = choose|k: int| 0 <= k < front.len() && (#[trigger] front[k]).1 == election_id;
                    assert(proposals[k].1 == election_id);
                } else {
                    assert(proposals[proposals.len() - 1].1 == election_id);
                }
            }
            if names(proposals, election_id) {
                let k = choose|k: int|
                    0 <= k < proposals.len() && (#[trigger] proposals[k]).1 == election_id;
                if k < front.len() {
                    assert(front[k].1 == election_id);
                    assert(names(front, election_id));
                    assert(names(kept, election_id));
                    let i = choose|i: int| 0 <= i < kept.len() && (#[trigger] kept[i]).1 == election_id;
                    assert(all[i].1 == election_id);
                } else if names(kept, last.1) {
                    let i = choose|i: int| 0 <= i < kept.len() && (#[trigger] kept[i]).1 == last.1;
                    assert(all[i].1 == election_id);
                } else {
                    assert(all[all.len() - 1].1 == election_id);
                }
            }
        }
        assert forall|i: int| 0 <= i < all.len() implies proposals.contains(#[trigger] all[i]) by {
            if i < kept.len() {
                assert(front.contains(kept[i]));
                let k = choose|k: int| 0 <= k < front.len() && front[k] == kept[i];
                assert(proposals[k] == all[i]);
            } else {
                assert(proposals[proposals.len() - 1] == all[i]);
            }
        }
        assert forall|i: int, j: int| 0 <= i < j < all.len() implies all[i].1 != all[j].1 by {
            if j == kept.len() {
                assert(kept[i].1 != last.1);
            }
        }
    }
}

/// A vote on a header of round `round`.
pub open spec fn is_for(round: Round) -> spec_fn(Vote) -> bool {
    |vote: Vote| vote.proposal_round == round
}

/// A vote on a header of another round than `round`.
pub open spec fn is_not_for(round: Round) -> spec_fn(Vote) -> bool {
    |vote: Vote| vote.proposal_round != round
}

/// The next round, where there is one.
pub open spec fn next_round(round: Round) -> Round {
    if round < Round::MAX {
        (round + 1) as Round
    } else {
        round
    }
}

/// The state of a proposer.
pub struct ProposerView {
    /// The replica's own identity.
    pub name: PublicKey,
    pub committee: CommitteeView,
    /// The most proposals that a header takes.
    pub header_size: nat,
    /// A replica with this switch on takes no part: it is silent.
    pub byzantine: bool,
    /// The current proposal round.
    pub round: Round,
    /// The proposals that no header holds yet, in the order of arrival.
    pub proposals: Seq<(TxHash, ElectionId)>,
    /// The elections by the round of their header and their id.
    pub elections: Map<(Round, ElectionId), ElectionView>,
    /// The ids of the elections that are decided.
    pub decided: Set<ElectionId>,
    /// The ids of the elections that a header has opened.
    pub active_elections: Seq<ElectionId>,
    /// The votes that arrived before the header of their election.
    pub pending_votes: Seq<Vote>,
    /// The rounds in which the replica has made a header.
    pub own_proposals: Seq<Round>,
    /// The headers seen, by id.
    pub headers: Map<Digest, HeaderRecordView>,
}

impl ProposerView {
    /// The state in which a proposer starts.
    pub open spec fn new(
        name: PublicKey,
        committee: CommitteeView,
        header_size: nat,
        byzantine: bool,
    ) -> ProposerView {
        ProposerView {
            name,
            committee,
            header_size,
            byzantine,
            round: 0,
            proposals: Seq::empty(),
            elections: Map::empty(),
            decided: Set::empty(),
            active_elections: Seq::empty(),
            pending_votes: Seq::empty(),
            own_proposals: Seq::empty(),
            headers: Map::empty(),
        }
    }

    /// The waiting proposals that may go into a header: those whose
    /// election is neither decided nor open, and of these the first for each
    /// election.
    pub open spec fn eligible(self) -> Seq<(TxHash, ElectionId)> {
        first_of_each(self.proposals.filter(is_new(self.decided, self.active_elections)))
    }

    /// How many proposals the next header takes.
    pub open spec fn header_len(self) -> int {
        if self.eligible().len() <= self.header_size {
            self.eligible().len() as int
        } else {
            self.header_size as int
        }
    }

    /// Whether the replica may make a header: it takes part, and has made
    /// none in the current round.
    pub open spec fn may_propose(self) -> bool {
        !self.byzantine && !self.own_proposals.contains(self.round)
    }

    /// Making a header. A replica that may not propose makes none. Else the
    /// proposals of decided and of open elections are dropped, and so is
    /// every proposal for an election that an earlier one names; the header
    /// takes the first `header_size` of the rest, the others wait on, and
    /// the round is recorded. The header is a draft: it has neither id nor
    /// signature yet.
    pub open spec fn make_header(self) -> (ProposerView, Option<HeaderView>) {
        if !self.may_propose() {
            (self, None)
        } else {
            let n = self.header_len();
            (
                ProposerView {
                    proposals: self.eligible().skip(n),
                    own_proposals: self.own_proposals.push(self.round),
                    ..self
                },
                Some(HeaderView::draft(self.round, self.name, self.eligible().take(n))),
            )
        }
    }

    /// A worker announces a batch. A replica that takes part adds the
    /// proposal to those that wait; a header is made once `header_size`
    /// proposals wait and the round has none yet.
    pub open spec fn offer(self, tx_hash: TxHash, election_id: ElectionId) -> (
        ProposerView,
        Option<HeaderView>,
    ) {
        let waiting = if self.byzantine {
            self
        } else {
            ProposerView { proposals: self.proposals.push((tx_hash, election_id)), ..self }
        };
        if waiting.proposals.len() >= waiting.header_size && !waiting.own_proposals.contains(
            waiting.round,
        ) {
            waiting.make_header()
        } else {
            (waiting, None)
        }
    }

    /// The header delay has passed. A header is made if proposals wait and
    /// the round has none yet.
    pub open spec fn tick(self) -> (ProposerView, Option<HeaderView>) {
        if self.proposals.len() > 0 && !self.own_proposals.contains(self.round) {
            self.make_header()
        } else {
            (self, None)
        }
    }

    /// Whether every election of the header with id `header_id` is decided.
    pub open spec fn header_decided(self, header_id: Digest) -> bool {
        let record = self.headers[header_id];
        forall|i: int|
            0 <= i < record.elections.len() ==> {
                let key = (record.round, #[trigger] record.elections[i]);
                self.elections.contains_key(key) && self.elections[key].decided()
            }
    }

    /// What follows the decision of the election `election_id` on a vote
    /// that names the header `header_id`: the replica moves to the next
    /// round, the election counts as decided, the header delay starts anew,
    /// and the header is committed if all its elections are decided now.
    pub open spec fn conclude(self, election_id: ElectionId, header_id: Digest) -> (
        ProposerView,
        Seq<Action>,
    ) {
        let moved = ProposerView {
            round: next_round(self.round),
            decided: self.decided.insert(election_id),
            ..self
        };
        if moved.headers.contains_key(header_id) && !moved.headers[header_id].committed
            && moved.header_decided(header_id) {
            (
                ProposerView {
                    headers: moved.headers.insert(
                        header_id,
                        HeaderRecordView { committed: true, ..moved.headers[header_id] },
                    ),
                    ..moved
                },
                seq![Action::ResetHeaderTimer, Action::HeaderCommitted(header_id)],
            )
        } else {
            (moved, seq![Action::ResetHeaderTimer])
        }
    }

    /// Handling a vote. A silent replica does nothing. A vote whose election
    /// no header has opened yet waits, once, for the header. Else the
    /// election handles the vote, and a decision that it reaches is
    /// concluded.
    pub open spec fn process_vote(self, vote: Vote) -> (ProposerView, Seq<Action>) {
        let key = (vote.proposal_round, vote.election_id);
        if self.byzantine {
            (self, seq![])
        } else if !self.elections.contains_key(key) {
            if self.pending_votes.contains(vote) {
                (self, seq![])
            } else {
                (ProposerView { pending_votes: self.pending_votes.push(vote), ..self }, seq![])
            }
        } else {
            let before = self.elections[key];
            let (after, actions) = before.receive(vote, self.name, self.committee);
            let counted = ProposerView { elections: self.elections.insert(key, after), ..self };
            if !before.decided() && after.decided() {
                let (concluded, more) = counted.conclude(vote.election_id, vote.header_id);
                (concluded, actions + more)
            } else {
                (counted, actions)
            }
        }
    }

    /// The vote that stands for the proposal at `index` of `header`: its
    /// author's vote in vote round 0, without commit.
    pub open spec fn proposed_vote(header: HeaderView, index: int) -> Vote {
        Vote::unsigned(
            0,
            header.proposals[index].0,
            header.proposals[index].1,
            header.round,
            false,
            header.author,
            header.id,
        )
    }

    /// Handling the proposal at `index` of `header`: the election is made
    /// if there is none, and recorded as open; it handles the proposal; the
    /// proposals that wait for this election are dropped; and a decision
    /// that the election reaches is concluded.
    pub open spec fn open_election(self, header: HeaderView, index: int) -> (
        ProposerView,
        Seq<Action>,
    ) {
        let election_id = header.proposals[index].1;
        let key = (header.round, election_id);
        let fresh = !self.elections.contains_key(key);
        let before = if fresh {
            ElectionView::new()
        } else {
            self.elections[key]
        };
        let (after, actions) = before.propose(
            Self::proposed_vote(header, index),
            self.name,
            self.committee,
        );
        let opened = ProposerView {
            elections: self.elections.insert(key, after),
            active_elections: if fresh && !self.active_elections.contains(election_id)
                && !self.decided.contains(election_id) {
                self.active_elections.push(election_id)
            } else {
                self.active_elections
            },
            proposals: self.proposals.filter(not_for(election_id)),
            ..self
        };
        if !before.decided() && after.decided() {
            let (concluded, more) = opened.conclude(election_id, header.id);
            (concluded, actions + more)
        } else {
            (opened, actions)
        }
    }

    /// Handling the proposals of `header` from `index` on, in order.
    pub open spec fn open_from(self, header: HeaderView, index: int) -> (ProposerView, Seq<Action>)
        decreases header.proposals.len() - index,
    {
        if 0 <= index < header.proposals.len() {
            let (next, actions) = self.open_election(header, index);
            let (last, rest) = next.open_from(header, index + 1);
            (last, actions + rest)
        } else {
            (self, seq![])
        }
    }

    /// Handling the votes of `votes` from `index` on, in order.
    pub open spec fn replay_from(self, votes: Seq<Vote>, index: int) -> (ProposerView, Seq<Action>)
        decreases votes.len() - index,
    {
        if 0 <= index < votes.len() {
            let (next, actions) = self.process_vote(votes[index]);
            let (last, rest) = next.replay_from(votes, index + 1);
            (last, actions + rest)
        } else {
            (self, seq![])
        }
    }

    /// Handling a header. A silent replica does nothing. Else the header is
    /// recorded as not committed; its proposals are handled in order; and
    /// the votes that waited for a header of its round are taken from the
    /// waiting votes and handled in the order in which they arrived.
    pub open spec fn process_header(self, header: HeaderView) -> (ProposerView, Seq<Action>) {
        if self.byzantine {
            (self, seq![])
        } else {
            let recorded = ProposerView {
                headers: self.headers.insert(
                    header.id,
                    HeaderRecordView {
                        round: header.round,
                        elections: header.elections(),
                        committed: false,
                    },
                ),
                ..self
            };
            let (opened, actions) = recorded.open_from(header, 0);
            let due = opened.pending_votes.filter(is_for(header.round));
            let drained = ProposerView {
                pending_votes: opened.pending_votes.filter(is_not_for(header.round)),
                ..opened
            };
            let (last, rest) = drained.replay_from(due, 0);
            (last, actions + rest)
        }
    }

    /// The timer of vote round `vote_round` of an election has expired. An
    /// election that is not there has no timer, and a silent replica does
    /// nothing.
    pub open spec fn expire(self, proposal_round: Round, election_id: ElectionId, vote_round: Round) -> ProposerView {
        let key = (proposal_round, election_id);
        if !self.byzantine && self.elections.contains_key(key) {
            ProposerView {
                elections: self.elections.insert(key, self.elections[key].expire(vote_round)),
                ..self
            }
        } else {
            self
        }
    }
}

/// Whether one of `proposals` is for the election `election_id`.
fn holds_election(proposals: &Vec<(TxHash, ElectionId)>, election_id: &ElectionId) -> (found: bool)
    ensures
        found == names(proposals@, *election_id),
{
    let mut i: usize = 0;
    while i < proposals.len()
        invariant
            i <= proposals.len(),
            forall|k: int| 0 <= k < i ==> (#[trigger] proposals@[k]).1 != *election_id,
        decreases proposals.len() - i,
    {
        if proposals[i].1 == *election_id {
            return true;
        }
        i += 1;
    }
    false
}

/// A list in two parts names an election where one of the parts does.
proof fn lemma_names_of_both(
    first: Seq<(TxHash, ElectionId)>,
    second: Seq<(TxHash, ElectionId)>,
    election_id: ElectionId,
)
    ensures
        names(first + second, election_id) <==> names(first, election_id) || names(
            second,
            election_id,
        ),
{
    let both = first + second;
    if names(first, election_id) {
        let i = choose|i: int| 0 <= i < first.len() && (#[trigger] first[i]).1 == election_id;
        assert(both[i].1 == election_id);
    }
    if names(second, election_id) {
        let i = choose|i: int| 0 <= i < second.len() && (#[trigger] second[i]).1 == election_id;
        assert(both[first.len() + i].1 == election_id);
    }
    if names(both, election_id) {
        let i = choose|i: int| 0 <= i < both.len() && (#[trigger] both[i]).1 == election_id;
        if i < first.len() {
            assert(first[i].1 == election_id);
        } else {
            assert(second[i - first.len()].1 == election_id);
        }
    }
}

/// A header names each election once, and holds only proposals that
/// waited and whose election was neither decided nor open.
pub proof fn lemma_header_takes_new(state: ProposerView)
    ensures
        state.make_header().1 matches Some(header) ==> {
            &&& header.elections().no_duplicates()
            &&& one_per_election(header.proposals)
            &&& forall|k: int|
                0 <= k < header.proposals.len() ==> {
                    &&& state.proposals.contains(#[trigger] header.proposals[k])
                    &&& !state.decided.contains(header.proposals[k].1)
                    &&& !state.active_elections.contains(header.proposals[k].1)
                }
        },
        one_per_election(state.make_header().0.proposals) || !state.may_propose(),
        forall|p: (TxHash, ElectionId)|
            state.make_header().0.proposals.contains(p) ==> state.proposals.contains(p),
{
    if state.may_propose() {
        let fresh = is_new(state.decided, state.active_elections);
        let passed = state.proposals.filter(fresh);
        let live = state.eligible();
        let n = state.header_len();
        lemma_first_of_each(passed);
        let taken = live.take(n);
        let left = live.skip(n);
        assert forall|k: int| 0 <= k < taken.len() implies {
            &&& state.proposals.contains(#[trigger] taken[k])
            &&& !state.decided.contains(taken[k].1)
            &&& !state.active_elections.contains(taken[k].1)
        } by {
            assert(taken[k] == live[k]);
            assert(passed.contains(live[k]));
            state.proposals.lemma_filter_contains_rev(fresh, live[k]);
            let at = choose|at: int| 0 <= at < passed.len() && passed[at] == live[k];
            state.proposals.lemma_filter_pred(fresh, at);
        }
        let header = state.make_header().1.unwrap();
        assert forall|i: int, j: int|
            0 <= i < header.elections().len() && 0 <= j < header.elections().len() && i
                != j implies header.elections()[i] != header.elections()[j] by {
            assert(taken[i] == live[i] && taken[j] == live[j]);
        }
        assert forall|i: int, j: int| 0 <= i < j < taken.len() implies taken[i].1
            != taken[j].1 by {
            assert(taken[i] == live[i] && taken[j] == live[j]);
        }
        assert forall|i: int, j: int| 0 <= i < j < left.len() implies left[i].1 != left[j].1 by {
            assert(left[i] == live[i + n] && left[j] == live[j + n]);
        }
        assert forall|p: (TxHash, ElectionId)| left.contains(p) implies state.proposals.contains(
            p,
        ) by {
            let i = choose|i: int| 0 <= i < left.len() && left[i] == p;
            assert(live[i + n] == p);
            assert(passed.contains(live[i + n]));
            state.proposals.lemma_filter_contains_rev(fresh, p);
        }
    }
}

/// Whether `id` is in `list`.
fn holds_id(list: &Vec<ElectionId>, id: &ElectionId) -> (found: bool)
    ensures
        found == list@.contains(*id),
{
    let mut i: usize = 0;
    while i < list.len()
        invariant
            i <= list.len(),
            forall|k: int| 0 <= k < i ==> list@[k] != *id,
        decreases list.len() - i,
    {
        if list[i] == *id {
            return true;
        }
        i += 1;
    }
    false
}

/// Whether `round` is in `list`.
fn holds_round(list: &Vec<Round>, round: Round) -> (found: bool)
    ensures
        found == list@.contains(round),
{
    let mut i: usize = 0;
    while i < list.len()
        invariant
            i <= list.len(),
            forall|k: int| 0 <= k < i ==> list@[k] != round,
        decreases list.len() - i,
    {
        if list[i] == round {
            return true;
        }
        i += 1;
    }
    false
}

/// Whether `vote` is in `list`.
fn holds_vote(list: &Vec<Vote>, vote: &Vote) -> (found: bool)
    ensures
        found == list@.contains(*vote),
{
    let mut i: usize = 0;
    while i < list.len()
        invariant
            i <= list.len(),
            forall|k: int| 0 <= k < i ==> list@[k] != *vote,
        decreases list.len() - i,
    {
        if list[i] == *vote {
            return true;
        }
        i += 1;
    }
    false
}

/// One election with the round of its header and its id.
#[derive(Debug)]
struct ElectionSlot {
    round: Round,
    id: ElectionId,
    election: Election,
}

/// What the proposer keeps of a header it has seen.
#[derive(Debug)]
struct HeaderRecord {
    id: Digest,
    round: Round,
    elections: Vec<ElectionId>,
    committed: bool,
}

/// Makes headers from the proposals of the workers and takes part in the
/// elections that headers open.
#[derive(Debug)]
pub struct Proposer {
    name: PublicKey,
    committee: Committee,
    header_size: usize,
    byzantine: bool,
    round: Round,
    proposals: Vec<(TxHash, ElectionId)>,
    elections: Vec<ElectionSlot>,
    decided: Vec<ElectionId>,
    active_elections: Vec<ElectionId>,
    pending_votes: Vec<Vote>,
    own_proposals: Vec<Round>,
    headers: Vec<HeaderRecord>,
}

impl View for Proposer {
    type V = ProposerView;

    closed spec fn view(&self) -> ProposerView {
        ProposerView {
            name: self.name,
            committee: self.committee@,
            header_size: self.header_size as nat,
            byzantine: self.byzantine,
            round: self.round,
            proposals: self.proposals@,
            elections: to_map(self.election_pairs()),
            decided: self.decided@.to_set(),
            active_elections: self.active_elections@,
            pending_votes: self.pending_votes@,
            own_proposals: self.own_proposals@,
            headers: to_map(self.header_pairs()),
        }
    }
}

impl Proposer {
    /// The elections as pairs of key and state.
    closed spec fn election_pairs(&self) -> Seq<((Round, ElectionId), ElectionView)> {
        Seq::new(
            self.elections@.len(),
            |i: int| ((self.elections@[i].round, self.elections@[i].id), self.elections@[i].election@),
        )
    }

    /// The header records as pairs of id and record.
    closed spec fn header_pairs(&self) -> Seq<(Digest, HeaderRecordView)> {
        Seq::new(
            self.headers@.len(),
            |i: int|
                (
                    self.headers@[i].id,
                    HeaderRecordView {
                        round: self.headers@[i].round,
                        elections: self.headers@[i].elections@,
                        committed: self.headers@[i].committed,
                    },
                ),
        )
    }

    /// No election and no header is kept twice, and every election is well
    /// formed.
    pub closed spec fn wf(&self) -> bool {
        &&& keys_distinct(self.election_pairs())
        &&& keys_distinct(self.header_pairs())
        &&& forall|i: int|
            0 <= i < self.elections@.len() ==> (#[trigger] self.elections@[i]).election.wf()
    }

    /// A proposer in round 0 that has seen nothing yet.
    pub fn new(name: PublicKey, committee: Committee, header_size: usize, byzantine: bool) -> (proposer:
        Proposer)
        ensures
            proposer.wf(),
            proposer@ == ProposerView::new(name, committee@, header_size as nat, byzantine),
    {
        let proposer = Proposer {
            name,
            committee,
            header_size,
            byzantine,
            round: 0,
            proposals: Vec::new(),
            elections: Vec::new(),
            decided: Vec::new(),
            active_elections: Vec::new(),
            pending_votes: Vec::new(),
            own_proposals: Vec::new(),
            headers: Vec::new(),
        };
        proof {
            assert(proposer.election_pairs() =~= Seq::empty());
            assert(proposer.header_pairs() =~= Seq::empty());
            assert(proposer.decided@.to_set() =~= Set::empty());
        }
        proposer
    }

    /// The current proposal round.
    pub fn round(&self) -> (round: Round)
        ensures
            round == self@.round,
    {
        self.round
    }

    /// The replica's own identity.
    pub fn name(&self) -> (name: PublicKey)
        ensures
            name == self@.name,
    {
        self.name
    }

    /// The proposals that no header holds yet.
    pub fn proposals(&self) -> (waiting: &Vec<(TxHash, ElectionId)>)
        ensures
            waiting@ == self@.proposals,
    {
        &self.proposals
    }

    /// The votes that wait for the header of their election.
    pub fn pending_votes(&self) -> (waiting: &Vec<Vote>)
        ensures
            waiting@ == self@.pending_votes,
    {
        &self.pending_votes
    }

    /// The rounds in which the replica has made a header.
    pub fn own_proposals(&self) -> (rounds: &Vec<Round>)
        ensures
            rounds@ == self@.own_proposals,
    {
        &self.own_proposals
    }

    /// The ids of the elections that a header has opened.
    pub fn active_elections(&self) -> (ids: &Vec<ElectionId>)
        ensures
            ids@ == self@.active_elections,
    {
        &self.active_elections
    }

    /// Whether an election with this id is decided.
    pub fn is_decided(&self, election_id: &ElectionId) -> (yes: bool)
        ensures
            yes == self@.decided.contains(*election_id),
    {
        holds_id(&self.decided, election_id)
    }

    /// Makes a header, if the replica takes part and has made none in the
    /// current round: of the waiting proposals whose election is neither
    /// decided nor open, the first for each election, and of these the first
    /// `header_size`. The others of these wait on; the rest is dropped. The
    /// header names each election once. It carries its id; its author has
    /// yet to sign it.
    pub fn make_header(&mut self) -> (made: Option<Header>)
        requires
            old(self).wf(),
        ensures
            final(self).wf(),
            final(self)@ == old(self)@.make_header().0,
            hashed(made, old(self)@.make_header().1),
            made matches Some(header) ==> {
                &&& header@.elections().no_duplicates()
                &&& forall|k: int|
                    0 <= k < header@.proposals.len() ==> {
                        &&& old(self)@.proposals.contains(#[trigger] header@.proposals[k])
                        &&& !old(self)@.decided.contains(header@.proposals[k].1)
                        &&& !old(self)@.active_elections.contains(header@.proposals[k].1)
                    }
            },
    {
        if self.byzantine || holds_round(&self.own_proposals, self.round) {
            return None;
        }
        let ghost fresh = is_new(self@.decided, self@.active_elections);
        let ghost all = self.proposals@;
        let mut taken: Vec<(TxHash, ElectionId)> = Vec::new();
        let mut left: Vec<(TxHash, ElectionId)> = Vec::new();
        let mut i: usize = 0;
        proof {
            crate::assoc::lemma_filter_empty(fresh);
            assert(all.take(0) =~= Seq::empty());
        }
        while i < self.proposals.len()
            invariant
                i <= self.proposals.len(),
                all == self.proposals@,
                fresh == is_new(self.decided@.to_set(), self.active_elections@),
                taken@.len() <= self.header_size,
                left@.len() > 0 ==> taken@.len() == self.header_size,
                taken@ + left@ == first_of_each(all.take(i as int).filter(fresh)),
            decreases self.proposals.len() - i,
        {
            let proposal = self.proposals[i];
            proof {
                lemma_filter_step(all, fresh, i as int);
                let passed = all.take(i as int).filter(fresh);
                assert(passed.push(proposal).drop_last() =~= passed);
                assert(passed.push(proposal).last() == proposal);
            }
            if !holds_id(&self.decided, &proposal.1) && !holds_id(
                &self.active_elections,
                &proposal.1,
            ) && !holds_election(&taken, &proposal.1) && !holds_election(&left, &proposal.1) {
                proof {
                    lemma_names_of_both(taken@, left@, proposal.1);
                }
                if taken.len() < self.header_size {
                    taken.push(proposal);
                    assert(left@ =~= Seq::empty());
                    assert(taken@ + left@ =~= first_of_each(all.take(i as int).filter(fresh)).push(
                        proposal,
                    ));
                } else {
                    left.push(proposal);
                    assert(taken@ + left@ =~= first_of_each(all.take(i as int).filter(fresh)).push(
                        proposal,
                    ));
                }
            } else {
                proof {
                    lemma_names_of_both(taken@, left@, proposal.1);
                }
            }
            i += 1;
        }
        proof {
            assert(all.take(i as int) =~= all);
            let live = old(self)@.eligible();
            assert(taken@ + left@ == live);
            let n = old(self)@.header_len();
            assert(n == taken@.len());
            assert(live.take(n) =~= taken@);
            assert(live.skip(n) =~= left@);
            lemma_header_takes_new(old(self)@);
        }
        self.proposals = left;
        self.own_proposals.push(self.round);
        proof {
            assert(self.election_pairs() =~= old(self).election_pairs());
            assert(self.header_pairs() =~= old(self).header_pairs());
        }
        Some(with_id(Header::new(self.round, self.name, taken)))
    }

    /// A worker announces the batch `tx_hash` for the election
    /// `election_id`. A replica that takes part adds the proposal to those
    /// that wait. A header is made once `header_size` proposals wait and the
    /// round has none yet.
    pub fn offer(&mut self, tx_hash: TxHash, election_id: ElectionId) -> (made: Option<Header>)
        requires
            old(self).wf(),
        ensures
            final(self).wf(),
            final(self)@ == old(self)@.offer(tx_hash, election_id).0,
            hashed(made, old(self)@.offer(tx_hash, election_id).1),
            made matches Some(header) ==> header@.elections().no_duplicates(),
    {
        if !self.byzantine {
            self.proposals.push((tx_hash, election_id));
            proof {
                assert(self.election_pairs() =~= old(self).election_pairs());
                assert(self.header_pairs() =~= old(self).header_pairs());
            }
        }
        if self.proposals.len() >= self.header_size && !holds_round(
            &self.own_proposals,
            self.round,
        ) {
            self.make_header()
        } else {
            None
        }
    }

    /// The header delay has passed. A header is made if proposals wait and
    /// the round has none yet. The caller starts the delay anew.
    pub fn tick(&mut self) -> (made: Option<Header>)
        requires
            old(self).wf(),
        ensures
            final(self).wf(),
            final(self)@ == old(self)@.tick().0,
            hashed(made, old(self)@.tick().1),
            made matches Some(header) ==> header@.elections().no_duplicates(),
    {
        if self.proposals.len() > 0 && !holds_round(&self.own_proposals, self.round) {
            self.make_header()
        } else {
            None
        }
    }

    /// Where the election of `round` with id `election_id` is kept.
    fn find_election(&self, round: Round, election_id: &ElectionId) -> (at: Option<usize>)
        requires
            self.wf(),
        ensures
            match at {
                Some(i) => i < self.elections@.len() && self.elections@[i as int].round == round
                    && self.elections@[i as int].id == *election_id
                    && self@.elections.contains_key((round, *election_id))
                    && self@.elections[(round, *election_id)] == self.elections@[i as int].election@,
                None => !has_key(self.election_pairs(), (round, *election_id))
                    && !self@.elections.contains_key((round, *election_id)),
            },
    {
        let mut i: usize = 0;
        while i < self.elections.len()
            invariant
                i <= self.elections.len(),
                self.election_pairs().len() == self.elections@.len(),
                self.wf(),
                forall|k: int|
                    0 <= k < i ==> (#[trigger] self.election_pairs()[k]).0 != (round, *election_id),
            decreases self.elections.len() - i,
        {
            if self.elections[i].round == round && self.elections[i].id == *election_id {
                proof {
                    lemma_to_map_index(self.election_pairs(), i as int);
                }
                return Some(i);
            }
            i += 1;
        }
        proof {
            lemma_to_map_domain(self.election_pairs(), (round, *election_id));
        }
        None
    }

    /// Where the record of the header with id `header_id` is kept.
    fn find_header(&self, header_id: &Digest) -> (at: Option<usize>)
        requires
            self.wf(),
        ensures
            match at {
                Some(i) => i < self.headers@.len() && self.headers@[i as int].id == *header_id
                    && self@.headers.contains_key(*header_id) && self@.headers[*header_id]
                    == self.header_pairs()[i as int].1,
                None => !has_key(self.header_pairs(), *header_id) && !self@.headers.contains_key(
                    *header_id,
                ),
            },
    {
        let mut i: usize = 0;
        while i < self.headers.len()
            invariant
                i <= self.headers.len(),
                self.header_pairs().len() == self.headers@.len(),
                self.wf(),
                forall|k: int| 0 <= k < i ==> (#[trigger] self.header_pairs()[k]).0 != *header_id,
            decreases self.headers.len() - i,
        {
            if self.headers[i].id == *header_id {
                proof {
                    lemma_to_map_index(self.header_pairs(), i as int);
                }
                return Some(i);
            }
            i += 1;
        }
        proof {
            lemma_to_map_domain(self.header_pairs(), *header_id);
        }
        None
    }

    /// The election of `round` with id `election_id`, if a header has opened it.
    pub fn election(&self, round: Round, election_id: &ElectionId) -> (found: Option<&Election>)
        requires
            self.wf(),
        ensures
            match found {
                Some(election) => self@.elections.contains_key((round, *election_id))
                    && election@ == self@.elections[(round, *election_id)] && election.wf(),
                None => !self@.elections.contains_key((round, *election_id)),
            },
    {
        match self.find_election(round, election_id) {
            Some(i) => Some(&self.elections[i].election),
            None => None,
        }
    }

    /// Whether the header with id `header_id` has been seen and every
    /// election of it is decided.
    pub fn header_committed(&self, header_id: &Digest) -> (yes: bool)
        requires
            self.wf(),
        ensures
            yes == (self@.headers.contains_key(*header_id) && self@.headers[*header_id].committed),
    {
        match self.find_header(header_id) {
            Some(i) => self.headers[i].committed,
            None => false,
        }
    }

    /// Whether every election of the header recorded at `at` is decided.
    fn header_decided(&self, at: usize) -> (yes: bool)
        requires
            self.wf(),
            at < self.headers@.len(),
            self@.headers.contains_key(self.headers@[at as int].id),
            self@.headers[self.headers@[at as int].id] == self.header_pairs()[at as int].1,
        ensures
            yes == self@.header_decided(self.headers@[at as int].id),
    {
        let ghost record = self.header_pairs()[at as int].1;
        let mut i: usize = 0;
        while i < self.headers[at].elections.len()
            invariant
                i <= self.headers@[at as int].elections@.len(),
                at < self.headers@.len(),
                self.wf(),
                record == self@.headers[self.headers@[at as int].id],
                record.elections == self.headers@[at as int].elections@,
                record.round == self.headers@[at as int].round,
                forall|k: int|
                    0 <= k < i ==> {
                        let key = (record.round, #[trigger] record.elections[k]);
                        self@.elections.contains_key(key) && self@.elections[key].decided()
                    },
            decreases self.headers@[at as int].elections@.len() - i,
        {
            let id = self.headers[at].elections[i];
            match self.find_election(self.headers[at].round, &id) {
                Some(k) => {
                    if !self.elections[k].election.decided() {
                        assert(record.elections[i as int] == id);
                        return false;
                    }
                },
                None => {
                    assert(record.elections[i as int] == id);
                    return false;
                },
            }
            i += 1;
        }
        true
    }

    /// Concludes the decision of the election `election_id`, reached on a
    /// vote that names the header `header_id`.
    fn conclude(&mut self, election_id: ElectionId, header_id: Digest, actions: &mut Vec<Action>)
        requires
            old(self).wf(),
        ensures
            final(self).wf(),
            final(self)@ == old(self)@.conclude(election_id, header_id).0,
            final(actions)@ == old(actions)@ + old(self)@.conclude(election_id, header_id).1,
    {
        if self.round < Round::MAX {
            self.round = self.round + 1;
        }
        if !holds_id(&self.decided, &election_id) {
            self.decided.push(election_id);
        }
        proof {
            assert(self.election_pairs() =~= old(self).election_pairs());
            assert(self.header_pairs() =~= old(self).header_pairs());
            if !old(self).decided@.contains(election_id) {
                old(self).decided@.lemma_push_to_set_commute(election_id);
            } else {
                assert(old(self).decided@.to_set().insert(election_id) =~= old(self).decided@.to_set());
            }
        }
        actions.push(Action::ResetHeaderTimer);
        match self.find_header(&header_id) {
            Some(at) => {
                if !self.headers[at].committed && self.header_decided(at) {
                    let ghost pairs = self.header_pairs();
                    proof {
                        lemma_to_map_update(
                            pairs,
                            at as int,
                            HeaderRecordView { committed: true, ..pairs[at as int].1 },
                        );
                    }
                    self.headers[at].committed = true;
                    actions.push(Action::HeaderCommitted(header_id));
                    proof {
                        assert(self.election_pairs() =~= old(self).election_pairs());
                        assert(self.header_pairs() =~= pairs.update(
                            at as int,
                            (header_id, HeaderRecordView { committed: true, ..pairs[at as int].1 }),
                        ));
                        assert(actions@ =~= old(actions)@ + seq![
                            Action::ResetHeaderTimer,
                            Action::HeaderCommitted(header_id),
                        ]);
                    }
                } else {
                    assert(actions@ =~= old(actions)@ + seq![Action::ResetHeaderTimer]);
                }
            },
            None => {
                assert(actions@ =~= old(actions)@ + seq![Action::ResetHeaderTimer]);
            },
        }
    }

    /// Handles a vote, the replica's own or a received one. A silent
    /// replica does nothing. A vote whose election no header has opened yet
    /// waits for the header. Else the vote is counted unless the election is
    /// decided, the transition rules are applied, and a decision is
    /// concluded. Returns what the replica is asked to do, in order.
    pub fn process_vote(&mut self, vote: &Vote) -> (actions: Vec<Action>)
        requires
            old(self).wf(),
        ensures
            final(self).wf(),
            (final(self)@, actions@) == old(self)@.process_vote(*vote),
    {
        if self.byzantine {
            return Vec::new();
        }
        match self.find_election(vote.proposal_round, &vote.election_id) {
            None => {
                if !holds_vote(&self.pending_votes, vote) {
                    self.pending_votes.push(*vote);
                    proof {
                        assert(self.election_pairs() =~= old(self).election_pairs());
                        assert(self.header_pairs() =~= old(self).header_pairs());
                    }
                }
                Vec::new()
            },
            Some(at) => {
                let ghost pairs = self.election_pairs();
                let was_decided = self.elections[at].election.decided();
                let mut actions = self.elections[at].election.receive(
                    vote,
                    &self.name,
                    &self.committee,
                );
                proof {
                    let after = self.elections@[at as int].election@;
                    lemma_to_map_update(pairs, at as int, after);
                    assert(self.election_pairs() =~= pairs.update(
                        at as int,
                        ((vote.proposal_round, vote.election_id), after),
                    ));
                    assert(self.header_pairs() =~= old(self).header_pairs());
                }
                if !was_decided && self.elections[at].election.decided() {
                    self.conclude(vote.election_id, vote.header_id, &mut actions);
                }
                actions
            },
        }
    }

    /// Latches the timer of vote round `vote_round` of the election of
    /// `proposal_round` with id `election_id`, if there is such an election
    /// and the replica takes part.
    pub fn expire(&mut self, proposal_round: Round, election_id: &ElectionId, vote_round: Round)
        requires
            old(self).wf(),
        ensures
            final(self).wf(),
            final(self)@ == old(self)@.expire(proposal_round, *election_id, vote_round),
    {
        if self.byzantine {
            return ;
        }
        match self.find_election(proposal_round, election_id) {
            None => {},
            Some(at) => {
                let ghost pairs = self.election_pairs();
                self.elections[at].election.expire(vote_round);
                proof {
                    let after = self.elections@[at as int].election@;
                    lemma_to_map_update(pairs, at as int, after);
                    assert(self.election_pairs() =~= pairs.update(
                        at as int,
                        ((proposal_round, *election_id), after),
                    ));
                    assert(self.header_pairs() =~= old(self).header_pairs());
                }
            },
        }
    }

    /// Records `header` as seen and not committed, in place of an earlier
    /// record of a header with the same id.
    fn record_header(&mut self, header: &Header)
        requires
            old(self).wf(),
        ensures
            final(self).wf(),
            final(self)@ == (ProposerView {
                headers: old(self)@.headers.insert(
                    header@.id,
                    HeaderRecordView {
                        round: header@.round,
                        elections: header@.elections(),
                        committed: false,
                    },
                ),
                ..old(self)@
            }),
    {
        let mut elections: Vec<ElectionId> = Vec::new();
        let mut i: usize = 0;
        while i < header.proposals.len()
            invariant
                i <= header.proposals.len(),
                elections@.len() == i,
                forall|k: int| 0 <= k < i ==> elections@[k] == header.proposals@[k].1,
            decreases header.proposals.len() - i,
        {
            elections.push(header.proposals[i].1);
            i += 1;
        }
        assert(elections@ =~= header@.elections());
        let ghost pairs = self.header_pairs();
        let ghost record = HeaderRecordView {
            round: header@.round,
            elections: header@.elections(),
            committed: false,
        };
        match self.find_header(&header.id) {
            Some(at) => {
                proof {
                    lemma_to_map_update(pairs, at as int, record);
                }
                self.headers[at] = HeaderRecord {
                    id: header.id,
                    round: header.round,
                    elections,
                    committed: false,
                };
                assert(self.header_pairs() =~= pairs.update(at as int, (header.id, record)));
            },
            None => {
                proof {
                    lemma_to_map_push(pairs, header.id, record);
                    lemma_push_distinct(pairs, header.id, record);
                }
                self.headers.push(
                    HeaderRecord { id: header.id, round: header.round, elections, committed: false },
                );
                assert(self.header_pairs() =~= pairs.push((header.id, record)));
            },
        }
        assert(self.election_pairs() =~= old(self).election_pairs());
    }

    /// Drops the waiting proposals for the election `election_id`.
    fn drop_proposals(&mut self, election_id: &ElectionId)
        requires
            old(self).wf(),
        ensures
            final(self).wf(),
            final(self)@ == (ProposerView {
                proposals: old(self)@.proposals.filter(not_for(*election_id)),
                ..old(self)@
            }),
    {
        let ghost keep = not_for(*election_id);
        let ghost all = self.proposals@;
        let mut left: Vec<(TxHash, ElectionId)> = Vec::new();
        let mut i: usize = 0;
        proof {
            crate::assoc::lemma_filter_empty(keep);
            assert(all.take(0) =~= Seq::empty());
        }
        while i < self.proposals.len()
            invariant
                i <= self.proposals.len(),
                all == self.proposals@,
                keep == not_for(*election_id),
                left@ == all.take(i as int).filter(keep),
            decreases self.proposals.len() - i,
        {
            let proposal = self.proposals[i];
            proof {
                lemma_filter_step(all, keep, i as int);
            }
            if proposal.1 != *election_id {
                left.push(proposal);
            }
            i += 1;
        }
        assert(all.take(i as int) =~= all);
        self.proposals = left;
        proof {
            assert(self.election_pairs() =~= old(self).election_pairs());
            assert(self.header_pairs() =~= old(self).header_pairs());
        }
    }

    /// Handles the proposal at `index` of `header`.
    fn open_election(&mut self, header: &Header, index: usize, actions: &mut Vec<Action>)
        requires
            old(self).wf(),
            index < header@.proposals.len(),
        ensures
            final(self).wf(),
            final(self)@ == old(self)@.open_election(header@, index as int).0,
            final(actions)@ == old(actions)@ + old(self)@.open_election(header@, index as int).1,
    {
        let (tx_hash, election_id) = header.proposals[index];
        let proposed = Vote::new(
            0,
            tx_hash,
            election_id,
            header.round,
            false,
            header.author,
            header.id,
        );
        assert(proposed == ProposerView::proposed_vote(header@, index as int));
        let ghost key = (header.round, election_id);
        let at = match self.find_election(header.round, &election_id) {
            Some(at) => at,
            None => {
                let ghost pairs = self.election_pairs();
                let election = Election::new();
                proof {
                    lemma_to_map_push(pairs, key, election@);
                    lemma_push_distinct(pairs, key, election@);
                }
                self.elections.push(ElectionSlot { round: header.round, id: election_id, election });
                if !holds_id(&self.active_elections, &election_id) && !holds_id(
                    &self.decided,
                    &election_id,
                ) {
                    self.active_elections.push(election_id);
                }
                proof {
                    assert(self.election_pairs() =~= pairs.push((key, ElectionView::new())));
                    assert(self.header_pairs() =~= old(self).header_pairs());
                    lemma_to_map_index(self.election_pairs(), self.elections@.len() - 1);
                }
                self.elections.len() - 1
            },
        };
        let ghost pairs = self.election_pairs();
        let was_decided = self.elections[at].election.decided();
        let more = self.elections[at].election.propose(&proposed, &self.name, &self.committee);
        proof {
            let after = self.elections@[at as int].election@;
            lemma_to_map_update(pairs, at as int, after);
            assert(self.election_pairs() =~= pairs.update(at as int, (key, after)));
            assert(self.header_pairs() =~= old(self).header_pairs());
            assert(to_map(pairs).insert(key, after) =~= old(self)@.elections.insert(key, after));
        }
        let now_decided = self.elections[at].election.decided();
        append_all(actions, more.as_slice());
        self.drop_proposals(&election_id);
        if !was_decided && now_decided {
            let ghost opened = self@;
            self.conclude(election_id, header.id, actions);
            proof {
                let last = opened.conclude(election_id, header.id).1;
                assert((old(actions)@ + more@) + last =~= old(actions)@ + (more@ + last));
            }
        }
    }

    /// Takes the votes that wait for a header of `round` out of the waiting
    /// votes.
    fn take_pending(&mut self, round: Round) -> (due: Vec<Vote>)
        requires
            old(self).wf(),
        ensures
            final(self).wf(),
            due@ == old(self)@.pending_votes.filter(is_for(round)),
            final(self)@ == (ProposerView {
                pending_votes: old(self)@.pending_votes.filter(is_not_for(round)),
                ..old(self)@
            }),
    {
        let ghost all = self.pending_votes@;
        let mut due: Vec<Vote> = Vec::new();
        let mut kept: Vec<Vote> = Vec::new();
        let mut i: usize = 0;
        proof {
            crate::assoc::lemma_filter_empty(is_for(round));
            crate::assoc::lemma_filter_empty(is_not_for(round));
            assert(all.take(0) =~= Seq::empty());
        }
        while i < self.pending_votes.len()
            invariant
                i <= self.pending_votes.len(),
                all == self.pending_votes@,
                due@ == all.take(i as int).filter(is_for(round)),
                kept@ == all.take(i as int).filter(is_not_for(round)),
            decreases self.pending_votes.len() - i,
        {
            let vote = self.pending_votes[i];
            proof {
                lemma_filter_step(all, is_for(round), i as int);
                lemma_filter_step(all, is_not_for(round), i as int);
            }
            if vote.proposal_round == round {
                due.push(vote);
            } else {
                kept.push(vote);
            }
            i += 1;
        }
        assert(all.take(i as int) =~= all);
        self.pending_votes = kept;
        proof {
            assert(self.election_pairs() =~= old(self).election_pairs());
            assert(self.header_pairs() =~= old(self).header_pairs());
        }
        due
    }

    /// Handles a header. A silent replica does nothing. Else the header is
    /// recorded; each of its proposals opens its election, in which the
    /// proposer's vote and, for a header of another replica, the replica's
    /// own vote are counted and the transition rules applied; and the votes
    /// that waited for a header of this round are handled in the order in
    /// which they arrived. Returns what the replica is asked to do, in order.
    pub fn process_header(&mut self, header: &Header) -> (actions: Vec<Action>)
        requires
            old(self).wf(),
        ensures
            final(self).wf(),
            (final(self)@, actions@) == old(self)@.process_header(header@),
    {
        let mut actions: Vec<Action> = Vec::new();
        if self.byzantine {
            return actions;
        }
        self.record_header(header);
        let ghost recorded = self@;
        let ghost goal = recorded.open_from(header@, 0);
        let mut i: usize = 0;
        while i < header.proposals.len()
            invariant
                i <= header.proposals.len(),
                self.wf(),
                goal == ({
                    let (last, rest) = self@.open_from(header@, i as int);
                    (last, actions@ + rest)
                }),
            decreases header.proposals.len() - i,
        {
            let ghost before = self@;
            let ghost sofar = actions@;
            self.open_election(header, i, &mut actions);
            proof {
                let first = before.open_election(header@, i as int).1;
                let rest = self@.open_from(header@, i as int + 1).1;
                assert(sofar + (first + rest) =~= (sofar + first) + rest);
            }
            i += 1;
        }
        assert(actions@ =~= actions@ + Seq::<Action>::empty());
        let due = self.take_pending(header.round);
        let ghost drained = self@;
        let ghost opened_actions = actions@;
        let ghost replay_goal = drained.replay_from(due@, 0);
        let mut k: usize = 0;
        while k < due.len()
            invariant
                k <= due.len(),
                self.wf(),
                (replay_goal.0, opened_actions + replay_goal.1) == ({
                    let (last, rest) = self@.replay_from(due@, k as int);
                    (last, actions@ + rest)
                }),
            decreases due.len() - k,
        {
            let ghost sofar = actions@;
            let more = self.process_vote(&due[k]);
            append_all(&mut actions, more.as_slice());
            proof {
                let rest = self@.replay_from(due@, k as int + 1).1;
                assert(sofar + (more@ + rest) =~= (sofar + more@) + rest);
            }
            k += 1;
        }
        assert(actions@ =~= actions@ + Seq::<Action>::empty());
        actions
    }
}

} // verus!

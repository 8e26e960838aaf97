//! A replica votes for and decides only what it has received for the
//! election: a hash that a header proposed for it, or that a vote in it
//! carried.

use crate::agreement::{
    grounded, lemma_propose_grounded, lemma_receive_grounded, lemma_votes_stay_in_election,
};
use crate::election::{Action, ElectionView};
use crate::messages::{HeaderView, Vote};
use crate::proposer::{is_for, is_not_for, HeaderRecordView, ProposerView};
use crate::proposing::{handle, lemma_filter_within, run, ProposerEvent};
use crate::types::{ElectionId, Round, TxHash};
use vstd::prelude::*;

verus! {

/// Whether `event` brings the hash `tx_hash` for the election
/// `election_id` of the round `round`: a header of that round that
/// proposes it, or a vote in that election that carries it.
pub open spec fn brings(event: ProposerEvent, round: Round, election_id: ElectionId, tx_hash: TxHash) -> bool {
    match event {
        ProposerEvent::Header(header) => header.round == round && header.proposals.contains(
            (tx_hash, election_id),
        ),
        ProposerEvent::Vote(vote) => vote.proposal_round == round && vote.election_id
            == election_id && vote.tx_hash == tx_hash,
        _ => false,
    }
}

/// The hashes that a list of events brings for each election.
pub open spec fn received(events: Seq<ProposerEvent>) -> spec_fn((Round, ElectionId)) -> Set<TxHash> {
    |key: (Round, ElectionId)|
        Set::new(
            |tx_hash: TxHash|
                exists|i: int|
                    0 <= i < events.len() && brings(#[trigger] events[i], key.0, key.1, tx_hash),
        )
}

/// Every election holds only hashes of its pool, and every vote that
/// waits carries a hash of the pool of its election.
pub open spec fn held(state: ProposerView, pools: spec_fn((Round, ElectionId)) -> Set<TxHash>) -> bool {
    &&& forall|key: (Round, ElectionId)|
        state.elections.contains_key(key) ==> grounded(#[trigger] state.elections[key], pools(key))
    &&& forall|i: int|
        0 <= i < state.pending_votes.len() ==> pools(
            (
                (#[trigger] state.pending_votes[i]).proposal_round,
                state.pending_votes[i].election_id,
            ),
        ).contains(state.pending_votes[i].tx_hash)
}

/// Every vote that `actions` asks to send carries a hash of the pool of
/// its election.
pub open spec fn sent_within(actions: Seq<Action>, pools: spec_fn((Round, ElectionId)) -> Set<TxHash>) -> bool {
    forall|i: int|
        0 <= i < actions.len() ==> (#[trigger] actions[i] matches Action::SendVote(own) ==> pools(
            (own.proposal_round, own.election_id),
        ).contains(own.tx_hash))
}

/// Handling a vote that carries a hash of the pool of its election keeps
/// the elections within their pools.
pub proof fn lemma_process_vote_held(
    state: ProposerView,
    vote: Vote,
    pools: spec_fn((Round, ElectionId)) -> Set<TxHash>,
)
    requires
        held(state, pools),
        pools((vote.proposal_round, vote.election_id)).contains(vote.tx_hash),
    ensures
        held(state.process_vote(vote).0, pools),
        sent_within(state.process_vote(vote).1, pools),
{
    let key = (vote.proposal_round, vote.election_id);
    if !state.byzantine && state.elections.contains_key(key) {
        let before = state.elections[key];
        lemma_receive_grounded(before, vote, state.name, state.committee, pools(key));
        lemma_votes_stay_in_election(before, vote, state.name, state.committee);
        let (after, actions) = before.receive(vote, state.name, state.committee);
        let counted = ProposerView { elections: state.elections.insert(key, after), ..state };
        assert(held(counted, pools));
        assert(sent_within(actions, pools));
        let (last, all) = state.process_vote(vote);
        assert(held(last, pools));
        assert forall|i: int| 0 <= i < all.len() implies (#[trigger] all[i] matches Action::SendVote(
            own,
        ) ==> pools((own.proposal_round, own.election_id)).contains(own.tx_hash)) by {
            if i < actions.len() {
                assert(all[i] == actions[i]);
            }
        }
    } else if !state.byzantine && !state.pending_votes.contains(vote) {
        let after = state.process_vote(vote).0;
        assert forall|i: int| 0 <= i < after.pending_votes.len() implies pools(
            (
                (#[trigger] after.pending_votes[i]).proposal_round,
                after.pending_votes[i].election_id,
            ),
        ).contains(after.pending_votes[i].tx_hash) by {
            if i < state.pending_votes.len() {
                assert(after.pending_votes[i] == state.pending_votes[i]);
            }
        }
    }
}

/// Handling a proposal of a header whose hash is in the pool of its
/// election keeps the elections within their pools.
pub proof fn lemma_open_election_held(
    state: ProposerView,
    header: HeaderView,
    index: int,
    pools: spec_fn((Round, ElectionId)) -> Set<TxHash>,
)
    requires
        held(state, pools),
        0 <= index < header.proposals.len(),
        pools((header.round, header.proposals[index].1)).contains(header.proposals[index].0),
    ensures
        held(state.open_election(header, index).0, pools),
        sent_within(state.open_election(header, index).1, pools),
{
    let election_id = header.proposals[index].1;
    let key = (header.round, election_id);
    let before = if state.elections.contains_key(key) {
        state.elections[key]
    } else {
        ElectionView::new()
    };
    let proposed = ProposerView::proposed_vote(header, index);
    lemma_propose_grounded(before, proposed, state.name, state.committee, pools(key));
    lemma_votes_stay_in_election(before, proposed, state.name, state.committee);
    let (after, actions) = before.propose(proposed, state.name, state.committee);
    let (last, all) = state.open_election(header, index);
    assert forall|k: (Round, ElectionId)| last.elections.contains_key(k) implies grounded(
        #[trigger] last.elections[k],
        pools(k),
    ) by {
        if k != key {
            assert(state.elections.contains_key(k));
        }
    }
    assert forall|i: int| 0 <= i < all.len() implies (#[trigger] all[i] matches Action::SendVote(
        own,
    ) ==> pools((own.proposal_round, own.election_id)).contains(own.tx_hash)) by {
        if i < actions.len() {
            assert(all[i] == actions[i]);
        }
    }
}

/// Handling the proposals of a header, each with its hash in the pool of
/// its election, keeps the elections within their pools.
pub proof fn lemma_open_from_held(
    state: ProposerView,
    header: HeaderView,
    index: int,
    pools: spec_fn((Round, ElectionId)) -> Set<TxHash>,
)
    requires
        held(state, pools),
        0 <= index,
        forall|k: int|
            0 <= k < header.proposals.len() ==> pools(
                (header.round, (#[trigger] header.proposals[k]).1),
            ).contains(header.proposals[k].0),
    ensures
        held(state.open_from(header, index).0, pools),
        sent_within(state.open_from(header, index).1, pools),
    decreases header.proposals.len() - index,
{
    if index < header.proposals.len() {
        lemma_open_election_held(state, header, index, pools);
        let (next, actions) = state.open_election(header, index);
        lemma_open_from_held(next, header, index + 1, pools);
        let rest = next.open_from(header, index + 1).1;
        let all = actions + rest;
        assert forall|i: int| 0 <= i < all.len() implies (#[trigger] all[i] matches Action::SendVote(
            own,
        ) ==> pools((own.proposal_round, own.election_id)).contains(own.tx_hash)) by {
            if i < actions.len() {
                assert(all[i] == actions[i]);
            } else {
                assert(all[i] == rest[i - actions.len()]);
            }
        }
    }
}

/// Handling a list of votes, each with its hash in the pool of its
/// election, keeps the elections within their pools.
pub proof fn lemma_replay_held(
    state: ProposerView,
    votes: Seq<Vote>,
    index: int,
    pools: spec_fn((Round, ElectionId)) -> Set<TxHash>,
)
    requires
        held(state, pools),
        0 <= index,
        forall|k: int|
            0 <= k < votes.len() ==> pools(
                ((#[trigger] votes[k]).proposal_round, votes[k].election_id),
            ).contains(votes[k].tx_hash),
    ensures
        held(state.replay_from(votes, index).0, pools),
        sent_within(state.replay_from(votes, index).1, pools),
    decreases votes.len() - index,
{
    if index < votes.len() {
        lemma_process_vote_held(state, votes[index], pools);
        let (next, actions) = state.process_vote(votes[index]);
        lemma_replay_held(next, votes, index + 1, pools);
        let rest = next.replay_from(votes, index + 1).1;
        let all = actions + rest;
        assert forall|i: int| 0 <= i < all.len() implies (#[trigger] all[i] matches Action::SendVote(
            own,
        ) ==> pools((own.proposal_round, own.election_id)).contains(own.tx_hash)) by {
            if i < actions.len() {
                assert(all[i] == actions[i]);
            } else {
                assert(all[i] == rest[i - actions.len()]);
            }
        }
    }
}

/// Handling a header, each proposal of which has its hash in the pool of
/// its election, keeps the elections within their pools.
pub proof fn lemma_process_header_held(
    state: ProposerView,
    header: HeaderView,
    pools: spec_fn((Round, ElectionId)) -> Set<TxHash>,
)
    requires
        held(state, pools),
        forall|k: int|
            0 <= k < header.proposals.len() ==> pools(
                (header.round, (#[trigger] header.proposals[k]).1),
            ).contains(header.proposals[k].0),
    ensures
        held(state.process_header(header).0, pools),
        sent_within(state.process_header(header).1, pools),
{
    if !state.byzantine {
        let recorded = ProposerView {
            headers: state.headers.insert(
                header.id,
                HeaderRecordView {
                    round: header.round,
                    elections: header.elections(),
                    committed: false,
                },
            ),
            ..state
        };
        assert(held(recorded, pools));
        lemma_open_from_held(recorded, header, 0, pools);
        let (opened, actions) = recorded.open_from(header, 0);
        let due = opened.pending_votes.filter(is_for(header.round));
        let kept = opened.pending_votes.filter(is_not_for(header.round));
        lemma_filter_within(opened.pending_votes, is_for(header.round));
        lemma_filter_within(opened.pending_votes, is_not_for(header.round));
        let drained = ProposerView { pending_votes: kept, ..opened };
        assert forall|i: int| 0 <= i < kept.len() implies pools(
            ((#[trigger] kept[i]).proposal_round, kept[i].election_id),
        ).contains(kept[i].tx_hash) by {
            assert(opened.pending_votes.contains(kept[i]));
            let j = choose|j: int|
                0 <= j < opened.pending_votes.len() && opened.pending_votes[j] == kept[i];
            assert(opened.pending_votes[j] == kept[i]);
        }
        assert forall|i: int| 0 <= i < due.len() implies pools(
            ((#[trigger] due[i]).proposal_round, due[i].election_id),
        ).contains(due[i].tx_hash) by {
            assert(opened.pending_votes.contains(due[i]));
            let j = choose|j: int|
                0 <= j < opened.pending_votes.len() && opened.pending_votes[j] == due[i];
            assert(opened.pending_votes[j] == due[i]);
        }
        assert(held(drained, pools));
        lemma_replay_held(drained, due, 0, pools);
        let rest = drained.replay_from(due, 0).1;
        let all = actions + rest;
        assert forall|i: int| 0 <= i < all.len() implies (#[trigger] all[i] matches Action::SendVote(
            own,
        ) ==> pools((own.proposal_round, own.election_id)).contains(own.tx_hash)) by {
            if i < actions.len() {
                assert(all[i] == actions[i]);
            } else {
                assert(all[i] == rest[i - actions.len()]);
            }
        }
    }
}

/// Elections that are within smaller pools are within larger ones.
pub proof fn lemma_held_widens(
    state: ProposerView,
    small: spec_fn((Round, ElectionId)) -> Set<TxHash>,
    large: spec_fn((Round, ElectionId)) -> Set<TxHash>,
    actions: Seq<Action>,
)
    requires
        held(state, small),
        sent_within(actions, small),
        forall|key: (Round, ElectionId), x: TxHash|
            small(key).contains(x) ==> #[trigger] large(key).contains(x),
    ensures
        held(state, large),
        sent_within(actions, large),
{
    assert forall|key: (Round, ElectionId)| state.elections.contains_key(key) implies grounded(
        #[trigger] state.elections[key],
        large(key),
    ) by {
        assert(grounded(state.elections[key], small(key)));
    }
}

/// Validity: whatever reaches a proposer that starts with no election and
/// no waiting vote, every hash that one of its elections holds, the
/// decision among them, and every hash that it votes for has reached it
/// before for that election, in a proposal of a header or in a vote.
pub proof fn lemma_decides_what_was_received(start: ProposerView, events: Seq<ProposerEvent>)
    requires
        start.elections == Map::<(Round, ElectionId), ElectionView>::empty(),
        start.pending_votes.len() == 0,
    ensures
        held(run(start, events).0, received(events)),
        sent_within(run(start, events).2, received(events)),
        forall|key: (Round, ElectionId)|
            run(start, events).0.elections.contains_key(key) ==> ((
                #[trigger] run(start, events).0.elections[key]).decision matches Some(x)
                ==> received(events)(key).contains(x)),
    decreases events.len(),
{
    if events.len() > 0 {
        let front = events.drop_last();
        lemma_decides_what_was_received(start, front);
        let (before, made, asked) = run(start, front);
        let event = events.last();
        let last = events.len() - 1;
        assert forall|key: (Round, ElectionId), x: TxHash|
            received(front)(key).contains(x) implies #[trigger] received(events)(key).contains(
            x,
        ) by {
            let i = choose|i: int| 0 <= i < front.len() && brings(#[trigger] front[i], key.0, key.1, x);
            assert(events[i] == front[i]);
        }
        lemma_held_widens(before, received(front), received(events), asked);
        let (after, header, actions) = handle(before, event);
        match event {
            ProposerEvent::Header(arrived) => {
                assert forall|k: int| 0 <= k < arrived.proposals.len() implies received(events)(
                    (arrived.round, (#[trigger] arrived.proposals[k]).1),
                ).contains(arrived.proposals[k].0) by {
                    assert(arrived.proposals.contains(arrived.proposals[k]));
                    assert(brings(
                        events[last],
                        arrived.round,
                        arrived.proposals[k].1,
                        arrived.proposals[k].0,
                    ));
                }
                lemma_process_header_held(before, arrived, received(events));
            },
            ProposerEvent::Vote(vote) => {
                assert(brings(events[last], vote.proposal_round, vote.election_id, vote.tx_hash));
                lemma_process_vote_held(before, vote, received(events));
            },
            ProposerEvent::Expire(proposal_round, election_id, vote_round) => {
                let key = (proposal_round, election_id);
                if before.elections.contains_key(key) {
                    let expired = before.elections[key].expire(vote_round);
                    assert(grounded(before.elections[key], received(events)(key)));
                    assert(grounded(expired, received(events)(key))) by {
                        assert forall|round: Round, author: crate::types::PublicKey|
                            expired.tallies.contains_key(round)
                                && #[trigger] expired.tallies[round].ballots.contains_key(
                                author,
                            ) implies received(events)(key).contains(
                            expired.tallies[round].ballots[author].tx_hash,
                        ) by {
                            assert(before.elections[key].tallies[round].ballots.contains_key(author));
                        }
                    }
                    assert forall|k: (Round, ElectionId)| after.elections.contains_key(
                        k,
                    ) implies grounded(#[trigger] after.elections[k], received(events)(k)) by {
                        if k != key {
                            assert(before.elections.contains_key(k));
                        }
                    }
                }
            },
            _ => {},
        }
        let all = asked + actions;
        assert forall|i: int| 0 <= i < all.len() implies (#[trigger] all[i] matches Action::SendVote(
            own,
        ) ==> received(events)((own.proposal_round, own.election_id)).contains(own.tx_hash)) by {
            if i < asked.len() {
                assert(all[i] == asked[i]);
            } else {
                assert(all[i] == actions[i - asked.len()]);
            }
        }
    }
}

} // verus!

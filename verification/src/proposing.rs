//! What holds of a proposer over any sequence of events: one header per
//! round, each election once in a header, headers made only of what workers
//! have announced, a decision concluded on a quorum of commits, votes that
//! wait for their header handled when it arrives, and a silent replica that
//! stands still.

use crate::election::Action;
use crate::messages::{HeaderView, Vote};
use crate::proposer::{
    is_for, is_not_for, lemma_header_takes_new, not_for, ProposerView,
};
use crate::types::{ElectionId, Round, TxHash};
use vstd::prelude::*;

verus! {

/// What reaches a proposer.
pub enum ProposerEvent {
    /// A worker announces a batch for an election.
    Offer(TxHash, ElectionId),
    /// The header delay has passed.
    Tick,
    /// A header arrives.
    Header(HeaderView),
    /// A vote arrives.
    Vote(Vote),
    /// The timer of a vote round of an election has expired.
    Expire(Round, ElectionId, Round),
}

/// What handling votes and headers leaves as it is: the replica's
/// identity and settings and the rounds of its own headers. The round does
/// not go back, and no proposal is added to those that wait.
pub open spec fn follows(before: ProposerView, after: ProposerView) -> bool {
    &&& after.name == before.name
    &&& after.committee == before.committee
    &&& after.header_size == before.header_size
    &&& after.byzantine == before.byzantine
    &&& after.own_proposals == before.own_proposals
    &&& after.round >= before.round
    &&& forall|p: (TxHash, ElectionId)|
        after.proposals.contains(p) ==> before.proposals.contains(p)
}

/// What one event does, the header that is made, and what the replica is
/// asked to do.
pub open spec fn handle(state: ProposerView, event: ProposerEvent) -> (
    ProposerView,
    Option<HeaderView>,
    Seq<Action>,
) {
    match event {
        ProposerEvent::Offer(tx_hash, election_id) => (
            state.offer(tx_hash, election_id).0,
            state.offer(tx_hash, election_id).1,
            seq![],
        ),
        ProposerEvent::Tick => (state.tick().0, state.tick().1, seq![]),
        ProposerEvent::Header(header) => (
            state.process_header(header).0,
            None,
            state.process_header(header).1,
        ),
        ProposerEvent::Vote(vote) => (state.process_vote(vote).0, None, state.process_vote(vote).1),
        ProposerEvent::Expire(proposal_round, election_id, vote_round) => (
            state.expire(proposal_round, election_id, vote_round),
            None,
            seq![],
        ),
    }
}

/// What a list of events does, the headers that are made on the way, and
/// what the replica is asked to do, in order.
pub open spec fn run(state: ProposerView, events: Seq<ProposerEvent>) -> (
    ProposerView,
    Seq<HeaderView>,
    Seq<Action>,
)
    decreases events.len(),
{
    if events.len() == 0 {
        (state, seq![], seq![])
    } else {
        let (before, made, asked) = run(state, events.drop_last());
        let (after, header, actions) = handle(before, events.last());
        match header {
            Some(header) => (after, made.push(header), asked + actions),
            None => (after, made, asked + actions),
        }
    }
}

/// The proposals that the workers announce in a list of events.
pub open spec fn announced(events: Seq<ProposerEvent>) -> Set<(TxHash, ElectionId)> {
    Set::new(
        |p: (TxHash, ElectionId)|
            exists|i: int|
                0 <= i < events.len() && #[trigger] events[i] == ProposerEvent::Offer(p.0, p.1),
    )
}

/// Handling a vote leaves the replica's settings and own headers as they
/// are.
pub proof fn lemma_process_vote_follows(state: ProposerView, vote: Vote)
    ensures
        follows(state, state.process_vote(vote).0),
{
}

/// What is left after a filter was there before.
pub proof fn lemma_filter_within<A>(s: Seq<A>, pred: spec_fn(A) -> bool)
    ensures
        forall|x: A| s.filter(pred).contains(x) ==> s.contains(x) && pred(x),
        forall|x: A| s.contains(x) && pred(x) ==> s.filter(pred).contains(x),
        forall|i: int|
            0 <= i < s.filter(pred).len() ==> s.contains(#[trigger] s.filter(pred)[i]) && pred(
                s.filter(pred)[i],
            ),
{
    assert forall|i: int| 0 <= i < s.filter(pred).len() implies s.contains(
        #[trigger] s.filter(pred)[i],
    ) && pred(s.filter(pred)[i]) by {
        s.lemma_filter_contains_rev(pred, s.filter(pred)[i]);
        s.lemma_filter_pred(pred, i);
    }
    assert forall|x: A| s.filter(pred).contains(x) implies s.contains(x) && pred(x) by {
        s.lemma_filter_contains_rev(pred, x);
        let i = choose|i: int| 0 <= i < s.filter(pred).len() && s.filter(pred)[i] == x;
        s.lemma_filter_pred(pred, i);
    }
    assert forall|x: A| s.contains(x) && pred(x) implies s.filter(pred).contains(x) by {
        let i = choose|i: int| 0 <= i < s.len() && s[i] == x;
        s.lemma_filter_contains(pred, i);
    }
}

/// Handling one proposal of a header leaves the replica's settings and
/// own headers as they are.
pub proof fn lemma_open_election_follows(state: ProposerView, header: HeaderView, index: int)
    requires
        0 <= index < header.proposals.len(),
    ensures
        follows(state, state.open_election(header, index).0),
{
    lemma_filter_within(state.proposals, not_for(header.proposals[index].1));
}

/// Handling the proposals of a header leaves the replica's settings and
/// own headers as they are.
pub proof fn lemma_open_from_follows(state: ProposerView, header: HeaderView, index: int)
    ensures
        follows(state, state.open_from(header, index).0),
    decreases header.proposals.len() - index,
{
    if 0 <= index < header.proposals.len() {
        lemma_open_election_follows(state, header, index);
        let next = state.open_election(header, index).0;
        lemma_open_from_follows(next, header, index + 1);
    }
}

/// Handling a list of votes leaves the replica's settings and own headers
/// as they are.
pub proof fn lemma_replay_follows(state: ProposerView, votes: Seq<Vote>, index: int)
    ensures
        follows(state, state.replay_from(votes, index).0),
    decreases votes.len() - index,
{
    if 0 <= index < votes.len() {
        lemma_process_vote_follows(state, votes[index]);
        let next = state.process_vote(votes[index]).0;
        lemma_replay_follows(next, votes, index + 1);
    }
}

/// Handling a header leaves the replica's settings and own headers as
/// they are.
pub proof fn lemma_process_header_follows(state: ProposerView, header: HeaderView)
    ensures
        follows(state, state.process_header(header).0),
{
    if !state.byzantine {
        let recorded = ProposerView {
            headers: state.headers.insert(
                header.id,
                crate::proposer::HeaderRecordView {
                    round: header.round,
                    elections: header.elections(),
                    committed: false,
                },
            ),
            ..state
        };
        lemma_open_from_follows(recorded, header, 0);
        let opened = recorded.open_from(header, 0).0;
        let drained = ProposerView {
            pending_votes: opened.pending_votes.filter(is_not_for(header.round)),
            ..opened
        };
        lemma_replay_follows(drained, opened.pending_votes.filter(is_for(header.round)), 0);
    }
}

/// The rounds of the replica's own headers only grow: whatever the event,
/// the rounds recorded before are the first of the rounds recorded after,
/// and a header that is made is of the round that is added.
pub proof fn lemma_own_proposals_monotone(state: ProposerView, event: ProposerEvent)
    ensures
        state.own_proposals.is_prefix_of(handle(state, event).0.own_proposals),
        match handle(state, event).1 {
            Some(header) => {
                &&& handle(state, event).0.own_proposals == state.own_proposals.push(header.round)
                &&& !state.own_proposals.contains(header.round)
                &&& header.author == state.name
            },
            None => handle(state, event).0.own_proposals == state.own_proposals,
        },
        handle(state, event).0.name == state.name,
{
    match event {
        ProposerEvent::Header(header) => {
            lemma_process_header_follows(state, header);
        },
        ProposerEvent::Vote(vote) => {
            lemma_process_vote_follows(state, vote);
        },
        _ => {},
    }
}

/// A silent replica stands still: whatever reaches it, its state stays
/// as it is, it makes no header and it is asked nothing. So a replica that
/// starts silent never holds an election.
pub proof fn lemma_silent_replica_stands_still(start: ProposerView, events: Seq<ProposerEvent>)
    requires
        start.byzantine,
    ensures
        run(start, events) == (start, Seq::<HeaderView>::empty(), Seq::<Action>::empty()),
    decreases events.len(),
{
    if events.len() > 0 {
        lemma_silent_replica_stands_still(start, events.drop_last());
        assert(handle(start, events.last()) == (
            start,
            None::<HeaderView>,
            Seq::<Action>::empty(),
        ));
        assert(Seq::<Action>::empty() + Seq::<Action>::empty() =~= Seq::<Action>::empty());
    }
}

/// The round of a replica never goes back, whatever the event.
pub proof fn lemma_round_never_goes_back(state: ProposerView, event: ProposerEvent)
    ensures
        handle(state, event).0.round >= state.round,
{
    match event {
        ProposerEvent::Header(header) => {
            lemma_process_header_follows(state, header);
        },
        ProposerEvent::Vote(vote) => {
            lemma_process_vote_follows(state, vote);
        },
        _ => {},
    }
}

/// The rounds of a list of headers, in order.
pub open spec fn rounds_of(headers: Seq<HeaderView>) -> Seq<Round> {
    Seq::new(headers.len(), |i: int| headers[i].round)
}

/// What holds of a proposer that has run from the start: the rounds of
/// the headers it has made are the rounds it has recorded, in order, and
/// no round is recorded twice.
pub proof fn lemma_run_records_headers(start: ProposerView, events: Seq<ProposerEvent>)
    requires
        start.own_proposals.len() == 0,
    ensures
        rounds_of(run(start, events).1) == run(start, events).0.own_proposals,
        run(start, events).0.own_proposals.no_duplicates(),
        run(start, events).0.name == start.name,
        forall|i: int|
            0 <= i < run(start, events).1.len() ==> (#[trigger] run(start, events).1[i]).author
                == start.name,
    decreases events.len(),
{
    if events.len() == 0 {
        assert(rounds_of(run(start, events).1) =~= start.own_proposals);
    } else {
        lemma_run_records_headers(start, events.drop_last());
        let (before, made, _) = run(start, events.drop_last());
        lemma_own_proposals_monotone(before, events.last());
        let (after, header, _) = handle(before, events.last());
        match header {
            Some(header) => {
                assert(rounds_of(made.push(header)) =~= rounds_of(made).push(header.round));
                assert forall|i: int, j: int|
                    0 <= i < after.own_proposals.len() && 0 <= j < after.own_proposals.len() && i
                        != j implies after.own_proposals[i] != after.own_proposals[j] by {
                    if i < before.own_proposals.len() {
                        assert(before.own_proposals[i] == after.own_proposals[i]);
                    }
                    if j < before.own_proposals.len() {
                        assert(before.own_proposals[j] == after.own_proposals[j]);
                    }
                }
            },
            None => {},
        }
    }
}

/// One header per round: whatever reaches a proposer, in whatever order,
/// no two of the headers that it makes are of the same round, and all are
/// its own.
pub proof fn lemma_one_header_per_round(start: ProposerView, events: Seq<ProposerEvent>)
    requires
        start.own_proposals.len() == 0,
    ensures
        forall|i: int, j: int|
            0 <= i < j < run(start, events).1.len() ==> run(start, events).1[i].round != run(
                start,
                events,
            ).1[j].round,
        forall|i: int|
            0 <= i < run(start, events).1.len() ==> (#[trigger] run(start, events).1[i]).author
                == start.name,
{
    lemma_run_records_headers(start, events);
    let (last, made, _) = run(start, events);
    assert forall|i: int, j: int| 0 <= i < j < made.len() implies made[i].round
        != made[j].round by {
        assert(rounds_of(made)[i] == made[i].round);
        assert(rounds_of(made)[j] == made[j].round);
    }
}

/// Each election once in a header: whatever reaches a proposer, and in
/// whatever state it starts, every header that it makes names each
/// election in one proposal only.
pub proof fn lemma_headers_name_each_election_once(start: ProposerView, events: Seq<ProposerEvent>)
    ensures
        forall|i: int|
            0 <= i < run(start, events).1.len() ==> (#[trigger] run(
                start,
                events,
            ).1[i]).elections().no_duplicates(),
    decreases events.len(),
{
    if events.len() > 0 {
        lemma_headers_name_each_election_once(start, events.drop_last());
        let (before, made, _) = run(start, events.drop_last());
        match events.last() {
            ProposerEvent::Offer(tx_hash, election_id) => {
                let waiting = if before.byzantine {
                    before
                } else {
                    ProposerView { proposals: before.proposals.push((tx_hash, election_id)), ..before }
                };
                lemma_header_takes_new(waiting);
            },
            ProposerEvent::Tick => {
                lemma_header_takes_new(before);
            },
            _ => {},
        }
        let all = run(start, events).1;
        assert forall|i: int| 0 <= i < all.len() implies (#[trigger] all[i]).elections().no_duplicates() by {
            if i < made.len() {
                assert(all[i] == made[i]);
            }
        }
    }
}

/// Headers hold only what workers have announced: whatever reaches a
/// proposer that starts with no proposal, every proposal in a header that
/// it makes, and every proposal that still waits, was announced by a
/// worker in an earlier event.
pub proof fn lemma_headers_hold_announced(start: ProposerView, events: Seq<ProposerEvent>)
    requires
        start.proposals.len() == 0,
    ensures
        forall|p: (TxHash, ElectionId)|
            run(start, events).0.proposals.contains(p) ==> announced(events).contains(p),
        forall|i: int, k: int|
            0 <= i < run(start, events).1.len() && 0 <= k < run(start, events).1[i].proposals.len()
                ==> announced(events).contains(#[trigger] run(start, events).1[i].proposals[k]),
    decreases events.len(),
{
    if events.len() > 0 {
        let front = events.drop_last();
        lemma_headers_hold_announced(start, front);
        let (before, made, _) = run(start, front);
        let event = events.last();
        let (after, header, _) = handle(before, event);
        assert forall|p: (TxHash, ElectionId)| announced(front).contains(p) implies announced(
            events,
        ).contains(p) by {
            let i = choose|i: int|
                0 <= i < front.len() && #[trigger] front[i] == ProposerEvent::Offer(p.0, p.1);
            assert(events[i] == front[i]);
        }
        match event {
            ProposerEvent::Offer(tx_hash, election_id) => {
                assert(events[events.len() - 1] == ProposerEvent::Offer(tx_hash, election_id));
                assert(announced(events).contains((tx_hash, election_id)));
                let waiting = if before.byzantine {
                    before
                } else {
                    ProposerView { proposals: before.proposals.push((tx_hash, election_id)), ..before }
                };
                assert forall|p: (TxHash, ElectionId)| waiting.proposals.contains(
                    p,
                ) implies announced(events).contains(p) by {
                    let i = choose|i: int| 0 <= i < waiting.proposals.len() && waiting.proposals[i] == p;
                    if i < before.proposals.len() {
                        assert(before.proposals[i] == p);
                        assert(before.proposals.contains(p));
                    }
                }
                lemma_header_takes_new(waiting);
            },
            ProposerEvent::Tick => {
                lemma_header_takes_new(before);
            },
            ProposerEvent::Header(header) => {
                lemma_process_header_follows(before, header);
            },
            ProposerEvent::Vote(vote) => {
                lemma_process_vote_follows(before, vote);
            },
            ProposerEvent::Expire(_, _, _) => {},
        }
        let (last, all, _) = run(start, events);
        assert forall|i: int, k: int|
            0 <= i < all.len() && 0 <= k < all[i].proposals.len() implies announced(events).contains(
            #[trigger] all[i].proposals[k],
        ) by {
            if i < made.len() {
                assert(all[i] == made[i]);
                assert(announced(front).contains(made[i].proposals[k]));
            }
        }
    }
}

/// The state with other votes waiting.
pub open spec fn with_pending(state: ProposerView, pending: Seq<Vote>) -> ProposerView {
    ProposerView { pending_votes: pending, ..state }
}

/// The proposals of a header are handled without regard to the votes that
/// wait.
pub proof fn lemma_open_from_ignores_pending(
    state: ProposerView,
    header: HeaderView,
    index: int,
    pending: Seq<Vote>,
)
    ensures
        with_pending(state, pending).open_from(header, index) == (
            with_pending(state.open_from(header, index).0, pending),
            state.open_from(header, index).1,
        ),
        state.open_from(header, index).0.pending_votes == state.pending_votes,
    decreases header.proposals.len() - index,
{
    if 0 <= index < header.proposals.len() {
        let next = state.open_election(header, index).0;
        assert(with_pending(state, pending).open_election(header, index) == (
            with_pending(next, pending),
            state.open_election(header, index).1,
        ));
        assert(next.pending_votes == state.pending_votes);
        lemma_open_from_ignores_pending(next, header, index + 1, pending);
    } else {
        assert(with_pending(state, pending).open_from(header, index).0 == with_pending(
            state,
            pending,
        ));
    }
}

/// Handling the proposals of a header from `index` on opens an election
/// for each of them and closes none.
pub proof fn lemma_open_from_opens(state: ProposerView, header: HeaderView, index: int)
    requires
        0 <= index,
    ensures
        forall|key: (Round, ElectionId)|
            state.elections.contains_key(key) ==> state.open_from(header, index).0.elections.contains_key(
                key,
            ),
        forall|k: int|
            index <= k < header.proposals.len() ==> state.open_from(
                header,
                index,
            ).0.elections.contains_key((header.round, #[trigger] header.proposals[k].1)),
    decreases header.proposals.len() - index,
{
    if index < header.proposals.len() {
        let next = state.open_election(header, index).0;
        assert(next.elections.contains_key((header.round, header.proposals[index].1)));
        assert forall|key: (Round, ElectionId)| state.elections.contains_key(
            key,
        ) implies next.elections.contains_key(key) by {}
        lemma_open_from_opens(next, header, index + 1);
    }
}

/// A quorum of commits concludes the election: when the vote that a
/// replica that takes part handles completes, in its vote round, a quorum
/// of commits to one hash in an election that is open and not decided, the
/// election is decided for that hash, the replica moves to the next round,
/// the election counts as decided, the header delay is started anew, and no
/// vote is sent.
pub proof fn lemma_commit_quorum_concludes(state: ProposerView, vote: Vote, x: TxHash)
    requires
        !state.byzantine,
        state.elections.contains_key(key_of(vote)),
        !state.elections[key_of(vote)].decided(),
        state.elections[key_of(vote)].insert_vote(vote).tally(vote.round).quorum_of_commits(
            state.committee,
            x,
        ),
    ensures
        state.process_vote(vote).0.elections[key_of(vote)].decision == Some(x),
        state.process_vote(vote).0.round == crate::proposer::next_round(state.round),
        state.process_vote(vote).0.decided == state.decided.insert(vote.election_id),
        state.process_vote(vote).1.contains(Action::ResetHeaderTimer),
        forall|i: int|
            0 <= i < state.process_vote(vote).1.len() ==> !(#[trigger] state.process_vote(vote).1[i]
                is SendVote),
{
    let before = state.elections[key_of(vote)];
    crate::agreement::lemma_commit_quorum_decides_at_once(
        before,
        vote,
        state.name,
        state.committee,
        x,
    );
    let (after, actions) = before.receive(vote, state.name, state.committee);
    let counted = ProposerView { elections: state.elections.insert(key_of(vote), after), ..state };
    let (last, more) = counted.conclude(vote.election_id, vote.header_id);
    let all = actions + more;
    assert(state.process_vote(vote) == (last, all));
    assert(more[0] == Action::ResetHeaderTimer);
    assert(all[actions.len() as int] == Action::ResetHeaderTimer);
    assert forall|i: int| 0 <= i < all.len() implies !(#[trigger] all[i] is SendVote) by {
        if i < actions.len() {
            assert(all[i] == actions[i]);
        } else {
            assert(all[i] == more[i - actions.len()]);
        }
    }
}

/// The election that a vote is cast in: the round of its header and the id.
pub open spec fn key_of(vote: Vote) -> (Round, ElectionId) {
    (vote.proposal_round, vote.election_id)
}

/// Handling a vote opens and closes no election, and leaves waiting
/// exactly the votes that waited, and the vote itself where no election is
/// open for it.
pub proof fn lemma_process_vote_pending(state: ProposerView, vote: Vote)
    requires
        !state.byzantine,
    ensures
        !state.process_vote(vote).0.byzantine,
        forall|key: (Round, ElectionId)|
            state.process_vote(vote).0.elections.contains_key(key) <==> state.elections.contains_key(
                key,
            ),
        forall|other: Vote|
            state.process_vote(vote).0.pending_votes.contains(other) <==> (
            state.pending_votes.contains(other) || (other == vote && !state.elections.contains_key(
                key_of(vote),
            ))),
{
    let next = state.process_vote(vote).0;
    if !state.elections.contains_key(key_of(vote)) && !state.pending_votes.contains(vote) {
        let grown = state.pending_votes.push(vote);
        assert(next.pending_votes == grown);
        assert forall|other: Vote| grown.contains(other) <==> (state.pending_votes.contains(other)
            || other == vote) by {
            if state.pending_votes.contains(other) {
                let i = choose|i: int|
                    0 <= i < state.pending_votes.len() && state.pending_votes[i] == other;
                assert(grown[i] == other);
            }
            if other == vote {
                assert(grown[grown.len() - 1] == vote);
            }
            if grown.contains(other) && other != vote {
                let i = choose|i: int| 0 <= i < grown.len() && grown[i] == other;
                assert(state.pending_votes[i] == other);
            }
        }
    }
}

/// Handling a list of votes opens and closes no election, and leaves
/// waiting exactly the votes that waited and those of the list for which no
/// election is open.
pub proof fn lemma_replay_pending(state: ProposerView, votes: Seq<Vote>, index: int)
    requires
        !state.byzantine,
        0 <= index,
    ensures
        !state.replay_from(votes, index).0.byzantine,
        forall|key: (Round, ElectionId)|
            state.replay_from(votes, index).0.elections.contains_key(key)
                <==> state.elections.contains_key(key),
        forall|other: Vote|
            state.replay_from(votes, index).0.pending_votes.contains(other) <==> (
            state.pending_votes.contains(other) || (exists|k: int|
                index <= k < votes.len() && #[trigger] votes[k] == other
                    && !state.elections.contains_key(key_of(other)))),
    decreases votes.len() - index,
{
    if index < votes.len() {
        lemma_process_vote_pending(state, votes[index]);
        let next = state.process_vote(votes[index]).0;
        lemma_replay_pending(next, votes, index + 1);
        let last = state.replay_from(votes, index).0;
        assert(last == next.replay_from(votes, index + 1).0);
        assert forall|other: Vote| last.pending_votes.contains(other) implies (
        state.pending_votes.contains(other) || (exists|k: int|
            index <= k < votes.len() && #[trigger] votes[k] == other
                && !state.elections.contains_key(key_of(other)))) by {
            if next.pending_votes.contains(other) {
                if !state.pending_votes.contains(other) {
                    assert(index <= index < votes.len() && votes[index] == other
                        && !state.elections.contains_key(key_of(other)));
                }
            } else {
                let k = choose|k: int|
                    index + 1 <= k < votes.len() && #[trigger] votes[k] == other
                        && !next.elections.contains_key(key_of(other));
                assert(index <= k < votes.len() && votes[k] == other
                    && !state.elections.contains_key(key_of(other)));
            }
        }
        assert forall|other: Vote|
            (state.pending_votes.contains(other) || (exists|k: int|
                index <= k < votes.len() && #[trigger] votes[k] == other
                    && !state.elections.contains_key(
                    key_of(other),
                ))) implies last.pending_votes.contains(other) by {
            if state.pending_votes.contains(other) {
                assert(next.pending_votes.contains(other));
            } else {
                let k = choose|k: int|
                    index <= k < votes.len() && #[trigger] votes[k] == other
                        && !state.elections.contains_key(key_of(other));
                if k == index {
                    assert(next.pending_votes.contains(other));
                } else {
                    assert(index + 1 <= k < votes.len() && votes[k] == other
                        && !next.elections.contains_key(key_of(other)));
                }
            }
        }
    }
}

/// A header settles the votes that wait for it: after a replica that
/// takes part has handled a header, every election that the header names
/// is open; no vote waits that did not wait before; no vote that waited is
/// lost, for it still waits or its election is open; and no vote of the
/// round of the header waits while its election is open. So the votes that
/// waited for an election of the header have been handed to that election,
/// and those of the round for elections still unknown wait on.
pub proof fn lemma_header_settles_waiting_votes(state: ProposerView, header: HeaderView)
    requires
        !state.byzantine,
    ensures
        forall|k: int|
            0 <= k < header.proposals.len() ==> state.process_header(header).0.elections.contains_key(
                (header.round, #[trigger] header.proposals[k].1),
            ),
        forall|vote: Vote|
            state.process_header(header).0.pending_votes.contains(vote)
                ==> state.pending_votes.contains(vote),
        forall|vote: Vote|
            state.pending_votes.contains(vote) ==> state.process_header(
                header,
            ).0.pending_votes.contains(vote) || state.process_header(
                header,
            ).0.elections.contains_key(key_of(vote)),
        forall|vote: Vote|
            state.process_header(header).0.pending_votes.contains(vote) && vote.proposal_round
                == header.round ==> !state.process_header(header).0.elections.contains_key(
                key_of(vote),
            ),
{
    let record = crate::proposer::HeaderRecordView {
        round: header.round,
        elections: header.elections(),
        committed: false,
    };
    let recorded = ProposerView { headers: state.headers.insert(header.id, record), ..state };
    lemma_open_from_opens(recorded, header, 0);
    lemma_open_from_follows(recorded, header, 0);
    lemma_open_from_ignores_pending(recorded, header, 0, recorded.pending_votes);
    let opened = recorded.open_from(header, 0).0;
    assert(opened.pending_votes == state.pending_votes);
    let due = opened.pending_votes.filter(is_for(header.round));
    let kept = opened.pending_votes.filter(is_not_for(header.round));
    lemma_filter_within(opened.pending_votes, is_for(header.round));
    lemma_filter_within(opened.pending_votes, is_not_for(header.round));
    let drained = ProposerView { pending_votes: kept, ..opened };
    lemma_replay_pending(drained, due, 0);
    let last = state.process_header(header).0;
    assert(last == drained.replay_from(due, 0).0);
    assert forall|vote: Vote| last.pending_votes.contains(vote) implies state.pending_votes.contains(
        vote,
    ) by {
        if !kept.contains(vote) {
            let k = choose|k: int|
                0 <= k < due.len() && #[trigger] due[k] == vote && !drained.elections.contains_key(
                    key_of(vote),
                );
            assert(due.contains(due[k]));
        }
    }
    assert forall|vote: Vote| state.pending_votes.contains(vote) implies last.pending_votes.contains(
        vote,
    ) || last.elections.contains_key(key_of(vote)) by {
        if vote.proposal_round != header.round {
            assert(is_not_for(header.round)(vote));
            assert(kept.contains(vote));
        } else {
            assert(is_for(header.round)(vote));
            assert(due.contains(vote));
            let k = choose|k: int| 0 <= k < due.len() && due[k] == vote;
            if !drained.elections.contains_key(key_of(vote)) {
                assert(due[k] == vote);
            }
        }
    }
    assert forall|vote: Vote|
        last.pending_votes.contains(vote) && vote.proposal_round
            == header.round implies !last.elections.contains_key(key_of(vote)) by {
        if kept.contains(vote) {
            assert(is_not_for(header.round)(vote));
        }
    }
}

/// Handling a list of votes and then one more is handling the list with
/// that vote at its end.
pub proof fn lemma_replay_push(state: ProposerView, votes: Seq<Vote>, vote: Vote, index: int)
    requires
        0 <= index <= votes.len(),
    ensures
        state.replay_from(votes.push(vote), index) == ({
            let (before, first) = state.replay_from(votes, index);
            let (last, second) = before.process_vote(vote);
            (last, first + second)
        }),
    decreases votes.len() - index,
{
    let more = votes.push(vote);
    if index < votes.len() {
        assert(more[index] == votes[index]);
        let (next, actions) = state.process_vote(votes[index]);
        lemma_replay_push(next, votes, vote, index + 1);
        let (before, rest) = next.replay_from(votes, index + 1);
        let second = before.process_vote(vote).1;
        assert(actions + (rest + second) =~= (actions + rest) + second);
    } else {
        assert(more[index] == vote);
        let (last, second) = state.process_vote(vote);
        assert(last.replay_from(more, index + 1) == (last, Seq::<Action>::empty()));
        assert(second + Seq::<Action>::empty() =~= Seq::<Action>::empty() + second);
    }
}

/// A vote that arrives before the header of its election is handled when
/// the header arrives, as if it had arrived after it: where no election is
/// open for the vote and the vote does not wait already, handling the vote,
/// which only puts it among the waiting votes, and then the header leaves
/// the same state and asks the same of the replica as handling the header
/// and then the vote, whatever other votes wait. If the header names the
/// election of the vote, the vote does not wait afterwards.
pub proof fn lemma_pending_vote_handled_with_header(
    state: ProposerView,
    vote: Vote,
    header: HeaderView,
)
    requires
        !state.elections.contains_key((vote.proposal_round, vote.election_id)),
        vote.proposal_round == header.round,
        !state.pending_votes.contains(vote),
    ensures
        state.process_vote(vote).1 == Seq::<Action>::empty(),
        state.process_vote(vote).0.process_header(header) == ({
            let (opened, first) = state.process_header(header);
            let (last, second) = opened.process_vote(vote);
            (last, first + second)
        }),
        !state.byzantine ==> state.process_vote(vote).0.pending_votes == state.pending_votes.push(
            vote,
        ),
        !state.byzantine && header.elections().contains(vote.election_id)
            ==> !state.process_vote(vote).0.process_header(header).0.pending_votes.contains(vote),
{
    if state.byzantine {
        assert(Seq::<Action>::empty() + Seq::<Action>::empty() =~= Seq::<Action>::empty());
    } else {
        let round = header.round;
        let waiting = state.pending_votes;
        let buffered = state.process_vote(vote).0;
        assert(buffered == with_pending(state, waiting.push(vote)));
        let record = crate::proposer::HeaderRecordView {
            round: header.round,
            elections: header.elections(),
            committed: false,
        };
        let recorded = ProposerView { headers: state.headers.insert(header.id, record), ..state };
        let recorded_late = ProposerView {
            headers: buffered.headers.insert(header.id, record),
            ..buffered
        };
        assert(recorded_late == with_pending(recorded, waiting.push(vote)));
        lemma_open_from_ignores_pending(recorded, header, 0, waiting.push(vote));
        let (opened, actions) = recorded.open_from(header, 0);
        assert(opened.pending_votes == waiting);
        // what is due and what is kept
        let grown = waiting.push(vote);
        crate::assoc::lemma_filter_step(grown, is_for(round), waiting.len() as int);
        crate::assoc::lemma_filter_step(grown, is_not_for(round), waiting.len() as int);
        assert(grown.take(waiting.len() as int) =~= waiting);
        let due = waiting.filter(is_for(round));
        let kept = waiting.filter(is_not_for(round));
        assert(grown.filter(is_for(round)) == due.push(vote));
        assert(grown.filter(is_not_for(round)) == kept);
        let drained = ProposerView { pending_votes: kept, ..opened };
        lemma_replay_push(drained, due, vote, 0);
        let (before, first) = drained.replay_from(due, 0);
        let (last, second) = before.process_vote(vote);
        assert(actions + (first + second) =~= (actions + first) + second);
        assert(state.process_header(header) == (before, actions + first));
        assert(buffered.process_header(header) == (last, actions + (first + second)));
        if header.elections().contains(vote.election_id) {
            let k = choose|k: int|
                0 <= k < header.elections().len() && header.elections()[k] == vote.election_id;
            assert(header.proposals[k].1 == vote.election_id);
            lemma_header_settles_waiting_votes(state, header);
            assert(before.elections.contains_key((header.round, header.proposals[k].1)));
            lemma_process_vote_keeps_pending(before, vote);
        }
    }
}

/// A vote whose election is open leaves the waiting votes as they are.
pub proof fn lemma_process_vote_keeps_pending(state: ProposerView, vote: Vote)
    requires
        state.elections.contains_key((vote.proposal_round, vote.election_id)),
    ensures
        state.process_vote(vote).0.pending_votes == state.pending_votes,
{
}

} // verus!

//! What holds of the decisions of elections: replicas that decide in one
//! vote round decide alike, and in different rounds as long as commits
//! stand; quorums make the replica commit and decide at once, and a round
//! without quorum makes it change its vote; a replica votes for and decides
//! only what it has received, and where each hash comes from; a commit is
//! backed by a vote, and a decision is final.

use crate::committee::CommitteeView;
use crate::election::{Action, ElectionView};
use crate::messages::Vote;
use crate::types::{PublicKey, Round, TxHash};
use vstd::prelude::*;

verus! {

/// Two replicas that decide one election on votes of the same vote round
/// decide the same transaction hash, as long as their tallies of that round
/// show the same ballot for every author that is not faulty and the faulty
/// authors weigh less than the validity threshold.
pub proof fn lemma_decisions_agree_in_round(
    here: ElectionView,
    there: ElectionView,
    committee: CommitteeView,
    faulty: Set<PublicKey>,
    vote_here: Vote,
    vote_there: Vote,
    me_here: PublicKey,
    me_there: PublicKey,
)
    requires
        committee.weight(faulty) < committee.validity(),
        vote_here.round == vote_there.round,
        forall|author: PublicKey|
            !faulty.contains(author) && here.voted_or_committed(author, vote_here.round)
                && there.voted_or_committed(author, vote_here.round) ==> here.tally(
                vote_here.round,
            ).ballots[author] == there.tally(vote_here.round).ballots[author],
        !here.decided(),
        !there.decided(),
        here.step(vote_here, me_here, committee).0.decided(),
        there.step(vote_there, me_there, committee).0.decided(),
    ensures
        here.step(vote_here, me_here, committee).0.decision == there.step(
            vote_there,
            me_there,
            committee,
        ).0.decision,
{
    let round = vote_here.round;
    let x = here.tally(round).winner(committee, true);
    let y = there.tally(round).winner(committee, true);
    lemma_step_decides_on_commit_quorum(here, vote_here, me_here, committee);
    lemma_step_decides_on_commit_quorum(there, vote_there, me_there, committee);
    here.tally(round).lemma_quorums_agree(
        there.tally(round),
        committee,
        faulty,
        x.unwrap(),
        true,
        y.unwrap(),
        true,
    );
}

/// Two replicas that decide one election, in whatever vote rounds, decide
/// the same transaction hash, as long as the authors that are not faulty
/// stand by their commit: every such author that committed to the hash
/// that the first replica decides, in the vote round in which it decides,
/// and has a ballot in the vote round in which the second replica decides,
/// has a ballot for the same hash there. The faulty authors weigh less
/// than the validity threshold.
pub proof fn lemma_decisions_agree_when_commits_stand(
    here: ElectionView,
    there: ElectionView,
    committee: CommitteeView,
    faulty: Set<PublicKey>,
    vote_here: Vote,
    vote_there: Vote,
    me_here: PublicKey,
    me_there: PublicKey,
)
    requires
        committee.weight(faulty) < committee.validity(),
        !here.decided(),
        !there.decided(),
        here.step(vote_here, me_here, committee).0.decision matches Some(x) && forall|
            author: PublicKey,
        |
            !faulty.contains(author) && here.tally(vote_here.round).backers(x, true).contains(
                author,
            ) && there.voted_or_committed(author, vote_there.round) ==> there.tally(
                vote_there.round,
            ).ballots[author].tx_hash == x,
        there.step(vote_there, me_there, committee).0.decided(),
    ensures
        here.step(vote_here, me_here, committee).0.decision == there.step(
            vote_there,
            me_there,
            committee,
        ).0.decision,
{
    let x = here.tally(vote_here.round).winner(committee, true);
    let y = there.tally(vote_there.round).winner(committee, true);
    lemma_step_decides_on_commit_quorum(here, vote_here, me_here, committee);
    lemma_step_decides_on_commit_quorum(there, vote_there, me_there, committee);
    here.tally(vote_here.round).lemma_locked_quorum_excludes_others(
        there.tally(vote_there.round),
        committee,
        faulty,
        x.unwrap(),
        true,
        y.unwrap(),
        true,
    );
}

/// An election is decided by one application of the transition rules
/// exactly when a quorum commits to one hash in the vote round of the
/// vote, and that hash is the decision.
pub proof fn lemma_step_decides_on_commit_quorum(
    election: ElectionView,
    vote: Vote,
    me: PublicKey,
    committee: CommitteeView,
)
    requires
        !election.decided(),
    ensures
        election.step(vote, me, committee).0.decided() <==> exists|x: TxHash|
            election.tally(vote.round).quorum_of_commits(committee, x),
        forall|x: TxHash|
            election.tally(vote.round).quorum_of_commits(committee, x) ==> election.step(
                vote,
                me,
                committee,
            ).0.decision == Some(x),
{
    let tally = election.tally(vote.round);
    assert forall|x: TxHash| tally.quorum_of_commits(committee, x) implies election.step(
        vote,
        me,
        committee,
    ).0.decision == Some(x) by {
        let w = tally.winner(committee, true).unwrap();
        tally.lemma_quorum_unique(committee, x, true, w, true);
    }
    if tally.winner(committee, true) is Some {
        assert(tally.quorum_of_commits(committee, tally.winner(committee, true).unwrap()));
    }
}

/// A quorum of commits decides at once: when the vote that arrives
/// completes, in its vote round, a quorum of commits to one hash, the
/// election is decided for that hash and the replica casts no vote.
pub proof fn lemma_commit_quorum_decides_at_once(
    election: ElectionView,
    vote: Vote,
    me: PublicKey,
    committee: CommitteeView,
    x: TxHash,
)
    requires
        !election.decided(),
        election.insert_vote(vote).tally(vote.round).quorum_of_commits(committee, x),
    ensures
        election.receive(vote, me, committee).0.decision == Some(x),
        election.receive(vote, me, committee).1 == election.opening(vote),
{
    let counted = election.insert_vote(vote);
    lemma_step_decides_on_commit_quorum(counted, vote, me, committee);
    assert(counted.step(vote, me, committee).1 is None);
    assert(election.opening(vote) + Seq::<Action>::empty() =~= election.opening(vote));
}

/// A quorum of votes makes the replica commit: when the vote that arrives
/// completes, in its vote round, a quorum of votes for one hash, no quorum
/// commits in that round, and the replica has no vote in the next round,
/// the first vote that the replica casts is its commit to that hash in the
/// next round.
pub proof fn lemma_vote_quorum_commits(
    election: ElectionView,
    vote: Vote,
    me: PublicKey,
    committee: CommitteeView,
    x: TxHash,
)
    requires
        !election.decided(),
        vote.round < Round::MAX,
        election.insert_vote(vote).tally(vote.round).quorum_of_votes(committee, x),
        !election.insert_vote(vote).voted_or_committed(me, (vote.round + 1) as Round),
    ensures
        election.receive(vote, me, committee).1.len() > election.opening(vote).len(),
        election.receive(vote, me, committee).1[election.opening(vote).len() as int]
            == Action::SendVote(vote.reply((vote.round + 1) as Round, x, true, me)),
        election.receive(vote, me, committee).0.voted_or_committed(
            me,
            (vote.round + 1) as Round,
        ),
{
    let counted = election.insert_vote(vote);
    let tally = counted.tally(vote.round);
    let endorsed = tally.winner(committee, false);
    assert(tally.has_quorum(committee, x, false));
    tally.lemma_quorum_unique(committee, x, false, endorsed.unwrap(), false);
    assert forall|y: TxHash| !tally.has_quorum(committee, y, true) by {
        if tally.has_quorum(committee, y, true) {
            tally.lemma_quorum_unique(committee, x, false, y, true);
        }
    }
    let own = vote.reply((vote.round + 1) as Round, x, true, me);
    let (next, cast) = counted.step(vote, me, committee);
    assert(cast == Some(own));
    let (last, rest) = next.settle(own, me, committee);
    lemma_settle_keeps_voters(next, own, me, committee, me, own.round);
    let all = election.receive(vote, me, committee).1;
    assert(all == election.opening(vote) + (counted.casting(own) + rest));
    assert(all[election.opening(vote).len() as int] == counted.casting(own)[0]);
}

/// The transition rules never take a vote away: who has a vote in a vote
/// round before has one after.
pub proof fn lemma_settle_keeps_voters(
    election: ElectionView,
    vote: Vote,
    me: PublicKey,
    committee: CommitteeView,
    author: PublicKey,
    round: Round,
)
    requires
        election.voted_or_committed(author, round),
    ensures
        election.settle(vote, me, committee).0.voted_or_committed(author, round),
    decreases Round::MAX - vote.round, if election.voted_or_committed(me, vote.round) {
        0nat
    } else {
        1nat
    },
{
    let (next, cast) = election.step(vote, me, committee);
    match cast {
        Some(own) => {
            assert(next.voted_or_committed(author, round));
            lemma_settle_keeps_voters(next, own, me, committee, author, round);
        },
        None => {},
    }
}

/// A round without quorum makes the replica change its vote: when the
/// vote that arrives leaves its vote round without a quorum of votes or of
/// commits, and the replica is to change its vote, the first vote that the
/// replica casts is in the next round, for what it has committed to or
/// else the highest hash it has seen, with commit exactly if it has
/// committed. If the next round has no vote yet, the replica's stake is no
/// quorum and the committee has stake, this is the only vote that it casts,
/// and the vote is counted.
pub proof fn lemma_split_round_changes_vote(
    election: ElectionView,
    vote: Vote,
    me: PublicKey,
    committee: CommitteeView,
)
    requires
        !election.decided(),
        election.insert_vote(vote).tally(vote.round).winner(committee, true) is None,
        election.insert_vote(vote).tally(vote.round).winner(committee, false) is None,
        election.insert_vote(vote).may_change(vote.round, me, committee),
    ensures
        election.receive(vote, me, committee).1.len() > election.opening(vote).len(),
        election.receive(vote, me, committee).1[election.opening(vote).len() as int]
            == Action::SendVote(
            vote.reply(
                (vote.round + 1) as Round,
                election.insert_vote(vote).preferred(vote.tx_hash),
                election.commit is Some,
                me,
            ),
        ),
        !election.insert_vote(vote).tallies.contains_key((vote.round + 1) as Round)
            && committee.stake_of(me) < committee.quorum() && committee.total() > 0 ==> {
            let own = vote.reply(
                (vote.round + 1) as Round,
                election.insert_vote(vote).preferred(vote.tx_hash),
                election.commit is Some,
                me,
            );
            &&& election.receive(vote, me, committee).0 == election.insert_vote(vote).insert_vote(
                own,
            )
            &&& election.receive(vote, me, committee).1 == election.opening(vote) + seq![
                Action::SendVote(own),
                Action::StartTimer {
                    proposal_round: vote.proposal_round,
                    election_id: vote.election_id,
                    vote_round: own.round,
                },
            ]
        },
{
    let counted = election.insert_vote(vote);
    let own = vote.reply(
        (vote.round + 1) as Round,
        counted.preferred(vote.tx_hash),
        election.commit is Some,
        me,
    );
    let (next, cast) = counted.step(vote, me, committee);
    assert(cast == Some(own));
    assert(next == counted.insert_vote(own));
    let (last, rest) = next.settle(own, me, committee);
    let all = election.receive(vote, me, committee).1;
    assert(all == election.opening(vote) + (counted.casting(own) + rest));
    assert(all[election.opening(vote).len() as int] == counted.casting(own)[0]);
    if !counted.tallies.contains_key((vote.round + 1) as Round) && committee.stake_of(me)
        < committee.quorum() && committee.total() > 0 {
        let tally = next.tally(own.round);
        assert(tally.voters() =~= set![me]);
        assert forall|x: TxHash, commit: bool| !tally.has_quorum(committee, x, commit) by {
            committee.lemma_weight_monotone(tally.backers(x, commit), set![me]);
        }
        committee.lemma_thresholds();
        assert(next.step(own, me, committee) == (next, None::<Vote>));
        assert(rest == Seq::<Action>::empty());
        assert(all =~= election.opening(vote) + seq![
            Action::SendVote(own),
            Action::StartTimer {
                proposal_round: vote.proposal_round,
                election_id: vote.election_id,
                vote_round: own.round,
            },
        ]);
    }
}

/// The hashes that an election holds: the hashes of its ballots, the
/// highest hash seen, the commit and the decision.
pub open spec fn held_by(election: ElectionView) -> Set<TxHash> {
    Set::new(
        |x: TxHash|
            {
                ||| election.highest == Some(x)
                ||| election.commit == Some(x)
                ||| election.decision == Some(x)
                ||| exists|round: Round, author: PublicKey|
                    election.tallies.contains_key(round) && #[trigger] election.tallies[round].ballots.contains_key(
                        author,
                    ) && election.tallies[round].ballots[author].tx_hash == x
            },
    )
}

/// Where the hash of a single application of the rules comes from: a
/// decision is the hash with a quorum of commits in the vote round of the
/// vote; a vote that the replica casts is for the hash with a quorum of
/// votes in that round, or for what the replica has committed to, or for
/// the highest hash it has seen, or for the hash of the vote.
pub proof fn lemma_step_sources(
    election: ElectionView,
    vote: Vote,
    me: PublicKey,
    committee: CommitteeView,
)
    requires
        !election.decided(),
    ensures
        election.step(vote, me, committee).0.decision matches Some(x) ==> election.tally(
            vote.round,
        ).quorum_of_commits(committee, x),
        election.step(vote, me, committee).1 matches Some(own) ==> {
            ||| election.tally(vote.round).quorum_of_votes(committee, own.tx_hash)
            ||| election.commit == Some(own.tx_hash)
            ||| election.highest == Some(own.tx_hash)
            ||| own.tx_hash == vote.tx_hash
        },
{
    let tally = election.tally(vote.round);
    if tally.winner(committee, true) is Some {
        assert(tally.has_quorum(committee, tally.winner(committee, true).unwrap(), true));
    }
    if tally.winner(committee, false) is Some {
        assert(tally.has_quorum(committee, tally.winner(committee, false).unwrap(), false));
    }
}

/// Where the hashes of a vote's handling come from: whatever the election
/// decides and whatever the replica votes for while it handles a vote is a
/// hash that the election held before, in a ballot, as its highest hash or
/// as its commit, or the hash of the vote itself.
pub proof fn lemma_receive_sources(
    election: ElectionView,
    vote: Vote,
    me: PublicKey,
    committee: CommitteeView,
)
    ensures
        grounded(
            election.receive(vote, me, committee).0,
            held_by(election).insert(vote.tx_hash),
        ),
        votes_grounded(
            election.receive(vote, me, committee).1,
            held_by(election).insert(vote.tx_hash),
        ),
        grounded(
            election.propose(vote, me, committee).0,
            held_by(election).insert(vote.tx_hash),
        ),
        votes_grounded(
            election.propose(vote, me, committee).1,
            held_by(election).insert(vote.tx_hash),
        ),
{
    let pool = held_by(election).insert(vote.tx_hash);
    assert(grounded(election, pool));
    lemma_receive_grounded(election, vote, me, committee, pool);
    lemma_propose_grounded(election, vote, me, committee, pool);
}

/// Whether every ballot of `before` stands unchanged in `after`.
pub open spec fn ballots_stand(before: ElectionView, after: ElectionView) -> bool {
    forall|round: Round, author: PublicKey| #[trigger]
        before.voted_or_committed(author, round) ==> after.voted_or_committed(author, round)
            && after.tally(round).ballots[author] == before.tally(round).ballots[author]
}

/// Whether a quorum votes for `x` or commits to it in some vote round.
pub open spec fn has_quorum_somewhere(election: ElectionView, committee: CommitteeView, x: TxHash) -> bool {
    exists|round: Round, commit: bool| #[trigger]
        election.tally(round).has_quorum(committee, x, commit)
}

/// Where a hash may come from while the election handles `vote` and ends
/// as `last`: it is the hash of the vote, or what the election had as its
/// highest hash or as its commit before, or a hash for which a quorum
/// stands in some vote round.
pub open spec fn is_origin(
    x: TxHash,
    election: ElectionView,
    vote: Vote,
    last: ElectionView,
    committee: CommitteeView,
) -> bool {
    ||| x == vote.tx_hash
    ||| election.highest == Some(x)
    ||| election.commit == Some(x)
    ||| has_quorum_somewhere(last, committee, x)
}

/// A quorum stands while the ballots stand.
pub proof fn lemma_quorum_stands(
    before: ElectionView,
    after: ElectionView,
    committee: CommitteeView,
    x: TxHash,
)
    requires
        ballots_stand(before, after),
        has_quorum_somewhere(before, committee, x),
    ensures
        has_quorum_somewhere(after, committee, x),
{
    let (round, commit) = choose|round: Round, commit: bool| #[trigger]
        before.tally(round).has_quorum(committee, x, commit);
    assert forall|author: PublicKey|
        before.tally(round).backers(x, commit).contains(author) implies after.tally(round).backers(
        x,
        commit,
    ).contains(author) by {
        assert(before.voted_or_committed(author, round));
    }
    committee.lemma_weight_monotone(
        before.tally(round).backers(x, commit),
        after.tally(round).backers(x, commit),
    );
    assert(after.tally(round).has_quorum(committee, x, commit));
}

/// One application of the transition rules replaces no ballot: the
/// replica votes only where it has no vote yet.
pub proof fn lemma_step_keeps_ballots(
    election: ElectionView,
    vote: Vote,
    me: PublicKey,
    committee: CommitteeView,
)
    ensures
        ballots_stand(election, election.step(vote, me, committee).0),
{
    let next = election.step(vote, me, committee).0;
    assert forall|round: Round, author: PublicKey| #[trigger]
        election.voted_or_committed(author, round) implies next.voted_or_committed(author, round)
        && next.tally(round).ballots[author] == election.tally(round).ballots[author] by {}
}

/// The transition rules, applied until the replica casts no further
/// vote, replace no ballot.
pub proof fn lemma_settle_keeps_ballots(
    election: ElectionView,
    vote: Vote,
    me: PublicKey,
    committee: CommitteeView,
)
    ensures
        ballots_stand(election, election.settle(vote, me, committee).0),
    decreases Round::MAX - vote.round, if election.voted_or_committed(me, vote.round) {
        0nat
    } else {
        1nat
    },
{
    lemma_step_keeps_ballots(election, vote, me, committee);
    let (next, cast) = election.step(vote, me, committee);
    match cast {
        Some(own) => {
            lemma_settle_keeps_ballots(next, own, me, committee);
            let last = next.settle(own, me, committee).0;
            assert forall|round: Round, author: PublicKey| #[trigger]
                election.voted_or_committed(author, round) implies last.voted_or_committed(
                author,
                round,
            ) && last.tally(round).ballots[author] == election.tally(round).ballots[author] by {
                assert(next.voted_or_committed(author, round));
            }
        },
        None => {},
    }
}

/// Where the hashes come from while the rules are applied in turn. Every
/// vote that the replica casts, what it commits to, the highest hash it
/// holds and the decision it reaches are the hash of the vote that set the
/// rules going, or what the election had as its highest hash or as its
/// commit before, or a hash with a quorum in some vote round of the
/// election as it ends. The decision is always a hash with a quorum.
pub proof fn lemma_settle_origins(
    election: ElectionView,
    vote: Vote,
    me: PublicKey,
    committee: CommitteeView,
)
    requires
        !election.decided(),
    ensures
        ({
            let (last, actions) = election.settle(vote, me, committee);
            &&& forall|i: int|
                0 <= i < actions.len() ==> (#[trigger] actions[i] matches Action::SendVote(own)
                    ==> is_origin(own.tx_hash, election, vote, last, committee))
            &&& last.commit matches Some(x) ==> is_origin(x, election, vote, last, committee)
            &&& last.highest matches Some(x) ==> is_origin(x, election, vote, last, committee)
            &&& last.decision matches Some(x) ==> has_quorum_somewhere(last, committee, x)
        }),
    decreases Round::MAX - vote.round, if election.voted_or_committed(me, vote.round) {
        0nat
    } else {
        1nat
    },
{
    let (next, cast) = election.step(vote, me, committee);
    let (last, actions) = election.settle(vote, me, committee);
    let tally = election.tally(vote.round);
    lemma_step_sources(election, vote, me, committee);
    match cast {
        None => {
            if last.decision is Some {
                let x = last.decision.unwrap();
                assert(last.tally(vote.round).has_quorum(committee, x, true));
            }
        },
        Some(own) => {
            assert(!next.decided());
            lemma_settle_origins(next, own, me, committee);
            lemma_step_keeps_ballots(election, vote, me, committee);
            lemma_settle_keeps_ballots(next, own, me, committee);
            let rest = next.settle(own, me, committee).1;
            assert(actions == election.casting(own) + rest);
            assert forall|round: Round, author: PublicKey| #[trigger]
                election.voted_or_committed(author, round) implies last.voted_or_committed(
                author,
                round,
            ) && last.tally(round).ballots[author] == election.tally(round).ballots[author] by {
                assert(next.voted_or_committed(author, round));
            }
            // a hash with a quorum before any vote was cast has one at the end
            assert forall|x: TxHash| tally.has_quorum(committee, x, false) implies has_quorum_somewhere(
                last,
                committee,
                x,
            ) by {
                assert(election.tally(vote.round).has_quorum(committee, x, false));
                lemma_quorum_stands(election, last, committee, x);
            }
            if tally.winner(committee, false) is Some {
                assert(tally.has_quorum(committee, tally.winner(committee, false).unwrap(), false));
            }
            assert(is_origin(own.tx_hash, election, vote, last, committee));
            // what came from the replica's own vote came from where that vote came from
            assert forall|x: TxHash|
                is_origin(x, next, own, last, committee) implies is_origin(
                x,
                election,
                vote,
                last,
                committee,
            ) by {
                if next.highest == Some(x) && x != own.tx_hash {
                    assert(election.highest == Some(x));
                }
            }
            assert forall|i: int| 0 <= i < actions.len() implies (#[trigger] actions[i] matches Action::SendVote(
                w,
            ) ==> is_origin(w.tx_hash, election, vote, last, committee)) by {
                let first = election.casting(own);
                if i < first.len() {
                    assert(actions[i] == first[i]);
                } else {
                    assert(actions[i] == rest[i - first.len()]);
                }
            }
        },
    }
}

/// Where the hashes of a call come from: while an election that is not
/// decided handles a vote, every vote that the replica casts and the
/// decision it reaches are the hash of that vote, or what the election had
/// as its highest hash or as its commit before, or a hash for which a
/// quorum stands in some vote round when the call ends; and the decision
/// is a hash with such a quorum.
pub proof fn lemma_receive_origins(
    election: ElectionView,
    vote: Vote,
    me: PublicKey,
    committee: CommitteeView,
)
    requires
        !election.decided(),
    ensures
        ({
            let (last, actions) = election.receive(vote, me, committee);
            &&& forall|i: int|
                0 <= i < actions.len() ==> (#[trigger] actions[i] matches Action::SendVote(own)
                    ==> is_origin(own.tx_hash, election, vote, last, committee))
            &&& last.decision matches Some(x) ==> has_quorum_somewhere(last, committee, x)
        }),
{
    let counted = election.insert_vote(vote);
    lemma_settle_origins(counted, vote, me, committee);
    let (last, rest) = counted.settle(vote, me, committee);
    let actions = election.receive(vote, me, committee).1;
    assert(actions == election.opening(vote) + rest);
    assert forall|x: TxHash| is_origin(x, counted, vote, last, committee) implies is_origin(
        x,
        election,
        vote,
        last,
        committee,
    ) by {
        if counted.highest == Some(x) && x != vote.tx_hash {
            assert(election.highest == Some(x));
        }
    }
    assert forall|i: int| 0 <= i < actions.len() implies (#[trigger] actions[i] matches Action::SendVote(
        own,
    ) ==> is_origin(own.tx_hash, election, vote, last, committee)) by {
        let first = election.opening(vote);
        if i < first.len() {
            assert(actions[i] == first[i]);
        } else {
            assert(actions[i] == rest[i - first.len()]);
        }
    }
}

/// Every hash that the election holds is in `pool`: the hashes of all
/// ballots, the highest-ranked hash, the commit and the decision.
pub open spec fn grounded(election: ElectionView, pool: Set<TxHash>) -> bool {
    &&& forall|round: Round, author: PublicKey|
        election.tallies.contains_key(round) && #[trigger] election.tallies[round].ballots.contains_key(
            author,
        ) ==> pool.contains(election.tallies[round].ballots[author].tx_hash)
    &&& election.highest matches Some(x) ==> pool.contains(x)
    &&& election.commit matches Some(x) ==> pool.contains(x)
    &&& election.decision matches Some(x) ==> pool.contains(x)
}

/// Every vote that `actions` asks to send is for a hash in `pool`.
pub open spec fn votes_grounded(actions: Seq<Action>, pool: Set<TxHash>) -> bool {
    forall|i: int|
        0 <= i < actions.len() ==> (#[trigger] actions[i] matches Action::SendVote(own)
            ==> pool.contains(own.tx_hash))
}

/// Counting a vote for a hash of the pool keeps the election in the pool.
pub proof fn lemma_insert_grounded(election: ElectionView, vote: Vote, pool: Set<TxHash>)
    requires
        grounded(election, pool),
        pool.contains(vote.tx_hash),
    ensures
        grounded(election.insert_vote(vote), pool),
{
    let after = election.insert_vote(vote);
    assert forall|round: Round, author: PublicKey|
        after.tallies.contains_key(round) && #[trigger] after.tallies[round].ballots.contains_key(
            author,
        ) implies pool.contains(after.tallies[round].ballots[author].tx_hash) by {
        if round == vote.round && author != vote.author {
            assert(election.tally(round).ballots.contains_key(author));
            assert(election.tallies.contains_key(round));
            assert(election.tallies[round].ballots.contains_key(author));
        } else if round != vote.round {
            assert(election.tallies[round].ballots.contains_key(author));
        }
    }
}

/// A hash that has a quorum in a tally of the election is in the pool.
pub proof fn lemma_winner_grounded(
    election: ElectionView,
    round: Round,
    committee: CommitteeView,
    commit: bool,
    pool: Set<TxHash>,
)
    requires
        grounded(election, pool),
    ensures
        election.tally(round).winner(committee, commit) matches Some(x) ==> pool.contains(x),
{
    let tally = election.tally(round);
    if tally.winner(committee, commit) is Some {
        let x = tally.winner(committee, commit).unwrap();
        assert(tally.has_quorum(committee, x, commit));
        let name = committee.lemma_weight_has_member(tally.backers(x, commit));
        assert(tally.ballots.contains_key(name));
        assert(election.tallies.contains_key(round));
        assert(election.tallies[round].ballots.contains_key(name));
    }
}

/// One application of the transition rules keeps the election in the pool,
/// and the vote that the replica casts is for a hash of the pool.
pub proof fn lemma_step_grounded(
    election: ElectionView,
    vote: Vote,
    me: PublicKey,
    committee: CommitteeView,
    pool: Set<TxHash>,
)
    requires
        grounded(election, pool),
        pool.contains(vote.tx_hash),
    ensures
        grounded(election.step(vote, me, committee).0, pool),
        election.step(vote, me, committee).1 matches Some(own) ==> pool.contains(own.tx_hash),
{
    lemma_winner_grounded(election, vote.round, committee, true, pool);
    lemma_winner_grounded(election, vote.round, committee, false, pool);
    let (next, cast) = election.step(vote, me, committee);
    match cast {
        Some(own) => {
            let endorsed = election.tally(vote.round).winner(committee, false);
            if election.tally(vote.round).winner(committee, true) is None && election.may_commit(
                vote.round,
                me,
                committee,
            ) {
                let committed = ElectionView {
                    commit: endorsed,
                    proof_round: Some(vote.round),
                    ..election
                };
                assert(grounded(committed, pool));
                lemma_insert_grounded(committed, own, pool);
            } else {
                lemma_insert_grounded(election, own, pool);
            }
        },
        None => {},
    }
}

/// The transition rules, applied until the replica casts no further vote,
/// keep the election in the pool, and every vote that the replica casts is
/// for a hash of the pool.
pub proof fn lemma_settle_grounded(
    election: ElectionView,
    vote: Vote,
    me: PublicKey,
    committee: CommitteeView,
    pool: Set<TxHash>,
)
    requires
        grounded(election, pool),
        pool.contains(vote.tx_hash),
    ensures
        grounded(election.settle(vote, me, committee).0, pool),
        votes_grounded(election.settle(vote, me, committee).1, pool),
    decreases Round::MAX - vote.round, if election.voted_or_committed(me, vote.round) {
        0nat
    } else {
        1nat
    },
{
    lemma_step_grounded(election, vote, me, committee, pool);
    let (next, cast) = election.step(vote, me, committee);
    match cast {
        Some(own) => {
            lemma_settle_grounded(next, own, me, committee, pool);
        },
        None => {},
    }
}

/// A replica votes for and decides only what it has received: if every
/// hash that the election holds is in a pool, and so is the hash of the
/// vote that arrives, then after the vote has been handled every hash that
/// the election holds, its decision among them, is in the pool, and so is
/// the hash of every vote that the replica casts.
pub proof fn lemma_receive_grounded(
    election: ElectionView,
    vote: Vote,
    me: PublicKey,
    committee: CommitteeView,
    pool: Set<TxHash>,
)
    requires
        grounded(election, pool),
        pool.contains(vote.tx_hash),
    ensures
        grounded(election.receive(vote, me, committee).0, pool),
        votes_grounded(election.receive(vote, me, committee).1, pool),
{
    if !election.decided() {
        lemma_insert_grounded(election, vote, pool);
        lemma_settle_grounded(election.insert_vote(vote), vote, me, committee, pool);
    }
}

/// The same of a proposal: the election holds, and the replica votes for,
/// only the proposed hash and what the election held before.
pub proof fn lemma_propose_grounded(
    election: ElectionView,
    proposed: Vote,
    me: PublicKey,
    committee: CommitteeView,
    pool: Set<TxHash>,
)
    requires
        grounded(election, pool),
        pool.contains(proposed.tx_hash),
    ensures
        grounded(election.propose(proposed, me, committee).0, pool),
        votes_grounded(election.propose(proposed, me, committee).1, pool),
{
    if !election.decided() {
        lemma_insert_grounded(election, proposed, pool);
        if proposed.author == me {
            lemma_settle_grounded(election.insert_vote(proposed), proposed, me, committee, pool);
        } else {
            let own = Vote { author: me, ..proposed };
            lemma_insert_grounded(election.insert_vote(proposed), own, pool);
            lemma_settle_grounded(
                election.insert_vote(proposed).insert_vote(own),
                own,
                me,
                committee,
                pool,
            );
        }
    }
}

/// A replica whose own stake is a quorum decides its own proposal at once:
/// its vote is a quorum of votes, its commit a quorum of commits. So it is
/// in a committee of one.
pub proof fn lemma_sole_quorum_decides_at_once(
    proposed: Vote,
    me: PublicKey,
    committee: CommitteeView,
)
    requires
        committee.stake_of(me) >= committee.quorum(),
        proposed.author == me,
        proposed.round < Round::MAX,
        !proposed.commit,
    ensures
        ElectionView::new().propose(proposed, me, committee).0.decision == Some(proposed.tx_hash),
{
    let t = proposed.tx_hash;
    let round = proposed.round;
    let first = ElectionView::new().insert_vote(proposed);
    let tally = first.tally(round);
    assert(tally.backers(t, false) =~= set![me]);
    assert(tally.has_quorum(committee, t, false));
    assert forall|x: TxHash| !tally.has_quorum(committee, x, true) by {
        assert(tally.backers(x, true) =~= Set::empty());
        committee.lemma_weight_empty();
    }
    let endorsed = tally.winner(committee, false);
    tally.lemma_quorum_unique(committee, t, false, endorsed.unwrap(), false);
    assert(!first.tallies.contains_key((round + 1) as Round));
    assert(first.may_commit(round, me, committee));
    let own = proposed.reply((round + 1) as Round, t, true, me);
    let (second, cast) = first.step(proposed, me, committee);
    assert(cast == Some(own));
    let next = second.tally(own.round);
    assert(next.backers(t, true) =~= set![me]);
    assert(next.has_quorum(committee, t, true));
    let committed = next.winner(committee, true);
    next.lemma_quorum_unique(committee, t, true, committed.unwrap(), true);
    let (third, none) = second.step(own, me, committee);
    assert(third.decision == Some(t));
    assert(none is None);
    assert(second.settle(own, me, committee).0 == third);
    assert(first.settle(proposed, me, committee).0 == third);
}

/// What a replica has committed to, it has voted for: if the election
/// holds a commit, it holds the vote round of the quorum that the replica
/// committed on, and the replica has a vote in the round after it.
pub open spec fn commit_backed(election: ElectionView, me: PublicKey) -> bool {
    election.commit is Some ==> (election.proof_round matches Some(round) && round < Round::MAX
        && election.voted_or_committed(me, (round + 1) as Round))
}

/// Counting a vote keeps every vote that was counted before.
pub proof fn lemma_insert_keeps_voters(election: ElectionView, vote: Vote)
    ensures
        forall|author: PublicKey, round: Round|
            election.voted_or_committed(author, round) ==> #[trigger] election.insert_vote(
                vote,
            ).voted_or_committed(author, round),
        election.insert_vote(vote).voted_or_committed(vote.author, vote.round),
        election.insert_vote(vote).commit == election.commit,
        election.insert_vote(vote).proof_round == election.proof_round,
        election.insert_vote(vote).decision == election.decision,
{
}

/// One application of the transition rules keeps the commit backed.
pub proof fn lemma_step_keeps_commit_backed(
    election: ElectionView,
    vote: Vote,
    me: PublicKey,
    committee: CommitteeView,
)
    requires
        commit_backed(election, me),
    ensures
        commit_backed(election.step(vote, me, committee).0, me),
{
    let (next, cast) = election.step(vote, me, committee);
    match cast {
        Some(own) => {
            if election.tally(vote.round).winner(committee, true) is None && election.may_commit(
                vote.round,
                me,
                committee,
            ) {
                let committed = ElectionView {
                    commit: election.tally(vote.round).winner(committee, false),
                    proof_round: Some(vote.round),
                    ..election
                };
                lemma_insert_keeps_voters(committed, own);
            } else {
                lemma_insert_keeps_voters(election, own);
            }
        },
        None => {},
    }
}

/// The transition rules, applied until the replica casts no further vote,
/// keep the commit backed.
pub proof fn lemma_settle_keeps_commit_backed(
    election: ElectionView,
    vote: Vote,
    me: PublicKey,
    committee: CommitteeView,
)
    requires
        commit_backed(election, me),
    ensures
        commit_backed(election.settle(vote, me, committee).0, me),
    decreases Round::MAX - vote.round, if election.voted_or_committed(me, vote.round) {
        0nat
    } else {
        1nat
    },
{
    lemma_step_keeps_commit_backed(election, vote, me, committee);
    let (next, cast) = election.step(vote, me, committee);
    match cast {
        Some(own) => {
            lemma_settle_keeps_commit_backed(next, own, me, committee);
        },
        None => {},
    }
}

/// A commit is always backed by a vote of the replica: what holds of a new
/// election holds after every vote, every proposal and every expiry that
/// the election handles for the replica `me`.
pub proof fn lemma_commit_backed(
    election: ElectionView,
    vote: Vote,
    me: PublicKey,
    committee: CommitteeView,
    round: Round,
)
    requires
        commit_backed(election, me),
    ensures
        commit_backed(ElectionView::new(), me),
        commit_backed(election.receive(vote, me, committee).0, me),
        commit_backed(election.propose(vote, me, committee).0, me),
        commit_backed(election.expire(round), me),
{
    if !election.decided() {
        lemma_insert_keeps_voters(election, vote);
        lemma_settle_keeps_commit_backed(election.insert_vote(vote), vote, me, committee);
        let own = Vote { author: me, ..vote };
        lemma_insert_keeps_voters(election.insert_vote(vote), own);
        lemma_settle_keeps_commit_backed(
            election.insert_vote(vote).insert_vote(own),
            own,
            me,
            committee,
        );
    }
    if election.commit is Some {
        let backed = (election.proof_round.unwrap() + 1) as Round;
        assert(election.expire(round).voted_or_committed(me, backed));
    }
}

/// A decision is final: an election that is decided is left as it is by
/// every vote and every proposal, and an expiry does not touch the
/// decision.
pub proof fn lemma_decision_is_final(
    election: ElectionView,
    vote: Vote,
    me: PublicKey,
    committee: CommitteeView,
    round: Round,
)
    requires
        election.decided(),
    ensures
        election.receive(vote, me, committee) == (election, Seq::<Action>::empty()),
        election.propose(vote, me, committee) == (election, Seq::<Action>::empty()),
        election.expire(round).decision == election.decision,
{
}

/// Every vote that `actions` asks to send is a vote in the election
/// `election_id` of the round `proposal_round`.
pub open spec fn votes_in_election(
    actions: Seq<Action>,
    proposal_round: Round,
    election_id: crate::types::ElectionId,
) -> bool {
    forall|i: int|
        0 <= i < actions.len() ==> (#[trigger] actions[i] matches Action::SendVote(own)
            ==> own.proposal_round == proposal_round && own.election_id == election_id)
}

/// The votes that a replica casts in answer to a vote are votes in the
/// election of that vote.
pub proof fn lemma_settle_stays_in_election(
    election: ElectionView,
    vote: Vote,
    me: PublicKey,
    committee: CommitteeView,
)
    ensures
        votes_in_election(
            election.settle(vote, me, committee).1,
            vote.proposal_round,
            vote.election_id,
        ),
    decreases Round::MAX - vote.round, if election.voted_or_committed(me, vote.round) {
        0nat
    } else {
        1nat
    },
{
    let (next, cast) = election.step(vote, me, committee);
    match cast {
        Some(own) => {
            lemma_settle_stays_in_election(next, own, me, committee);
        },
        None => {},
    }
}

/// The votes that a replica casts on a vote or on a proposal are votes in
/// the election of that vote or proposal.
pub proof fn lemma_votes_stay_in_election(
    election: ElectionView,
    vote: Vote,
    me: PublicKey,
    committee: CommitteeView,
)
    ensures
        votes_in_election(
            election.receive(vote, me, committee).1,
            vote.proposal_round,
            vote.election_id,
        ),
        votes_in_election(
            election.propose(vote, me, committee).1,
            vote.proposal_round,
            vote.election_id,
        ),
{
    lemma_settle_stays_in_election(election.insert_vote(vote), vote, me, committee);
    let own = Vote { author: me, ..vote };
    lemma_settle_stays_in_election(
        election.insert_vote(vote).insert_vote(own),
        own,
        me,
        committee,
    );
}

} // verus!

//! The order in which votes are delivered does not matter for what an
//! election has counted, nor for the highest hash that it has seen.

use crate::election::ElectionView;
use crate::messages::Vote;
use crate::tally::Ballot;
use crate::types::{Digest, PublicKey, Round};
use vstd::prelude::*;

verus! {

/// Two votes of one author in one vote round: the later replaces the
/// earlier.
pub open spec fn same_slot(a: Vote, b: Vote) -> bool {
    a.round == b.round && a.author == b.author
}

/// No two votes of the list are of one author in one vote round.
pub open spec fn slots_distinct(votes: Seq<Vote>) -> bool {
    forall|i: int, j: int| 0 <= i < j < votes.len() ==> !same_slot(votes[i], votes[j])
}

/// The election after all votes of the list have been counted, in order.
pub open spec fn count_all(election: ElectionView, votes: Seq<Vote>) -> ElectionView
    decreases votes.len(),
{
    if votes.len() == 0 {
        election
    } else {
        count_all(election, votes.drop_last()).insert_vote(votes.last())
    }
}

/// Two votes that do not replace one another can be counted in either
/// order.
pub proof fn lemma_insert_vote_commutes(election: ElectionView, a: Vote, b: Vote)
    requires
        !same_slot(a, b),
    ensures
        election.insert_vote(a).insert_vote(b) == election.insert_vote(b).insert_vote(a),
{
    let ab = election.insert_vote(a).insert_vote(b);
    let ba = election.insert_vote(b).insert_vote(a);
    assert(ab.tallies =~= ba.tallies) by {
        if a.round == b.round {
            election.tally(a.round).lemma_insert_commutes(
                a.author,
                Ballot { tx_hash: a.tx_hash, commit: a.commit },
                b.author,
                Ballot { tx_hash: b.tx_hash, commit: b.commit },
            );
        }
    }
    assert(ab.highest == ba.highest) by {
        match election.highest {
            Some(h) => {
                Digest::lemma_higher_commutes(h, a.tx_hash, b.tx_hash);
            },
            None => {
                Digest::lemma_order(a.tx_hash, b.tx_hash);
            },
        }
    }
}

/// Of two votes of one author in one vote round the later replaces the
/// earlier in the tallies.
pub proof fn lemma_later_vote_replaces(election: ElectionView, a: Vote, b: Vote)
    requires
        same_slot(a, b),
    ensures
        election.insert_vote(a).insert_vote(b).tallies == election.insert_vote(b).tallies,
{
    election.tally(a.round).lemma_later_ballot_replaces(
        a.author,
        Ballot { tx_hash: a.tx_hash, commit: a.commit },
        Ballot { tx_hash: b.tx_hash, commit: b.commit },
    );
    assert(election.insert_vote(a).insert_vote(b).tallies =~= election.insert_vote(b).tallies);
}

/// Counting the vote at `k` last instead gives the same election.
pub proof fn lemma_move_to_end(election: ElectionView, votes: Seq<Vote>, k: int)
    requires
        slots_distinct(votes),
        0 <= k < votes.len(),
    ensures
        count_all(election, votes) == count_all(election, votes.remove(k)).insert_vote(votes[k]),
    decreases votes.len(),
{
    let last = votes.len() - 1;
    if k == last {
        assert(votes.remove(k) =~= votes.drop_last());
    } else {
        let front = votes.drop_last();
        assert(slots_distinct(front)) by {
            assert forall|i: int, j: int| 0 <= i < j < front.len() implies !same_slot(
                front[i],
                front[j],
            ) by {
                assert(front[i] == votes[i] && front[j] == votes[j]);
            }
        }
        lemma_move_to_end(election, front, k);
        assert(front[k] == votes[k]);
        lemma_insert_vote_commutes(count_all(election, front.remove(k)), votes[k], votes[last]);
        assert(votes.remove(k).drop_last() =~= front.remove(k));
        assert(votes.remove(k).last() == votes[last]);
    }
}

/// Votes delivered out of order are counted as if delivered in order: two
/// lists of the same votes, in which no vote replaces another, leave the
/// same tallies and the same highest-ranked hash, and so show the same
/// quorums.
pub proof fn lemma_order_of_delivery(election: ElectionView, first: Seq<Vote>, second: Seq<Vote>)
    requires
        slots_distinct(first),
        slots_distinct(second),
        forall|vote: Vote| first.contains(vote) <==> second.contains(vote),
    ensures
        count_all(election, first) == count_all(election, second),
    decreases first.len(),
{
    if first.len() == 0 {
        if second.len() > 0 {
            assert(second.contains(second[0]));
            let i = choose|i: int| 0 <= i < first.len() && first[i] == second[0];
        }
    } else {
        let last = first.len() - 1;
        let vote = first[last];
        assert(first.contains(vote));
        let k = choose|k: int| 0 <= k < second.len() && second[k] == vote;
        let front = first.drop_last();
        let rest = second.remove(k);
        assert(slots_distinct(front)) by {
            assert forall|i: int, j: int| 0 <= i < j < front.len() implies !same_slot(
                front[i],
                front[j],
            ) by {
                assert(front[i] == first[i] && front[j] == first[j]);
            }
        }
        assert(forall|i: int| 0 <= i < rest.len() ==> rest[i] == if i < k {
            second[i]
        } else {
            second[i + 1]
        });
        assert(slots_distinct(rest)) by {
            assert forall|i: int, j: int| 0 <= i < j < rest.len() implies !same_slot(
                rest[i],
                rest[j],
            ) by {
                let a = if i < k {
                    i
                } else {
                    i + 1
                };
                let b = if j < k {
                    j
                } else {
                    j + 1
                };
                assert(rest[i] == second[a] && rest[j] == second[b]);
            }
        }
        assert forall|other: Vote| front.contains(other) <==> rest.contains(other) by {
            if front.contains(other) {
                let i = choose|i: int| 0 <= i < front.len() && front[i] == other;
                assert(first[i] == other);
                assert(!same_slot(first[i], first[last]));
                assert(first.contains(other));
                let j = choose|j: int| 0 <= j < second.len() && second[j] == other;
                assert(j != k);
                let at = if j < k {
                    j
                } else {
                    j - 1
                };
                assert(rest[at] == other);
            }
            if rest.contains(other) {
                let i = choose|i: int| 0 <= i < rest.len() && rest[i] == other;
                let at = if i < k {
                    i
                } else {
                    i + 1
                };
                assert(second[at] == other);
                assert(at != k);
                if at < k {
                    assert(!same_slot(second[at], second[k]));
                } else {
                    assert(!same_slot(second[k], second[at]));
                }
                assert(second.contains(other));
                let j = choose|j: int| 0 <= j < first.len() && first[j] == other;
                assert(j != last);
                assert(front[j] == other);
            }
        }
        lemma_order_of_delivery(election, front, rest);
        lemma_move_to_end(election, second, k);
    }
}

/// What a vote puts into a tally.
pub open spec fn ballot_of(vote: Vote) -> Ballot {
    Ballot { tx_hash: vote.tx_hash, commit: vote.commit }
}

/// Whether the ballot of `author` in vote round `round` is in the tallies.
pub open spec fn has_ballot(election: ElectionView, round: Round, author: PublicKey) -> bool {
    election.tallies.contains_key(round) && election.tallies[round].ballots.contains_key(author)
}

/// Whether `top` is the highest-ranked hash of the ballots of the election:
/// one of them, with none ranking above it; none where there is no ballot.
pub open spec fn is_top(election: ElectionView, top: Option<Digest>) -> bool {
    match top {
        Some(x) => {
            &&& exists|round: Round, author: PublicKey| #[trigger]
                has_ballot(election, round, author)
                    && election.tallies[round].ballots[author].tx_hash == x
            &&& forall|round: Round, author: PublicKey| #[trigger]
                has_ballot(election, round, author) ==> !x.ranks_below(
                    &election.tallies[round].ballots[author].tx_hash,
                )
        },
        None => forall|round: Round, author: PublicKey| !#[trigger] has_ballot(
            election,
            round,
            author,
        ),
    }
}

/// Where no vote has been replaced, the tallies hold exactly the votes
/// counted, and the highest hash seen is the highest-ranked hash of the
/// ballots in the tallies.
pub proof fn lemma_highest_is_top(votes: Seq<Vote>)
    requires
        slots_distinct(votes),
    ensures
        is_top(count_all(ElectionView::new(), votes), count_all(ElectionView::new(), votes).highest),
        forall|i: int|
            0 <= i < votes.len() ==> has_ballot(
                count_all(ElectionView::new(), votes),
                (#[trigger] votes[i]).round,
                votes[i].author,
            ) && count_all(
                ElectionView::new(),
                votes,
            ).tallies[votes[i].round].ballots[votes[i].author] == ballot_of(votes[i]),
        forall|round: Round, author: PublicKey| #[trigger]
            has_ballot(count_all(ElectionView::new(), votes), round, author) ==> exists|i: int|
                0 <= i < votes.len() && (#[trigger] votes[i]).round == round && votes[i].author
                    == author,
    decreases votes.len(),
{
    let all = count_all(ElectionView::new(), votes);
    if votes.len() > 0 {
        let front = votes.drop_last();
        let last = votes.last();
        assert(slots_distinct(front)) by {
            assert forall|i: int, j: int| 0 <= i < j < front.len() implies !same_slot(
                front[i],
                front[j],
            ) by {
                assert(front[i] == votes[i] && front[j] == votes[j]);
            }
        }
        lemma_highest_is_top(front);
        let before = count_all(ElectionView::new(), front);
        assert(all == before.insert_vote(last));
        assert(!has_ballot(before, last.round, last.author)) by {
            if has_ballot(before, last.round, last.author) {
                let i = choose|i: int|
                    0 <= i < front.len() && (#[trigger] front[i]).round == last.round
                        && front[i].author == last.author;
                assert(same_slot(votes[i], votes[votes.len() - 1]));
            }
        }
        // every ballot that was there is still there, and the new one is there
        assert forall|round: Round, author: PublicKey| #[trigger]
            has_ballot(before, round, author) implies has_ballot(all, round, author)
            && all.tallies[round].ballots[author] == before.tallies[round].ballots[author] by {}
        assert(has_ballot(all, last.round, last.author));
        assert(all.tallies[last.round].ballots[last.author] == ballot_of(last));
        assert forall|round: Round, author: PublicKey| #[trigger]
            has_ballot(all, round, author) implies has_ballot(before, round, author) || (round
            == last.round && author == last.author) by {}
        assert forall|i: int| 0 <= i < votes.len() implies has_ballot(
            all,
            (#[trigger] votes[i]).round,
            votes[i].author,
        ) && all.tallies[votes[i].round].ballots[votes[i].author] == ballot_of(votes[i]) by {
            if i < front.len() {
                assert(front[i] == votes[i]);
                assert(has_ballot(before, front[i].round, front[i].author));
            }
        }
        assert forall|round: Round, author: PublicKey| #[trigger]
            has_ballot(all, round, author) implies exists|i: int|
            0 <= i < votes.len() && (#[trigger] votes[i]).round == round && votes[i].author
                == author by {
            if has_ballot(before, round, author) {
                let i = choose|i: int|
                    0 <= i < front.len() && (#[trigger] front[i]).round == round
                        && front[i].author == author;
                assert(votes[i].round == round && votes[i].author == author);
            } else {
                assert(votes[votes.len() - 1].round == round);
            }
        }
        // the highest hash
        match before.highest {
            Some(h) => {
                Digest::lemma_order(h, last.tx_hash);
                let top = Digest::higher(h, last.tx_hash);
                let (r0, a0) = choose|round: Round, author: PublicKey| #[trigger]
                    has_ballot(before, round, author)
                        && before.tallies[round].ballots[author].tx_hash == h;
                assert(has_ballot(all, r0, a0));
                assert forall|round: Round, author: PublicKey| #[trigger]
                    has_ballot(all, round, author) implies !top.ranks_below(
                    &all.tallies[round].ballots[author].tx_hash,
                ) by {
                    let x = all.tallies[round].ballots[author].tx_hash;
                    if has_ballot(before, round, author) {
                        assert(!h.ranks_below(&x));
                        Digest::lemma_order(h, x);
                        Digest::lemma_order(top, x);
                        if top.ranks_below(&x) {
                            Digest::lemma_order(x, h);
                            if h != top {
                                crate::types::lemma_lex_transitive(h@, top@, x@);
                            }
                        }
                    } else {
                        Digest::lemma_order(last.tx_hash, top);
                    }
                }
                if top == h {
                    assert(has_ballot(all, r0, a0) && all.tallies[r0].ballots[a0].tx_hash == top);
                } else {
                    assert(has_ballot(all, last.round, last.author)
                        && all.tallies[last.round].ballots[last.author].tx_hash == top);
                }
            },
            None => {
                Digest::lemma_order(last.tx_hash, last.tx_hash);
                assert(has_ballot(all, last.round, last.author)
                    && all.tallies[last.round].ballots[last.author].tx_hash == last.tx_hash);
                assert forall|round: Round, author: PublicKey| #[trigger]
                    has_ballot(all, round, author) implies !last.tx_hash.ranks_below(
                    &all.tallies[round].ballots[author].tx_hash,
                ) by {
                    assert(!has_ballot(before, round, author));
                }
            },
        }
    }
}

/// The highest hash depends on the ballots alone: two replicas that have
/// counted votes, none of them replaced, and hold the same tallies hold the
/// same highest hash, in whatever order and by whatever lists of votes the
/// tallies came about. So they change their vote to the same hash.
pub proof fn lemma_same_tallies_same_highest(here: Seq<Vote>, there: Seq<Vote>)
    requires
        slots_distinct(here),
        slots_distinct(there),
        count_all(ElectionView::new(), here).tallies == count_all(
            ElectionView::new(),
            there,
        ).tallies,
    ensures
        count_all(ElectionView::new(), here).highest == count_all(
            ElectionView::new(),
            there,
        ).highest,
{
    let a = count_all(ElectionView::new(), here);
    let b = count_all(ElectionView::new(), there);
    lemma_highest_is_top(here);
    lemma_highest_is_top(there);
    assert forall|round: Round, author: PublicKey| has_ballot(a, round, author) == has_ballot(
        b,
        round,
        author,
    ) by {}
    match (a.highest, b.highest) {
        (Some(x), Some(y)) => {
            let (r0, a0) = choose|round: Round, author: PublicKey| #[trigger]
                has_ballot(a, round, author) && a.tallies[round].ballots[author].tx_hash == x;
            let (r1, a1) = choose|round: Round, author: PublicKey| #[trigger]
                has_ballot(b, round, author) && b.tallies[round].ballots[author].tx_hash == y;
            assert(has_ballot(b, r0, a0));
            assert(has_ballot(a, r1, a1));
            assert(!y.ranks_below(&x));
            assert(!x.ranks_below(&y));
            Digest::lemma_order(x, y);
        },
        (Some(x), None) => {
            let (r0, a0) = choose|round: Round, author: PublicKey| #[trigger]
                has_ballot(a, round, author) && a.tallies[round].ballots[author].tx_hash == x;
            assert(has_ballot(b, r0, a0));
        },
        (None, Some(y)) => {
            let (r1, a1) = choose|round: Round, author: PublicKey| #[trigger]
                has_ballot(b, round, author) && b.tallies[round].ballots[author].tx_hash == y;
            assert(has_ballot(a, r1, a1));
        },
        (None, None) => {},
    }
}

/// Two replicas change their vote alike: where two replicas have counted
/// votes, none of them replaced, hold the same tallies and have committed
/// to nothing, the vote that each casts first when a round without quorum
/// makes it change its vote is for the same hash, the highest-ranked of the
/// ballots and of the vote that arrived.
pub proof fn lemma_vote_change_agrees(
    here: Seq<Vote>,
    there: Seq<Vote>,
    vote_here: Vote,
    vote_there: Vote,
    me_here: PublicKey,
    me_there: PublicKey,
    committee: crate::committee::CommitteeView,
)
    requires
        slots_distinct(here),
        slots_distinct(there),
        count_all(ElectionView::new(), here).tallies == count_all(
            ElectionView::new(),
            there,
        ).tallies,
        vote_here.tx_hash == vote_there.tx_hash,
        count_all(ElectionView::new(), here).insert_vote(vote_here).tally(vote_here.round).winner(
            committee,
            true,
        ) is None,
        count_all(ElectionView::new(), here).insert_vote(vote_here).tally(vote_here.round).winner(
            committee,
            false,
        ) is None,
        count_all(ElectionView::new(), here).insert_vote(vote_here).may_change(
            vote_here.round,
            me_here,
            committee,
        ),
        count_all(ElectionView::new(), there).insert_vote(vote_there).tally(
            vote_there.round,
        ).winner(committee, true) is None,
        count_all(ElectionView::new(), there).insert_vote(vote_there).tally(
            vote_there.round,
        ).winner(committee, false) is None,
        count_all(ElectionView::new(), there).insert_vote(vote_there).may_change(
            vote_there.round,
            me_there,
            committee,
        ),
    ensures
        ({
            let a = count_all(ElectionView::new(), here);
            let b = count_all(ElectionView::new(), there);
            let first = a.receive(vote_here, me_here, committee).1[a.opening(vote_here).len() as int];
            let second = b.receive(vote_there, me_there, committee).1[b.opening(
                vote_there,
            ).len() as int];
            &&& first matches crate::election::Action::SendVote(x)
            &&& second matches crate::election::Action::SendVote(y)
            &&& x.tx_hash == y.tx_hash
            &&& !x.commit && !y.commit
        }),
{
    let a = count_all(ElectionView::new(), here);
    let b = count_all(ElectionView::new(), there);
    lemma_same_tallies_same_highest(here, there);
    lemma_counting_commits_to_nothing(here);
    lemma_counting_commits_to_nothing(there);
    crate::agreement::lemma_split_round_changes_vote(a, vote_here, me_here, committee);
    crate::agreement::lemma_split_round_changes_vote(b, vote_there, me_there, committee);
}

/// Counting votes commits to nothing and decides nothing.
pub proof fn lemma_counting_commits_to_nothing(votes: Seq<Vote>)
    ensures
        count_all(ElectionView::new(), votes).commit is None,
        count_all(ElectionView::new(), votes).decision is None,
    decreases votes.len(),
{
    if votes.len() > 0 {
        lemma_counting_commits_to_nothing(votes.drop_last());
    }
}

} // verus!

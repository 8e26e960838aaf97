//! Aggregators: votes on one header into a certificate, and the
//! certificates of one round into the round's payload.

use crate::assoc::copy_of;
use crate::committee::{Committee, CommitteeView};
use crate::error::{DagError, DagResult};
use crate::hashing::{certificate_digest, certificate_named};
use crate::messages::{Certificate, CertificateView, Header, HeaderView, Vote};
use crate::types::{Digest, PublicKey, Signature};
use vstd::prelude::*;

verus! {

/// The authors of a list of votes with their signatures.
pub open spec fn authors(votes: Seq<(PublicKey, Signature)>) -> Set<PublicKey> {
    Set::new(
        |name: PublicKey| exists|i: int| 0 <= i < votes.len() && (#[trigger] votes[i]).0 == name,
    )
}

/// The authors of a list of votes with one more vote are the authors of
/// the list and the author of that vote.
pub proof fn lemma_authors_push(
    votes: Seq<(PublicKey, Signature)>,
    author: PublicKey,
    signature: Signature,
)
    ensures
        authors(votes.push((author, signature))) == authors(votes).insert(author),
{
    let more = votes.push((author, signature));
    assert forall|name: PublicKey| authors(more).contains(name) <==> authors(votes).insert(
        author,
    ).contains(name) by {
        if authors(votes).contains(name) {
            let i = choose|i: int| 0 <= i < votes.len() && (#[trigger] votes[i]).0 == name;
            assert(more[i].0 == name);
        }
        if authors(more).contains(name) && name != author {
            let i = choose|i: int| 0 <= i < more.len() && (#[trigger] more[i]).0 == name;
            assert(votes[i].0 == name);
        }
        if name == author {
            assert(more[more.len() - 1].0 == name);
        }
    }
    assert(authors(more) =~= authors(votes).insert(author));
}

/// The state of a votes aggregator.
pub struct VotesAggregatorView {
    /// The stake of the votes accepted.
    pub weight: nat,
    /// The votes accepted: author and signature, in the order of arrival.
    pub votes: Seq<(PublicKey, Signature)>,
    /// The authors that have voted, before or after the certificate.
    pub used: Set<PublicKey>,
    /// Whether the certificate has been made.
    pub done: bool,
}

impl VotesAggregatorView {
    /// The aggregator that has seen no vote.
    pub open spec fn new() -> VotesAggregatorView {
        VotesAggregatorView { weight: 0, votes: Seq::empty(), used: Set::empty(), done: false }
    }

    /// What a vote does to the aggregator. A vote of an author that has
    /// voted before is an error and changes nothing. Else the author is
    /// remembered. Once the certificate has been made, the vote is refused:
    /// it adds neither a signature nor stake. Before that the vote is
    /// accepted, and the certificate is made if the accepted stake has
    /// reached the quorum.
    pub open spec fn append(self, vote: Vote, committee: CommitteeView, header: HeaderView) -> (
        VotesAggregatorView,
        DagResult<Option<CertificateView>>,
    ) {
        if self.used.contains(vote.author) {
            (self, Err(DagError::AuthorityReuse(vote.author)))
        } else if self.done {
            (VotesAggregatorView { used: self.used.insert(vote.author), ..self }, Ok(None))
        } else {
            let votes = self.votes.push((vote.author, vote.signature));
            let weight = self.weight + committee.stake_of(vote.author);
            let used = self.used.insert(vote.author);
            if weight >= committee.quorum() {
                (
                    VotesAggregatorView { weight, votes, used, done: true },
                    Ok(Some(CertificateView { header, votes })),
                )
            } else {
                (VotesAggregatorView { weight, votes, used, done: false }, Ok(None))
            }
        }
    }

    /// What a list of votes on one header does to the aggregator, and the
    /// certificates that come out.
    pub open spec fn feed(self, votes: Seq<Vote>, committee: CommitteeView, header: HeaderView) -> (
        VotesAggregatorView,
        Seq<CertificateView>,
    )
        decreases votes.len(),
    {
        if votes.len() == 0 {
            (self, seq![])
        } else {
            let (before, made) = self.feed(votes.drop_last(), committee, header);
            match before.append(votes.last(), committee, header).1 {
                Ok(Some(certificate)) => (
                    before.append(votes.last(), committee, header).0,
                    made.push(certificate),
                ),
                _ => (before.append(votes.last(), committee, header).0, made),
            }
        }
    }

    /// What holds of an aggregator that has been fed from the start with
    /// one committee: no author has two accepted votes, every author of an
    /// accepted vote is remembered, the weight is the stake of the authors,
    /// and the stake is below the quorum until the certificate has been
    /// made.
    pub open spec fn consistent(self, committee: CommitteeView) -> bool {
        &&& forall|i: int, j: int|
            0 <= i < j < self.votes.len() ==> self.votes[i].0 != self.votes[j].0
        &&& authors(self.votes).subset_of(self.used)
        &&& self.weight == committee.weight(authors(self.votes))
        &&& self.done <==> self.weight >= committee.quorum()
    }
}

/// The authors of a list of votes.
pub open spec fn voters_of(votes: Seq<Vote>) -> Set<PublicKey> {
    Set::new(|name: PublicKey| exists|i: int| 0 <= i < votes.len() && (#[trigger] votes[i]).author == name)
}

/// Every author is taken once: whatever votes a fresh aggregator is fed,
/// it remembers exactly their authors, before and after the certificate.
/// So the next vote is the error `AuthorityReuse` of its author exactly if
/// an earlier vote of that author was taken, and is taken otherwise; and
/// the error changes nothing.
pub proof fn lemma_authority_reuse(
    votes: Seq<Vote>,
    vote: Vote,
    committee: CommitteeView,
    header: HeaderView,
)
    ensures
        VotesAggregatorView::new().feed(votes, committee, header).0.used == voters_of(votes),
        voters_of(votes).contains(vote.author) ==> VotesAggregatorView::new().feed(
            votes,
            committee,
            header,
        ).0.append(vote, committee, header) == (
            VotesAggregatorView::new().feed(votes, committee, header).0,
            Err::<Option<CertificateView>, DagError>(DagError::AuthorityReuse(vote.author)),
        ),
        !voters_of(votes).contains(vote.author) ==> VotesAggregatorView::new().feed(
            votes,
            committee,
            header,
        ).0.append(vote, committee, header).1 is Ok,
    decreases votes.len(),
{
    let start = VotesAggregatorView::new();
    if votes.len() == 0 {
        assert(voters_of(votes) =~= Set::empty());
    } else {
        let front = votes.drop_last();
        let last = votes.last();
        lemma_authority_reuse(front, last, committee, header);
        let before = start.feed(front, committee, header).0;
        let after = start.feed(votes, committee, header).0;
        assert(after == before.append(last, committee, header).0);
        assert forall|name: PublicKey| voters_of(votes).contains(name) <==> voters_of(
            front,
        ).insert(last.author).contains(name) by {
            if voters_of(front).contains(name) {
                let i = choose|i: int| 0 <= i < front.len() && (#[trigger] front[i]).author == name;
                assert(votes[i].author == name);
            }
            if voters_of(votes).contains(name) && name != last.author {
                let i = choose|i: int| 0 <= i < votes.len() && (#[trigger] votes[i]).author == name;
                assert(front[i].author == name);
            }
            if name == last.author {
                assert(votes[votes.len() - 1].author == name);
            }
        }
        assert(voters_of(votes) =~= voters_of(front).insert(last.author));
        assert(after.used =~= voters_of(votes));
    }
}

/// Certificate integrity: whatever votes a fresh aggregator is fed with
/// one committee and one header, it makes at most one certificate, and a
/// certificate that it makes is of that header, holds no two votes of one
/// authority, and holds votes of authorities whose stake is a quorum.
pub proof fn lemma_certificate_integrity(
    votes: Seq<Vote>,
    committee: CommitteeView,
    header: HeaderView,
)
    ensures
        VotesAggregatorView::new().feed(votes, committee, header).0.consistent(committee),
        VotesAggregatorView::new().feed(votes, committee, header).1.len() == if VotesAggregatorView::new().feed(
            votes,
            committee,
            header,
        ).0.done {
            1nat
        } else {
            0nat
        },
        forall|i: int|
            0 <= i < VotesAggregatorView::new().feed(votes, committee, header).1.len() ==> {
                let certificate = #[trigger] VotesAggregatorView::new().feed(
                    votes,
                    committee,
                    header,
                ).1[i];
                &&& certificate.header == header
                &&& certificate.voters_distinct()
                &&& committee.weight(certificate.voters()) >= committee.quorum()
            },
    decreases votes.len(),
{
    let start = VotesAggregatorView::new();
    if votes.len() == 0 {
        assert(authors(start.votes) =~= Set::empty());
        committee.lemma_weight_empty();
    } else {
        lemma_certificate_integrity(votes.drop_last(), committee, header);
        let (before, made) = start.feed(votes.drop_last(), committee, header);
        let vote = votes.last();
        let (after, result) = before.append(vote, committee, header);
        if !before.used.contains(vote.author) && !before.done {
            let accepted = before.votes.push((vote.author, vote.signature));
            lemma_authors_push(before.votes, vote.author, vote.signature);
            committee.lemma_weight_insert(authors(before.votes), vote.author);
            assert forall|i: int, j: int| 0 <= i < j < accepted.len() implies accepted[i].0
                != accepted[j].0 by {
                if j == accepted.len() - 1 {
                    assert(before.votes[i].0 == accepted[i].0);
                    assert(authors(before.votes).contains(before.votes[i].0));
                }
            }
            if after.done {
                let certificate = CertificateView { header, votes: accepted };
                assert(certificate.voters() =~= authors(accepted));
            }
        }
    }
}

/// Aggregates the votes on one header into a certificate.
#[derive(Debug)]
pub struct VotesAggregator {
    weight: u64,
    votes: Vec<(PublicKey, Signature)>,
    used: Vec<PublicKey>,
    done: bool,
}

impl View for VotesAggregator {
    type V = VotesAggregatorView;

    closed spec fn view(&self) -> VotesAggregatorView {
        VotesAggregatorView {
            weight: self.weight as nat,
            votes: self.votes@,
            used: self.used@.to_set(),
            done: self.done,
        }
    }
}

impl VotesAggregator {
    /// Until the certificate is made the accepted stake is below a quorum,
    /// and so fits a stake.
    pub closed spec fn wf(&self) -> bool {
        !self.done ==> self.weight <= u32::MAX
    }

    /// An aggregator that has seen no vote.
    pub fn new() -> (aggregator: VotesAggregator)
        ensures
            aggregator.wf(),
            aggregator@ == VotesAggregatorView::new(),
    {
        let aggregator = VotesAggregator {
            weight: 0,
            votes: Vec::new(),
            used: Vec::new(),
            done: false,
        };
        assert(aggregator.used@.to_set() =~= Set::empty());
        aggregator
    }

    /// Whether `author` has voted.
    fn has_voted(&self, author: &PublicKey) -> (yes: bool)
        ensures
            yes == self@.used.contains(*author),
    {
        let mut i: usize = 0;
        while i < self.used.len()
            invariant
                i <= self.used.len(),
                forall|k: int| 0 <= k < i ==> self.used@[k] != *author,
            decreases self.used.len() - i,
        {
            if self.used[i] == *author {
                return true;
            }
            i += 1;
        }
        false
    }

    /// Takes a vote on `header`. A vote of an author that has voted before,
    /// whether before or after the certificate, is the error
    /// `AuthorityReuse` and changes nothing. Else the author is remembered.
    /// Once the certificate has been made, the vote is refused: it adds
    /// neither signature nor stake and nothing comes out. Before that the
    /// vote is accepted with the stake that `committee` gives its author,
    /// and the certificate of `header` with all accepted votes comes out
    /// when the accepted stake reaches the quorum.
    pub fn append(&mut self, vote: Vote, committee: &Committee, header: &Header) -> (made: DagResult<
        Option<Certificate>,
    >)
        requires
            old(self).wf(),
        ensures
            final(self).wf(),
            final(self)@ == old(self)@.append(vote, committee@, header@).0,
            match made {
                Ok(Some(certificate)) => old(self)@.append(vote, committee@, header@).1 == Ok::<
                    Option<CertificateView>,
                    DagError,
                >(Some(certificate@)),
                Ok(None) => old(self)@.append(vote, committee@, header@).1 == Ok::<
                    Option<CertificateView>,
                    DagError,
                >(None),
                Err(error) => old(self)@.append(vote, committee@, header@).1 == Err::<
                    Option<CertificateView>,
                    DagError,
                >(error),
            },
            made is Err <==> old(self)@.used.contains(vote.author),
            made matches Err(error) ==> error == DagError::AuthorityReuse(vote.author)
                && final(self)@ == old(self)@,
            made is Ok ==> final(self)@.used == old(self)@.used.insert(vote.author),
    {
        let author = vote.author;
        if self.has_voted(&author) {
            return Err(DagError::AuthorityReuse(author));
        }
        self.used.push(author);
        proof {
            old(self).used@.lemma_push_to_set_commute(author);
        }
        if self.done {
            return Ok(None);
        }
        self.votes.push((author, vote.signature));
        self.weight = self.weight + committee.stake(&author) as u64;
        if self.weight >= committee.quorum_threshold() as u64 {
            self.done = true;
            return Ok(
                Some(
                    Certificate {
                        header: header.duplicate(),
                        votes: copy_of(self.votes.as_slice()),
                    },
                ),
            );
        }
        Ok(None)
    }
}

/// The state of a certificates aggregator.
pub struct CertificatesAggregatorView {
    /// The stake of the origins gathered since the last payload.
    pub weight: nat,
    /// The digests gathered since the last payload.
    pub certificates: Seq<Digest>,
    /// The origins seen.
    pub used: Set<PublicKey>,
}

impl CertificatesAggregatorView {
    /// The aggregator that has seen no certificate.
    pub open spec fn new() -> CertificatesAggregatorView {
        CertificatesAggregatorView { weight: 0, certificates: Seq::empty(), used: Set::empty() }
    }

    /// What a certificate of `origin` with digest `digest` does to the
    /// aggregator. One of an origin seen before changes nothing. Else the
    /// digest is gathered; when the gathered stake reaches the quorum, the
    /// gathered digests come out and gathering starts anew.
    pub open spec fn append(self, origin: PublicKey, digest: Digest, committee: CommitteeView) -> (
        CertificatesAggregatorView,
        Option<Seq<Digest>>,
    ) {
        if self.used.contains(origin) {
            (self, None)
        } else {
            let certificates = self.certificates.push(digest);
            let weight = self.weight + committee.stake_of(origin);
            let used = self.used.insert(origin);
            if weight >= committee.quorum() {
                (
                    CertificatesAggregatorView { weight: 0, certificates: Seq::empty(), used },
                    Some(certificates),
                )
            } else {
                (CertificatesAggregatorView { weight, certificates, used }, None)
            }
        }
    }
}

/// Aggregates the certificates of one round and says when a quorum of
/// origins is reached.
#[derive(Debug)]
pub struct CertificatesAggregator {
    weight: u64,
    certificates: Vec<Digest>,
    used: Vec<PublicKey>,
}

impl View for CertificatesAggregator {
    type V = CertificatesAggregatorView;

    closed spec fn view(&self) -> CertificatesAggregatorView {
        CertificatesAggregatorView {
            weight: self.weight as nat,
            certificates: self.certificates@,
            used: self.used@.to_set(),
        }
    }
}

impl CertificatesAggregator {
    /// The gathered stake is below a quorum, and so fits a stake.
    pub closed spec fn wf(&self) -> bool {
        self.weight <= u32::MAX
    }

    /// An aggregator that has seen no certificate.
    pub fn new() -> (aggregator: CertificatesAggregator)
        ensures
            aggregator.wf(),
            aggregator@ == CertificatesAggregatorView::new(),
    {
        let aggregator = CertificatesAggregator {
            weight: 0,
            certificates: Vec::new(),
            used: Vec::new(),
        };
        assert(aggregator.used@.to_set() =~= Set::empty());
        aggregator
    }

    /// Whether a certificate of `origin` has been seen.
    fn has_seen(&self, origin: &PublicKey) -> (yes: bool)
        ensures
            yes == self@.used.contains(*origin),
    {
        let mut i: usize = 0;
        while i < self.used.len()
            invariant
                i <= self.used.len(),
                forall|k: int| 0 <= k < i ==> self.used@[k] != *origin,
            decreases self.used.len() - i,
        {
            if self.used[i] == *origin {
                return true;
            }
            i += 1;
        }
        false
    }

    /// Takes a certificate. A certificate of an origin seen before is
    /// passed over in silence. Else its digest is gathered with the stake
    /// that `committee` gives its origin; when the gathered stake reaches
    /// the quorum, the gathered digests come out in the order of arrival and
    /// gathering starts anew. Never an error.
    pub fn append(&mut self, certificate: Certificate, committee: &Committee) -> (made: DagResult<
        Option<Vec<Digest>>,
    >)
        requires
            old(self).wf(),
        ensures
            final(self).wf(),
            final(self)@ == old(self)@.append(
                certificate@.header.author,
                certificate_named(certificate@),
                committee@,
            ).0,
            match made {
                Ok(Some(digests)) => old(self)@.append(
                    certificate@.header.author,
                    certificate_named(certificate@),
                    committee@,
                ).1 == Some(digests@),
                Ok(None) => old(self)@.append(
                    certificate@.header.author,
                    certificate_named(certificate@),
                    committee@,
                ).1 is None,
                Err(_) => false,
            },
    {
        let digest = certificate_digest(&certificate);
        let origin = certificate.origin();
        if self.has_seen(&origin) {
            return Ok(None);
        }
        self.used.push(origin);
        proof {
            old(self).used@.lemma_push_to_set_commute(origin);
        }
        self.certificates.push(digest);
        self.weight = self.weight + committee.stake(&origin) as u64;
        if self.weight >= committee.quorum_threshold() as u64 {
            self.weight = 0;
            let mut gathered: Vec<Digest> = Vec::new();
            core::mem::swap(&mut gathered, &mut self.certificates);
            return Ok(Some(gathered));
        }
        Ok(None)
    }
}

} // verus!

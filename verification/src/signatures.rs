//! Checking the signatures of headers, votes and certificates. Signing is
//! left to the holder of the key.

use crate::aggregators::{authors, lemma_authors_push};
use crate::committee::{Committee, CommitteeView, Stake};
use crate::error::{DagError, DagResult};
use crate::hashing::{header_digest, header_id, vote_digest, vote_id};
use crate::messages::{Certificate, CertificateView, Header, HeaderView, Vote};
use crate::types::{Digest, PublicKey, Signature};
use ed25519_dalek::Verifier;
use vstd::prelude::*;

verus! {

/// Whether `signature` is a signature of the key `key` on `message`: the
/// name of what `PublicKey::verify` of ed25519-dalek decides, bytes that
/// are no key or no signature verifying nothing.
pub uninterp spec fn ed25519_verifies(key: Seq<u8>, message: Seq<u8>, signature: Seq<u8>) -> bool;

/// `PublicKey::verify` of ed25519-dalek, on the key and the signature that
/// `PublicKey::from_bytes` and `Signature::from_bytes` read; bytes that
/// they refuse verify nothing. The contract gives the answer its name and
/// claims no more than that the same bytes always get the same answer.
#[verifier::external_body]
fn signature_verifies(key: &[u8; 32], message: &[u8; 32], signature: &[u8; 64]) -> (valid: bool)
    ensures
        valid == ed25519_verifies(key@, message@, signature@),
{
    match (
        ed25519_dalek::PublicKey::from_bytes(key),
        ed25519_dalek::Signature::from_bytes(signature),
    ) {
        (Ok(key), Ok(signature)) => key.verify(message, &signature).is_ok(),
        _ => false,
    }
}

/// Whether `signature` is the signature of `author` on `digest`.
pub open spec fn signed_by(author: PublicKey, digest: Seq<u8>, signature: Signature) -> bool {
    ed25519_verifies(author@, digest, signature@)
}

/// Whether a vote carries the signature of its author on its digest.
pub open spec fn vote_signed(vote: Vote) -> bool {
    signed_by(vote.author, vote_id(vote), vote.signature)
}

/// Whether a header carries the digest of what it holds as its id, and the
/// signature of its author on that id.
pub open spec fn header_signed(header: HeaderView) -> bool {
    header.id@ == header_id(header) && signed_by(header.author, header.id@, header.signature)
}

/// Whether the vote at `j` is of an author that has an earlier vote in the
/// list.
pub open spec fn repeats_at(votes: Seq<(PublicKey, Signature)>, j: int) -> bool {
    exists|i: int| 0 <= i < j && (#[trigger] votes[i]).0 == votes[j].0
}

/// Whether `j` is the first place in the list at which an author repeats.
pub open spec fn first_repeat(votes: Seq<(PublicKey, Signature)>, j: int) -> bool {
    &&& 0 <= j < votes.len()
    &&& repeats_at(votes, j)
    &&& forall|k: int| 0 <= k < j ==> !repeats_at(votes, k)
}

/// Whether the vote at `j` of the certificate is a signature of its author
/// on the id of the header.
pub open spec fn vote_signed_at(certificate: CertificateView, j: int) -> bool {
    signed_by(certificate.votes[j].0, certificate.header.id@, certificate.votes[j].1)
}

/// What is found of a certificate, given whether its header carries its
/// id (`id_valid`), whether the header carries the signature of its author
/// (`header_signed`), and for each vote whether it is a signature of its
/// author on the id of the header (`votes_signed`). The checks come in this
/// order: the id of the header, the signature of the header, no authority
/// twice, the stake of a quorum, the signatures of the votes.
pub open spec fn certificate_judgement(
    certificate: CertificateView,
    committee: CommitteeView,
    id_valid: bool,
    header_signed: bool,
    votes_signed: Seq<bool>,
) -> DagResult<()> {
    if !id_valid {
        Err(DagError::InvalidHeaderId(certificate.header.id))
    } else if !header_signed {
        Err(DagError::InvalidSignature)
    } else if !certificate.voters_distinct() {
        Err(
            DagError::AuthorityReuse(
                certificate.votes[choose|j: int| first_repeat(certificate.votes, j)].0,
            ),
        )
    } else if committee.weight(certificate.voters()) < committee.quorum() {
        Err(DagError::CertificateRequiresQuorum)
    } else if exists|j: int| 0 <= j < votes_signed.len() && !votes_signed[j] {
        Err(DagError::InvalidSignature)
    } else {
        Ok(())
    }
}

/// What the check of a certificate finds.
pub open spec fn certificate_check(certificate: CertificateView, committee: CommitteeView) -> DagResult<
    (),
> {
    certificate_judgement(
        certificate,
        committee,
        certificate.header.id@ == header_id(certificate.header),
        signed_by(certificate.header.author, certificate.header.id@, certificate.header.signature),
        Seq::new(certificate.votes.len(), |j: int| vote_signed_at(certificate, j)),
    )
}

/// A certificate that passes the check carries the header with its own
/// id, signed by its author, and on that id the signatures of authorities,
/// no two alike, whose stake is a quorum.
pub proof fn lemma_checked_certificate(certificate: CertificateView, committee: CommitteeView)
    requires
        certificate_check(certificate, committee) is Ok,
    ensures
        header_signed(certificate.header),
        certificate.voters_distinct(),
        committee.weight(certificate.voters()) >= committee.quorum(),
        forall|j: int| 0 <= j < certificate.votes.len() ==> vote_signed_at(certificate, j),
{
    let flags = Seq::new(certificate.votes.len(), |j: int| vote_signed_at(certificate, j));
    assert forall|j: int| 0 <= j < certificate.votes.len() implies vote_signed_at(
        certificate,
        j,
    ) by {
        assert(flags[j] == vote_signed_at(certificate, j));
    }
}

/// Whether `vote` carries the signature of its author.
pub fn vote_is_signed(vote: &Vote) -> (signed: bool)
    ensures
        signed == vote_signed(*vote),
{
    let digest = vote_digest(vote);
    signature_verifies(&vote.author.bytes, &digest.bytes, &vote.signature.bytes)
}

/// Whether `header` carries its id and the signature of its author on it.
pub fn header_is_signed(header: &Header) -> (signed: bool)
    ensures
        signed == header_signed(header@),
{
    let id = header_digest(header);
    proof {
        if id@ == header.id@ {
            Digest::lemma_view_injective(id, header.id);
        }
    }
    id == header.id && signature_verifies(
        &header.author.bytes,
        &header.id.bytes,
        &header.signature.bytes,
    )
}

/// Judges a certificate against the committee, given whether its header
/// carries its id, whether the header carries the signature of its author,
/// and for each vote whether it is a signature of its author on the id of
/// the header. The certificate passes if all of these hold, no authority
/// has two votes in it, and the authorities that have a vote have the stake
/// of a quorum. The checks come in this order: the id, the signature of
/// the header, no authority twice, the quorum, the signatures of the votes;
/// the first that fails gives the error.
#[verifier::loop_isolation(false)]
pub fn judge_certificate(
    certificate: &Certificate,
    committee: &Committee,
    id_valid: bool,
    header_signed: bool,
    votes_signed: &Vec<bool>,
) -> (checked: DagResult<()>)
    requires
        votes_signed@.len() == certificate@.votes.len(),
    ensures
        checked == certificate_judgement(
            certificate@,
            committee@,
            id_valid,
            header_signed,
            votes_signed@,
        ),
{
    if !id_valid {
        return Err(DagError::InvalidHeaderId(certificate.header.id));
    }
    if !header_signed {
        return Err(DagError::InvalidSignature);
    }
    let ghost votes = certificate@.votes;
    let quorum = committee.quorum_threshold();
    let mut weight: Stake = 0;
    let mut j: usize = 0;
    proof {
        assert(authors(votes.take(0)) =~= Set::empty());
        committee@.lemma_weight_empty();
    }
    while j < certificate.votes.len()
        invariant
            j <= certificate.votes.len(),
            weight == committee@.weight(authors(votes.take(j as int))),
            forall|k: int| 0 <= k < j ==> !repeats_at(votes, k),
        decreases certificate.votes.len() - j,
    {
        let author = certificate.votes[j].0;
        let mut i: usize = 0;
        while i < j
            invariant
                i <= j,
                forall|k: int| 0 <= k < i ==> (#[trigger] votes[k]).0 != author,
            decreases j - i,
        {
            if certificate.votes[i].0 == author {
                proof {
                    assert(repeats_at(votes, j as int));
                    assert(first_repeat(votes, j as int));
                    assert(!certificate@.voters_distinct());
                    let first = choose|f: int| first_repeat(votes, f);
                    if first < j {
                        assert(!repeats_at(votes, first));
                    } else if first > j {
                        assert(!repeats_at(votes, j as int));
                    }
                }
                return Err(DagError::AuthorityReuse(author));
            }
            i += 1;
        }
        proof {
            let before = authors(votes.take(j as int));
            assert(!before.contains(author)) by {
                if before.contains(author) {
                    let k = choose|k: int|
                        0 <= k < votes.take(j as int).len() && (#[trigger] votes.take(
                            j as int,
                        )[k]).0 == author;
                    assert(votes[k].0 != author);
                }
            }
            lemma_authors_push(votes.take(j as int), author, votes[j as int].1);
            assert(votes.take(j as int).push(votes[j as int]) =~= votes.take(j as int + 1));
            committee@.lemma_weight_insert(before, author);
            committee@.lemma_weight_bounded(before.insert(author));
            assert(!repeats_at(votes, j as int)) by {
                if repeats_at(votes, j as int) {
                    let k = choose|k: int| 0 <= k < j && (#[trigger] votes[k]).0 == votes[j as int].0;
                    assert(votes[k].0 != author);
                }
            }
        }
        weight = weight + committee.stake(&author);
        j += 1;
    }
    proof {
        assert(votes.take(j as int) =~= votes);
        assert(authors(votes) =~= certificate@.voters());
        assert(certificate@.voters_distinct()) by {
            assert forall|a: int, b: int| 0 <= a < b < votes.len() implies votes[a].0
                != votes[b].0 by {
                assert(!repeats_at(votes, b));
            }
        }
    }
    if weight < quorum {
        return Err(DagError::CertificateRequiresQuorum);
    }
    let mut k: usize = 0;
    while k < votes_signed.len()
        invariant
            k <= votes_signed.len(),
            forall|m: int| 0 <= m < k ==> votes_signed@[m],
        decreases votes_signed.len() - k,
    {
        if !votes_signed[k] {
            return Err(DagError::InvalidSignature);
        }
        k += 1;
    }
    Ok(())
}

/// Checks a certificate against the committee: its header carries its id
/// and the signature of its author, no authority has two votes in it, the
/// authorities that have a vote have the stake of a quorum, and every vote
/// is a signature of its author on the id of the header. The checks come
/// in this order, and the first that fails gives the error.
pub fn verify_certificate(certificate: &Certificate, committee: &Committee) -> (checked: DagResult<
    (),
>)
    ensures
        checked == certificate_check(certificate@, committee@),
{
    let id = header_digest(&certificate.header);
    proof {
        if id@ == certificate.header.id@ {
            Digest::lemma_view_injective(id, certificate.header.id);
        }
    }
    let id_valid = id == certificate.header.id;
    let header_signed = signature_verifies(
        &certificate.header.author.bytes,
        &certificate.header.id.bytes,
        &certificate.header.signature.bytes,
    );
    let mut votes_signed: Vec<bool> = Vec::new();
    let mut k: usize = 0;
    while k < certificate.votes.len()
        invariant
            k <= certificate.votes.len(),
            votes_signed@.len() == k,
            forall|m: int| 0 <= m < k ==> votes_signed@[m] == vote_signed_at(certificate@, m),
        decreases certificate.votes.len() - k,
    {
        votes_signed.push(
            signature_verifies(
                &certificate.votes[k].0.bytes,
                &certificate.header.id.bytes,
                &certificate.votes[k].1.bytes,
            ),
        );
        k += 1;
    }
    assert(votes_signed@ =~= Seq::new(
        certificate@.votes.len(),
        |j: int| vote_signed_at(certificate@, j),
    ));
    judge_certificate(certificate, committee, id_valid, header_signed, &votes_signed)
}

} // verus!

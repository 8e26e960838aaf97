//! The digests of headers and votes: what is hashed, byte by byte, and the
//! hash function that is called for it.

use crate::assoc::append_all;
use crate::messages::{Certificate, CertificateView, Header, HeaderView, Vote};
use crate::types::{Digest, ElectionId, PublicKey, Round, TxHash};
use ed25519_dalek::{Digest as _, Sha512};
use vstd::bytes::{
    lemma_auto_spec_u64_to_from_le_bytes, spec_u64_from_le_bytes, spec_u64_to_le_bytes,
    u64_to_le_bytes,
};
use vstd::prelude::*;

verus! {

/// The SHA-512 hash of `data`: the name of what `Sha512::digest` computes.
pub uninterp spec fn sha512(data: Seq<u8>) -> Seq<u8>;

/// `Sha512::digest`, as ed25519-dalek hands it on from the sha2 crate. The contract gives the 64 bytes of
/// the hash their name and claims no more than that the same data always
/// gets the same hash.
#[verifier::external_body]
fn sha512_of(data: &[u8]) -> (hash: [u8; 64])
    ensures
        hash@ == sha512(data@),
{
    let mut hash = [0u8; 64];
    hash.copy_from_slice(Sha512::digest(data).as_slice());
    hash
}

/// The tag that sets the hash function of headers apart.
pub const HEADER_DIGEST_TAG: [u8; 6] = [104, 101, 97, 100, 101, 114];

/// The tag that sets the hash function of votes apart.
pub const VOTE_DIGEST_TAG: [u8; 4] = [118, 111, 116, 101];

/// The tag that sets the hash function of certificates apart.
pub const CERTIFICATE_DIGEST_TAG: [u8; 11] = [99, 101, 114, 116, 105, 102, 105, 99, 97, 116, 101];

/// The digest of `data`: the first 32 bytes of its hash.
pub open spec fn digest_of(data: Seq<u8>) -> Seq<u8> {
    sha512(data).take(32)
}

/// The bytes of a list of proposals: for each in turn the transaction
/// hash, then the election id.
pub open spec fn proposals_bytes(proposals: Seq<(TxHash, ElectionId)>) -> Seq<u8>
    decreases proposals.len(),
{
    if proposals.len() == 0 {
        seq![]
    } else {
        proposals_bytes(proposals.drop_last()) + proposals.last().0@ + proposals.last().1@
    }
}

/// What is hashed for the id of a header: the tag, the author, the round
/// in eight bytes with the lowest first, and the proposals.
pub open spec fn header_preimage(
    round: Round,
    author: PublicKey,
    proposals: Seq<(TxHash, ElectionId)>,
) -> Seq<u8> {
    HEADER_DIGEST_TAG@ + author@ + spec_u64_to_le_bytes(round) + proposals_bytes(proposals)
}

/// The id that a header should carry.
pub open spec fn header_id(header: HeaderView) -> Seq<u8> {
    digest_of(header_preimage(header.round, header.author, header.proposals))
}

/// What is hashed for the signature of a vote: the tag and every field
/// but the signature, the rounds in eight bytes with the lowest first, the
/// commit bit as one byte.
pub open spec fn vote_preimage(vote: Vote) -> Seq<u8> {
    VOTE_DIGEST_TAG@ + spec_u64_to_le_bytes(vote.round) + vote.tx_hash@ + vote.election_id@
        + spec_u64_to_le_bytes(vote.proposal_round) + seq![
        if vote.commit {
            1u8
        } else {
            0u8
        },
    ] + vote.author@ + vote.header_id@
}

/// The digest of a vote, which its author signs.
pub open spec fn vote_id(vote: Vote) -> Seq<u8> {
    digest_of(vote_preimage(vote))
}

/// What is hashed for the digest of a certificate: the tag, the id of the
/// header, the round of the header in eight bytes with the lowest first,
/// and the author of the header.
pub open spec fn certificate_preimage(certificate: CertificateView) -> Seq<u8> {
    CERTIFICATE_DIGEST_TAG@ + certificate.header.id@ + spec_u64_to_le_bytes(
        certificate.header.round,
    ) + certificate.header.author@
}

/// The bytes of the digest of a certificate.
pub open spec fn certificate_id(certificate: CertificateView) -> Seq<u8> {
    digest_of(certificate_preimage(certificate))
}

/// The digest that holds `bytes`.
pub open spec fn digest_with(bytes: Seq<u8>) -> Digest {
    choose|digest: Digest| digest@ == bytes
}

/// The digest of a certificate.
pub open spec fn certificate_named(certificate: CertificateView) -> Digest {
    digest_with(certificate_id(certificate))
}

/// The digest of `certificate`: the digest of the id, the round and the
/// author of its header.
pub fn certificate_digest(certificate: &Certificate) -> (id: Digest)
    ensures
        id@ == certificate_id(certificate@),
        id == certificate_named(certificate@),
{
    let mut buffer: Vec<u8> = Vec::new();
    append_all(&mut buffer, CERTIFICATE_DIGEST_TAG.as_slice());
    append_all(&mut buffer, certificate.header.id.bytes.as_slice());
    let round = u64_to_le_bytes(certificate.header.round);
    append_all(&mut buffer, round.as_slice());
    append_all(&mut buffer, certificate.header.author.bytes.as_slice());
    assert(buffer@ =~= certificate_preimage(certificate@));
    let id = digest(buffer.as_slice());
    proof {
        Digest::lemma_view_injective(id, certificate_named(certificate@));
    }
    id
}

/// The digest of `data`: the first 32 bytes of its SHA-512 hash.
pub fn digest(data: &[u8]) -> (digest: Digest)
    ensures
        digest@ == digest_of(data@),
{
    let hash = sha512_of(data);
    let mut bytes = [0u8; 32];
    let mut i: usize = 0;
    while i < 32
        invariant
            i <= 32,
            forall|k: int| 0 <= k < i ==> bytes@[k] == hash@[k],
        decreases 32 - i,
    {
        bytes[i] = hash[i];
        i += 1;
    }
    let digest = Digest::new(bytes);
    assert(digest@ =~= hash@.take(32));
    digest
}

/// The id that `header` should carry: the digest of its author, round and
/// proposals.
pub fn header_digest(header: &Header) -> (id: Digest)
    ensures
        id@ == header_id(header@),
{
    let mut buffer: Vec<u8> = Vec::new();
    append_all(&mut buffer, HEADER_DIGEST_TAG.as_slice());
    append_all(&mut buffer, header.author.bytes.as_slice());
    let round = u64_to_le_bytes(header.round);
    append_all(&mut buffer, round.as_slice());
    let ghost head = buffer@;
    assert(head =~= HEADER_DIGEST_TAG@ + header.author@ + spec_u64_to_le_bytes(header.round));
    let mut i: usize = 0;
    assert(header.proposals@.take(0) =~= Seq::empty());
    while i < header.proposals.len()
        invariant
            i <= header.proposals.len(),
            buffer@ == head + proposals_bytes(header.proposals@.take(i as int)),
        decreases header.proposals.len() - i,
    {
        append_all(&mut buffer, header.proposals[i].0.bytes.as_slice());
        append_all(&mut buffer, header.proposals[i].1.bytes.as_slice());
        proof {
            let upto = header.proposals@.take(i as int + 1);
            assert(upto.drop_last() =~= header.proposals@.take(i as int));
            assert(upto.last() == header.proposals@[i as int]);
            assert(buffer@ =~= head + proposals_bytes(upto));
        }
        i += 1;
    }
    assert(header.proposals@.take(i as int) =~= header.proposals@);
    assert(buffer@ =~= header_preimage(header@.round, header@.author, header@.proposals));
    digest(buffer.as_slice())
}

/// Whether `made` is the header `drafted` with the id that it should
/// carry, or both are none.
pub open spec fn hashed(made: Option<Header>, drafted: Option<HeaderView>) -> bool {
    match made {
        Some(header) => drafted matches Some(draft) && header@ == (HeaderView {
            id: header@.id,
            ..draft
        }) && header@.id@ == header_id(draft),
        None => drafted is None,
    }
}

/// The header with the id that it should carry.
pub fn with_id(header: Header) -> (hashed: Header)
    ensures
        hashed@ == (HeaderView { id: hashed@.id, ..header@ }),
        hashed@.id@ == header_id(header@),
{
    let id = header_digest(&header);
    Header { id, ..header }
}

/// Whether `header` carries the id that it should carry.
pub fn has_valid_id(header: &Header) -> (valid: bool)
    ensures
        valid == (header@.id@ == header_id(header@)),
{
    let id = header_digest(header);
    proof {
        if id@ == header.id@ {
            Digest::lemma_view_injective(id, header.id);
        }
    }
    id == header.id
}

/// The digest of `vote`, which its author signs: the digest of every
/// field but the signature.
pub fn vote_digest(vote: &Vote) -> (id: Digest)
    ensures
        id@ == vote_id(*vote),
{
    let mut buffer: Vec<u8> = Vec::new();
    append_all(&mut buffer, VOTE_DIGEST_TAG.as_slice());
    let round = u64_to_le_bytes(vote.round);
    append_all(&mut buffer, round.as_slice());
    append_all(&mut buffer, vote.tx_hash.bytes.as_slice());
    append_all(&mut buffer, vote.election_id.bytes.as_slice());
    let proposal_round = u64_to_le_bytes(vote.proposal_round);
    append_all(&mut buffer, proposal_round.as_slice());
    buffer.push(
        if vote.commit {
            1u8
        } else {
            0u8
        },
    );
    append_all(&mut buffer, vote.author.bytes.as_slice());
    append_all(&mut buffer, vote.header_id.bytes.as_slice());
    assert(buffer@ =~= vote_preimage(*vote));
    digest(buffer.as_slice())
}

/// A list of proposals takes 64 bytes for each proposal.
pub proof fn lemma_proposals_bytes_len(proposals: Seq<(TxHash, ElectionId)>)
    ensures
        proposals_bytes(proposals).len() == 64 * proposals.len(),
    decreases proposals.len(),
{
    if proposals.len() > 0 {
        lemma_proposals_bytes_len(proposals.drop_last());
    }
}

/// Different lists of proposals have different bytes.
pub proof fn lemma_proposals_bytes_injective(
    first: Seq<(TxHash, ElectionId)>,
    second: Seq<(TxHash, ElectionId)>,
)
    requires
        proposals_bytes(first) == proposals_bytes(second),
    ensures
        first == second,
    decreases first.len(),
{
    lemma_proposals_bytes_len(first);
    lemma_proposals_bytes_len(second);
    if first.len() == 0 {
        assert(first =~= second);
    } else {
        let a = first.drop_last();
        let b = second.drop_last();
        lemma_proposals_bytes_len(a);
        lemma_proposals_bytes_len(b);
        let x = proposals_bytes(first);
        let y = proposals_bytes(second);
        let n = proposals_bytes(a).len() as int;
        assert(x.subrange(0, n) =~= proposals_bytes(a));
        assert(y.subrange(0, n) =~= proposals_bytes(b));
        assert(x.subrange(n, n + 32) =~= first.last().0@);
        assert(y.subrange(n, n + 32) =~= second.last().0@);
        assert(x.subrange(n + 32, n + 64) =~= first.last().1@);
        assert(y.subrange(n + 32, n + 64) =~= second.last().1@);
        Digest::lemma_view_injective(first.last().0, second.last().0);
        Digest::lemma_view_injective(first.last().1, second.last().1);
        lemma_proposals_bytes_injective(a, b);
        assert(first =~= a.push(first.last()));
        assert(second =~= b.push(second.last()));
    }
}

/// Headers that differ in round, author or proposals are hashed from
/// different bytes: only a collision of the hash function gives two such
/// headers one id.
pub proof fn lemma_header_preimage_injective(
    round: Round,
    author: PublicKey,
    proposals: Seq<(TxHash, ElectionId)>,
    other_round: Round,
    other_author: PublicKey,
    other_proposals: Seq<(TxHash, ElectionId)>,
)
    requires
        header_preimage(round, author, proposals) == header_preimage(
            other_round,
            other_author,
            other_proposals,
        ),
    ensures
        round == other_round,
        author == other_author,
        proposals == other_proposals,
{
    lemma_auto_spec_u64_to_from_le_bytes();
    lemma_proposals_bytes_len(proposals);
    lemma_proposals_bytes_len(other_proposals);
    let x = header_preimage(round, author, proposals);
    let y = header_preimage(other_round, other_author, other_proposals);
    assert(x.subrange(6, 38) =~= author@);
    assert(y.subrange(6, 38) =~= other_author@);
    PublicKey::lemma_view_injective(author, other_author);
    assert(x.subrange(38, 46) =~= spec_u64_to_le_bytes(round));
    assert(y.subrange(38, 46) =~= spec_u64_to_le_bytes(other_round));
    assert(spec_u64_from_le_bytes(spec_u64_to_le_bytes(round)) == round);
    assert(spec_u64_from_le_bytes(spec_u64_to_le_bytes(other_round)) == other_round);
    assert(x.subrange(46, x.len() as int) =~= proposals_bytes(proposals));
    assert(y.subrange(46, y.len() as int) =~= proposals_bytes(other_proposals));
    lemma_proposals_bytes_injective(proposals, other_proposals);
}

/// Votes that differ in anything but the signature are hashed from
/// different bytes.
pub proof fn lemma_vote_preimage_injective(vote: Vote, other: Vote)
    requires
        vote_preimage(vote) == vote_preimage(other),
    ensures
        vote == (Vote { signature: vote.signature, ..other }),
{
    lemma_auto_spec_u64_to_from_le_bytes();
    let x = vote_preimage(vote);
    let y = vote_preimage(other);
    assert(x.subrange(4, 12) =~= spec_u64_to_le_bytes(vote.round));
    assert(y.subrange(4, 12) =~= spec_u64_to_le_bytes(other.round));
    assert(spec_u64_from_le_bytes(spec_u64_to_le_bytes(vote.round)) == vote.round);
    assert(spec_u64_from_le_bytes(spec_u64_to_le_bytes(other.round)) == other.round);
    assert(x.subrange(12, 44) =~= vote.tx_hash@);
    assert(y.subrange(12, 44) =~= other.tx_hash@);
    Digest::lemma_view_injective(vote.tx_hash, other.tx_hash);
    assert(x.subrange(44, 76) =~= vote.election_id@);
    assert(y.subrange(44, 76) =~= other.election_id@);
    Digest::lemma_view_injective(vote.election_id, other.election_id);
    assert(x.subrange(76, 84) =~= spec_u64_to_le_bytes(vote.proposal_round));
    assert(y.subrange(76, 84) =~= spec_u64_to_le_bytes(other.proposal_round));
    assert(spec_u64_from_le_bytes(spec_u64_to_le_bytes(vote.proposal_round))
        == vote.proposal_round);
    assert(spec_u64_from_le_bytes(spec_u64_to_le_bytes(other.proposal_round))
        == other.proposal_round);
    assert(x[84] == if vote.commit {
        1u8
    } else {
        0u8
    });
    assert(y[84] == if other.commit {
        1u8
    } else {
        0u8
    });
    assert(x.subrange(85, 117) =~= vote.author@);
    assert(y.subrange(85, 117) =~= other.author@);
    PublicKey::lemma_view_injective(vote.author, other.author);
    assert(x.subrange(117, 149) =~= vote.header_id@);
    assert(y.subrange(117, 149) =~= other.header_id@);
    Digest::lemma_view_injective(vote.header_id, other.header_id);
}

} // verus!

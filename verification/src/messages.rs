//! The values that replicas exchange: transactions and blocks between
//! workers, headers, votes and certificates between primaries.

use crate::assoc::copy_of;
use crate::types::{Digest, ElectionId, PublicKey, Round, Signature, TxHash};
use vstd::prelude::*;
use vstd::std_specs::cmp::PartialEqSpecImpl;

verus! {

/// A client transaction. The library reads its id and the length of its
/// payload; the rest it carries through.
#[derive(Clone, Debug, PartialEq, Eq)]
pub struct Transaction {
    /// The id that its client gave it.
    pub id: Vec<u8>,
    pub payload: Vec<u8>,
    pub signature: Vec<u8>,
    /// The commitment to the sender's balance.
    pub balance: Vec<u8>,
    /// The point that stands for the sender's representative.
    pub representative: Vec<u8>,
}

/// What a transaction holds.
pub struct TransactionView {
    pub id: Seq<u8>,
    pub payload: Seq<u8>,
    pub signature: Seq<u8>,
    pub balance: Seq<u8>,
    pub representative: Seq<u8>,
}

impl View for Transaction {
    type V = TransactionView;

    open spec fn view(&self) -> TransactionView {
        TransactionView {
            id: self.id@,
            payload: self.payload@,
            signature: self.signature@,
            balance: self.balance@,
            representative: self.representative@,
        }
    }
}

impl TransactionView {
    /// The bytes that the transaction adds to a batch: its payload and 32
    /// bytes of overhead.
    pub open spec fn size(self) -> nat {
        self.payload.len() + 32
    }
}

impl Transaction {
    /// A copy of the transaction.
    pub fn duplicate(&self) -> (copy: Transaction)
        ensures
            copy@ == self@,
    {
        Transaction {
            id: copy_of(self.id.as_slice()),
            payload: copy_of(self.payload.as_slice()),
            signature: copy_of(self.signature.as_slice()),
            balance: copy_of(self.balance.as_slice()),
            representative: copy_of(self.representative.as_slice()),
        }
    }
}

/// What a list of transactions holds.
pub open spec fn transactions_view(txs: Seq<Transaction>) -> Seq<TransactionView> {
    Seq::new(txs.len(), |i: int| txs[i]@)
}

/// A sealed batch: transactions in the order in which they arrived.
#[derive(Clone, Debug, PartialEq, Eq)]
pub struct Block {
    pub txs: Vec<Transaction>,
}

impl View for Block {
    type V = Seq<TransactionView>;

    open spec fn view(&self) -> Seq<TransactionView> {
        transactions_view(self.txs@)
    }
}

impl Default for Block {
    fn default() -> (block: Block)
        ensures
            block@ == Seq::<TransactionView>::empty(),
    {
        let block = Block { txs: Vec::new() };
        assert(block@ =~= Seq::<TransactionView>::empty());
        block
    }
}

/// What workers send one another.
#[derive(Clone, Debug)]
pub enum WorkerMessage {
    /// A sealed batch.
    Batch(Block),
    /// A request for the batches with these digests, and who asks.
    BatchRequest(Vec<Digest>, PublicKey),
}

/// A vote in one election.
#[derive(Clone, Copy, Debug, Eq, Hash)]
pub struct Vote {
    /// The vote round inside the election; it may exceed the header's round.
    pub round: Round,
    pub tx_hash: TxHash,
    pub election_id: ElectionId,
    /// The round of the header that opened the election.
    pub proposal_round: Round,
    pub commit: bool,
    pub author: PublicKey,
    pub header_id: Digest,
    pub signature: Signature,
}

impl PartialEq for Vote {
    fn eq(&self, other: &Vote) -> (same: bool) {
        self.round == other.round && self.tx_hash == other.tx_hash && self.election_id
            == other.election_id && self.proposal_round == other.proposal_round && self.commit
            == other.commit && self.author == other.author && self.header_id == other.header_id
            && self.signature == other.signature
    }
}

impl PartialEqSpecImpl for Vote {
    open spec fn obeys_eq_spec() -> bool {
        true
    }

    open spec fn eq_spec(&self, other: &Vote) -> bool {
        *self == *other
    }
}

impl Vote {
    /// A vote that is not signed yet.
    pub fn new(
        round: Round,
        tx_hash: TxHash,
        election_id: ElectionId,
        proposal_round: Round,
        commit: bool,
        author: PublicKey,
        header_id: Digest,
    ) -> (vote: Vote)
        ensures
            vote == Vote::unsigned(
                round,
                tx_hash,
                election_id,
                proposal_round,
                commit,
                author,
                header_id,
            ),
    {
        let signature = Signature::unsigned();
        Vote { round, tx_hash, election_id, proposal_round, commit, author, header_id, signature }
    }

    /// The vote with these fields that is not signed yet.
    pub open spec fn unsigned(
        round: Round,
        tx_hash: TxHash,
        election_id: ElectionId,
        proposal_round: Round,
        commit: bool,
        author: PublicKey,
        header_id: Digest,
    ) -> Vote {
        Vote {
            round,
            tx_hash,
            election_id,
            proposal_round,
            commit,
            author,
            header_id,
            signature: Signature::blank(),
        }
    }

    /// The vote that `author` casts in answer to this one: in the same
    /// election and on the same header, not signed yet.
    pub open spec fn reply(self, round: Round, tx_hash: TxHash, commit: bool, author: PublicKey) -> Vote {
        Vote::unsigned(
            round,
            tx_hash,
            self.election_id,
            self.proposal_round,
            commit,
            author,
            self.header_id,
        )
    }

    /// The vote that `author` casts in answer to this one.
    pub fn make_reply(&self, round: Round, tx_hash: TxHash, commit: bool, author: PublicKey) -> (vote:
        Vote)
        ensures
            vote == self.reply(round, tx_hash, commit, author),
    {
        Vote::new(
            round,
            tx_hash,
            self.election_id,
            self.proposal_round,
            commit,
            author,
            self.header_id,
        )
    }

    /// The same vote with `signature`.
    pub fn with_signature(self, signature: Signature) -> (vote: Vote)
        ensures
            vote == (Vote { signature, ..self }),
    {
        Vote { signature, ..self }
    }
}

/// A replica's proposal for one round: the elections it opens and the
/// transaction hash it proposes in each.
#[derive(Clone, Debug, PartialEq, Eq)]
pub struct Header {
    pub round: Round,
    pub author: PublicKey,
    pub proposals: Vec<(TxHash, ElectionId)>,
    pub id: Digest,
    pub signature: Signature,
}

/// What a header holds.
pub struct HeaderView {
    pub round: Round,
    pub author: PublicKey,
    pub proposals: Seq<(TxHash, ElectionId)>,
    pub id: Digest,
    pub signature: Signature,
}

impl HeaderView {
    /// The header with these fields that has neither id nor signature yet.
    pub open spec fn draft(round: Round, author: PublicKey, proposals: Seq<(TxHash, ElectionId)>) -> HeaderView {
        HeaderView { round, author, proposals, id: Digest::blank(), signature: Signature::blank() }
    }

    /// The elections that the header opens, in order.
    pub open spec fn elections(self) -> Seq<ElectionId> {
        Seq::new(self.proposals.len(), |i: int| self.proposals[i].1)
    }
}

impl View for Header {
    type V = HeaderView;

    open spec fn view(&self) -> HeaderView {
        HeaderView {
            round: self.round,
            author: self.author,
            proposals: self.proposals@,
            id: self.id,
            signature: self.signature,
        }
    }
}

impl Header {
    /// A header that has neither its id nor its signature yet: both are all
    /// zero until the hasher and the signer have filled them in.
    pub fn new(round: Round, author: PublicKey, proposals: Vec<(TxHash, ElectionId)>) -> (header:
        Header)
        ensures
            header@ == HeaderView::draft(round, author, proposals@),
    {
        Header { round, author, proposals, id: Digest::zero(), signature: Signature::unsigned() }
    }

    /// A copy of the header.
    pub fn duplicate(&self) -> (copy: Header)
        ensures
            copy@ == self@,
    {
        Header {
            round: self.round,
            author: self.author,
            proposals: copy_of(self.proposals.as_slice()),
            id: self.id,
            signature: self.signature,
        }
    }
}

/// A header with the votes of a quorum.
#[derive(Clone, Debug, PartialEq, Eq)]
pub struct Certificate {
    pub header: Header,
    pub votes: Vec<(PublicKey, Signature)>,
}

/// What a certificate holds.
pub struct CertificateView {
    pub header: HeaderView,
    pub votes: Seq<(PublicKey, Signature)>,
}

impl View for Certificate {
    type V = CertificateView;

    open spec fn view(&self) -> CertificateView {
        CertificateView { header: self.header@, votes: self.votes@ }
    }
}

impl CertificateView {
    /// The authorities whose votes the certificate carries.
    pub open spec fn voters(self) -> Set<PublicKey> {
        Set::new(|name: PublicKey| exists|i: int| 0 <= i < self.votes.len() && (#[trigger] self.votes[i]).0 == name)
    }

    /// No authority has two votes in the certificate.
    pub open spec fn voters_distinct(self) -> bool {
        forall|i: int, j: int| 0 <= i < j < self.votes.len() ==> self.votes[i].0 != self.votes[j].0
    }
}

impl Certificate {
    /// The authority whose header is certified.
    pub fn origin(&self) -> (author: PublicKey)
        ensures
            author == self@.header.author,
    {
        self.header.author
    }
}

/// What primaries send one another.
#[derive(Clone, Debug)]
pub enum PrimaryMessage {
    Header(Header),
    Vote(Vote),
    Certificate(Certificate),
}

} // verus!

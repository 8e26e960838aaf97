//! The errors of the agreement layer.

use crate::types::{Digest, PublicKey};
use vstd::prelude::*;

verus! {

/// Why a message of a peer is refused.
#[derive(Clone, Copy, Debug, PartialEq, Eq)]
pub enum DagError {
    /// A signature does not verify.
    InvalidSignature,
    /// The authority has voted on this header before.
    AuthorityReuse(PublicKey),
    /// The votes of a certificate do not have the stake of a quorum.
    CertificateRequiresQuorum,
    /// The header does not carry the digest of what it holds as its id.
    InvalidHeaderId(Digest),
}

/// The result of handling a message of a peer.
pub type DagResult<T> = Result<T, DagError>;

} // verus!

//! Why a transaction is not valid with respect to the ledger.

use crate::ring_signer::{KeyError, RingSignatureError};
use vstd::prelude::*;
use vstd::std_specs::convert::FromSpecImpl;

verus! {

/// The reasons why a single transaction may fail to be valid.
#[derive(Clone, Debug, Eq, Hash, Ord, PartialEq, PartialOrd)]
pub enum TransactionValidationError {
    /// Each input should have one membership proof.
    InputsProofsLengthMismatch,
    /// A transaction must have at least one input.
    NoInputs,
    /// A transaction must have no more than the maximum allowed number of
    /// inputs.
    TooManyInputs,
    /// Each input must have a signature.
    InsufficientInputSignatures,
    /// Each input must have a valid signature.
    InvalidInputSignature,
    /// All range proofs in the transaction must be valid.
    InvalidRangeProof,
    /// Each input must contain a ring with no fewer than the minimum number
    /// of elements.
    InsufficientRingSize,
    /// The number of blocks in the ledger exceeds the tombstone block number.
    TombstoneBlockExceeded,
    /// The tombstone block is too far in the future.
    TombstoneBlockTooFar,
    /// A transaction must have at least one output.
    NoOutputs,
    /// A transaction must have no more than the maximum allowed number of
    /// outputs.
    TooManyOutputs,
    /// Each input must contain a ring with no more than the maximum number
    /// of elements.
    ExcessiveRingSize,
    /// All elements in all rings within the transaction must be unique.
    DuplicateRingElements,
    /// The elements of each ring must be sorted.
    UnsortedRingElements,
    /// All rings in a transaction must be of the same size.
    UnequalRingSizes,
    /// Inputs must be sorted by the public key of the first ring element of
    /// each input.
    UnsortedInputs,
    /// Key images must be sorted.
    UnsortedKeyImages,
    /// The transaction contains a key image that has been spent before.
    ContainsSpentKeyImage,
    /// Key images within the transaction must be unique.
    DuplicateKeyImages,
    /// Output public keys in the transaction must be unique.
    DuplicateOutputPublicKey,
    /// The transaction contains an output public key that has appeared in
    /// the ledger before.
    ContainsExistingOutputPublicKey,
    /// Each ring element must have a corresponding proof of membership.
    MissingTxOutMembershipProof,
    /// Each ring element must have a valid proof of membership.
    InvalidTxOutMembershipProof,
    /// Public keys must be valid Ristretto points.
    InvalidRistrettoPublicKey,
    /// The ledger context given by the untrusted system does not suffice to
    /// validate the transaction.
    InvalidLedgerContext,
    /// An error of the ledger, in its own words.
    Ledger(String),
    /// The index of an output lies outside the ledger.
    LedgerTxOutIndexOutOfBounds(u64),
    /// An error occurred while validating a membership proof.
    MembershipProofValidationError,
    /// An error occurred while checking transaction fees.
    TxFeeError,
    /// Public keys must be valid Ristretto points.
    KeyError,
    /// A ring signature could not be made or checked.
    SignatureError,
    /// An output is missing the required memo field.
    MissingMemo,
    /// An output includes a memo, but this is not allowed yet.
    MemosNotAllowed,
    /// The transaction names a token id that is not configured yet.
    TokenNotYetConfigured,
    /// An output is missing the required masked token id field.
    MissingMaskedTokenId,
    /// An output includes a masked token id, but this is not allowed yet.
    MaskedTokenIdNotAllowed,
    /// Outputs must be sorted by public key, ascending.
    UnsortedOutputs,
    /// Input rules are not allowed yet.
    InputRulesNotAllowed,
    /// The version of a masked amount is unknown.
    UnknownMaskedAmountVersion,
}

/// The result of validating a transaction.
pub type TransactionValidationResult<T> = Result<T, TransactionValidationError>;

impl From<KeyError> for TransactionValidationError {
    fn from(_src: KeyError) -> (error: TransactionValidationError) {
        TransactionValidationError::KeyError
    }
}

impl FromSpecImpl<KeyError> for TransactionValidationError {
    open spec fn obeys_from_spec() -> bool {
        true
    }

    open spec fn from_spec(_src: KeyError) -> TransactionValidationError {
        TransactionValidationError::KeyError
    }
}

impl From<RingSignatureError> for TransactionValidationError {
    fn from(_src: RingSignatureError) -> (error: TransactionValidationError) {
        TransactionValidationError::SignatureError
    }
}

impl FromSpecImpl<RingSignatureError> for TransactionValidationError {
    open spec fn obeys_from_spec() -> bool {
        true
    }

    open spec fn from_spec(_src: RingSignatureError) -> TransactionValidationError {
        TransactionValidationError::SignatureError
    }
}

} // verus!

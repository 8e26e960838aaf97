//! A ring signer that holds no keys: it signs only with a one-time private
//! key that the input itself carries, after checking that the key owns the
//! input.

use curve25519_dalek::ristretto::{CompressedRistretto, RistrettoPoint};
use curve25519_dalek::scalar::Scalar;
use crate::assoc::copy_of;
use crate::types::bytes_equal;
use vstd::prelude::*;

verus! {

/// Whether 32 bytes are the encoding of a point of the Ristretto group: the
/// name of what `CompressedRistretto::decompress` decides.
pub uninterp spec fn ristretto_decodes(bytes: Seq<u8>) -> bool;

/// The encoding of the public key that belongs to a private key, the scalar
/// being taken from 32 bytes modulo the group order: the name of what
/// `RistrettoPoint::mul_base` computes.
pub uninterp spec fn ristretto_public(scalar: Seq<u8>) -> Seq<u8>;

/// `CompressedRistretto::decompress` of curve25519-dalek, reduced to whether
/// it finds a point. The contract gives the answer its name and claims no
/// more than that the same bytes always get the same answer.
#[verifier::external_body]
fn decodes_to_point(bytes: &[u8; 32]) -> (valid: bool)
    ensures
        valid == ristretto_decodes(bytes@),
{
    CompressedRistretto(*bytes).decompress().is_some()
}

/// `RistrettoPoint::mul_base` of curve25519-dalek on the scalar that
/// `Scalar::from_bytes_mod_order` reads from `scalar`, compressed to bytes.
/// The contract gives the result its name and claims no more than that the
/// same scalar always gets the same public key.
#[verifier::external_body]
fn public_key_of(scalar: &[u8; 32]) -> (public: [u8; 32])
    ensures
        public@ == ristretto_public(scalar@),
{
    RistrettoPoint::mul_base(&Scalar::from_bytes_mod_order(*scalar)).compress().to_bytes()
}

/// Why a key is refused.
#[derive(Clone, Copy, Debug, PartialEq, Eq, Structural)]
pub enum KeyError {
    /// The bytes are not the encoding of a point.
    InvalidPublicKey,
}

/// An error of the ring signature scheme itself. What it holds is the
/// scheme's own affair.
#[derive(Clone, Copy, Debug, PartialEq, Eq, Structural)]
pub struct RingSignatureError {}

/// Why a ring is not signed.
#[derive(Clone, Copy, Debug, PartialEq, Eq, Structural)]
pub enum SignerError {
    /// The index of the real input lies outside the ring.
    RealInputIndexOutOfBounds,
    /// The input carries a subaddress index and no one-time private key, and
    /// this signer holds no keys to derive one.
    NoPathToSpendKey,
    /// The one-time private key does not belong to the real input.
    TrueInputNotOwned,
    /// The target key of the real input is no key.
    Keys(KeyError),
}

/// One member of a ring.
#[derive(Clone, Copy, Debug)]
pub struct RingMember {
    /// The compressed one-time public key that may spend the output.
    pub target_key: [u8; 32],
}

/// How the one-time private key of an input is to be had.
#[derive(Clone, Copy, Debug)]
pub enum OneTimeKeyDeriveData {
    /// The one-time private key itself.
    OneTimeKey([u8; 32]),
    /// The index of the subaddress that owns the output.
    SubaddressIndex(u64),
}

/// What the owner of an input knows about it.
#[derive(Clone, Copy, Debug)]
pub struct InputSecret {
    pub onetime_key_derive_data: OneTimeKeyDeriveData,
}

/// A ring of outputs, one of which is the real input, ready to be signed.
#[derive(Debug)]
pub struct SignableInputRing {
    pub members: Vec<RingMember>,
    /// The index of the real input in `members`.
    pub real_input_index: usize,
    pub input_secret: InputSecret,
}

/// What a ring shows to its signer.
pub struct SignableInputRingView {
    pub members: Seq<RingMember>,
    pub real_input_index: nat,
    pub input_secret: InputSecret,
}

impl View for SignableInputRing {
    type V = SignableInputRingView;

    open spec fn view(&self) -> SignableInputRingView {
        SignableInputRingView {
            members: self.members@,
            real_input_index: self.real_input_index as nat,
            input_secret: self.input_secret,
        }
    }
}

/// What the ring signature scheme is to sign, and with which key.
#[derive(Debug, PartialEq, Eq)]
pub struct SigningRequest {
    /// The one-time private key of the real input.
    pub onetime_private_key: [u8; 32],
    pub message: Vec<u8>,
    /// The target keys of the members of the ring, in order.
    pub ring: Vec<[u8; 32]>,
}

/// What a signing request holds.
pub struct SigningRequestView {
    pub onetime_private_key: Seq<u8>,
    pub message: Seq<u8>,
    pub ring: Seq<Seq<u8>>,
}

impl View for SigningRequest {
    type V = SigningRequestView;

    open spec fn view(&self) -> SigningRequestView {
        SigningRequestView {
            onetime_private_key: self.onetime_private_key@,
            message: self.message@,
            ring: Seq::new(self.ring@.len(), |i: int| self.ring@[i]@),
        }
    }
}

impl SignableInputRingView {
    /// The target keys of the members, in order.
    pub open spec fn target_keys(self) -> Seq<Seq<u8>> {
        Seq::new(self.members.len(), |i: int| self.members[i].target_key@)
    }

    /// What a signer without keys makes of the ring and `message`, given
    /// for each member whether its target key is a key (`members_valid`)
    /// and the public key of the one-time private key that the input
    /// carries (`public`). The checks come in this order: the index of the
    /// real input, its target key, the kind of secret, ownership, and the
    /// target keys of all members.
    pub open spec fn checked(self, message: Seq<u8>, members_valid: Seq<bool>, public: Seq<u8>) -> Result<
        SigningRequestView,
        SignerError,
    > {
        if self.real_input_index >= self.members.len() {
            Err(SignerError::RealInputIndexOutOfBounds)
        } else if !members_valid[self.real_input_index as int] {
            Err(SignerError::Keys(KeyError::InvalidPublicKey))
        } else {
            match self.input_secret.onetime_key_derive_data {
                OneTimeKeyDeriveData::SubaddressIndex(_) => Err(SignerError::NoPathToSpendKey),
                OneTimeKeyDeriveData::OneTimeKey(key) => {
                    if public != self.members[self.real_input_index as int].target_key@ {
                        Err(SignerError::TrueInputNotOwned)
                    } else if exists|j: int| 0 <= j < members_valid.len() && !members_valid[j] {
                        Err(SignerError::Keys(KeyError::InvalidPublicKey))
                    } else {
                        Ok(
                            SigningRequestView {
                                onetime_private_key: key@,
                                message,
                                ring: self.target_keys(),
                            },
                        )
                    }
                },
            }
        }
    }

    /// For each member whether its target key is the encoding of a point.
    pub open spec fn decoding_members(self) -> Seq<bool> {
        Seq::new(self.members.len(), |j: int| ristretto_decodes(self.members[j].target_key@))
    }

    /// What a signer without keys makes of the ring and `message`.
    pub open spec fn sign(self, message: Seq<u8>) -> Result<SigningRequestView, SignerError> {
        self.checked(
            message,
            self.decoding_members(),
            match self.input_secret.onetime_key_derive_data {
                OneTimeKeyDeriveData::OneTimeKey(key) => ristretto_public(key@),
                OneTimeKeyDeriveData::SubaddressIndex(_) => Seq::empty(),
            },
        )
    }
}

/// A ring signer that holds no keys and derives none. It works only where
/// the input carries its one-time private key.
#[derive(Clone, Copy, Debug)]
pub struct NoKeysRingSigner {}

impl NoKeysRingSigner {
    /// Decides whether `ring` can be signed, given for each member whether
    /// its target key is a key and the public key of the one-time private
    /// key that the input carries, and makes the request for the signature
    /// scheme. The ring is refused where the index of its real input lies
    /// outside it, where the target key of the real input is no key, where
    /// the input carries no one-time private key, where that key does not
    /// belong to the real input, and where the target key of any member is
    /// no key; the first of these that holds gives the error.
    #[verifier::loop_isolation(false)]
    pub fn check(
        &self,
        message: &[u8],
        ring: &SignableInputRing,
        members_valid: &Vec<bool>,
        public: &[u8; 32],
    ) -> (made: Result<SigningRequest, SignerError>)
        requires
            members_valid@.len() == ring@.members.len(),
        ensures
            match made {
                Ok(request) => ring@.checked(message@, members_valid@, public@) == Ok::<
                    SigningRequestView,
                    SignerError,
                >(request@),
                Err(error) => ring@.checked(message@, members_valid@, public@) == Err::<
                    SigningRequestView,
                    SignerError,
                >(error),
            },
    {
        if ring.real_input_index >= ring.members.len() {
            return Err(SignerError::RealInputIndexOutOfBounds);
        }
        if !members_valid[ring.real_input_index] {
            return Err(SignerError::Keys(KeyError::InvalidPublicKey));
        }
        let key = match ring.input_secret.onetime_key_derive_data {
            OneTimeKeyDeriveData::OneTimeKey(key) => key,
            OneTimeKeyDeriveData::SubaddressIndex(_) => {
                return Err(SignerError::NoPathToSpendKey);
            },
        };
        if !bytes_equal(public, &ring.members[ring.real_input_index].target_key) {
            return Err(SignerError::TrueInputNotOwned);
        }
        let mut keys: Vec<[u8; 32]> = Vec::new();
        let mut i: usize = 0;
        while i < ring.members.len()
            invariant
                i <= ring.members.len(),
                members_valid@.len() == ring.members@.len(),
                keys@.len() == i,
                forall|k: int| 0 <= k < i ==> keys@[k] == ring.members@[k].target_key,
                forall|k: int| 0 <= k < i ==> members_valid@[k],
            decreases ring.members.len() - i,
        {
            if !members_valid[i] {
                return Err(SignerError::Keys(KeyError::InvalidPublicKey));
            }
            keys.push(ring.members[i].target_key);
            i += 1;
        }
        let request = SigningRequest {
            onetime_private_key: key,
            message: copy_of(message),
            ring: keys,
        };
        assert(request@.ring =~= ring@.target_keys());
        Ok(request)
    }

    /// Checks that `ring` can be signed with the one-time private key that
    /// it carries, and makes the request for the signature scheme: the
    /// key, the message, and the target keys of the ring. The ring is
    /// refused where the index of its real input lies outside it, where
    /// the target key of the real input is no point, where the input
    /// carries no one-time private key, where that key does not belong to
    /// the real input, and where the target key of any member is no point.
    pub fn sign(&self, message: &[u8], ring: &SignableInputRing) -> (made: Result<
        SigningRequest,
        SignerError,
    >)
        ensures
            match made {
                Ok(request) => ring@.sign(message@) == Ok::<SigningRequestView, SignerError>(
                    request@,
                ),
                Err(error) => ring@.sign(message@) == Err::<SigningRequestView, SignerError>(error),
            },
    {
        let mut members_valid: Vec<bool> = Vec::new();
        let mut i: usize = 0;
        while i < ring.members.len()
            invariant
                i <= ring.members.len(),
                members_valid@.len() == i,
                forall|k: int|
                    0 <= k < i ==> members_valid@[k] == ristretto_decodes(
                        ring.members@[k].target_key@,
                    ),
            decreases ring.members.len() - i,
        {
            members_valid.push(decodes_to_point(&ring.members[i].target_key));
            i += 1;
        }
        assert(members_valid@ =~= ring@.decoding_members());
        match ring.input_secret.onetime_key_derive_data {
            OneTimeKeyDeriveData::OneTimeKey(key) => {
                let public = public_key_of(&key);
                self.check(message, ring, &members_valid, &public)
            },
            OneTimeKeyDeriveData::SubaddressIndex(_) => {
                let unused = [0u8; 32];
                self.check(message, ring, &members_valid, &unused)
            },
        }
    }
}

} // verus!

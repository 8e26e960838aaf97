//! Domain separation tags: byte strings that set apart the hash functions
//! that the protocol derives from one base function, and the reserved
//! subaddress indices.

use vstd::prelude::*;

verus! {

/// Domain separator for the onetime key "hash_to_point" function.
pub const HASH_TO_POINT_DOMAIN_TAG: &'static str = "mc_onetime_key_hash_to_point";

/// Domain separator for the onetime key "hash_to_scalar" function.
pub const HASH_TO_SCALAR_DOMAIN_TAG: &'static str = "mc_onetime_key_hash_to_scalar";

/// Domain separator for the challenges of a ring signature.
pub const RING_MLSAG_CHALLENGE_DOMAIN_TAG: &'static str = "mc_ring_mlsag_challenge";

/// Domain separator for the value mask of an amount.
pub const AMOUNT_VALUE_DOMAIN_TAG: &'static str = "mc_amount_value";

/// Domain separator for the token id mask of an amount.
pub const AMOUNT_TOKEN_ID_DOMAIN_TAG: &'static str = "mc_amount_token_id";

/// Domain separator for the blinding mask of an amount.
pub const AMOUNT_BLINDING_DOMAIN_TAG: &'static str = "mc_amount_blinding";

/// Domain separator for the shared secret of an amount.
pub const AMOUNT_SHARED_SECRET_DOMAIN_TAG: &'static str = "mc_amount_shared_secret";

/// Domain separator for the salt of the blinding factors of an amount.
pub const AMOUNT_BLINDING_FACTORS_DOMAIN_TAG: [u8; 26] = [
    109, 99, 95, 97, 109, 111, 117, 110, 116, 95, 98, 108, 105, 110, 100, 105, 110, 103, 95, 102, 97, 99, 116, 111, 114, 115,
];

/// Domain separator for the transcript of a range proof.
pub const BULLETPROOF_DOMAIN_TAG: &'static str = "mc_bulletproof_transcript";

/// Domain separator for hashing a leaf of the output tree.
pub const TXOUT_MERKLE_LEAF_DOMAIN_TAG: &'static str = "mc_tx_out_merkle_leaf";

/// Domain separator for hashing an inner node of the output tree.
pub const TXOUT_MERKLE_NODE_DOMAIN_TAG: &'static str = "mc_tx_out_merkle_node";

/// Domain separator for hashing the "nil" value of the output tree.
pub const TXOUT_MERKLE_NIL_DOMAIN_TAG: &'static str = "mc_tx_out_merkle_nil";

/// Domain separator for the extended message digest.
pub const EXTENDED_MESSAGE_DOMAIN_TAG: &'static str = "mc_extended_message";

/// Domain separator for the digest of extended message and summary.
pub const EXTENDED_MESSAGE_AND_TX_SUMMARY_DOMAIN_TAG: &'static str = "mc_extended_message_and_tx_summary";

/// Domain separator for hashing the prefix of a mint configuration.
pub const MINT_CONFIG_TX_PREFIX_DOMAIN_TAG: &'static str = "mc_mint_config_tx_prefix";

/// Domain separator for hashing the prefix of a mint.
pub const MINT_TX_PREFIX_DOMAIN_TAG: &'static str = "mc_mint_tx_prefix";

/// Domain separator for hashing a private view key and an index into a
/// subaddress.
pub const SUBADDRESS_DOMAIN_TAG: &'static str = "mc_subaddress";

/// The default address of an account is its subaddress number zero.
pub const DEFAULT_SUBADDRESS_INDEX: u64 = 0;

/// The subaddress index that stands for "none".
pub const INVALID_SUBADDRESS_INDEX: u64 = u64::MAX;

/// The change address of an account: the first reserved subaddress,
/// counting down.
pub const CHANGE_SUBADDRESS_INDEX: u64 = u64::MAX - 1;

/// The reserved subaddress of gift codes.
pub const GIFT_CODE_SUBADDRESS_INDEX: u64 = u64::MAX - 2;

} // verus!

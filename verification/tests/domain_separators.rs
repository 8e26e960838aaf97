use leaderless_consensus::domain_separators::{
    AMOUNT_BLINDING_FACTORS_DOMAIN_TAG, CHANGE_SUBADDRESS_INDEX, DEFAULT_SUBADDRESS_INDEX,
    GIFT_CODE_SUBADDRESS_INDEX, HASH_TO_POINT_DOMAIN_TAG, INVALID_SUBADDRESS_INDEX,
    SUBADDRESS_DOMAIN_TAG,
};

#[test]
fn the_salt_of_the_blinding_factors_is_a_byte_string() {
    assert_eq!(&AMOUNT_BLINDING_FACTORS_DOMAIN_TAG, b"mc_amount_blinding_factors");
}

#[test]
fn the_tags_are_told_apart_by_their_text() {
    assert_eq!(HASH_TO_POINT_DOMAIN_TAG, "mc_onetime_key_hash_to_point");
    assert_eq!(SUBADDRESS_DOMAIN_TAG, "mc_subaddress");
}

#[test]
fn the_reserved_subaddresses_count_down_from_the_largest_index() {
    assert_eq!(DEFAULT_SUBADDRESS_INDEX, 0);
    assert_eq!(INVALID_SUBADDRESS_INDEX, u64::MAX);
    assert_eq!(CHANGE_SUBADDRESS_INDEX, u64::MAX - 1);
    assert_eq!(GIFT_CODE_SUBADDRESS_INDEX, u64::MAX - 2);
}

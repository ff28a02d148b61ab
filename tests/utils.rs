use market::constants::{DRUID_CHARSET, DRUID_LENGTH};
use market::utils::{
    construct_druid, construct_initial_orderbook, construct_mongodb_object_id, druid_from_indices,
};

#[test]
fn druid_has_fixed_length_and_alphanumeric_characters() {
    for _ in 0..50 {
        let druid = construct_druid();
        assert_eq!(druid.chars().count(), DRUID_LENGTH);
        assert!(druid.chars().all(|c| DRUID_CHARSET.contains(c)));
        assert!(druid.chars().all(|c| c.is_ascii_alphanumeric()));
    }
}

#[test]
fn object_id_is_parsed_from_hex() {
    let id = construct_mongodb_object_id(String::from("507f1f77bcf86cd799439011"));
    assert_eq!(id.to_hex(), "507f1f77bcf86cd799439011");
    let upper = construct_mongodb_object_id(String::from("507F1F77BCF86CD799439011"));
    assert_eq!(upper.to_hex(), "507f1f77bcf86cd799439011");
}

#[test]
fn object_id_for_non_hex_is_fresh() {
    let a = construct_mongodb_object_id(String::from("not-an-id"));
    let b = construct_mongodb_object_id(String::from("507f1f77bcf86cd79943901"));
    assert_ne!(a, b);
    assert_eq!(a.to_hex().len(), 24);
}

#[test]
fn initial_orderbook_holds_one_ask() {
    let book = construct_initial_orderbook(
        String::from("listing"),
        150,
        1000,
        Some(String::from("other")),
    );
    assert!(book.bids.is_empty());
    assert!(book.pending_trades.is_empty());
    assert_eq!(book.asks.len(), 1);
    let ask = &book.asks[0];
    assert_eq!(ask.listing_id, "listing");
    assert_eq!(ask.price, 150);
    assert_eq!(ask.quantity, 1000);
    assert!(!ask.is_bid);
    assert!(ask.druid.is_none());
    assert_eq!(ask.desired_listing_id, Some(String::from("other")));
    assert_eq!(ask.id.len(), DRUID_LENGTH);
    assert!(!ask.created_at.is_empty());
    assert!(book.is_well_formed());
}

#[test]
fn initial_orderbook_with_no_quantity_is_not_well_formed() {
    let book = construct_initial_orderbook(String::from("listing"), 150, 0, None);
    assert!(!book.is_well_formed());
}

#[test]
fn druid_spells_the_charset_at_the_drawn_positions() {
    let first: Vec<usize> = (0..16).collect();
    assert_eq!(druid_from_indices(&first), "ABCDEFGHIJKLMNOP");
    let mixed: Vec<usize> = vec![61, 26, 52, 0, 25, 51, 60, 1, 27, 53, 2, 28, 54, 3, 29, 55];
    assert_eq!(druid_from_indices(&mixed), "9a0AZz8Bb1Cc2Dd3");
}

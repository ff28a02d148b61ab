use market::locator::find_index_for_order;
use market::orders::{Asset, Order, OrderBook};

/// These tests count prices and quantities in hundredths.
fn units(x: f64) -> u64 {
    (x * 100.0).round() as u64
}

fn create_order(id: &str, price: f64, quantity: f64, is_bid: bool) -> Order {
    Order {
        id: String::from(id),
        listing_id: String::from("1"),
        price: units(price),
        quantity: units(quantity),
        is_bid,
        created_at: String::from(""),
        druid: None,
        desired_listing_id: None,
    }
}

fn create_simple_bid(price: f64, quantity: f64) -> Order {
    create_order("1", price, quantity, true)
}

fn create_simple_ask(price: f64, quantity: f64) -> Order {
    create_order("1", price, quantity, false)
}

fn prices(side: &[Order]) -> Vec<u64> {
    side.iter().map(|o| o.price).collect()
}

fn quantities(side: &[Order]) -> Vec<u64> {
    side.iter().map(|o| o.quantity).collect()
}

#[test]
fn should_add_first_order() {
    let mut order_book = OrderBook::new();
    let mut order = create_simple_bid(1.0, 1.0);

    order_book.add_order(&mut order);

    assert_eq!(order_book.bids.len(), 1);
    assert_eq!(order_book.bids[0].price, units(1.0));
    assert_eq!(order_book.bids[0].id, String::from("1"));
    assert_eq!(order_book.bids[0].quantity, units(1.0));
    assert_eq!(order_book.asks.len(), 0);
    assert_eq!(order_book.pending_trades.len(), 0);
}

#[test]
fn should_match_bid_to_ask() {
    let mut order_book = OrderBook::new();
    let mut ask = create_simple_ask(1.5, 10.0);
    let mut bid = create_simple_bid(2.0, 3.0);

    order_book.add_order(&mut ask);
    order_book.add_order(&mut bid);

    assert_eq!(order_book.bids.len(), 0);
    assert_eq!(order_book.asks.len(), 1);
    assert_eq!(order_book.asks[0].quantity, units(7.0));
    assert_eq!(order_book.pending_trades.len(), 1);
    assert_eq!(order_book.pending_trades[0].quantity, units(3.0));
    assert_eq!(order_book.pending_trades[0].price, units(1.5));
    assert_eq!(order_book.pending_trades[0].bid_id, String::from("1"));
    assert_eq!(order_book.pending_trades[0].ask_id, String::from("1"));
    assert!(order_book.pending_trades[0].druid.len() > 0);
}

#[test]
fn should_match_ask_to_bid() {
    let mut order_book = OrderBook::new();
    let mut bid = create_simple_bid(1.5, 10.0);
    let mut ask = create_simple_ask(1.0, 3.0);

    order_book.add_order(&mut bid);
    order_book.add_order(&mut ask);

    assert_eq!(order_book.bids.len(), 1);
    assert_eq!(order_book.bids[0].quantity, units(7.0));
    assert_eq!(order_book.asks.len(), 0);
    assert_eq!(order_book.pending_trades.len(), 1);
    assert_eq!(order_book.pending_trades[0].quantity, units(3.0));
    assert_eq!(order_book.pending_trades[0].price, units(1.0));
    assert_eq!(order_book.pending_trades[0].bid_id, String::from("1"));
    assert_eq!(order_book.pending_trades[0].ask_id, String::from("1"));
    assert!(order_book.pending_trades[0].druid.len() > 0);
}

#[test]
fn should_handle_unmatched_orders() {
    let mut order_book = OrderBook::new();
    let mut bid = create_simple_bid(1.5, 10.0);
    let mut ask = create_simple_ask(2.0, 3.0);

    order_book.add_order(&mut bid);
    order_book.add_order(&mut ask);

    assert_eq!(order_book.bids.len(), 1);
    assert_eq!(order_book.bids[0].quantity, units(10.0));
    assert_eq!(order_book.bids[0].id, String::from("1"));
    assert_eq!(order_book.asks.len(), 1);
    assert_eq!(order_book.asks[0].quantity, units(3.0));
    assert_eq!(order_book.asks[0].id, String::from("1"));
    assert_eq!(order_book.pending_trades.len(), 0);
}

fn book_with_asks() -> OrderBook {
    let mut book = OrderBook::new();
    let mut a = create_order("a", 1.2, 3.0, false);
    let mut b = create_order("b", 2.0, 1.0, false);
    let mut c = create_order("c", 1.0, 2.0, false);
    let mut d = create_order("d", 1.5, 5.0, false);
    book.add_order(&mut a);
    book.add_order(&mut b);
    book.add_order(&mut c);
    book.add_order(&mut d);
    book
}

#[test]
fn two_resting_asks_filled_in_one_call_are_both_removed() {
    let mut book = book_with_asks();
    assert_eq!(prices(&book.asks), vec![units(1.0), units(1.2), units(1.5), units(2.0)]);

    let mut bid = create_order("x", 1.3, 5.0, true);
    book.add_order(&mut bid);

    assert_eq!(bid.quantity, 0);
    assert_eq!(book.pending_trades.len(), 2);
    assert_eq!(book.pending_trades[0].ask_id, "c");
    assert_eq!(book.pending_trades[0].quantity, units(2.0));
    assert_eq!(book.pending_trades[0].price, units(1.0));
    assert_eq!(book.pending_trades[1].ask_id, "a");
    assert_eq!(book.pending_trades[1].quantity, units(3.0));
    assert_eq!(book.pending_trades[1].price, units(1.2));
    let ids: Vec<String> = book.asks.iter().map(|o| o.id.clone()).collect();
    assert_eq!(ids, vec!["d", "b"]);
    assert_eq!(quantities(&book.asks), vec![units(5.0), units(1.0)]);
    assert!(book.bids.is_empty());
}

#[test]
fn multi_fill_ending_in_partial_fill_keeps_reduced_order() {
    let mut book = book_with_asks();
    let mut bid = create_order("x", 1.6, 7.0, true);
    book.add_order(&mut bid);

    assert_eq!(bid.quantity, 0);
    assert_eq!(book.pending_trades.len(), 3);
    assert_eq!(book.pending_trades[2].ask_id, "d");
    assert_eq!(book.pending_trades[2].quantity, units(2.0));
    assert_eq!(book.pending_trades[2].price, units(1.5));
    assert_eq!(prices(&book.asks), vec![units(1.5), units(2.0)]);
    assert_eq!(quantities(&book.asks), vec![units(3.0), units(1.0)]);
    assert!(book.bids.is_empty());
}

#[test]
fn remainder_after_exhausting_the_opposite_side_rests() {
    let mut book = OrderBook::new();
    let mut ask = create_order("a", 1.0, 2.0, false);
    book.add_order(&mut ask);
    let mut bid = create_order("b", 3.0, 5.0, true);
    book.add_order(&mut bid);

    assert_eq!(bid.quantity, units(3.0));
    assert!(book.asks.is_empty());
    assert_eq!(book.bids.len(), 1);
    assert_eq!(book.bids[0].id, "b");
    assert_eq!(book.bids[0].quantity, units(3.0));
    assert_eq!(book.pending_trades.len(), 1);
    assert_eq!(book.pending_trades[0].quantity, units(2.0));
}

#[test]
fn zero_quantity_order_changes_nothing() {
    let mut book = book_with_asks();
    let mut bid = create_order("z", 5.0, 0.0, true);
    book.add_order(&mut bid);
    let mut ask = create_order("y", 0.5, 0.0, false);
    book.add_order(&mut ask);

    assert!(book.pending_trades.is_empty());
    assert!(book.bids.is_empty());
    assert_eq!(book.asks.len(), 4);
    assert_eq!(bid.quantity, 0);
}

#[test]
fn sides_stay_sorted_best_price_first() {
    let mut book = OrderBook::new();
    for (i, p) in [1.1, 0.9, 1.3, 1.0, 1.3, 0.5].iter().enumerate() {
        let mut bid = create_order(&format!("b{}", i), *p, 1.0, true);
        book.add_order(&mut bid);
    }
    for (i, p) in [2.5, 2.0, 3.0, 2.0, 1.9].iter().enumerate() {
        let mut ask = create_order(&format!("a{}", i), *p, 1.0, false);
        book.add_order(&mut ask);
    }
    assert_eq!(
        prices(&book.bids),
        vec![units(1.3), units(1.3), units(1.1), units(1.0), units(0.9), units(0.5)]
    );
    assert_eq!(
        prices(&book.asks),
        vec![units(1.9), units(2.0), units(2.0), units(2.5), units(3.0)]
    );
    assert!(book.is_well_formed());
}

#[test]
fn incoming_ask_matches_highest_bid_first() {
    let mut book = OrderBook::new();
    let mut low = create_order("low", 1.0, 1.0, true);
    let mut high = create_order("high", 1.4, 1.0, true);
    book.add_order(&mut low);
    book.add_order(&mut high);
    let mut ask = create_order("s", 1.2, 2.0, false);
    book.add_order(&mut ask);

    assert_eq!(book.pending_trades.len(), 1);
    assert_eq!(book.pending_trades[0].bid_id, "high");
    assert_eq!(book.pending_trades[0].ask_id, "s");
    assert_eq!(book.pending_trades[0].price, units(1.2));
    assert_eq!(book.bids.len(), 1);
    assert_eq!(book.bids[0].id, "low");
    assert_eq!(book.asks.len(), 1);
    assert_eq!(book.asks[0].quantity, units(1.0));
}

#[test]
fn fills_conserve_quantity_and_trade_at_lower_price() {
    let mut book = OrderBook::new();
    let mut ask = create_order("a", 1.25, 4.0, false);
    book.add_order(&mut ask);
    let mut bid = create_order("b", 1.75, 2.5, true);
    book.add_order(&mut bid);

    let trade = &book.pending_trades[0];
    assert_eq!(trade.quantity, units(2.5));
    assert_eq!(trade.price, units(1.25));
    assert_eq!(trade.bid_id, "b");
    assert_eq!(trade.ask_id, "a");
    assert!(!trade.created_at.is_empty());
    assert_eq!(book.asks[0].quantity + trade.quantity, units(4.0));
    assert_eq!(bid.quantity, 0);
}

#[test]
fn no_empty_order_rests_after_a_sequence_of_calls() {
    let mut book = book_with_asks();
    let mut b1 = create_order("b1", 1.2, 4.0, true);
    let mut b2 = create_order("b2", 1.5, 1.0, true);
    let mut s1 = create_order("s1", 1.1, 1.0, false);
    let mut b3 = create_order("b3", 2.0, 4.0, true);
    book.add_order(&mut b1);
    book.add_order(&mut b2);
    book.add_order(&mut s1);
    book.add_order(&mut b3);
    assert!(book.bids.iter().all(|o| o.quantity > 0));
    assert!(book.asks.iter().all(|o| o.quantity > 0));
    assert!(book.pending_trades.iter().all(|t| t.quantity > 0));
    assert!(book.is_well_formed());
}

#[test]
fn well_formedness_check_rejects_bad_books() {
    let mut book = OrderBook::new();
    assert!(book.is_well_formed());
    book.asks.push(create_order("a", 2.0, 1.0, false));
    book.asks.push(create_order("b", 1.0, 1.0, false));
    assert!(!book.is_well_formed());

    let mut empty = OrderBook::new();
    empty.bids.push(create_order("c", 1.0, 0.0, true));
    assert!(!empty.is_well_formed());

    let mut wrong_side = OrderBook::new();
    wrong_side.bids.push(create_order("d", 1.0, 1.0, false));
    assert!(!wrong_side.is_well_formed());
}

#[test]
fn index_locator_on_empty_list_is_zero() {
    let list: Vec<Order> = Vec::new();
    assert_eq!(find_index_for_order(&list, &units(1.0)), 0);
}

#[test]
fn index_locator_finds_price_or_insertion_point() {
    let list: Vec<Order> = [1.0, 1.5, 2.0, 3.0]
        .iter()
        .map(|p| create_order("a", *p, 1.0, false))
        .collect();
    assert_eq!(find_index_for_order(&list, &units(1.5)), 1);
    assert_eq!(find_index_for_order(&list, &units(3.0)), 3);
    assert_eq!(find_index_for_order(&list, &units(0.5)), 0);
    assert_eq!(find_index_for_order(&list, &units(1.75)), 2);
    assert_eq!(find_index_for_order(&list, &units(4.0)), 4);
    let single = vec![create_order("a", 2.0, 1.0, false)];
    assert_eq!(find_index_for_order(&single, &units(1.0)), 0);
}

#[test]
fn asset_clone_keeps_fields() {
    let asset = Asset {
        address: String::from("addr"),
        name: String::from("Gold"),
        symbol: Some(String::from("GLD")),
        total_supply: 1000,
        highest_bid: None,
        lowest_ask: Some(String::from("1.5")),
    };
    let copy = asset.clone();
    assert_eq!(copy.address, "addr");
    assert_eq!(copy.symbol, Some(String::from("GLD")));
    assert_eq!(copy.total_supply, 1000);
    assert_eq!(copy.lowest_ask, Some(String::from("1.5")));
}

//! A marketplace order book: bids and asks kept sorted by price, matched
//! against incoming orders by price priority, with every match recorded as a
//! pending trade.
pub mod constants;
pub mod locator;
pub mod order_book;
pub mod orders;
pub mod utils;

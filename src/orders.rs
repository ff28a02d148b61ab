//! Orders, trades and the order book that holds them.
//!
//! Prices and quantities are fixed-point amounts counted in the smallest unit
//! that the market trades in.
use vstd::prelude::*;

verus! {

/// A directional quantity at a price: a buy (`is_bid`) or a sell.
pub struct Order {
    pub id: String,
    pub listing_id: String,
    pub price: u64,
    /// What is left to fill; it only decreases as the order trades.
    pub quantity: u64,
    pub is_bid: bool,
    pub created_at: String,
    pub druid: Option<String>,
    pub desired_listing_id: Option<String>,
}

/// The record of one match between a bid and an ask.
pub struct PendingTrade {
    pub bid_id: String,
    pub ask_id: String,
    pub quantity: u64,
    pub price: u64,
    pub created_at: String,
    pub druid: String,
}

/// The two sides of a listing's book and every trade it has produced.
///
/// Asks are kept cheapest first and bids dearest first, so that the front of
/// each side is its best price.
pub struct OrderBook {
    pub bids: Vec<Order>,
    pub asks: Vec<Order>,
    pub pending_trades: Vec<PendingTrade>,
}

/// A tradeable asset and its best quotes.
pub struct Asset {
    pub address: String,
    pub name: String,
    pub symbol: Option<String>,
    pub total_supply: u64,
    pub highest_bid: Option<String>,
    pub lowest_ask: Option<String>,
}

fn clone_opt_string(s: &Option<String>) -> (r: Option<String>)
    ensures
        r == *s,
{
    match s {
        Some(v) => Some(v.clone()),
        None => None,
    }
}

impl Clone for Order {
    fn clone(&self) -> (r: Self)
        ensures
            r == *self,
    {
        Order {
            id: self.id.clone(),
            listing_id: self.listing_id.clone(),
            price: self.price,
            quantity: self.quantity,
            is_bid: self.is_bid,
            created_at: self.created_at.clone(),
            druid: clone_opt_string(&self.druid),
            desired_listing_id: clone_opt_string(&self.desired_listing_id),
        }
    }
}

impl Clone for PendingTrade {
    fn clone(&self) -> (r: Self)
        ensures
            r == *self,
    {
        PendingTrade {
            bid_id: self.bid_id.clone(),
            ask_id: self.ask_id.clone(),
            quantity: self.quantity,
            price: self.price,
            created_at: self.created_at.clone(),
            druid: self.druid.clone(),
        }
    }
}

impl Clone for Asset {
    fn clone(&self) -> (r: Self)
        ensures
            r == *self,
    {
        Asset {
            address: self.address.clone(),
            name: self.name.clone(),
            symbol: clone_opt_string(&self.symbol),
            total_supply: self.total_supply,
            highest_bid: clone_opt_string(&self.highest_bid),
            lowest_ask: clone_opt_string(&self.lowest_ask),
        }
    }
}

/// On the side given by `is_bid`, a price `a` may stand before a price `b`:
/// bids run from the highest price down, asks from the lowest up.
pub open spec fn ranks_before(is_bid: bool, a: u64, b: u64) -> bool {
    if is_bid {
        a >= b
    } else {
        a <= b
    }
}

/// `s` is in price order for the side given by `is_bid`.
pub open spec fn sorted_for_side(s: Seq<Order>, is_bid: bool) -> bool {
    forall|i: int, j: int|
        0 <= i < j < s.len() ==> ranks_before(is_bid, #[trigger] s[i].price, #[trigger] s[j].price)
}

/// Placing an order of price `p` at position `i` of `s` keeps the side in
/// price order: everything before ranks no later, everything after no earlier.
pub open spec fn is_insertion_point(s: Seq<Order>, is_bid: bool, i: int, p: u64) -> bool {
    &&& 0 <= i <= s.len()
    &&& forall|j: int| 0 <= j < i ==> ranks_before(is_bid, #[trigger] s[j].price, p)
    &&& forall|j: int| i <= j < s.len() ==> ranks_before(is_bid, p, #[trigger] s[j].price)
}

/// Every order of `s` rests on the side given by `is_bid` with something
/// left to fill.
pub open spec fn resting_side(s: Seq<Order>, is_bid: bool) -> bool {
    forall|i: int| 0 <= i < s.len() ==> (#[trigger] s[i]).is_bid == is_bid && s[i].quantity > 0
}

impl OrderBook {
    /// The book's invariant: each side holds only live orders of that side,
    /// in price order.
    pub open spec fn wf(&self) -> bool {
        &&& resting_side(self.bids@, true)
        &&& resting_side(self.asks@, false)
        &&& sorted_for_side(self.bids@, true)
        &&& sorted_for_side(self.asks@, false)
    }
}

} // verus!

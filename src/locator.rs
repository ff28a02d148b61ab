//! Binary search for the position of a price in a side of the book.
use vstd::prelude::*;

use crate::orders::{is_insertion_point, ranks_before, sorted_for_side, Order};

verus! {

/// Finds where an order of `price` belongs in `prices`, sorted by ascending
/// price: the index of an order of exactly that price if there is one, else
/// the index at which inserting keeps the order. An empty list gives 0.
pub fn find_index_for_order(prices: &Vec<Order>, price: &u64) -> (r: usize)
    requires
        sorted_for_side(prices@, false),
    ensures
        is_insertion_point(prices@, false, r as int, *price),
        (exists|j: int| 0 <= j < prices@.len() && prices@[j].price == *price) ==> (r
            < prices@.len() && prices@[r as int].price == *price),
{
    find_index_on_side(prices, *price, false)
}

/// The same search on a side in the order given by `is_bid`.
pub(crate) fn find_index_on_side(prices: &Vec<Order>, price: u64, is_bid: bool) -> (r: usize)
    requires
        sorted_for_side(prices@, is_bid),
    ensures
        is_insertion_point(prices@, is_bid, r as int, price),
        (exists|j: int| 0 <= j < prices@.len() && prices@[j].price == price) ==> (r
            < prices@.len() && prices@[r as int].price == price),
{
    // The half-open range [left, right) holds what is still undecided, so
    // narrowing below index 0 never arises.
    let mut left: usize = 0;
    let mut right: usize = prices.len();
    while left < right
        invariant
            left <= right <= prices@.len(),
            sorted_for_side(prices@, is_bid),
            forall|j: int|
                0 <= j < left ==> ranks_before(is_bid, #[trigger] prices@[j].price, price)
                    && prices@[j].price != price,
            forall|j: int|
                right <= j < prices@.len() ==> ranks_before(is_bid, price, #[trigger] prices@[j].price)
                    && prices@[j].price != price,
        decreases right - left,
    {
        let mid: usize = left + (right - left) / 2;
        let mid_price: u64 = prices[mid].price;
        if mid_price == price {
            return mid;
        } else if (is_bid && mid_price > price) || (!is_bid && mid_price < price) {
            left = mid + 1;
        } else {
            right = mid;
        }
    }
    left
}

} // verus!

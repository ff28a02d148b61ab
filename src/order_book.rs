//! Matching an incoming order against the opposite side of the book.
//!
//! The model below describes one `add_order` call over sequences: the scan
//! walks the opposite side from its best price, trading while the prices
//! cross and the incoming order has quantity left.
use vstd::prelude::*;

use crate::locator::{find_index_for_order, find_index_on_side};
use crate::orders::{
    is_insertion_point, ranks_before, resting_side, sorted_for_side, Order, OrderBook, PendingTrade,
};
use crate::utils::{construct_druid, current_timestamp, is_druid};

verus! {

/// The incoming `taker` can trade with the resting `maker`: the bid's price is
/// at or above the ask's.
pub open spec fn crosses(taker: Order, maker: Order) -> bool {
    if taker.is_bid {
        maker.price <= taker.price
    } else {
        maker.price >= taker.price
    }
}

/// The smaller of two amounts.
pub open spec fn lesser(a: nat, b: nat) -> nat {
    if a <= b {
        a
    } else {
        b
    }
}

/// What is left of `taker` once it has traded with the first `i` orders of
/// `resting`.
pub open spec fn left_after(taker: Order, resting: Seq<Order>, i: nat) -> nat
    decreases i,
{
    if i == 0 {
        taker.quantity as nat
    } else {
        let q = left_after(taker, resting, (i - 1) as nat);
        (q - lesser(resting[i - 1].quantity as nat, q)) as nat
    }
}

/// The amount that changes hands between `taker` and the `j`-th order of
/// `resting`: all that is left of the smaller of the two.
pub open spec fn fill_at(taker: Order, resting: Seq<Order>, j: nat) -> nat {
    lesser(resting[j as int].quantity as nat, left_after(taker, resting, j))
}

/// The scan stops before the `i`-th resting order: none is left, the taker is
/// filled, or the prices no longer cross.
pub open spec fn stops_at(taker: Order, resting: Seq<Order>, i: nat) -> bool {
    i >= resting.len() || left_after(taker, resting, i) == 0 || !crosses(taker, resting[i as int])
}

/// The first position, from `i` on, where the scan stops.
pub open spec fn scan_from(taker: Order, resting: Seq<Order>, i: nat) -> nat
    decreases resting.len() - i,
{
    if stops_at(taker, resting, i) {
        i
    } else {
        scan_from(taker, resting, i + 1)
    }
}

/// How many resting orders `taker` trades with: one trade each.
pub open spec fn trade_count(taker: Order, resting: Seq<Order>) -> nat {
    scan_from(taker, resting, 0)
}

/// What `taker` has left when the scan stops.
pub open spec fn left_over(taker: Order, resting: Seq<Order>) -> nat {
    left_after(taker, resting, trade_count(taker, resting))
}

/// `o` after `fill` of it has traded.
pub open spec fn after_fill(o: Order, fill: nat) -> Order {
    Order { quantity: (o.quantity - fill) as u64, ..o }
}

/// `resting` with each order that the scan reached reduced by its fill.
pub open spec fn reduced(taker: Order, resting: Seq<Order>) -> Seq<Order> {
    Seq::new(
        resting.len(),
        |j: int|
            if j < trade_count(taker, resting) {
                after_fill(resting[j], fill_at(taker, resting, j as nat))
            } else {
                resting[j]
            },
    )
}

/// Of the first `i` resting orders traded with, how many were filled
/// completely: all of them, but for the last when it outlasted the taker.
pub open spec fn filled_out_by(taker: Order, resting: Seq<Order>, i: nat) -> nat {
    if i > 0 && fill_at(taker, resting, (i - 1) as nat) < resting[i - 1].quantity {
        (i - 1) as nat
    } else {
        i
    }
}

/// The opposite side once the scan is over and the orders it filled
/// completely are gone.
pub open spec fn resting_after(taker: Order, resting: Seq<Order>) -> Seq<Order> {
    reduced(taker, resting).skip(filled_out_by(taker, resting, trade_count(taker, resting)) as int)
}

/// `t` records that `fill` changed hands between `taker` and `maker`, at the
/// lower of their two prices, under a fresh correlation token. Its timestamp
/// is the time of the match.
pub open spec fn records_fill(t: PendingTrade, taker: Order, maker: Order, fill: nat) -> bool {
    &&& t.bid_id@ == (if taker.is_bid {
        taker.id@
    } else {
        maker.id@
    })
    &&& t.ask_id@ == (if taker.is_bid {
        maker.id@
    } else {
        taker.id@
    })
    &&& t.quantity == fill
    &&& t.price == lesser(taker.price as nat, maker.price as nat)
    &&& is_druid(t.druid@)
}

impl OrderBook {
    /// The side that an order with this `is_bid` trades against.
    pub open spec fn opposite_side(&self, is_bid: bool) -> Seq<Order> {
        if is_bid {
            self.asks@
        } else {
            self.bids@
        }
    }

    /// The side that an order with this `is_bid` rests on.
    pub open spec fn own_side(&self, is_bid: bool) -> Seq<Order> {
        if is_bid {
            self.bids@
        } else {
            self.asks@
        }
    }
}

/// Trades `order` against `resting` from its front while the prices cross and
/// `order` has quantity left, recording a trade for each fill. Returns how
/// many orders at the front of `resting` were filled completely.
fn match_against(
    order: &mut Order,
    resting: &mut Vec<Order>,
    trades: &mut Vec<PendingTrade>,
) -> (filled_out: usize)
    ensures
        *final(order) == after_fill(
            *old(order),
            (old(order).quantity - left_over(*old(order), old(resting)@)) as nat,
        ),
        final(resting)@ == reduced(*old(order), old(resting)@),
        filled_out == filled_out_by(
            *old(order),
            old(resting)@,
            trade_count(*old(order), old(resting)@),
        ),
        filled_out <= final(resting)@.len(),
        final(trades)@.len() == old(trades)@.len() + trade_count(*old(order), old(resting)@),
        final(trades)@.subrange(0, old(trades)@.len() as int) == old(trades)@,
        forall|j: int|
            0 <= j < trade_count(*old(order), old(resting)@) ==> records_fill(
                #[trigger] final(trades)@[old(trades)@.len() + j],
                *old(order),
                old(resting)@[j],
                fill_at(*old(order), old(resting)@, j as nat),
            ),
{
    let ghost taker = *order;
    let ghost start = resting@;
    let ghost before = trades@;
    let mut i: usize = 0;
    let mut filled_out: usize = 0;
    while i < resting.len() && order.quantity > 0 && ((order.is_bid && resting[i].price
        <= order.price) || (!order.is_bid && resting[i].price >= order.price))
        invariant
            i <= start.len(),
            resting@.len() == start.len(),
            scan_from(taker, start, 0) == scan_from(taker, start, i as nat),
            order.quantity == left_after(taker, start, i as nat),
            order.quantity <= taker.quantity,
            *order == after_fill(taker, (taker.quantity - order.quantity) as nat),
            forall|j: int|
                0 <= j < start.len() ==> #[trigger] resting@[j] == if j < i {
                    after_fill(start[j], fill_at(taker, start, j as nat))
                } else {
                    start[j]
                },
            filled_out == filled_out_by(taker, start, i as nat),
            trades@.len() == before.len() + i,
            trades@.subrange(0, before.len() as int) == before,
            forall|j: int|
                0 <= j < i ==> records_fill(
                    #[trigger] trades@[before.len() + j],
                    taker,
                    start[j],
                    fill_at(taker, start, j as nat),
                ),
        decreases start.len() - i,
    {
        let maker_quantity: u64 = resting[i].quantity;
        let fill: u64 = if maker_quantity < order.quantity {
            maker_quantity
        } else {
            order.quantity
        };
        let bid_id: String = if order.is_bid {
            order.id.clone()
        } else {
            resting[i].id.clone()
        };
        let ask_id: String = if order.is_bid {
            resting[i].id.clone()
        } else {
            order.id.clone()
        };
        let price: u64 = if resting[i].price < order.price {
            resting[i].price
        } else {
            order.price
        };
        let trade = PendingTrade {
            bid_id,
            ask_id,
            quantity: fill,
            price,
            created_at: current_timestamp(),
            druid: construct_druid(),
        };
        trades.push(trade);
        resting[i].quantity = maker_quantity - fill;
        order.quantity = order.quantity - fill;
        if maker_quantity == fill {
            filled_out = i + 1;
        }
        proof {
            assert(trades@.subrange(0, before.len() as int) =~= before);
        }
        i = i + 1;
    }
    filled_out
}

/// Drops the first `filled_out` orders of `list`, those the last scan filled
/// completely. They always form a prefix, since the scan goes on past an
/// order only once it is used up, so no removal can shift another.
fn clean_up_empty_orders(list: &mut Vec<Order>, filled_out: usize)
    requires
        filled_out <= old(list)@.len(),
    ensures
        final(list)@ == old(list)@.skip(filled_out as int),
{
    let rest: Vec<Order> = list.split_off(filled_out);
    *list = rest;
}

impl OrderBook {
    /// An empty book.
    pub fn new() -> (r: Self)
        ensures
            r.wf(),
            r.bids@.len() == 0,
            r.asks@.len() == 0,
            r.pending_trades@.len() == 0,
    {
        OrderBook { bids: Vec::new(), asks: Vec::new(), pending_trades: Vec::new() }
    }

    /// Matches `order` against the opposite side, best price first, and
    /// records a trade for each fill; whatever is left of it then rests on its
    /// own side at its price. `order.quantity` is reduced by what traded.
    pub fn add_order(&mut self, order: &mut Order)
        requires
            old(self).wf(),
        ensures
            final(self).wf(),
            *final(order) == after_fill(
                *old(order),
                (old(order).quantity - left_over(
                    *old(order),
                    old(self).opposite_side(old(order).is_bid),
                )) as nat,
            ),
            final(self).opposite_side(old(order).is_bid) == resting_after(
                *old(order),
                old(self).opposite_side(old(order).is_bid),
            ),
            final(self).pending_trades@.len() == old(self).pending_trades@.len() + trade_count(
                *old(order),
                old(self).opposite_side(old(order).is_bid),
            ),
            final(self).pending_trades@.subrange(0, old(self).pending_trades@.len() as int)
                == old(self).pending_trades@,
            forall|j: int|
                0 <= j < trade_count(*old(order), old(self).opposite_side(old(order).is_bid))
                    ==> records_fill(
                    #[trigger] final(self).pending_trades@[old(self).pending_trades@.len() + j],
                    *old(order),
                    old(self).opposite_side(old(order).is_bid)[j],
                    fill_at(*old(order), old(self).opposite_side(old(order).is_bid), j as nat),
                ),
            final(order).quantity == 0 ==> final(self).own_side(old(order).is_bid) == old(
                self,
            ).own_side(old(order).is_bid),
            final(order).quantity > 0 ==> exists|i: int|
                is_insertion_point(
                    old(self).own_side(old(order).is_bid),
                    old(order).is_bid,
                    i,
                    old(order).price,
                ) && final(self).own_side(old(order).is_bid) == old(self).own_side(
                    old(order).is_bid,
                ).insert(i, *final(order)),
            old(order).quantity == 0 ==> *final(self) == *old(self) && *final(order) == *old(
                order,
            ),
    {
        if order.quantity == 0 {
            return;
        }
        let filled_out: usize;
        if order.is_bid {
            filled_out = match_against(order, &mut self.asks, &mut self.pending_trades);
            clean_up_empty_orders(&mut self.asks, filled_out);
        } else {
            filled_out = match_against(order, &mut self.bids, &mut self.pending_trades);
            clean_up_empty_orders(&mut self.bids, filled_out);
        }
        if order.quantity > 0 {
            let ghost side = self.own_side(order.is_bid);
            assert(side == old(self).own_side(order.is_bid));
            let remainder: Order = order.clone();
            self.insert_order_in_list(remainder);
        }
    }

    /// Places `order` on its own side at the position that keeps the side in
    /// price order.
    fn insert_order_in_list(&mut self, order: Order)
        requires
            old(self).wf(),
            order.quantity > 0,
        ensures
            final(self).wf(),
            final(self).opposite_side(order.is_bid) == old(self).opposite_side(order.is_bid),
            final(self).pending_trades == old(self).pending_trades,
            exists|i: int|
                is_insertion_point(old(self).own_side(order.is_bid), order.is_bid, i, order.price)
                    && final(self).own_side(order.is_bid) == old(self).own_side(order.is_bid).insert(
                    i,
                    order,
                ),
    {
        let ghost side = old(self).own_side(order.is_bid);
        let ghost placed = order;
        if order.is_bid {
            let idx: usize = find_index_on_side(&self.bids, order.price, true);
            proof {
                lemma_insert_keeps_side(self.bids@, true, idx as int, order);
            }
            self.bids.insert(idx, order);
            assert(is_insertion_point(side, placed.is_bid, idx as int, placed.price)
                && self.own_side(placed.is_bid) == side.insert(idx as int, placed));
        } else {
            let idx: usize = find_index_for_order(&self.asks, &order.price);
            proof {
                lemma_insert_keeps_side(self.asks@, false, idx as int, order);
            }
            self.asks.insert(idx, order);
            assert(is_insertion_point(side, placed.is_bid, idx as int, placed.price)
                && self.own_side(placed.is_bid) == side.insert(idx as int, placed));
        }
    }
}

/// Whether every order of `s` is a live order of the side `is_bid`, in that
/// side's price order.
fn side_is_well_formed(s: &Vec<Order>, is_bid: bool) -> (r: bool)
    ensures
        r == (resting_side(s@, is_bid) && sorted_for_side(s@, is_bid)),
{
    let mut i: usize = 0;
    while i < s.len()
        invariant
            i <= s@.len(),
            resting_side(s@.take(i as int), is_bid),
            sorted_for_side(s@.take(i as int), is_bid),
        decreases s@.len() - i,
    {
        if s[i].is_bid != is_bid || s[i].quantity == 0 {
            assert(!resting_side(s@, is_bid));
            return false;
        }
        if i > 0 && ((is_bid && s[i - 1].price < s[i].price) || (!is_bid && s[i - 1].price
            > s[i].price)) {
            assert(!ranks_before(is_bid, s@[i - 1].price, s@[i as int].price));
            return false;
        }
        proof {
            let t = s@.take(i as int + 1);
            assert forall|a: int, b: int| 0 <= a < b < t.len() implies ranks_before(
                is_bid,
                #[trigger] t[a].price,
                #[trigger] t[b].price,
            ) by {
                if b == i && a < i - 1 {
                    assert(ranks_before(is_bid, s@.take(i as int)[a].price, s@.take(i as int)[i - 1].price));
                }
                if b < i {
                    assert(ranks_before(is_bid, s@.take(i as int)[a].price, s@.take(i as int)[b].price));
                }
            }
            assert forall|a: int| 0 <= a < t.len() implies (#[trigger] t[a]).is_bid == is_bid
                && t[a].quantity > 0 by {
                if a < i {
                    assert(s@.take(i as int)[a] == t[a]);
                }
            }
        }
        i = i + 1;
    }
    assert(s@.take(i as int) =~= s@);
    true
}

impl OrderBook {
    /// Whether the book is well formed, as `add_order` needs it to be.
    pub fn is_well_formed(&self) -> (r: bool)
        ensures
            r == self.wf(),
    {
        side_is_well_formed(&self.bids, true) && side_is_well_formed(&self.asks, false)
    }
}

/// Inserting a live order of a side at an insertion point keeps that side
/// live and in price order: nothing is lost, duplicated or reordered, and the
/// result is sorted in the side's direction.
pub proof fn lemma_insert_keeps_side(s: Seq<Order>, is_bid: bool, i: int, o: Order)
    requires
        resting_side(s, is_bid),
        sorted_for_side(s, is_bid),
        is_insertion_point(s, is_bid, i, o.price),
        o.is_bid == is_bid,
        o.quantity > 0,
    ensures
        resting_side(s.insert(i, o), is_bid),
        sorted_for_side(s.insert(i, o), is_bid),
{
    let t = s.insert(i, o);
    assert forall|a: int| 0 <= a < t.len() implies (#[trigger] t[a]).is_bid == is_bid && t[a].quantity
        > 0 by {
        if a > i {
            assert(t[a] == s[a - 1]);
        }
    }
    assert forall|a: int, b: int| 0 <= a < b < t.len() implies ranks_before(
        is_bid,
        #[trigger] t[a].price,
        #[trigger] t[b].price,
    ) by {
        if a < i && b > i {
            assert(t[b] == s[b - 1]);
        } else if a > i {
            assert(t[a] == s[a - 1]);
            assert(t[b] == s[b - 1]);
        } else if a == i && b > i {
            assert(t[b] == s[b - 1]);
        }
    }
}

/// The scan, started at `i`, stops somewhere between `i` and the end of
/// `resting`.
pub proof fn lemma_scan_bounded(taker: Order, resting: Seq<Order>, i: nat)
    requires
        i <= resting.len(),
    ensures
        i <= scan_from(taker, resting, i) <= resting.len(),
    decreases resting.len() - i,
{
    if !stops_at(taker, resting, i) {
        lemma_scan_bounded(taker, resting, i + 1);
    }
}

/// Every position that the scan from `i` passes is one where it goes on.
pub proof fn lemma_scan_passes(taker: Order, resting: Seq<Order>, i: nat, j: nat)
    requires
        i <= j < scan_from(taker, resting, i),
    ensures
        !stops_at(taker, resting, j),
    decreases j - i,
{
    if i < j {
        lemma_scan_passes(taker, resting, i + 1, j);
    }
}

/// Every order resting in a well-formed book has quantity left to fill. A
/// book is well formed when created and stays so through every `add_order`,
/// so no sequence of calls leaves an empty order resting.
pub proof fn lemma_resting_orders_are_live(book: OrderBook)
    requires
        book.wf(),
    ensures
        forall|i: int| 0 <= i < book.bids@.len() ==> #[trigger] book.bids@[i].quantity > 0,
        forall|i: int| 0 <= i < book.asks@.len() ==> #[trigger] book.asks@[i].quantity > 0,
{
    assert forall|i: int| 0 <= i < book.bids@.len() implies #[trigger] book.bids@[i].quantity > 0 by {
        assert(resting_side(book.bids@, true));
    }
    assert forall|i: int| 0 <= i < book.asks@.len() implies #[trigger] book.asks@[i].quantity > 0 by {
        assert(resting_side(book.asks@, false));
    }
}

/// Each side of a well-formed book is sorted by price: bids from the highest
/// down, asks from the lowest up. A book is well formed when created and
/// stays so through every `add_order`.
pub proof fn lemma_sides_are_sorted(book: OrderBook)
    requires
        book.wf(),
    ensures
        forall|i: int, j: int|
            0 <= i < j < book.bids@.len() ==> #[trigger] book.bids@[i].price >= #[trigger] book.bids@[j].price,
        forall|i: int, j: int|
            0 <= i < j < book.asks@.len() ==> #[trigger] book.asks@[i].price <= #[trigger] book.asks@[j].price,
{
    assert(sorted_for_side(book.bids@, true));
    assert(sorted_for_side(book.asks@, false));
}

/// In each match of a scan against live resting orders, the fill is positive
/// and at most what either order had left just before, and each of the two
/// loses exactly the fill.
pub proof fn lemma_fill_conserves(taker: Order, resting: Seq<Order>, j: nat)
    requires
        resting_side(resting, !taker.is_bid),
        j < trade_count(taker, resting),
    ensures
        0 < fill_at(taker, resting, j),
        fill_at(taker, resting, j) <= left_after(taker, resting, j),
        fill_at(taker, resting, j) <= resting[j as int].quantity,
        left_after(taker, resting, j + 1) == left_after(taker, resting, j) - fill_at(taker, resting, j),
        reduced(taker, resting)[j as int].quantity == resting[j as int].quantity - fill_at(
            taker,
            resting,
            j,
        ),
{
    lemma_scan_bounded(taker, resting, 0);
    lemma_scan_passes(taker, resting, 0, j);
    assert(resting[j as int].quantity > 0);
}

/// An order with nothing to fill trades with nothing and leaves the opposite
/// side as it was.
pub proof fn lemma_zero_quantity_is_no_op(taker: Order, resting: Seq<Order>)
    requires
        taker.quantity == 0,
    ensures
        trade_count(taker, resting) == 0,
        left_over(taker, resting) == 0,
        resting_after(taker, resting) == resting,
{
    assert(stops_at(taker, resting, 0));
    assert(reduced(taker, resting) =~= resting);
    assert(resting_after(taker, resting) =~= resting);
}

/// The orders that a scan removes from the opposite side are exactly those it
/// filled completely: every one dropped from the front was reduced to zero,
/// and every one kept still has quantity left.
pub proof fn lemma_removed_were_filled(taker: Order, resting: Seq<Order>)
    requires
        resting_side(resting, !taker.is_bid),
    ensures
        filled_out_by(taker, resting, trade_count(taker, resting)) <= resting.len(),
        forall|j: int|
            0 <= j < filled_out_by(taker, resting, trade_count(taker, resting)) ==> (#[trigger] reduced(
                taker,
                resting,
            )[j]).quantity == 0,
        forall|j: int|
            0 <= j < resting_after(taker, resting).len() ==> (#[trigger] resting_after(
                taker,
                resting,
            )[j]).quantity > 0,
{
    let k = trade_count(taker, resting);
    let d = filled_out_by(taker, resting, k);
    lemma_scan_bounded(taker, resting, 0);
    assert forall|j: int| 0 <= j < d implies (#[trigger] reduced(taker, resting)[j]).quantity == 0 by {
        lemma_fill_conserves(taker, resting, j as nat);
        if j + 1 < k {
            lemma_fill_conserves(taker, resting, (j + 1) as nat);
        }
    }
    assert forall|j: int| 0 <= j < resting_after(taker, resting).len() implies (
    #[trigger] resting_after(taker, resting)[j]).quantity > 0 by {
        let p = j + d;
        if p < k {
            lemma_fill_conserves(taker, resting, p as nat);
        }
    }
}

/// The total of the first `i` fills of a scan.
pub open spec fn filled_total(taker: Order, resting: Seq<Order>, i: nat) -> nat
    decreases i,
{
    if i == 0 {
        0
    } else {
        filled_total(taker, resting, (i - 1) as nat) + fill_at(taker, resting, (i - 1) as nat)
    }
}

/// The fills of a scan add up to exactly what the incoming order lost, so it
/// never trades more than it came with.
pub proof fn lemma_fills_add_up(taker: Order, resting: Seq<Order>)
    ensures
        left_over(taker, resting) <= taker.quantity,
        filled_total(taker, resting, trade_count(taker, resting)) == taker.quantity - left_over(
            taker,
            resting,
        ),
{
    lemma_filled_so_far(taker, resting, trade_count(taker, resting));
}

proof fn lemma_filled_so_far(taker: Order, resting: Seq<Order>, i: nat)
    ensures
        filled_total(taker, resting, i) + left_after(taker, resting, i) == taker.quantity,
    decreases i,
{
    if i > 0 {
        lemma_filled_so_far(taker, resting, (i - 1) as nat);
    }
}

/// The id of the resting side in trade `t`, made by an incoming order on the
/// side `taker_is_bid`.
pub open spec fn maker_id(t: PendingTrade, taker_is_bid: bool) -> Seq<char> {
    if taker_is_bid {
        t.ask_id@
    } else {
        t.bid_id@
    }
}

/// The total quantity of `trades` whose resting side is the order `id`.
pub open spec fn traded_against(trades: Seq<PendingTrade>, taker_is_bid: bool, id: Seq<char>) -> nat
    decreases trades.len(),
{
    if trades.len() == 0 {
        0
    } else {
        traded_against(trades.drop_last(), taker_is_bid, id) + if maker_id(
            trades.last(),
            taker_is_bid,
        ) == id {
            trades.last().quantity as nat
        } else {
            0
        }
    }
}

/// The total quantity of `trades`.
pub open spec fn trades_total(trades: Seq<PendingTrade>) -> nat
    decreases trades.len(),
{
    if trades.len() == 0 {
        0
    } else {
        trades_total(trades.drop_last()) + trades.last().quantity as nat
    }
}

/// No two orders of `s` share an id.
pub open spec fn ids_unique(s: Seq<Order>) -> bool {
    forall|i: int, j: int|
        0 <= i < s.len() && 0 <= j < s.len() && i != j ==> (#[trigger] s[i]).id@ != (#[trigger] s[j]).id@
}

/// Accounting of one `add_order` call, order by order, over the trades it
/// appends (`trades`, as `add_order` describes them). The incoming order
/// loses exactly the total of those trades. Each resting order of the
/// opposite side keeps every field but its quantity, which drops by exactly
/// the total of the trades that name it; it is removed exactly when that
/// leaves nothing, and the orders that stay keep their relative order.
pub proof fn lemma_per_order_accounting(taker: Order, resting: Seq<Order>, trades: Seq<PendingTrade>)
    requires
        resting_side(resting, !taker.is_bid),
        ids_unique(resting),
        trades.len() == trade_count(taker, resting),
        forall|j: int|
            0 <= j < trades.len() ==> records_fill(
                #[trigger] trades[j],
                taker,
                resting[j],
                fill_at(taker, resting, j as nat),
            ),
    ensures
        trades_total(trades) == taker.quantity - left_over(taker, resting),
        forall|i: int|
            0 <= i < resting.len() ==> #[trigger] reduced(taker, resting)[i] == after_fill(
                resting[i],
                traded_against(trades, taker.is_bid, resting[i].id@),
            ),
        forall|i: int|
            0 <= i < resting.len() ==> (i < filled_out_by(taker, resting, trade_count(taker, resting))
                <==> traded_against(trades, taker.is_bid, resting[i].id@) == (
            #[trigger] resting[i]).quantity),
        resting_after(taker, resting) == reduced(taker, resting).skip(
            filled_out_by(taker, resting, trade_count(taker, resting)) as int,
        ),
{
    let k = trade_count(taker, resting);
    let d = filled_out_by(taker, resting, k);
    lemma_scan_bounded(taker, resting, 0);
    lemma_fills_add_up(taker, resting);
    lemma_removed_were_filled(taker, resting);
    lemma_trades_total_prefix(taker, resting, trades, k);
    assert(trades.take(k as int) =~= trades);
    assert forall|i: int| 0 <= i < resting.len() implies #[trigger] reduced(taker, resting)[i]
        == after_fill(resting[i], traded_against(trades, taker.is_bid, resting[i].id@)) && (i < d
        <==> traded_against(trades, taker.is_bid, resting[i].id@) == resting[i].quantity) by {
        lemma_traded_against_prefix(taker, resting, trades, i, k);
        if i < k {
            lemma_fill_conserves(taker, resting, i as nat);
        }
        if i >= d {
            assert(resting_after(taker, resting)[i - d] == reduced(taker, resting)[i]);
        }
    }
    assert forall|i: int| 0 <= i < resting.len() implies (i < d <==> traded_against(
        trades,
        taker.is_bid,
        resting[i].id@,
    ) == (#[trigger] resting[i]).quantity) by {
        assert(reduced(taker, resting)[i] == after_fill(
            resting[i],
            traded_against(trades, taker.is_bid, resting[i].id@),
        ));
    }
}

proof fn lemma_trades_total_prefix(taker: Order, resting: Seq<Order>, trades: Seq<PendingTrade>, m: nat)
    requires
        m <= trades.len(),
        forall|j: int|
            0 <= j < trades.len() ==> records_fill(
                #[trigger] trades[j],
                taker,
                resting[j],
                fill_at(taker, resting, j as nat),
            ),
        trades.len() <= resting.len(),
    ensures
        trades_total(trades.take(m as int)) == filled_total(taker, resting, m),
    decreases m,
{
    if m > 0 {
        lemma_trades_total_prefix(taker, resting, trades, (m - 1) as nat);
        assert(trades.take(m as int).drop_last() =~= trades.take(m - 1));
        assert(trades.take(m as int).last() == trades[m - 1]);
    }
}

proof fn lemma_traded_against_prefix(
    taker: Order,
    resting: Seq<Order>,
    trades: Seq<PendingTrade>,
    i: int,
    m: nat,
)
    requires
        ids_unique(resting),
        0 <= i < resting.len(),
        m <= trades.len(),
        trades.len() <= resting.len(),
        forall|j: int|
            0 <= j < trades.len() ==> records_fill(
                #[trigger] trades[j],
                taker,
                resting[j],
                fill_at(taker, resting, j as nat),
            ),
    ensures
        traded_against(trades.take(m as int), taker.is_bid, resting[i].id@) == if i < m {
            fill_at(taker, resting, i as nat)
        } else {
            0
        },
    decreases m,
{
    if m > 0 {
        lemma_traded_against_prefix(taker, resting, trades, i, (m - 1) as nat);
        assert(trades.take(m as int).drop_last() =~= trades.take(m - 1));
        assert(trades.take(m as int).last() == trades[m - 1]);
        assert(records_fill(trades[m - 1], taker, resting[m - 1], fill_at(taker, resting, (m - 1) as nat)));
        if m - 1 != i {
            assert(resting[m - 1].id@ != resting[i].id@);
        }
    }
}

} // verus!

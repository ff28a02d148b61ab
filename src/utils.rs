//! Correlation tokens, listing identifiers and the book a new listing opens with.
use vstd::prelude::*;

use mongodb::bson::oid::ObjectId;
use rand::Rng;
use std::str::FromStr;

use crate::constants::{DRUID_CHARSET, DRUID_LENGTH};
use crate::orders::{Order, OrderBook};

verus! {

/// A correlation token: `DRUID_LENGTH` characters, each from `DRUID_CHARSET`.
pub open spec fn is_druid(s: Seq<char>) -> bool {
    &&& s.len() == DRUID_LENGTH
    &&& forall|i: int| 0 <= i < s.len() ==> DRUID_CHARSET@.contains(#[trigger] s[i])
}

/// Relies on rand's `Rng::gen_range` on the thread-local generator: a number
/// drawn from `0..bound`; it panics on an empty range, so `bound` is positive.
#[verifier::external_body]
fn random_index(bound: usize) -> (r: usize)
    requires
        bound > 0,
    ensures
        r < bound,
{
    rand::thread_rng().gen_range(0..bound)
}

/// The token spelled by `indices`: its `k`-th character is the character of
/// `DRUID_CHARSET` at `indices[k]`.
pub fn druid_from_indices(indices: &Vec<usize>) -> (r: String)
    requires
        indices@.len() == DRUID_LENGTH,
        forall|k: int| 0 <= k < indices@.len() ==> #[trigger] indices@[k] < DRUID_CHARSET@.len(),
    ensures
        r@.len() == DRUID_LENGTH,
        forall|k: int| 0 <= k < DRUID_LENGTH ==> #[trigger] r@[k] == DRUID_CHARSET@[indices@[k] as int],
{
    let charset: &str = DRUID_CHARSET;
    proof {
        reveal_strlit("ABCDEFGHIJKLMNOPQRSTUVWXYZabcdefghijklmnopqrstuvwxyz0123456789");
    }
    let mut druid: String = String::new();
    let mut i: usize = 0;
    while i < DRUID_LENGTH
        invariant
            charset@ == DRUID_CHARSET@,
            DRUID_CHARSET@.len() < usize::MAX,
            indices@.len() == DRUID_LENGTH,
            forall|k: int| 0 <= k < indices@.len() ==> #[trigger] indices@[k] < DRUID_CHARSET@.len(),
            i <= DRUID_LENGTH,
            druid@.len() == i,
            forall|k: int| 0 <= k < i ==> #[trigger] druid@[k] == DRUID_CHARSET@[indices@[k] as int],
        decreases DRUID_LENGTH - i,
    {
        let idx: usize = indices[i];
        let piece: &str = charset.substring_char(idx, idx + 1);
        let ghost prev = druid@;
        druid.append(piece);
        proof {
            assert(druid@ == prev + piece@);
            assert(druid@[i as int] == piece@[0]);
        }
        i = i + 1;
    }
    druid
}

/// Draws a fresh correlation token for a trade: `DRUID_LENGTH` random
/// positions in `DRUID_CHARSET`, spelled out by `druid_from_indices`.
pub fn construct_druid() -> (r: String)
    ensures
        is_druid(r@),
{
    let charset: &str = DRUID_CHARSET;
    proof {
        reveal_strlit("ABCDEFGHIJKLMNOPQRSTUVWXYZabcdefghijklmnopqrstuvwxyz0123456789");
    }
    let n: usize = charset.unicode_len();
    let mut indices: Vec<usize> = Vec::new();
    let mut i: usize = 0;
    while i < DRUID_LENGTH
        invariant
            n == DRUID_CHARSET@.len(),
            n > 0,
            i <= DRUID_LENGTH,
            indices@.len() == i,
            forall|k: int| 0 <= k < i ==> #[trigger] indices@[k] < n,
        decreases DRUID_LENGTH - i,
    {
        let idx: usize = random_index(n);
        indices.push(idx);
        i = i + 1;
    }
    let druid: String = druid_from_indices(&indices);
    assert forall|k: int| 0 <= k < druid@.len() implies DRUID_CHARSET@.contains(
        #[trigger] druid@[k],
    ) by {
        assert(DRUID_CHARSET@[indices@[k] as int] == druid@[k]);
    }
    druid
}

#[verifier::external_type_specification]
#[verifier::external_body]
pub struct ExObjectId(ObjectId);

/// Relies on bson's `ObjectId::new`: a fresh id from the clock, the process
/// and a counter, so nothing is known of it.
pub assume_specification[ ObjectId::new ]() -> ObjectId;

/// The id that a string of 24 hexadecimal digits spells.
pub uninterp spec fn object_id_from_hex(s: Seq<char>) -> ObjectId;

/// `c` is a hexadecimal digit, in either case.
pub open spec fn is_hex_digit(c: char) -> bool {
    ('0' <= c && c <= '9') || ('a' <= c && c <= 'f') || ('A' <= c && c <= 'F')
}

/// `s` spells an object id: exactly 24 hexadecimal digits.
pub open spec fn is_object_id_hex(s: Seq<char>) -> bool {
    &&& s.len() == 24
    &&& forall|i: int| 0 <= i < s.len() ==> is_hex_digit(#[trigger] s[i])
}

/// Relies on bson's `ObjectId::from_str`, which hex-decodes the string's bytes
/// and accepts exactly 12 bytes: it succeeds on 24 hexadecimal digits and on
/// nothing else, and the id depends on the string alone.
#[verifier::external_body]
fn parse_object_id(s: &str) -> (r: Option<ObjectId>)
    ensures
        r.is_some() <==> is_object_id_hex(s@),
        r.is_some() ==> r.unwrap() == object_id_from_hex(s@),
{
    ObjectId::from_str(s).ok()
}

/// Relies on chrono's `Utc::now`, rendered as text: the current time, of
/// which nothing is promised.
#[verifier::external_body]
pub(crate) fn current_timestamp() -> (r: String) {
    chrono::Utc::now().to_string()
}

/// The object id that `id` spells when it is 24 hexadecimal digits; a fresh
/// id otherwise.
pub fn construct_mongodb_object_id(id: String) -> (r: ObjectId)
    ensures
        is_object_id_hex(id@) ==> r == object_id_from_hex(id@),
{
    match parse_object_id(id.as_str()) {
        Some(object_id) => object_id,
        None => ObjectId::new(),
    }
}

/// The book that a new listing opens with: one ask for the listing's whole
/// quantity at its initial price, nothing else. It is well formed exactly when
/// that quantity is positive.
pub fn construct_initial_orderbook(
    listing_id: String,
    price: u64,
    quantity: u64,
    desired_listing_id: Option<String>,
) -> (r: OrderBook)
    ensures
        r.asks@.len() == 1,
        r.asks@[0].listing_id == listing_id,
        r.asks@[0].price == price,
        r.asks@[0].quantity == quantity,
        !r.asks@[0].is_bid,
        r.asks@[0].druid.is_none(),
        r.asks@[0].desired_listing_id == desired_listing_id,
        is_druid(r.asks@[0].id@),
        r.bids@.len() == 0,
        r.pending_trades@.len() == 0,
        r.wf() <==> quantity > 0,
{
    let init_order = construct_initial_order(listing_id, price, quantity, desired_listing_id);
    let asks: Vec<Order> = vec![init_order];
    OrderBook { asks, bids: Vec::new(), pending_trades: Vec::new() }
}

/// The opening ask of a new listing, under a freshly drawn id.
fn construct_initial_order(
    listing_id: String,
    price: u64,
    quantity: u64,
    desired_listing_id: Option<String>,
) -> (r: Order)
    ensures
        r.listing_id == listing_id,
        r.price == price,
        r.quantity == quantity,
        !r.is_bid,
        r.druid.is_none(),
        r.desired_listing_id == desired_listing_id,
        is_druid(r.id@),
{
    let id: String = construct_druid();
    Order {
        id,
        listing_id,
        price,
        quantity,
        is_bid: false,
        created_at: current_timestamp(),
        druid: None,
        desired_listing_id,
    }
}

} // verus!

//! Scalar conventions, order records, fills and the error taxonomy.

use vstd::prelude::*;

verus! {

/// Fixed-point scale: every price and quantity must be a multiple of this.
pub const PRECISION: u64 = 100_000_000;

/// Smallest admissible price, inclusive.
pub const MIN_PRICE: u64 = 1 * PRECISION;

/// Largest admissible price, inclusive.
pub const MAX_PRICE: u64 = 1_000_000 * PRECISION;

#[derive(Clone, Copy, PartialEq, Eq, Structural, Debug)]
pub enum Side {
    Bid,
    Ask,
}

#[derive(Clone, Copy, PartialEq, Eq, Structural, Debug)]
pub enum OrderType {
    Market,
    Limit,
    PostOnly,
    IOC,
    FOK,
    MakerOnly,
}

/// One order, either incoming or resting in the book.
#[derive(Clone, Copy, PartialEq, Eq, Structural, Debug)]
pub struct Order {
    pub id: u64,
    pub user_id: u64,
    pub side: Side,
    pub price: u64,
    pub qty: u64,
    pub remaining: u64,
    pub otype: OrderType,
}

/// Immutable record of one trade, emitted in the order trades occur.
#[derive(Clone, Copy, PartialEq, Eq, Structural, Debug)]
pub struct Fill {
    pub maker_id: u64,
    pub taker_id: u64,
    pub price: u64,
    pub qty: u64,
}

#[derive(Clone, Copy, PartialEq, Eq, Structural, Debug)]
pub enum RiskError {
    PriceOutOfRange,
    PositionLimit,
    RateLimit,
}

/// A value is quantized when it is an exact multiple of `PRECISION`.
pub open spec fn quantized(v: u64) -> bool {
    v % PRECISION == 0
}

/// The validation every submission must pass before it reaches the risk
/// gate: price and quantity quantized, price inside the admissible range.
pub open spec fn submit_values_ok(price: u64, qty: u64) -> bool {
    quantized(price) && quantized(qty) && MIN_PRICE <= price && price <= MAX_PRICE
}

/// Executable form of `submit_values_ok`.
pub fn check_submit_values(price: u64, qty: u64) -> (r: bool)
    ensures
        r == submit_values_ok(price, qty),
{
    price % PRECISION == 0 && qty % PRECISION == 0 && price >= MIN_PRICE && price <= MAX_PRICE
}

} // verus!

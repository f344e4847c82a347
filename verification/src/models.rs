//! The order, operation and result types that the engine works with,
//! together with the spec-level notions of well-formedness used in the
//! contracts of the matching engine.

use vstd::prelude::*;

verus! {

/// A side of the book: `Bid` is the buy side, `Ask` the sell side.
#[derive(Debug, Copy, Clone, PartialEq, Eq, Structural)]
pub enum Side {
    /// The buy side of the book.
    Bid,
    /// The sell side of the book.
    Ask,
}

impl Side {
    /// The side a taker on this side consumes liquidity from.
    pub open spec fn spec_opposite(self) -> Side {
        match self {
            Side::Bid => Side::Ask,
            Side::Ask => Side::Bid,
        }
    }

    /// Returns the opposing side.
    pub fn opposite(self) -> (r: Side)
        ensures
            r == self.spec_opposite(),
    {
        match self {
            Side::Bid => Side::Ask,
            Side::Ask => Side::Bid,
        }
    }

    /// The wire encoding of a side: 0 for `Bid`, 1 for `Ask`.
    pub open spec fn spec_code(self) -> i32 {
        match self {
            Side::Bid => 0,
            Side::Ask => 1,
        }
    }

    /// Returns the wire encoding of this side: 0 for `Bid`, 1 for `Ask`.
    pub fn code(self) -> (r: i32)
        ensures
            r == self.spec_code(),
    {
        match self {
            Side::Bid => 0,
            Side::Ask => 1,
        }
    }

    /// Decodes a wire side; values other than 0 and 1 are rejected.
    pub fn from_code(value: i32) -> (r: Option<Side>)
        ensures
            value == 0 ==> r == Some(Side::Bid),
            value == 1 ==> r == Some(Side::Ask),
            value != 0 && value != 1 ==> r is None,
    {
        match value {
            0 => Some(Side::Bid),
            1 => Some(Side::Ask),
            _ => None,
        }
    }
}

/// A limit order: rests in the book at `price` until matched or removed.
#[derive(Debug, Copy, Clone, PartialEq, Eq, Structural)]
pub struct LimitOrder {
    /// The 128-bit order id; uniqueness is demanded of the caller.
    pub id: u128,
    /// The limit price, in integer ticks; strictly positive.
    pub price: u64,
    /// The open quantity, in integer units; strictly positive while resting.
    pub quantity: u64,
    /// The side of the book the order rests on.
    pub side: Side,
}

/// A limit order is well formed when its price and quantity are strictly
/// positive, as required of every order resident in the book.
pub open spec fn limit_order_wf(o: LimitOrder) -> bool {
    o.price > 0 && o.quantity > 0
}

impl LimitOrder {
    /// Builds a limit order from its parts.
    pub fn new(id: u128, price: u64, quantity: u64, side: Side) -> (r: Self)
        ensures
            r == (LimitOrder { id, price, quantity, side }),
    {
        Self { id, price, quantity, side }
    }

    /// Builds a limit order with a freshly generated id.
    pub fn new_uuid_v4(price: u64, quantity: u64, side: Side) -> (r: Self)
        ensures
            r.price == price,
            r.quantity == quantity,
            r.side == side,
    {
        Self { id: crate::utils::fresh_order_id(), price, quantity, side }
    }

    /// Replaces the open quantity in place.
    pub fn update_order_quantity(&mut self, quantity: u64)
        ensures
            *final(self) == (LimitOrder { quantity, ..*old(self) }),
    {
        self.quantity = quantity;
    }
}

/// A market order: matched immediately against the opposing side at any
/// price; it carries no price of its own.
#[derive(Debug, Copy, Clone, PartialEq, Eq, Structural)]
pub struct MarketOrder {
    /// The 128-bit order id; uniqueness is demanded of the caller.
    pub id: u128,
    /// The quantity to match, in integer units.
    pub quantity: u64,
    /// The side of the taker.
    pub side: Side,
}

impl MarketOrder {
    /// Builds a market order from its parts.
    pub fn new(id: u128, quantity: u64, side: Side) -> (r: Self)
        ensures
            r == (MarketOrder { id, quantity, side }),
    {
        Self { id, quantity, side }
    }

    /// Builds a market order with a freshly generated id.
    pub fn new_uuid_v4(quantity: u64, side: Side) -> (r: Self)
        ensures
            r.quantity == quantity,
            r.side == side,
    {
        Self { id: crate::utils::fresh_order_id(), quantity, side }
    }

    /// Turns this market order into a limit order at the given price.
    pub fn to_limit(&self, price: u64) -> (r: LimitOrder)
        ensures
            r == (LimitOrder { id: self.id, price, quantity: self.quantity, side: self.side }),
    {
        LimitOrder { id: self.id, price, quantity: self.quantity, side: self.side }
    }
}

/// An operation submitted to the engine.
#[derive(Debug, Copy, Clone)]
pub enum Operation {
    /// Place a limit order.
    Limit(LimitOrder),
    /// Place a market order.
    Market(MarketOrder),
    /// Modify the resting order whose id the carried order names; the
    /// carried price, quantity and side are the requested new values.
    Modify(LimitOrder),
    /// Cancel the resting order with this id.
    Cancel(u128),
}

/// An operation is well formed when the order it carries is: positive
/// price and quantity for limit and modify, positive quantity for market.
pub open spec fn operation_wf(op: Operation) -> bool {
    match op {
        Operation::Limit(o) => limit_order_wf(o),
        Operation::Market(m) => m.quantity > 0,
        Operation::Modify(o) => limit_order_wf(o),
        Operation::Cancel(_) => true,
    }
}

/// One match between a taker and a resting maker order.
#[derive(Debug, Copy, Clone, PartialEq, Eq, Structural)]
pub struct FillMetaData {
    /// The taker's order id.
    pub order_id: u128,
    /// The matched maker's order id.
    pub matched_order_id: u128,
    /// The side of the taker.
    pub taker_side: Side,
    /// The price the match took place at: the maker's level price.
    pub price: u64,
    /// The quantity filled by this match.
    pub quantity: u64,
}

/// The total quantity filled by a sequence of matches.
pub open spec fn fills_qty(fills: Seq<FillMetaData>) -> int
    decreases fills.len(),
{
    if fills.len() == 0 {
        0
    } else {
        fills_qty(fills.drop_last()) + fills.last().quantity
    }
}

/// Filled totals are never negative.
pub proof fn lemma_fills_qty_nonneg(fills: Seq<FillMetaData>)
    ensures
        fills_qty(fills) >= 0,
    decreases fills.len(),
{
    if fills.len() > 0 {
        lemma_fills_qty_nonneg(fills.drop_last());
    }
}

/// A filled total splits at any point of the sequence.
pub proof fn lemma_fills_qty_split(fills: Seq<FillMetaData>, n: int)
    requires
        0 <= n <= fills.len(),
    ensures
        fills_qty(fills) == fills_qty(fills.take(n)) + fills_qty(fills.skip(n)),
    decreases fills.len() - n,
{
    if n == fills.len() {
        assert(fills.take(n) =~= fills);
        assert(fills.skip(n) =~= Seq::<FillMetaData>::empty());
    } else {
        lemma_fills_qty_split(fills, n + 1);
        assert(fills.take(n + 1).drop_last() =~= fills.take(n));
        assert(fills.take(n + 1).last() == fills[n]);
        assert(fills_qty(fills.skip(n)) == fills_qty(fills.skip(n + 1)) + fills[n].quantity) by {
            lemma_fills_qty_first(fills.skip(n));
            assert(fills.skip(n).skip(1) =~= fills.skip(n + 1));
            assert(fills.skip(n)[0] == fills[n]);
        }
    }
}

/// A filled total decomposes at the front.
pub proof fn lemma_fills_qty_first(fills: Seq<FillMetaData>)
    requires
        fills.len() > 0,
    ensures
        fills_qty(fills) == fills[0].quantity + fills_qty(fills.skip(1)),
    decreases fills.len(),
{
    if fills.len() == 1 {
        assert(fills.skip(1) =~= Seq::<FillMetaData>::empty());
        assert(fills.drop_last() =~= Seq::<FillMetaData>::empty());
    } else {
        let t = fills.drop_last();
        lemma_fills_qty_first(t);
        assert(fills.skip(1).drop_last() =~= t.skip(1));
        assert(fills.skip(1).last() == fills.last());
        assert(t[0] == fills[0]);
    }
}

/// The outcome of placing an order.
#[derive(Debug, Clone)]
pub enum FillResult {
    /// The taker was fully filled; carries every match made.
    Filled(Vec<FillMetaData>),
    /// The taker was partially filled; carries the resting residual order
    /// and every match made.
    PartiallyFilled(LimitOrder, Vec<FillMetaData>),
    /// Nothing crossed; the order now rests in the book unchanged.
    Created(LimitOrder),
    /// The order could not be placed at all.
    Failed,
}

/// The outcome of modifying a resting order.
#[derive(Debug, Clone)]
pub enum ModifyResult {
    /// The price changed: the order was removed and placed anew, which may
    /// itself match; carries the outcome of that placement.
    Created(FillResult),
    /// Only the quantity changed: the order was updated in place, keeping
    /// its queue position; carries the order id.
    Modified(u128),
    /// No modification occurred.
    Failed,
}

/// The outcome of executing an operation.
#[derive(Debug, Clone)]
pub enum ExecutionResult {
    /// A limit or market order was placed.
    Executed(FillResult),
    /// A resting order was modified.
    Modified(ModifyResult),
    /// The resting order with this id was cancelled.
    Cancelled(u128),
    /// The operation failed; carries the reason.
    Failed(String),
}

/// The outcome of a request for quote: a hypothetical, non-binding pricing
/// of a market order against the current book.
#[derive(Debug, Copy, Clone, PartialEq, Eq, Structural)]
pub enum RfqStatus {
    /// The full quantity could be filled; carries the volume-weighted
    /// average price over the filled quantity.
    CompleteFill(u64),
    /// Only part of the quantity could be filled; carries the
    /// volume-weighted average price over the filled part and the
    /// quantity that would remain.
    PartialFillAndLimitPlaced(u64, u64),
    /// Nothing at all could be filled although the opposing side is not
    /// empty; carries the opposing top price and the full quantity.
    ConvertToLimit(u64, u64),
    /// No quote is possible: the opposing side is empty or the requested
    /// quantity is zero.
    NotPossible,
}

/// One aggregated price level of a depth view.
#[derive(Debug, Copy, Clone, PartialEq, Eq, Structural)]
pub struct Level {
    /// The price of the level.
    pub price: u64,
    /// The total resting quantity at that price.
    pub quantity: u64,
}

/// An aggregated view of the top of the book, `levels` price levels deep
/// on each side.
#[derive(Debug, Clone)]
pub struct Depth {
    /// How many levels were asked for.
    pub levels: usize,
    /// The lowest-price non-empty bid levels, ascending by price.
    pub bids: Vec<Level>,
    /// The lowest-price non-empty ask levels, ascending by price.
    pub asks: Vec<Level>,
}

/// A reduced order record: the id and open quantity, without price or
/// side, as held by a price-keyed book.
#[derive(Debug, Copy, Clone, PartialEq, Eq, Structural)]
pub struct Order {
    /// The 128-bit order id.
    pub id: u128,
    /// The open quantity.
    pub quantity: u64,
}

/// The kind of an incoming order request.
#[derive(Debug, Copy, Clone, PartialEq, Eq, Structural)]
pub enum OrderType {
    /// A limit order request.
    Limit,
    /// A market order request.
    Market,
}

} // verus!

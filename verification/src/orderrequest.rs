//! An incoming order request as the ingress edge hands it over, stamped
//! with the arrival time in microseconds.

use vstd::prelude::*;

use crate::models::{Order, OrderType, Side};
use crate::utils::get_timestamp_now_micros;

verus! {

/// An order request: the fields of an order plus its kind and the time it
/// arrived.
#[derive(Debug, Clone)]
pub struct OrderRequest {
    /// The order id.
    pub id: u128,
    /// The price; meaningful for limit requests.
    pub price: u64,
    /// The quantity.
    pub quantity: u64,
    /// The side of the book.
    pub side: Side,
    /// Whether the request is a limit or a market order.
    pub order_type: OrderType,
    /// Arrival time in microseconds since the Unix epoch.
    pub timestamp: u128,
}

impl OrderRequest {
    /// Builds a request from its parts, stamped with the current time.
    pub fn new(id: u128, price: u64, quantity: u64, side: Side, order_type: OrderType) -> (r:
        OrderRequest)
        ensures
            r.id == id,
            r.price == price,
            r.quantity == quantity,
            r.side == side,
            r.order_type == order_type,
    {
        OrderRequest { id, price, quantity, side, order_type, timestamp: get_timestamp_now_micros() }
    }

    /// The reduced record of this request: its id and quantity.
    pub fn to_order(&self) -> (r: Order)
        ensures
            r == (Order { id: self.id, quantity: self.quantity }),
    {
        Order { id: self.id, quantity: self.quantity }
    }
}

} // verus!

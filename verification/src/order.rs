//! Order records, the buy/sell side tag, and the audit events the engine
//! emits while matching.

use vstd::prelude::*;

verus! {

/// Which side of the book an order (or an event) belongs to.
#[derive(Clone, Copy, Debug, PartialEq, Eq, Structural)]
pub enum OrderType {
    Buy,
    Sell,
}

/// A resting order.
///
/// `id` is unique per side (assigned by a per-side counter), `quantity` is
/// the remaining unfilled amount (always positive while the order rests),
/// `price` is an integer price in minor units and never changes, and `next`
/// links to the next order of the same price level in FIFO order (`None`
/// marks the tail). Links are arena indices, never references.
#[derive(Clone, Copy, Debug)]
pub struct Order {
    pub id: u64,
    pub quantity: u32,
    pub price: u64,
    pub next: Option<usize>,
}

/// An audit event.
///
/// `OrderPlaced` is emitted when an unmatched remainder comes to rest in the
/// book; `OrderExecuted` is emitted once per resting head order consumed or
/// partially consumed during a match. `order_type` of `OrderExecuted` is the
/// side of the *incoming* order: the event reports the incoming order's fill.
#[derive(Clone, Copy, Debug, PartialEq, Eq, Structural)]
pub enum LogEvent {
    OrderPlaced { id: u64, quantity: u32, price: u64, order_type: OrderType },
    OrderExecuted { price: u64, qty: u32, order_type: OrderType },
}

} // verus!

use vstd::prelude::*;

use crate::domain::{OrderId, PriceTicks};

verus! {

/// Reasons a resting limit order cannot be created.
#[derive(Debug, Clone, Copy, PartialEq, Eq, Structural)]
pub enum OrderError {
    /// The limit-order price must be greater than zero.
    ZeroPrice,
    /// The limit-order quantity must be greater than zero.
    ZeroQuantity,
}

/// Reasons an order-book operation is refused.
#[derive(Debug, Clone, Copy, PartialEq, Eq, Structural)]
pub enum OrderBookError {
    /// The order id is already present in the book.
    DuplicateOrderId(OrderId),
    /// The aggregate quantity at `price` would exceed the canonical `i64` range.
    AggregateQuantityOutOfRange { price: PriceTicks },
    /// The order-book indices are inconsistent for this order id.
    InconsistentState(OrderId),
}

} // verus!

use vstd::prelude::*;

verus! {

/// The side of the book an order rests on.
#[derive(Debug, Clone, Copy, PartialEq, Eq, PartialOrd, Ord, Hash, Structural)]
pub enum Side {
    /// A bid: an order to buy.
    Buy,
    /// An ask: an order to sell.
    Sell,
}

} // verus!

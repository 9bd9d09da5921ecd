use vstd::prelude::*;

verus! {

/// Identifies one market.
#[derive(Debug, Clone, Copy, PartialEq, Eq, PartialOrd, Ord, Hash, Structural)]
pub struct MarketId(u32);

impl MarketId {
    pub fn new(value: u32) -> (id: Self)
        ensures
            id@ == value,
    {
        Self(value)
    }

    pub fn get(self) -> (value: u32)
        ensures
            value == self@,
    {
        self.0
    }
}

impl View for MarketId {
    type V = u32;

    closed spec fn view(&self) -> u32 {
        self.0
    }
}

/// Identifies one order.
#[derive(Debug, Clone, Copy, PartialEq, Eq, PartialOrd, Ord, Hash, Structural)]
pub struct OrderId(u64);

impl OrderId {
    pub fn new(value: u64) -> (id: Self)
        ensures
            id@ == value,
    {
        Self(value)
    }

    pub fn get(self) -> (value: u64)
        ensures
            value == self@,
    {
        self.0
    }
}

impl View for OrderId {
    type V = u64;

    closed spec fn view(&self) -> u64 {
        self.0
    }
}

/// Two market ids are equal exactly when their numbers are.
pub broadcast proof fn lemma_market_id_view_injective(a: MarketId, b: MarketId)
    ensures
        #[trigger] a@ == #[trigger] b@ <==> a == b,
{
}

/// Two order ids are equal exactly when their numbers are.
pub broadcast proof fn lemma_order_id_view_injective(a: OrderId, b: OrderId)
    ensures
        #[trigger] a@ == #[trigger] b@ <==> a == b,
{
}

} // verus!

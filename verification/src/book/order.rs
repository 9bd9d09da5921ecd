use vstd::prelude::*;

use crate::domain::{OrderId, PriceTicks, QuantityLots, Side};

use super::error::OrderError;

verus! {

/// One resting limit order: its price and quantity are both greater than zero.
#[derive(Debug, PartialEq, Eq, Structural)]
pub struct Order {
    id: OrderId,
    side: Side,
    price: PriceTicks,
    quantity: QuantityLots,
}

impl Order {
    #[verifier::type_invariant]
    spec fn resting(self) -> bool {
        self.price@ > 0 && self.quantity@ > 0
    }

    pub closed spec fn spec_id(&self) -> OrderId {
        self.id
    }

    pub closed spec fn spec_side(&self) -> Side {
        self.side
    }

    pub closed spec fn spec_price(&self) -> PriceTicks {
        self.price
    }

    pub closed spec fn spec_quantity(&self) -> QuantityLots {
        self.quantity
    }

    /// Creates a resting limit order; a zero price is refused first, then a
    /// zero quantity.
    pub fn new(id: OrderId, side: Side, price: PriceTicks, quantity: QuantityLots) -> (result:
        Result<Self, OrderError>)
        ensures
            price@ == 0 ==> result == Err::<Self, OrderError>(OrderError::ZeroPrice),
            price@ != 0 && quantity@ == 0 ==> result == Err::<Self, OrderError>(
                OrderError::ZeroQuantity,
            ),
            price@ != 0 && quantity@ != 0 ==> (result matches Ok(order) && order.spec_id() == id
                && order.spec_side() == side && order.spec_price() == price
                && order.spec_quantity() == quantity),
    {
        if price.is_zero() {
            return Err(OrderError::ZeroPrice);
        }
        if quantity.is_zero() {
            return Err(OrderError::ZeroQuantity);
        }
        proof {
            use_type_invariant(&price);
            price.lemma_nonnegative();
        }
        Ok(Self { id, side, price, quantity })
    }

    pub fn id(&self) -> (id: OrderId)
        ensures
            id == self.spec_id(),
    {
        self.id
    }

    pub fn side(&self) -> (side: Side)
        ensures
            side == self.spec_side(),
    {
        self.side
    }

    pub fn price(&self) -> (price: PriceTicks)
        ensures
            price == self.spec_price(),
            price@ > 0,
    {
        proof {
            use_type_invariant(self);
        }
        self.price
    }

    pub fn quantity(&self) -> (quantity: QuantityLots)
        ensures
            quantity == self.spec_quantity(),
            quantity@ > 0,
    {
        proof {
            use_type_invariant(self);
        }
        self.quantity
    }
}

impl Clone for Order {
    fn clone(&self) -> (copy: Self)
        ensures
            copy == *self,
    {
        proof {
            use_type_invariant(self);
        }
        Order { id: self.id, side: self.side, price: self.price, quantity: self.quantity }
    }
}

} // verus!

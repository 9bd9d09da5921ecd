use std::collections::VecDeque;

use vstd::prelude::*;

use crate::domain::{OrderId, PriceTicks, QuantityLots};

use super::error::OrderBookError;

verus! {

/// All resting orders at exactly one price.
///
/// Order ids are kept from oldest to newest: the front of the queue owns time
/// priority within the level.
#[derive(Debug, Clone, PartialEq, Eq)]
pub struct PriceLevel {
    price: PriceTicks,
    order_ids: VecDeque<OrderId>,
    aggregate_quantity: QuantityLots,
}

/// What a price level holds: its price, its queue of order ids (oldest
/// first) and its aggregate quantity.
pub struct PriceLevelView {
    pub price: PriceTicks,
    pub order_ids: Seq<OrderId>,
    pub aggregate_quantity: nat,
}

impl PriceLevelView {
    /// The empty level at `price`.
    pub open spec fn empty(price: PriceTicks) -> PriceLevelView {
        PriceLevelView { price, order_ids: Seq::empty(), aggregate_quantity: 0 }
    }

    /// What appending `order_id` with `quantity` answers: a zero quantity
    /// signals inconsistent state, and an aggregate beyond `i64::MAX` is
    /// refused.
    pub open spec fn push_back_outcome(self, order_id: OrderId, quantity: nat) -> Result<
        (),
        OrderBookError,
    > {
        if quantity == 0 {
            Err(OrderBookError::InconsistentState(order_id))
        } else if self.aggregate_quantity + quantity > i64::MAX {
            Err(OrderBookError::AggregateQuantityOutOfRange { price: self.price })
        } else {
            Ok(())
        }
    }

    /// The level after `order_id` joined the back of the queue.
    pub open spec fn pushed(self, order_id: OrderId, quantity: nat) -> PriceLevelView {
        PriceLevelView {
            price: self.price,
            order_ids: self.order_ids.push(order_id),
            aggregate_quantity: self.aggregate_quantity + quantity,
        }
    }

    /// What removing `order_id` with `quantity` answers: an id that is not
    /// queued, or a quantity above the aggregate, signals inconsistent state.
    pub open spec fn remove_outcome(self, order_id: OrderId, quantity: nat) -> Result<
        (),
        OrderBookError,
    > {
        if !self.order_ids.contains(order_id) || self.aggregate_quantity < quantity {
            Err(OrderBookError::InconsistentState(order_id))
        } else {
            Ok(())
        }
    }

    /// The level after the first occurrence of `order_id` left the queue.
    pub open spec fn removed(self, order_id: OrderId, quantity: nat) -> PriceLevelView {
        PriceLevelView {
            price: self.price,
            order_ids: self.order_ids.remove_value(order_id),
            aggregate_quantity: (self.aggregate_quantity - quantity) as nat,
        }
    }
}

/// A level refuses a removal, as inconsistent, exactly when the id is not
/// queued or the quantity exceeds the aggregate.
pub proof fn lemma_level_removal_outcome(level: PriceLevelView, order_id: OrderId, quantity: nat)
    ensures
        level.order_ids.contains(order_id) && quantity <= level.aggregate_quantity
            ==> level.remove_outcome(order_id, quantity) == Ok::<(), OrderBookError>(()),
        !(level.order_ids.contains(order_id) && quantity <= level.aggregate_quantity)
            ==> level.remove_outcome(order_id, quantity) == Err::<(), OrderBookError>(
            OrderBookError::InconsistentState(order_id),
        ),
{
}

/// Removing an id from a level deletes exactly its first occurrence: the ids
/// before it and after it stay, in their old relative order, and the
/// quantity leaves the aggregate.
pub proof fn lemma_level_removal_keeps_fifo(
    level: PriceLevelView,
    order_id: OrderId,
    quantity: nat,
    first: int,
)
    requires
        0 <= first < level.order_ids.len(),
        level.order_ids[first] == order_id,
        forall|j: int| 0 <= j < first ==> level.order_ids[j] != order_id,
        quantity <= level.aggregate_quantity,
    ensures
        level.removed(order_id, quantity).order_ids == level.order_ids.subrange(0, first)
            + level.order_ids.subrange(first + 1, level.order_ids.len() as int),
        level.removed(order_id, quantity).order_ids.len() == level.order_ids.len() - 1,
        level.removed(order_id, quantity).price == level.price,
        level.removed(order_id, quantity).aggregate_quantity + quantity == level.aggregate_quantity,
{
    let ids = level.order_ids;
    assert(ids.contains(order_id));
    ids.index_of_first_ensures(order_id);
    let found = ids.index_of_first(order_id)->Some_0;
    if found < first {
        assert(ids[found] != order_id);
    }
    if first < found {
        assert(ids[first] == order_id);
    }
    assert(found == first);
}

/// Appending puts the id at the back, keeps every queued id in place, and
/// adds the quantity to the aggregate; a positive quantity that keeps the
/// aggregate within `i64` is always accepted.
pub proof fn lemma_level_push_appends(level: PriceLevelView, order_id: OrderId, quantity: nat)
    ensures
        quantity == 0 ==> level.push_back_outcome(order_id, quantity) == Err::<(), OrderBookError>(
            OrderBookError::InconsistentState(order_id),
        ),
        quantity > 0 && level.aggregate_quantity + quantity > i64::MAX ==> level.push_back_outcome(
            order_id,
            quantity,
        ) == Err::<(), OrderBookError>(
            OrderBookError::AggregateQuantityOutOfRange { price: level.price },
        ),
        quantity > 0 && level.aggregate_quantity + quantity <= i64::MAX ==> level.push_back_outcome(
            order_id,
            quantity,
        ) == Ok::<(), OrderBookError>(()),
        level.pushed(order_id, quantity).order_ids.len() == level.order_ids.len() + 1,
        level.pushed(order_id, quantity).order_ids.last() == order_id,
        forall|j: int|
            0 <= j < level.order_ids.len() ==> #[trigger] level.pushed(order_id, quantity).order_ids[j]
                == level.order_ids[j],
        level.pushed(order_id, quantity).aggregate_quantity == level.aggregate_quantity + quantity,
        level.pushed(order_id, quantity).price == level.price,
{
}

impl View for PriceLevel {
    type V = PriceLevelView;

    closed spec fn view(&self) -> PriceLevelView {
        PriceLevelView {
            price: self.price,
            order_ids: self.order_ids@,
            aggregate_quantity: self.aggregate_quantity@,
        }
    }
}

impl PriceLevel {
    /// An empty level at `price`.
    pub fn new(price: PriceTicks) -> (level: Self)
        ensures
            level@ == PriceLevelView::empty(price),
    {
        let level = Self {
            price,
            order_ids: VecDeque::new(),
            aggregate_quantity: QuantityLots::zero(),
        };
        proof {
            assert(level@.order_ids =~= Seq::empty());
        }
        level
    }

    pub fn price(&self) -> (price: PriceTicks)
        ensures
            price == self@.price,
    {
        self.price
    }

    pub fn aggregate_quantity(&self) -> (quantity: QuantityLots)
        ensures
            quantity@ == self@.aggregate_quantity,
    {
        self.aggregate_quantity
    }

    pub fn order_count(&self) -> (count: usize)
        ensures
            count == self@.order_ids.len(),
    {
        self.order_ids.len()
    }

    pub fn is_empty(&self) -> (empty: bool)
        ensures
            empty == (self@.order_ids.len() == 0),
    {
        self.order_ids.len() == 0
    }

    /// The id with time priority, if any.
    pub fn front_order_id(&self) -> (front: Option<OrderId>)
        ensures
            self@.order_ids.len() == 0 ==> front is None,
            self@.order_ids.len() > 0 ==> front == Some(self@.order_ids[0]),
    {
        if self.order_ids.len() == 0 {
            None
        } else {
            Some(self.order_ids[0])
        }
    }

    /// The queued ids, oldest first.
    pub fn order_ids(&self) -> (ids: Vec<OrderId>)
        ensures
            ids@ == self@.order_ids,
    {
        let mut ids: Vec<OrderId> = Vec::new();
        let len = self.order_ids.len();
        let mut i: usize = 0;
        while i < len
            invariant
                len == self@.order_ids.len(),
                i <= len,
                ids@ == self@.order_ids.subrange(0, i as int),
            decreases len - i,
        {
            ids.push(self.order_ids[i]);
            i += 1;
            proof {
                assert(ids@ =~= self@.order_ids.subrange(0, i as int));
            }
        }
        proof {
            assert(ids@ =~= self@.order_ids);
        }
        ids
    }

    /// Appends `order_id` to the back of the queue and adds `quantity` to the
    /// aggregate; on refusal the level is unchanged.
    pub fn push_back(&mut self, order_id: OrderId, quantity: QuantityLots) -> (result: Result<
        (),
        OrderBookError,
    >)
        ensures
            result == old(self)@.push_back_outcome(order_id, quantity@),
            result is Ok ==> final(self)@ == old(self)@.pushed(order_id, quantity@),
            result is Err ==> final(self)@ == old(self)@,
    {
        if quantity.is_zero() {
            return Err(OrderBookError::InconsistentState(order_id));
        }
        let current = self.aggregate_quantity.get() as i128;
        let added = quantity.get() as i128;
        let aggregate = match current.checked_add(added) {
            Some(sum) => sum,
            None => {
                return Err(OrderBookError::AggregateQuantityOutOfRange { price: self.price });
            },
        };
        if aggregate > i64::MAX as i128 || aggregate < i64::MIN as i128 {
            return Err(OrderBookError::AggregateQuantityOutOfRange { price: self.price });
        }
        let aggregate = match QuantityLots::new(aggregate as i64) {
            Ok(q) => q,
            Err(_) => {
                return Err(OrderBookError::InconsistentState(order_id));
            },
        };
        self.order_ids.push_back(order_id);
        self.aggregate_quantity = aggregate;
        Ok(())
    }

    /// Removes the first occurrence of `order_id` from the queue and subtracts
    /// `quantity` from the aggregate; the survivors keep their relative order.
    /// On refusal the level is unchanged.
    pub fn remove(&mut self, order_id: OrderId, quantity: QuantityLots) -> (result: Result<
        (),
        OrderBookError,
    >)
        ensures
            result == old(self)@.remove_outcome(order_id, quantity@),
            result is Ok ==> final(self)@ == old(self)@.removed(order_id, quantity@),
            result is Ok ==> final(self)@.order_ids.len() == old(self)@.order_ids.len() - 1,
            result is Err ==> final(self)@ == old(self)@,
    {
        let len = self.order_ids.len();
        let mut index: usize = 0;
        while index < len
            invariant
                len == self@.order_ids.len(),
                index <= len,
                forall|j: int| 0 <= j < index ==> self@.order_ids[j] != order_id,
            ensures
                index <= len,
                forall|j: int| 0 <= j < index ==> self@.order_ids[j] != order_id,
                index < len ==> self@.order_ids[index as int] == order_id,
            decreases len - index,
        {
            if self.order_ids[index] == order_id {
                break;
            }
            index += 1;
        }
        if index == len {
            return Err(OrderBookError::InconsistentState(order_id));
        }
        let ghost ids = self@.order_ids;
        proof {
            ids.index_of_first_ensures(order_id);
        }
        let current = self.aggregate_quantity.get() as i128;
        let taken = quantity.get() as i128;
        let aggregate = match current.checked_sub(taken) {
            Some(difference) => difference,
            None => {
                return Err(OrderBookError::InconsistentState(order_id));
            },
        };
        if aggregate > i64::MAX as i128 || aggregate < i64::MIN as i128 {
            return Err(OrderBookError::InconsistentState(order_id));
        }
        let aggregate = match QuantityLots::new(aggregate as i64) {
            Ok(q) => q,
            Err(_) => {
                return Err(OrderBookError::InconsistentState(order_id));
            },
        };
        let removed = self.order_ids.remove(index);
        match removed {
            Some(candidate) if candidate == order_id => {},
            _ => {
                return Err(OrderBookError::InconsistentState(order_id));
            },
        }
        self.aggregate_quantity = aggregate;
        Ok(())
    }
}

} // verus!

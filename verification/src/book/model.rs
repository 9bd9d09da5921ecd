use vstd::prelude::*;

use crate::domain::{lemma_order_id_view_injective, OrderId, Side};

use super::error::OrderBookError;
use super::order::Order;
use super::price_level::{lemma_level_removal_keeps_fifo, PriceLevelView};

verus! {

broadcast use lemma_order_id_view_injective;

/// What an order book holds: the bid and ask levels keyed by their tick
/// count, and the resting orders keyed by their id number.
pub struct OrderBookView {
    pub bids: Map<i64, PriceLevelView>,
    pub asks: Map<i64, PriceLevelView>,
    pub orders: Map<u64, Order>,
}

/// The total quantity of the orders that `ids` name in `orders`.
pub open spec fn sum_quantities(ids: Seq<OrderId>, orders: Map<u64, Order>) -> nat
    decreases ids.len(),
{
    if ids.len() == 0 {
        0
    } else {
        sum_quantities(ids.drop_last(), orders) + orders[ids.last()@].spec_quantity()@
    }
}

/// How many ids the levels of `levels` queue in all.
pub open spec fn queued_count(levels: Map<i64, PriceLevelView>) -> nat
    decreases levels.dom().len(),
    when levels.dom().finite()
{
    if levels.dom().is_empty() {
        0
    } else {
        let price = levels.dom().choose();
        levels[price].order_ids.len() + queued_count(levels.remove(price))
    }
}

/// Any level may be counted first: the count is that level's size plus the
/// count of the others.
pub proof fn lemma_queued_count_remove(levels: Map<i64, PriceLevelView>, price: i64)
    requires
        levels.dom().finite(),
        levels.contains_key(price),
    ensures
        queued_count(levels) == levels[price].order_ids.len() + queued_count(levels.remove(price)),
    decreases levels.dom().len(),
{
    let first = levels.dom().choose();
    assert(levels.dom().contains(first));
    if first != price {
        let without_first = levels.remove(first);
        let without_price = levels.remove(price);
        lemma_queued_count_remove(without_first, price);
        lemma_queued_count_remove(without_price, first);
        assert(without_first.remove(price) =~= without_price.remove(first));
    }
}

/// Putting `level` at `price` changes the count by the difference of the
/// sizes of the new and the replaced level.
pub proof fn lemma_queued_count_insert(
    levels: Map<i64, PriceLevelView>,
    price: i64,
    level: PriceLevelView,
)
    requires
        levels.dom().finite(),
    ensures
        queued_count(levels.insert(price, level)) + (if levels.contains_key(price) {
            levels[price].order_ids.len()
        } else {
            0
        }) == queued_count(levels) + level.order_ids.len(),
{
    let updated = levels.insert(price, level);
    lemma_queued_count_remove(updated, price);
    assert(updated.remove(price) =~= levels.remove(price));
    if levels.contains_key(price) {
        lemma_queued_count_remove(levels, price);
    } else {
        assert(levels.remove(price) =~= levels);
    }
}

/// The total quantity of the orders in `orders` that rest on `side` at
/// `price`.
pub open spec fn resting_quantity(orders: Map<u64, Order>, side: Side, price: i64) -> nat
    decreases orders.dom().len(),
    when orders.dom().finite()
{
    if orders.dom().is_empty() {
        0
    } else {
        let k = orders.dom().choose();
        (if orders[k].spec_side() == side && orders[k].spec_price()@ == price {
            orders[k].spec_quantity()@
        } else {
            0
        }) + resting_quantity(orders.remove(k), side, price)
    }
}

/// Any order may be counted first in `resting_quantity`.
pub proof fn lemma_resting_quantity_remove(orders: Map<u64, Order>, side: Side, price: i64, k: u64)
    requires
        orders.dom().finite(),
        orders.contains_key(k),
    ensures
        resting_quantity(orders, side, price) == (if orders[k].spec_side() == side
            && orders[k].spec_price()@ == price {
            orders[k].spec_quantity()@
        } else {
            0
        }) + resting_quantity(orders.remove(k), side, price),
    decreases orders.dom().len(),
{
    let first = orders.dom().choose();
    assert(orders.dom().contains(first));
    if first != k {
        let without_first = orders.remove(first);
        let without_k = orders.remove(k);
        lemma_resting_quantity_remove(without_first, side, price, k);
        lemma_resting_quantity_remove(without_k, side, price, first);
        assert(without_first.remove(k) =~= without_k.remove(first));
    }
}

/// Where no order rests, the resting quantity is zero.
pub proof fn lemma_resting_quantity_none(orders: Map<u64, Order>, side: Side, price: i64)
    requires
        orders.dom().finite(),
        forall|k: u64| #[trigger]
            orders.contains_key(k) ==> !(orders[k].spec_side() == side && orders[k].spec_price()@
                == price),
    ensures
        resting_quantity(orders, side, price) == 0,
    decreases orders.dom().len(),
{
    if !orders.dom().is_empty() {
        let first = orders.dom().choose();
        assert(orders.contains_key(first));
        lemma_resting_quantity_none(orders.remove(first), side, price);
    }
}

/// Summing the quantities of a queue that names, once each, exactly the
/// orders resting on `side` at `price` gives their resting quantity.
pub proof fn lemma_sum_is_resting_quantity(
    ids: Seq<OrderId>,
    orders: Map<u64, Order>,
    side: Side,
    price: i64,
)
    requires
        orders.dom().finite(),
        ids.no_duplicates(),
        forall|i: int|
            0 <= i < ids.len() ==> {
                &&& orders.contains_key(#[trigger] ids[i]@)
                &&& orders[ids[i]@].spec_side() == side
                &&& orders[ids[i]@].spec_price()@ == price
            },
        forall|k: u64| #[trigger]
            orders.contains_key(k) && orders[k].spec_side() == side && orders[k].spec_price()@
                == price ==> exists|i: int| 0 <= i < ids.len() && ids[i]@ == k,
    ensures
        sum_quantities(ids, orders) == resting_quantity(orders, side, price),
    decreases ids.len(),
{
    if ids.len() == 0 {
        assert forall|k: u64| #[trigger] orders.contains_key(k) implies !(orders[k].spec_side() == side
            && orders[k].spec_price()@ == price) by {
            if orders[k].spec_side() == side && orders[k].spec_price()@ == price {
                let i = choose|i: int| 0 <= i < ids.len() && ids[i]@ == k;
            }
        }
        lemma_resting_quantity_none(orders, side, price);
    } else {
        let n = ids.len() - 1;
        let k = ids[n]@;
        let rest = ids.drop_last();
        let fewer = orders.remove(k);
        assert(orders.contains_key(ids[n]@));
        lemma_resting_quantity_remove(orders, side, price, k);
        assert forall|i: int| 0 <= i < rest.len() implies #[trigger] rest[i]@ != k by {
            assert(rest[i] == ids[i]);
            assert(ids[i] != ids[n]);
        }
        assert forall|i: int| 0 <= i < rest.len() implies orders[#[trigger] rest[i]@] == fewer[rest[i]@] by {
            assert(rest[i]@ != k);
        }
        lemma_sum_frame(rest, orders, fewer);
        assert forall|i: int| 0 <= i < rest.len() implies {
            &&& fewer.contains_key(#[trigger] rest[i]@)
            &&& fewer[rest[i]@].spec_side() == side
            &&& fewer[rest[i]@].spec_price()@ == price
        } by {
            assert(rest[i] == ids[i]);
            assert(rest[i]@ != k);
        }
        assert forall|k2: u64| #[trigger]
            fewer.contains_key(k2) && fewer[k2].spec_side() == side && fewer[k2].spec_price()@
                == price implies exists|i: int| 0 <= i < rest.len() && rest[i]@ == k2 by {
            assert(orders.contains_key(k2));
            let i = choose|i: int| 0 <= i < ids.len() && ids[i]@ == k2;
            assert(i != n);
            assert(rest[i] == ids[i]);
        }
        assert(rest.no_duplicates()) by {
            assert forall|a: int, b: int| 0 <= a < rest.len() && 0 <= b < rest.len() && a != b implies rest[a] != rest[b] by {
                assert(rest[a] == ids[a]);
                assert(rest[b] == ids[b]);
            }
        }
        lemma_sum_is_resting_quantity(rest, fewer, side, price);
    }
}

impl OrderBookView {
    /// The empty book.
    pub open spec fn empty() -> OrderBookView {
        OrderBookView { bids: Map::empty(), asks: Map::empty(), orders: Map::empty() }
    }

    /// The levels of one side.
    pub open spec fn levels(self, side: Side) -> Map<i64, PriceLevelView> {
        match side {
            Side::Buy => self.bids,
            Side::Sell => self.asks,
        }
    }

    /// This book with the levels of `side` replaced by `levels`.
    pub open spec fn with_levels(self, side: Side, levels: Map<i64, PriceLevelView>) -> OrderBookView {
        match side {
            Side::Buy => OrderBookView { bids: levels, asks: self.asks, orders: self.orders },
            Side::Sell => OrderBookView { bids: self.bids, asks: levels, orders: self.orders },
        }
    }

    /// `id` names a resting order on `side` at `price`.
    pub open spec fn rests_at(self, id: OrderId, side: Side, price: i64) -> bool {
        &&& self.orders.contains_key(id@)
        &&& self.orders[id@].spec_side() == side
        &&& self.orders[id@].spec_price()@ == price
    }

    /// The level kept at `price` on `side` is sound: it carries that price, is
    /// not empty, queues each id once, queues only orders resting there, and
    /// its aggregate is the sum of their quantities.
    pub open spec fn level_wf(self, side: Side, price: i64, level: PriceLevelView) -> bool {
        &&& level.price@ == price
        &&& level.order_ids.len() > 0
        &&& level.order_ids.no_duplicates()
        &&& forall|i: int|
            0 <= i < level.order_ids.len() ==> self.rests_at(#[trigger] level.order_ids[i], side, price)
        &&& level.aggregate_quantity == sum_quantities(level.order_ids, self.orders)
    }

    /// The book is consistent: its maps are finite; each order is filed
    /// under its own id, has a positive quantity and is queued in the level
    /// of its side and price; every level is sound; and the number of orders
    /// is the number of ids the levels queue.
    pub open spec fn wf(self) -> bool {
        &&& self.orders.dom().finite()
        &&& self.bids.dom().finite()
        &&& self.asks.dom().finite()
        &&& self.orders.len() == queued_count(self.bids) + queued_count(self.asks)
        &&& forall|k: u64| #[trigger]
            self.orders.contains_key(k) ==> {
                let order = self.orders[k];
                &&& order.spec_id()@ == k
                &&& order.spec_quantity()@ > 0
                &&& self.levels(order.spec_side()).contains_key(order.spec_price()@)
                &&& self.levels(order.spec_side())[order.spec_price()@].order_ids.contains(
                    order.spec_id(),
                )
            }
        &&& forall|side: Side, price: i64| #[trigger]
            self.levels(side).contains_key(price) ==> self.level_wf(
                side,
                price,
                self.levels(side)[price],
            )
    }

    /// What inserting `order` answers: a known id is a duplicate; an
    /// aggregate beyond `i64::MAX` at the order's level is refused.
    pub open spec fn insert_outcome(self, order: Order) -> Result<(), OrderBookError> {
        let levels = self.levels(order.spec_side());
        let price = order.spec_price()@;
        if self.orders.contains_key(order.spec_id()@) {
            Err(OrderBookError::DuplicateOrderId(order.spec_id()))
        } else if levels.contains_key(price) && levels[price].aggregate_quantity
            + order.spec_quantity()@ > i64::MAX {
            Err(OrderBookError::AggregateQuantityOutOfRange { price: order.spec_price() })
        } else {
            Ok(())
        }
    }

    /// The book after `order` joined the back of its level, the level being
    /// created when absent.
    pub open spec fn inserted(self, order: Order) -> OrderBookView {
        let side = order.spec_side();
        let price = order.spec_price()@;
        let levels = self.levels(side);
        let level = if levels.contains_key(price) {
            levels[price]
        } else {
            PriceLevelView::empty(order.spec_price())
        };
        let book = self.with_levels(
            side,
            levels.insert(price, level.pushed(order.spec_id(), order.spec_quantity()@)),
        );
        OrderBookView {
            bids: book.bids,
            asks: book.asks,
            orders: self.orders.insert(order.spec_id()@, order),
        }
    }

    /// What removing `order_id` answers: the removed order, or `None` for an
    /// unknown id.
    pub open spec fn remove_outcome(self, order_id: OrderId) -> Result<Option<Order>, OrderBookError> {
        if self.orders.contains_key(order_id@) {
            Ok(Some(self.orders[order_id@]))
        } else {
            Ok(None)
        }
    }

    /// The book after `order_id` left its level; a level it was alone in is
    /// dropped. An unknown id leaves the book as it is.
    pub open spec fn removed(self, order_id: OrderId) -> OrderBookView {
        if !self.orders.contains_key(order_id@) {
            self
        } else {
            let order = self.orders[order_id@];
            let side = order.spec_side();
            let price = order.spec_price()@;
            let levels = self.levels(side);
            let level = levels[price].removed(order_id, order.spec_quantity()@);
            let book = self.with_levels(
                side,
                if levels[price].order_ids.len() == 1 {
                    levels.remove(price)
                } else {
                    levels.insert(price, level)
                },
            );
            OrderBookView { bids: book.bids, asks: book.asks, orders: self.orders.remove(order_id@) }
        }
    }
}

/// The sum only reads the orders that `ids` name.
pub proof fn lemma_sum_frame(ids: Seq<OrderId>, m1: Map<u64, Order>, m2: Map<u64, Order>)
    requires
        forall|i: int| 0 <= i < ids.len() ==> m1[#[trigger] ids[i]@] == m2[ids[i]@],
    ensures
        sum_quantities(ids, m1) == sum_quantities(ids, m2),
    decreases ids.len(),
{
    if ids.len() > 0 {
        let rest = ids.drop_last();
        assert forall|i: int| 0 <= i < rest.len() implies m1[#[trigger] rest[i]@] == m2[rest[i]@] by {
            assert(rest[i] == ids[i]);
        }
        lemma_sum_frame(rest, m1, m2);
        assert(m1[ids[ids.len() - 1]@] == m2[ids[ids.len() - 1]@]);
    }
}

/// Removing the entry at `i` takes exactly its quantity off the sum.
pub proof fn lemma_sum_remove(ids: Seq<OrderId>, orders: Map<u64, Order>, i: int)
    requires
        0 <= i < ids.len(),
    ensures
        sum_quantities(ids.remove(i), orders) + orders[ids[i]@].spec_quantity()@ == sum_quantities(
            ids,
            orders,
        ),
    decreases ids.len(),
{
    if i == ids.len() - 1 {
        assert(ids.remove(i) =~= ids.drop_last());
    } else {
        let rest = ids.drop_last();
        lemma_sum_remove(rest, orders, i);
        assert(ids.remove(i).drop_last() =~= rest.remove(i));
        assert(ids.remove(i).last() == ids.last());
    }
}

/// Inserting an order that the book accepts keeps the book consistent.
pub proof fn lemma_inserted_wf(v: OrderBookView, order: Order)
    requires
        v.wf(),
        v.insert_outcome(order) is Ok,
        order.spec_quantity()@ > 0,
    ensures
        v.inserted(order).wf(),
{
    let id = order.spec_id();
    let k = id@;
    let side = order.spec_side();
    let price = order.spec_price()@;
    let q = order.spec_quantity()@;
    let levels = v.levels(side);
    let old_level = if levels.contains_key(price) {
        levels[price]
    } else {
        PriceLevelView::empty(order.spec_price())
    };
    let new_level = old_level.pushed(id, q);
    let w = v.inserted(order);
    assert(w.levels(side) == levels.insert(price, new_level));
    assert(w.orders == v.orders.insert(k, order));
    assert forall|s: Side| s != side implies #[trigger] w.levels(s) == v.levels(s) by {}
    if levels.contains_key(price) {
        assert(v.level_wf(side, price, levels[price]));
    }
    assert forall|i: int| 0 <= i < old_level.order_ids.len() implies #[trigger] old_level.order_ids[i]@
        != k by {
        assert(v.rests_at(old_level.order_ids[i], side, price));
    }
    lemma_inserted_count(v, order);
    assert forall|k2: u64| #[trigger] w.orders.contains_key(k2) implies {
        let o = w.orders[k2];
        &&& o.spec_id()@ == k2
        &&& o.spec_quantity()@ > 0
        &&& w.levels(o.spec_side()).contains_key(o.spec_price()@)
        &&& w.levels(o.spec_side())[o.spec_price()@].order_ids.contains(o.spec_id())
    } by {
        if k2 == k {
            assert(new_level.order_ids[old_level.order_ids.len() as int] == id);
        } else {
            let o = v.orders[k2];
            assert(v.orders.contains_key(k2));
            if o.spec_side() == side && o.spec_price()@ == price {
                let ids = v.levels(side)[price].order_ids;
                let j = choose|j: int| 0 <= j < ids.len() && ids[j] == o.spec_id();
                assert(new_level.order_ids[j] == o.spec_id());
            }
        }
    }
    assert forall|s: Side, p: i64| #[trigger] w.levels(s).contains_key(p) implies w.level_wf(
        s,
        p,
        w.levels(s)[p],
    ) by {
        if s == side && p == price {
            assert(w.levels(s)[p] == new_level);
            assert forall|i: int, j: int|
                0 <= i < new_level.order_ids.len() && 0 <= j < new_level.order_ids.len() && i
                    != j implies new_level.order_ids[i] != new_level.order_ids[j] by {
                if i < old_level.order_ids.len() && j < old_level.order_ids.len() {
                } else if i < old_level.order_ids.len() {
                    assert(old_level.order_ids[i]@ != k);
                } else if j < old_level.order_ids.len() {
                    assert(old_level.order_ids[j]@ != k);
                }
            }
            assert forall|i: int| 0 <= i < new_level.order_ids.len() implies w.rests_at(
                #[trigger] new_level.order_ids[i],
                s,
                p,
            ) by {
                if i < old_level.order_ids.len() {
                    assert(old_level.order_ids[i]@ != k);
                    assert(v.rests_at(old_level.order_ids[i], side, price));
                }
            }
            lemma_sum_frame(old_level.order_ids, v.orders, w.orders);
            assert(new_level.order_ids.drop_last() =~= old_level.order_ids);
        } else {
            let level = v.levels(s)[p];
            assert(w.levels(s)[p] == level);
            assert(v.level_wf(s, p, level));
            assert forall|i: int| 0 <= i < level.order_ids.len() implies #[trigger] level.order_ids[i]@
                != k by {
                assert(v.rests_at(level.order_ids[i], s, p));
            }
            assert forall|i: int| 0 <= i < level.order_ids.len() implies w.rests_at(
                #[trigger] level.order_ids[i],
                s,
                p,
            ) by {
                assert(v.rests_at(level.order_ids[i], s, p));
            }
            lemma_sum_frame(level.order_ids, v.orders, w.orders);
        }
    }
}

/// An accepted insert adds one order and one queued id.
proof fn lemma_inserted_count(v: OrderBookView, order: Order)
    requires
        v.wf(),
        v.insert_outcome(order) is Ok,
    ensures
        v.inserted(order).orders.dom().finite(),
        v.inserted(order).bids.dom().finite(),
        v.inserted(order).asks.dom().finite(),
        v.inserted(order).orders.len() == queued_count(v.inserted(order).bids) + queued_count(
            v.inserted(order).asks,
        ),
{
    let side = order.spec_side();
    let price = order.spec_price()@;
    let levels = v.levels(side);
    let old_level = if levels.contains_key(price) {
        levels[price]
    } else {
        PriceLevelView::empty(order.spec_price())
    };
    let new_level = old_level.pushed(order.spec_id(), order.spec_quantity()@);
    let w = v.inserted(order);
    assert(w.levels(side) == levels.insert(price, new_level));
    lemma_queued_count_insert(levels, price, new_level);
    assert(w.orders.len() == v.orders.len() + 1);
    match side {
        Side::Buy => {
            assert(w.asks == v.asks);
        },
        Side::Sell => {
            assert(w.bids == v.bids);
        },
    }
}

/// Removing a resting order takes away one order and one queued id.
proof fn lemma_removed_count(v: OrderBookView, order_id: OrderId)
    requires
        v.wf(),
        v.orders.contains_key(order_id@),
        ({
            let order = v.orders[order_id@];
            let level = v.levels(order.spec_side())[order.spec_price()@];
            &&& v.levels(order.spec_side()).contains_key(order.spec_price()@)
            &&& level.order_ids.remove_value(order_id).len() == level.order_ids.len() - 1
        }),
    ensures
        v.removed(order_id).orders.dom().finite(),
        v.removed(order_id).bids.dom().finite(),
        v.removed(order_id).asks.dom().finite(),
        v.removed(order_id).orders.len() == queued_count(v.removed(order_id).bids)
            + queued_count(v.removed(order_id).asks),
{
    let order = v.orders[order_id@];
    let side = order.spec_side();
    let price = order.spec_price()@;
    let levels = v.levels(side);
    let level = levels[price];
    let new_level = level.removed(order_id, order.spec_quantity()@);
    let w = v.removed(order_id);
    if level.order_ids.len() == 1 {
        assert(w.levels(side) == levels.remove(price));
        lemma_queued_count_remove(levels, price);
    } else {
        assert(w.levels(side) == levels.insert(price, new_level));
        lemma_queued_count_insert(levels, price, new_level);
    }
    assert(w.orders.len() == v.orders.len() - 1);
    match side {
        Side::Buy => {
            assert(w.asks == v.asks);
        },
        Side::Sell => {
            assert(w.bids == v.bids);
        },
    }
}

/// Where the first occurrence of `id` sits in a queue without duplicates, and
/// what is left once it is removed.
pub proof fn lemma_remove_value_facts(ids: Seq<OrderId>, id: OrderId) -> (idx: int)
    requires
        ids.no_duplicates(),
        ids.contains(id),
    ensures
        0 <= idx < ids.len(),
        ids[idx] == id,
        ids.remove_value(id) == ids.remove(idx),
        ids.remove(idx).len() == ids.len() - 1,
        ids.remove(idx).no_duplicates(),
        forall|j: int| 0 <= j < idx ==> #[trigger] ids.remove(idx)[j] == ids[j],
        forall|j: int| idx <= j < ids.len() - 1 ==> #[trigger] ids.remove(idx)[j] == ids[j + 1],
        forall|j: int| 0 <= j < ids.len() - 1 ==> #[trigger] ids.remove(idx)[j] != id,
{
    ids.index_of_first_ensures(id);
    let idx = ids.index_of_first(id)->Some_0;
    let rest = ids.remove(idx);
    ids.remove_ensures(idx);
    assert forall|a: int, b: int| 0 <= a < rest.len() && 0 <= b < rest.len() && a != b implies rest[a]
        != rest[b] by {
        let aa = if a < idx {
            a
        } else {
            a + 1
        };
        let bb = if b < idx {
            b
        } else {
            b + 1
        };
        assert(rest[a] == ids[aa]);
        assert(rest[b] == ids[bb]);
    }
    assert forall|j: int| 0 <= j < ids.len() - 1 implies #[trigger] rest[j] != id by {
        let jj = if j < idx {
            j
        } else {
            j + 1
        };
        assert(rest[j] == ids[jj]);
    }
    idx
}

/// Removing a resting order from a consistent book succeeds at its level and
/// keeps the book consistent.
pub proof fn lemma_removed_wf(v: OrderBookView, order_id: OrderId)
    requires
        v.wf(),
    ensures
        v.removed(order_id).wf(),
        v.orders.contains_key(order_id@) ==> {
            let order = v.orders[order_id@];
            let level = v.levels(order.spec_side())[order.spec_price()@];
            &&& order.spec_id() == order_id
            &&& level.remove_outcome(order_id, order.spec_quantity()@) is Ok
            &&& level.order_ids.remove_value(order_id).len() == level.order_ids.len() - 1
        },
{
    let k = order_id@;
    if v.orders.contains_key(k) {
        let order = v.orders[k];
        let side = order.spec_side();
        let price = order.spec_price()@;
        let q = order.spec_quantity()@;
        let levels = v.levels(side);
        assert(v.orders.contains_key(k));
        assert(order.spec_id() == order_id);
        let level = levels[price];
        assert(v.level_wf(side, price, level));
        let ids = level.order_ids;
        let idx = lemma_remove_value_facts(ids, order_id);
        lemma_sum_remove(ids, v.orders, idx);
        let new_level = level.removed(order_id, q);
        let rest = ids.remove(idx);
        assert(new_level.order_ids == rest);
        let w = v.removed(order_id);
        let new_levels = if ids.len() == 1 {
            levels.remove(price)
        } else {
            levels.insert(price, new_level)
        };
        assert(w.levels(side) == new_levels);
        assert(w.orders == v.orders.remove(k));
        assert forall|s: Side| s != side implies #[trigger] w.levels(s) == v.levels(s) by {}
        lemma_removed_count(v, order_id);
        assert forall|k2: u64| #[trigger] w.orders.contains_key(k2) implies {
            let o = w.orders[k2];
            &&& o.spec_id()@ == k2
            &&& o.spec_quantity()@ > 0
            &&& w.levels(o.spec_side()).contains_key(o.spec_price()@)
            &&& w.levels(o.spec_side())[o.spec_price()@].order_ids.contains(o.spec_id())
        } by {
            let o = v.orders[k2];
            assert(v.orders.contains_key(k2));
            if o.spec_side() == side && o.spec_price()@ == price {
                let j = choose|j: int| 0 <= j < ids.len() && ids[j] == o.spec_id();
                assert(j != idx);
                if j < idx {
                    assert(rest[j] == ids[j]);
                } else {
                    assert(rest[j - 1] == ids[j]);
                }
                assert(w.levels(side)[price] == new_level);
            }
        }
        assert forall|s: Side, p: i64| #[trigger] w.levels(s).contains_key(p) implies w.level_wf(
            s,
            p,
            w.levels(s)[p],
        ) by {
            if s == side && p == price {
                lemma_removed_level_wf(v, w, side, price, level, order_id, idx);
            } else {
                lemma_untouched_level_wf(v, w, s, p, k);
            }
        }
    }
}

/// The level that lost `order_id` is still sound in the book without it.
proof fn lemma_removed_level_wf(
    v: OrderBookView,
    w: OrderBookView,
    side: Side,
    price: i64,
    level: PriceLevelView,
    order_id: OrderId,
    idx: int,
)
    requires
        v.level_wf(side, price, level),
        0 <= idx < level.order_ids.len(),
        level.order_ids[idx] == order_id,
        v.orders.contains_key(order_id@),
        v.orders[order_id@].spec_id() == order_id,
        w.orders == v.orders.remove(order_id@),
        level.order_ids.remove(idx).len() > 0,
        level.order_ids.remove(idx).no_duplicates(),
        forall|j: int| 0 <= j < idx ==> #[trigger] level.order_ids.remove(idx)[j] == level.order_ids[j],
        forall|j: int|
            idx <= j < level.order_ids.len() - 1 ==> #[trigger] level.order_ids.remove(idx)[j]
                == level.order_ids[j + 1],
        forall|j: int|
            0 <= j < level.order_ids.len() - 1 ==> #[trigger] level.order_ids.remove(idx)[j]
                != order_id,
        sum_quantities(level.order_ids.remove(idx), v.orders) + v.orders[order_id@].spec_quantity()@
            == sum_quantities(level.order_ids, v.orders),
    ensures
        w.level_wf(
            side,
            price,
            level.removed(order_id, v.orders[order_id@].spec_quantity()@),
        ),
{
    let ids = level.order_ids;
    let rest = ids.remove(idx);
    let k = order_id@;
    assert(ids.remove_value(order_id) == rest) by {
        ids.index_of_first_ensures(order_id);
        let first = ids.index_of_first(order_id)->Some_0;
        assert(first == idx);
    }
    assert forall|i: int| 0 <= i < rest.len() implies w.rests_at(#[trigger] rest[i], side, price) by {
        let ii = if i < idx {
            i
        } else {
            i + 1
        };
        assert(rest[i] == ids[ii]);
        assert(v.rests_at(ids[ii], side, price));
        assert(rest[i] != order_id);
    }
    assert forall|i: int| 0 <= i < rest.len() implies v.orders[#[trigger] rest[i]@] == w.orders[rest[i]@] by {
        assert(rest[i] != order_id);
    }
    lemma_sum_frame(rest, v.orders, w.orders);
}

/// A level away from the changed order keeps its soundness.
proof fn lemma_untouched_level_wf(v: OrderBookView, w: OrderBookView, s: Side, p: i64, k: u64)
    requires
        v.wf(),
        v.levels(s).contains_key(p),
        w.levels(s) == v.levels(s) || (w.levels(s).contains_key(p) && w.levels(s)[p] == v.levels(s)[p]),
        v.orders.contains_key(k),
        !(v.orders[k].spec_side() == s && v.orders[k].spec_price()@ == p),
        w.orders == v.orders.remove(k),
    ensures
        w.level_wf(s, p, v.levels(s)[p]),
{
    let other = v.levels(s)[p];
    assert(v.level_wf(s, p, other));
    assert forall|i: int| 0 <= i < other.order_ids.len() implies w.rests_at(
        #[trigger] other.order_ids[i],
        s,
        p,
    ) by {
        assert(v.rests_at(other.order_ids[i], s, p));
    }
    assert forall|i: int| 0 <= i < other.order_ids.len() implies v.orders[#[trigger] other.order_ids[i]@]
        == w.orders[other.order_ids[i]@] by {
        assert(v.rests_at(other.order_ids[i], s, p));
    }
    lemma_sum_frame(other.order_ids, v.orders, w.orders);
}

/// Removing an order right after the book accepted it gives that order back
/// and restores the book exactly as it was.
pub proof fn lemma_remove_undoes_insert(v: OrderBookView, order: Order)
    requires
        v.wf(),
        v.insert_outcome(order) is Ok,
    ensures
        v.inserted(order).remove_outcome(order.spec_id()) == Ok::<Option<Order>, OrderBookError>(
            Some(order),
        ),
        v.inserted(order).removed(order.spec_id()) == v,
{
    let id = order.spec_id();
    let k = id@;
    let side = order.spec_side();
    let price = order.spec_price()@;
    let q = order.spec_quantity()@;
    let levels = v.levels(side);
    let old_level = if levels.contains_key(price) {
        levels[price]
    } else {
        PriceLevelView::empty(order.spec_price())
    };
    let new_level = old_level.pushed(id, q);
    let w = v.inserted(order);
    assert(w.levels(side) == levels.insert(price, new_level));
    assert(w.orders[k] == order);
    if levels.contains_key(price) {
        assert(v.level_wf(side, price, levels[price]));
    }
    assert forall|i: int| 0 <= i < old_level.order_ids.len() implies #[trigger] old_level.order_ids[i]
        != id by {
        assert(v.rests_at(old_level.order_ids[i], side, price));
    }
    let ids = new_level.order_ids;
    let n = old_level.order_ids.len() as int;
    assert(ids[n] == id);
    assert(ids.contains(id));
    ids.index_of_first_ensures(id);
    let first = ids.index_of_first(id)->Some_0;
    if first < n {
        assert(ids[first] == old_level.order_ids[first]);
    }
    assert(first == n);
    assert(ids.remove(n) =~= old_level.order_ids);
    let back = new_level.removed(id, q);
    assert(back.aggregate_quantity == old_level.aggregate_quantity);
    assert(back.order_ids == old_level.order_ids);
    let u = w.removed(id);
    if levels.contains_key(price) {
        assert(back == old_level);
        assert(u.levels(side) =~= levels);
    } else {
        assert(u.levels(side) =~= levels);
    }
    assert(u.orders =~= v.orders);
    match side {
        Side::Buy => {
            assert(u.bids == v.bids);
            assert(u.asks == v.asks);
        },
        Side::Sell => {
            assert(u.bids == v.bids);
            assert(u.asks == v.asks);
        },
    }
}

/// Bids and asks are independent: inserting or removing an order leaves the
/// levels of the other side as they were.
pub proof fn lemma_sides_independent(v: OrderBookView, order: Order, order_id: OrderId, other: Side)
    requires
        other != order.spec_side(),
        v.orders.contains_key(order_id@) ==> v.orders[order_id@].spec_side() != other,
    ensures
        v.inserted(order).levels(other) == v.levels(other),
        v.removed(order_id).levels(other) == v.levels(other),
{
}

/// Joining a level never takes time priority away: the order at the front of
/// an existing level stays at the front, and the newcomer goes to the back.
pub proof fn lemma_insert_keeps_time_priority(v: OrderBookView, order: Order)
    requires
        v.levels(order.spec_side()).contains_key(order.spec_price()@),
        v.levels(order.spec_side())[order.spec_price()@].order_ids.len() > 0,
    ensures
        ({
            let before = v.levels(order.spec_side())[order.spec_price()@].order_ids;
            let after = v.inserted(order).levels(order.spec_side())[order.spec_price()@].order_ids;
            &&& after[0] == before[0]
            &&& after.last() == order.spec_id()
            &&& after.len() == before.len() + 1
        }),
{
    let side = order.spec_side();
    let price = order.spec_price()@;
    assert(v.inserted(order).levels(side) == v.levels(side).insert(
        price,
        v.levels(side)[price].pushed(order.spec_id(), order.spec_quantity()@),
    ));
}

/// In a consistent book, the aggregate of a level is the total quantity of
/// the orders resting on its side at its price, and is positive; where no
/// level is, no order rests and the resting quantity is zero.
pub proof fn lemma_aggregate_is_resting_quantity(v: OrderBookView, side: Side, price: i64)
    requires
        v.wf(),
    ensures
        v.levels(side).contains_key(price) ==> {
            &&& v.levels(side)[price].aggregate_quantity == resting_quantity(v.orders, side, price)
            &&& v.levels(side)[price].aggregate_quantity > 0
        },
        !v.levels(side).contains_key(price) ==> resting_quantity(v.orders, side, price) == 0,
{
    if v.levels(side).contains_key(price) {
        let level = v.levels(side)[price];
        assert(v.level_wf(side, price, level));
        let ids = level.order_ids;
        assert forall|i: int| 0 <= i < ids.len() implies {
            &&& v.orders.contains_key(#[trigger] ids[i]@)
            &&& v.orders[ids[i]@].spec_side() == side
            &&& v.orders[ids[i]@].spec_price()@ == price
        } by {
            assert(v.rests_at(ids[i], side, price));
        }
        assert forall|k: u64| #[trigger]
            v.orders.contains_key(k) && v.orders[k].spec_side() == side && v.orders[k].spec_price()@
                == price implies exists|i: int| 0 <= i < ids.len() && ids[i]@ == k by {
            let order = v.orders[k];
            assert(v.orders.contains_key(k));
            let i = choose|i: int| 0 <= i < ids.len() && ids[i] == order.spec_id();
            assert(ids[i]@ == k);
        }
        lemma_sum_is_resting_quantity(ids, v.orders, side, price);
        let last = ids[ids.len() - 1];
        assert(v.orders.contains_key(last@));
    } else {
        assert forall|k: u64| #[trigger] v.orders.contains_key(k) implies !(v.orders[k].spec_side()
            == side && v.orders[k].spec_price()@ == price) by {
            assert(v.orders.contains_key(k));
        }
        lemma_resting_quantity_none(v.orders, side, price);
    }
}

/// Insert refuses an order only for a known id, or when the aggregate of the
/// level at its side and price would pass `i64::MAX`; any other order is
/// accepted, in particular a fresh id at a price with no level yet.
pub proof fn lemma_insert_refuses_only_duplicates_and_overflow(v: OrderBookView, order: Order)
    ensures
        v.orders.contains_key(order.spec_id()@) ==> v.insert_outcome(order) == Err::<
            (),
            OrderBookError,
        >(OrderBookError::DuplicateOrderId(order.spec_id())),
        !v.orders.contains_key(order.spec_id()@) && v.levels(order.spec_side()).contains_key(
            order.spec_price()@,
        ) && v.levels(order.spec_side())[order.spec_price()@].aggregate_quantity
            + order.spec_quantity()@ > i64::MAX ==> v.insert_outcome(order) == Err::<
            (),
            OrderBookError,
        >(OrderBookError::AggregateQuantityOutOfRange { price: order.spec_price() }),
        !v.orders.contains_key(order.spec_id()@) && (!v.levels(order.spec_side()).contains_key(
            order.spec_price()@,
        ) || v.levels(order.spec_side())[order.spec_price()@].aggregate_quantity
            + order.spec_quantity()@ <= i64::MAX) ==> v.insert_outcome(order) == Ok::<
            (),
            OrderBookError,
        >(()),
{
}

/// An accepted order is filed under its id and joins the back of its
/// level's queue (a new level if its price had none), adding its quantity
/// to the level's aggregate; every other level, on both sides, is as it was.
pub proof fn lemma_insert_appends_to_level(v: OrderBookView, order: Order)
    ensures
        ({
            let side = order.spec_side();
            let price = order.spec_price()@;
            let levels = v.levels(side);
            let after = v.inserted(order);
            let existed = levels.contains_key(price);
            &&& after.orders == v.orders.insert(order.spec_id()@, order)
            &&& after.levels(side).contains_key(price)
            &&& after.levels(side)[price].order_ids == (if existed {
                levels[price].order_ids
            } else {
                Seq::<OrderId>::empty()
            }).push(order.spec_id())
            &&& after.levels(side)[price].aggregate_quantity == (if existed {
                levels[price].aggregate_quantity
            } else {
                0
            }) + order.spec_quantity()@
            &&& after.levels(side)[price].price == (if existed {
                levels[price].price
            } else {
                order.spec_price()
            })
            &&& forall|other: i64|
                other != price ==> (#[trigger] after.levels(side).contains_key(other)
                    == levels.contains_key(other) && (levels.contains_key(other) ==> after.levels(
                    side,
                )[other] == levels[other]))
            &&& forall|s: Side| s != side ==> #[trigger] after.levels(s) == v.levels(s)
        }),
{
    let side = order.spec_side();
    let price = order.spec_price()@;
    let levels = v.levels(side);
    let level = if levels.contains_key(price) {
        levels[price]
    } else {
        PriceLevelView::empty(order.spec_price())
    };
    let after = v.inserted(order);
    assert(after.levels(side) == levels.insert(
        price,
        level.pushed(order.spec_id(), order.spec_quantity()@),
    ));
    assert forall|s: Side| s != side implies #[trigger] after.levels(s) == v.levels(s) by {}
}

/// In a consistent book, removing a resting order gives that very order
/// back and takes it out of the id index; its level loses exactly that id,
/// the others keeping their relative order, and the order's quantity, and
/// is dropped if the order was alone in it. Every other level is as it was.
/// An unknown id gives `Ok(None)` and changes nothing.
pub proof fn lemma_remove_takes_out_resting_order(v: OrderBookView, order_id: OrderId)
    requires
        v.wf(),
    ensures
        !v.orders.contains_key(order_id@) ==> v.remove_outcome(order_id) == Ok::<
            Option<Order>,
            OrderBookError,
        >(None) && v.removed(order_id) == v,
        v.orders.contains_key(order_id@) ==> ({
            let order = v.orders[order_id@];
            let side = order.spec_side();
            let price = order.spec_price()@;
            let level = v.levels(side)[price];
            let after = v.removed(order_id);
            &&& order.spec_id() == order_id
            &&& v.remove_outcome(order_id) == Ok::<Option<Order>, OrderBookError>(Some(order))
            &&& after.orders == v.orders.remove(order_id@)
            &&& !after.orders.contains_key(order_id@)
            &&& v.levels(side).contains_key(price)
            &&& level.order_ids.contains(order_id)
            &&& level.order_ids.len() == 1 ==> !after.levels(side).contains_key(price)
            &&& level.order_ids.len() > 1 ==> after.levels(side).contains_key(price)
            &&& forall|i: int|
                0 <= i < level.order_ids.len() && #[trigger] level.order_ids[i] == order_id
                    && level.order_ids.len() > 1 ==> {
                    &&& after.levels(side)[price].order_ids == level.order_ids.subrange(0, i)
                        + level.order_ids.subrange(i + 1, level.order_ids.len() as int)
                    &&& after.levels(side)[price].aggregate_quantity + order.spec_quantity()@
                        == level.aggregate_quantity
                    &&& after.levels(side)[price].price == level.price
                }
            &&& forall|other: i64|
                other != price ==> (#[trigger] after.levels(side).contains_key(other)
                    == v.levels(side).contains_key(other) && (v.levels(side).contains_key(other)
                    ==> after.levels(side)[other] == v.levels(side)[other]))
            &&& forall|s: Side| s != side ==> #[trigger] after.levels(s) == v.levels(s)
        }),
{
    lemma_removed_wf(v, order_id);
    if v.orders.contains_key(order_id@) {
        let order = v.orders[order_id@];
        let side = order.spec_side();
        let price = order.spec_price()@;
        let levels = v.levels(side);
        let level = levels[price];
        let q = order.spec_quantity()@;
        let after = v.removed(order_id);
        assert(v.orders.contains_key(order_id@));
        assert(v.level_wf(side, price, level));
        let removed = level.removed(order_id, q);
        if level.order_ids.len() == 1 {
            assert(after.levels(side) == levels.remove(price));
        } else {
            assert(after.levels(side) == levels.insert(price, removed));
        }
        assert forall|i: int|
            0 <= i < level.order_ids.len() && #[trigger] level.order_ids[i] == order_id
                && level.order_ids.len() > 1 implies {
            &&& after.levels(side)[price].order_ids == level.order_ids.subrange(0, i)
                + level.order_ids.subrange(i + 1, level.order_ids.len() as int)
            &&& after.levels(side)[price].aggregate_quantity + q == level.aggregate_quantity
            &&& after.levels(side)[price].price == level.price
        } by {
            assert forall|j: int| 0 <= j < i implies level.order_ids[j] != order_id by {
                assert(level.order_ids[j] != level.order_ids[i]);
            }
            lemma_level_removal_keeps_fifo(level, order_id, q, i);
        }
        assert forall|s: Side| s != side implies #[trigger] after.levels(s) == v.levels(s) by {}
    }
}

} // verus!
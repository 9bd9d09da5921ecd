use std::collections::{BTreeMap, HashMap};

use vstd::prelude::*;
use vstd::std_specs::btree::{increasing_seq, spec_keys_iter};
use vstd::std_specs::cmp::OrdSpec;
use vstd::std_specs::iter::IteratorSpec;

use crate::domain::{
    lemma_order_id_view_injective, lemma_price_ticks_view_injective, OrderId, PriceTicks,
    QuantityLots, Side,
};

use super::error::OrderBookError;
use super::model::{
    lemma_aggregate_is_resting_quantity, lemma_inserted_wf, lemma_removed_wf, resting_quantity,
    OrderBookView,
};
use super::order::Order;
use super::price_level::{PriceLevel, PriceLevelView};

verus! {

broadcast use {lemma_order_id_view_injective, lemma_price_ticks_view_injective};

/// In-memory limit order book for exactly one market.
///
/// Price levels are kept in `BTreeMap`s keyed by tick count, so they are
/// ordered deterministically; the `HashMap` is only an order-id lookup index
/// and its iteration order is never used.
#[derive(Debug)]
pub struct OrderBook {
    bids: BTreeMap<i64, PriceLevel>,
    asks: BTreeMap<i64, PriceLevel>,
    orders: HashMap<u64, Order>,
}

/// The views of the levels of one side.
spec fn levels_view(levels: Map<i64, PriceLevel>) -> Map<i64, PriceLevelView> {
    levels.map_values(|level: PriceLevel| level@)
}

impl View for OrderBook {
    type V = OrderBookView;

    closed spec fn view(&self) -> OrderBookView {
        OrderBookView {
            bids: levels_view(self.bids@),
            asks: levels_view(self.asks@),
            orders: self.orders@,
        }
    }
}

/// `BTreeMap::first_key_value`, which std documents as the entry with the
/// least key, or `None` for an empty map. The contract claims exactly that.
#[verifier::external_body]
fn lowest_entry(levels: &BTreeMap<i64, PriceLevel>) -> (entry: Option<(i64, &PriceLevel)>)
    ensures
        entry is None <==> levels@.is_empty(),
        entry matches Some((key, level)) ==> {
            &&& levels@.contains_key(key)
            &&& levels@[key] == *level
            &&& forall|other: i64| #[trigger] levels@.contains_key(other) ==> key <= other
        },
{
    levels.first_key_value().map(|(key, level)| (*key, level))
}

/// `BTreeMap::last_key_value`, which std documents as the entry with the
/// greatest key, or `None` for an empty map. The contract claims exactly that.
#[verifier::external_body]
fn highest_entry(levels: &BTreeMap<i64, PriceLevel>) -> (entry: Option<(i64, &PriceLevel)>)
    ensures
        entry is None <==> levels@.is_empty(),
        entry matches Some((key, level)) ==> {
            &&& levels@.contains_key(key)
            &&& levels@[key] == *level
            &&& forall|other: i64| #[trigger] levels@.contains_key(other) ==> other <= key
        },
{
    levels.last_key_value().map(|(key, level)| (*key, level))
}

/// The keys of `levels`, as its keys iterator yields them: each key once, in
/// increasing order.
proof fn lemma_keys_ascending(levels: &BTreeMap<i64, PriceLevel>)
    ensures
        forall|i: int|
            0 <= i < spec_keys_iter(levels).remaining().len() ==> levels@.contains_key(
                *#[trigger] spec_keys_iter(levels).remaining()[i],
            ),
        forall|i: int, j: int|
            0 <= i < j < spec_keys_iter(levels).remaining().len() ==> *#[trigger] spec_keys_iter(
                levels,
            ).remaining()[i] < *#[trigger] spec_keys_iter(levels).remaining()[j],
        forall|k: i64|
            #[trigger] levels@.contains_key(k) ==> exists|i: int|
                0 <= i < spec_keys_iter(levels).remaining().len() && *spec_keys_iter(
                    levels,
                ).remaining()[i] == k,
        spec_keys_iter(levels).remaining().len() == levels@.len(),
{
    broadcast use {
        vstd::laws_cmp::group_laws_cmp,
        vstd::std_specs::btree::axiom_increasing_seq_meaning,
        vstd::std_specs::btree::axiom_spec_keys_iter,
    };

    let keys = spec_keys_iter(levels).remaining();
    assert(vstd::laws_cmp::obeys_cmp::<i64>());
    assert(vstd::laws_cmp::obeys_cmp::<&i64>());
    assert(increasing_seq(keys));
    assert(keys.unref().to_set() == levels@.dom());
    assert forall|i: int| 0 <= i < keys.len() implies levels@.contains_key(*#[trigger] keys[i]) by {
        assert(keys.unref()[i] == *keys[i]);
        assert(keys.unref().to_set().contains(*keys[i]));
    }
    assert forall|i: int, j: int| 0 <= i < j < keys.len() implies *#[trigger] keys[i] < *#[trigger] keys[j] by {
        assert(OrdSpec::cmp_spec(&keys[i], &keys[j]) is Less);
    }
    assert forall|k: i64| #[trigger] levels@.contains_key(k) implies exists|i: int|
        0 <= i < keys.len() && *keys[i] == k by {
        assert(keys.unref().to_set().contains(k));
        let i = choose|i: int| 0 <= i < keys.unref().len() && keys.unref()[i] == k;
        assert(*keys[i] == k);
    }
}

/// The levels of `levels`, lowest price first.
fn ascending_levels(levels: &BTreeMap<i64, PriceLevel>) -> (ordered: Vec<&PriceLevel>)
    requires
        forall|k: i64| #[trigger] levels@.contains_key(k) ==> levels@[k]@.price@ == k,
    ensures
        ordered.len() == levels@.len(),
        forall|i: int|
            0 <= i < ordered.len() ==> levels@.contains_key(#[trigger] ordered[i]@.price@)
                && levels@[ordered[i]@.price@] == *ordered[i],
        forall|i: int, j: int|
            0 <= i < j < ordered.len() ==> #[trigger] ordered[i]@.price@ < #[trigger] ordered[j]@.price@,
        forall|k: i64|
            #[trigger] levels@.contains_key(k) ==> exists|i: int|
                0 <= i < ordered.len() && ordered[i]@.price@ == k,
{
    let ghost keys = spec_keys_iter(levels).remaining();
    proof {
        lemma_keys_ascending(levels);
    }
    let mut ordered: Vec<&PriceLevel> = Vec::new();
    for key in it: levels.keys()
        invariant
            it.seq() == keys,
            forall|k: i64| #[trigger] levels@.contains_key(k) ==> levels@[k]@.price@ == k,
            forall|i: int| 0 <= i < keys.len() ==> levels@.contains_key(*#[trigger] keys[i]),
            forall|i: int, j: int| 0 <= i < j < keys.len() ==> *#[trigger] keys[i] < *#[trigger] keys[j],
            ordered.len() == it.index(),
            forall|i: int| 0 <= i < ordered.len() ==> #[trigger] *ordered[i] == levels@[*keys[i]],
    {
        let ghost idx = it.index();
        assert(levels@.contains_key(*keys[idx]));
        match levels.get(key) {
            Some(level) => {
                ordered.push(level);
            },
            None => {},
        }
    }
    proof {
        assert forall|i: int| 0 <= i < ordered.len() implies levels@.contains_key(
            #[trigger] ordered[i]@.price@,
        ) && levels@[ordered[i]@.price@] == *ordered[i] by {
            assert(levels@.contains_key(*keys[i]));
        }
        assert forall|i: int, j: int| 0 <= i < j < ordered.len() implies #[trigger] ordered[i]@.price@
            < #[trigger] ordered[j]@.price@ by {
            assert(levels@.contains_key(*keys[i]));
            assert(levels@.contains_key(*keys[j]));
        }
        assert forall|k: i64| #[trigger] levels@.contains_key(k) implies exists|i: int|
            0 <= i < ordered.len() && ordered[i]@.price@ == k by {
            let i = choose|i: int| 0 <= i < keys.len() && *keys[i] == k;
            assert(*ordered[i] == levels@[*keys[i]]);
        }
    }
    ordered
}

impl OrderBook {
    spec fn side_map(&self, side: Side) -> BTreeMap<i64, PriceLevel> {
        match side {
            Side::Buy => self.bids,
            Side::Sell => self.asks,
        }
    }

    spec fn with_side_map(self, side: Side, levels: BTreeMap<i64, PriceLevel>) -> OrderBook {
        match side {
            Side::Buy => OrderBook { bids: levels, asks: self.asks, orders: self.orders },
            Side::Sell => OrderBook { bids: self.bids, asks: levels, orders: self.orders },
        }
    }

    /// The empty book.
    pub fn new() -> (book: Self)
        ensures
            book@ == OrderBookView::empty(),
            book@.wf(),
    {
        let book = OrderBook { bids: BTreeMap::new(), asks: BTreeMap::new(), orders: HashMap::new() };
        proof {
            assert(book@.bids =~= Map::empty());
            assert(book@.asks =~= Map::empty());
        }
        book
    }

    /// Inserts one resting order at the back of its price level's queue,
    /// creating the level when absent.
    ///
    /// A known id is refused with `DuplicateOrderId`; an aggregate beyond the
    /// canonical `i64` range with `AggregateQuantityOutOfRange`. A refused
    /// order leaves the book unchanged.
    pub fn insert(&mut self, order: Order) -> (result: Result<(), OrderBookError>)
        requires
            old(self)@.wf(),
        ensures
            final(self)@.wf(),
            result == old(self)@.insert_outcome(order),
            result is Ok ==> final(self)@ == old(self)@.inserted(order),
            result is Ok ==> final(self)@.orders.len() == old(self)@.orders.len() + 1,
            result is Err ==> final(self)@ == old(self)@,
    {
        let order_id = order.id();
        let side = order.side();
        let price = order.price();
        let quantity = order.quantity();
        let key = order_id.get();
        if self.orders.contains_key(&key) {
            return Err(OrderBookError::DuplicateOrderId(order_id));
        }
        let tick = price.get();
        let ghost v = self@;
        proof {
            use_type_invariant(&quantity);
            quantity.lemma_bounded();
            if v.levels(side).contains_key(tick) {
                assert(v.level_wf(side, tick, v.levels(side)[tick]));
            }
        }
        let levels = self.levels_mut(side);
        let pushed = match levels.remove(&tick) {
            Some(mut level) => {
                let outcome = level.push_back(order_id, quantity);
                levels.insert(tick, level);
                outcome
            },
            None => {
                let mut level = PriceLevel::new(price);
                let outcome = level.push_back(order_id, quantity);
                if outcome.is_ok() {
                    levels.insert(tick, level);
                }
                outcome
            },
        };
        proof {
            assert(levels_view(levels@) =~= if pushed is Ok {
                v.levels(side).insert(
                    tick,
                    (if v.levels(side).contains_key(tick) {
                        v.levels(side)[tick]
                    } else {
                        PriceLevelView::empty(price)
                    }).pushed(order_id, quantity@),
                )
            } else {
                v.levels(side)
            });
        }
        if let Err(refusal) = pushed {
            proof {
                assert(self@ == v);
            }
            return Err(refusal);
        }
        self.orders.insert(key, order);
        proof {
            assert(self@ == v.inserted(order));
            lemma_inserted_wf(v, order);
        }
        Ok(())
    }

    /// Removes an order by id, giving it back; an unknown id answers
    /// `Ok(None)`. A level left empty is dropped.
    ///
    /// `InconsistentState` would mean that the id index and the levels
    /// disagree; on a consistent book it never happens.
    pub fn remove(&mut self, order_id: OrderId) -> (result: Result<Option<Order>, OrderBookError>)
        requires
            old(self)@.wf(),
        ensures
            final(self)@.wf(),
            result == old(self)@.remove_outcome(order_id),
            final(self)@ == old(self)@.removed(order_id),
            result matches Ok(Some(_)) ==> final(self)@.orders.len() == old(self)@.orders.len() - 1,
            result matches Ok(None) ==> final(self)@.orders.len() == old(self)@.orders.len(),
    {
        let key = order_id.get();
        let (side, price, quantity) = match self.orders.get(&key) {
            None => {
                return Ok(None);
            },
            Some(order) => (order.side(), order.price(), order.quantity()),
        };
        let tick = price.get();
        let ghost v = self@;
        proof {
            lemma_removed_wf(v, order_id);
        }
        let level_is_empty = {
            let levels = self.levels_mut(side);
            let mut level = match levels.remove(&tick) {
                Some(level) => level,
                None => {
                    return Err(OrderBookError::InconsistentState(order_id));
                },
            };
            let outcome = level.remove(order_id, quantity);
            if let Err(refusal) = outcome {
                levels.insert(tick, level);
                return Err(refusal);
            }
            let empty = level.is_empty();
            if !empty {
                levels.insert(tick, level);
            }
            proof {
                let old_level = v.levels(side)[tick];
                let new_level = old_level.removed(order_id, quantity@);
                assert(levels_view(levels@) =~= if old_level.order_ids.len() == 1 {
                    v.levels(side).remove(tick)
                } else {
                    v.levels(side).insert(tick, new_level)
                });
            }
            empty
        };
        let removed = self.orders.remove(&key);
        match removed {
            Some(order) => {
                proof {
                    assert(self@ == v.removed(order_id));
                }
                Ok(Some(order))
            },
            None => Err(OrderBookError::InconsistentState(order_id)),
        }
    }

    /// The resting order with this id, if any.
    pub fn order(&self, order_id: OrderId) -> (order: Option<&Order>)
        ensures
            order is None <==> !self@.orders.contains_key(order_id@),
            order matches Some(found) ==> *found == self@.orders[order_id@],
    {
        self.orders.get(&order_id.get())
    }

    pub fn contains_order(&self, order_id: OrderId) -> (found: bool)
        ensures
            found == self@.orders.contains_key(order_id@),
    {
        self.orders.contains_key(&order_id.get())
    }

    /// The number of resting orders.
    pub fn len(&self) -> (count: usize)
        ensures
            count == self@.orders.len(),
    {
        self.orders.len()
    }

    pub fn is_empty(&self) -> (empty: bool)
        ensures
            empty == self@.orders.is_empty(),
    {
        self.orders.is_empty()
    }

    /// The number of bid price levels.
    pub fn bid_level_count(&self) -> (count: usize)
        ensures
            count == self@.bids.len(),
    {
        proof {
            assert(self@.bids.dom() =~= self.bids@.dom());
        }
        self.bids.len()
    }

    /// The number of ask price levels.
    pub fn ask_level_count(&self) -> (count: usize)
        ensures
            count == self@.asks.len(),
    {
        proof {
            assert(self@.asks.dom() =~= self.asks@.dom());
        }
        self.asks.len()
    }

    /// The highest bid price level.
    pub fn best_bid(&self) -> (best: Option<&PriceLevel>)
        requires
            self@.wf(),
        ensures
            best is None <==> self@.bids.is_empty(),
            best matches Some(level) ==> {
                &&& self@.bids.contains_key(level@.price@)
                &&& self@.bids[level@.price@] == level@
                &&& forall|price: i64| #[trigger] self@.bids.contains_key(price) ==> price <= level@.price@
            },
    {
        proof {
            assert(self@.bids.dom() =~= self.bids@.dom());
            assert(self@.levels(Side::Buy) == self@.bids);
        }
        match highest_entry(&self.bids) {
            Some((price, level)) => {
                proof {
                    assert(self@.bids.contains_key(price));
                    assert(self@.level_wf(Side::Buy, price, self@.bids[price]));
                }
                Some(level)
            },
            None => None,
        }
    }

    /// The lowest ask price level.
    pub fn best_ask(&self) -> (best: Option<&PriceLevel>)
        requires
            self@.wf(),
        ensures
            best is None <==> self@.asks.is_empty(),
            best matches Some(level) ==> {
                &&& self@.asks.contains_key(level@.price@)
                &&& self@.asks[level@.price@] == level@
                &&& forall|price: i64| #[trigger] self@.asks.contains_key(price) ==> level@.price@ <= price
            },
    {
        proof {
            assert(self@.asks.dom() =~= self.asks@.dom());
            assert(self@.levels(Side::Sell) == self@.asks);
        }
        match lowest_entry(&self.asks) {
            Some((price, level)) => {
                proof {
                    assert(self@.asks.contains_key(price));
                    assert(self@.level_wf(Side::Sell, price, self@.asks[price]));
                }
                Some(level)
            },
            None => None,
        }
    }

    /// The level of `side` at `price`, if any.
    pub fn level(&self, side: Side, price: PriceTicks) -> (level: Option<&PriceLevel>)
        ensures
            level is None <==> !self@.levels(side).contains_key(price@),
            level matches Some(found) ==> found@ == self@.levels(side)[price@],
    {
        self.levels(side).get(&price.get())
    }

    /// The aggregate quantity of `side` at `price`; zero where no level is.
    pub fn aggregate_quantity(&self, side: Side, price: PriceTicks) -> (quantity: QuantityLots)
        ensures
            quantity@ == if self@.levels(side).contains_key(price@) {
                self@.levels(side)[price@].aggregate_quantity
            } else {
                0
            },
            self@.wf() ==> quantity@ == resting_quantity(self@.orders, side, price@),
    {
        proof {
            if self@.wf() {
                lemma_aggregate_is_resting_quantity(self@, side, price@);
            }
        }
        match self.level(side, price) {
            Some(level) => level.aggregate_quantity(),
            None => QuantityLots::zero(),
        }
    }

    /// Bid levels from best (highest) price to worst.
    pub fn bid_levels(&self) -> (levels: Vec<&PriceLevel>)
        requires
            self@.wf(),
        ensures
            levels.len() == self@.bids.len(),
            forall|i: int|
                0 <= i < levels.len() ==> self@.bids.contains_key(#[trigger] levels[i]@.price@)
                    && self@.bids[levels[i]@.price@] == levels[i]@,
            forall|i: int, j: int|
                0 <= i < j < levels.len() ==> #[trigger] levels[i]@.price@ > #[trigger] levels[j]@.price@,
            forall|price: i64|
                #[trigger] self@.bids.contains_key(price) ==> exists|i: int|
                    0 <= i < levels.len() && levels[i]@.price@ == price,
    {
        proof {
            assert(self@.levels(Side::Buy) == self@.bids);
            assert(self@.bids.dom() =~= self.bids@.dom());
            assert forall|k: i64| #[trigger] self.bids@.contains_key(k) implies self.bids@[k]@.price@ == k by {
                assert(self@.bids.contains_key(k));
                assert(self@.level_wf(Side::Buy, k, self@.bids[k]));
            }
        }
        let ascending = ascending_levels(&self.bids);
        let mut descending: Vec<&PriceLevel> = Vec::new();
        let mut i = ascending.len();
        while i > 0
            invariant
                i <= ascending.len(),
                descending.len() == ascending.len() - i,
                forall|j: int|
                    0 <= j < descending.len() ==> #[trigger] descending[j] == ascending[ascending.len()
                        - 1 - j],
            decreases i,
        {
            i -= 1;
            descending.push(ascending[i]);
        }
        proof {
            let n = ascending.len() as int;
            assert forall|j: int| 0 <= j < n implies self@.bids.contains_key(
                #[trigger] descending[j]@.price@,
            ) && self@.bids[descending[j]@.price@] == descending[j]@ by {
                assert(descending[j] == ascending[n - 1 - j]);
            }
            assert forall|a: int, b: int| 0 <= a < b < n implies #[trigger] descending[a]@.price@
                > #[trigger] descending[b]@.price@ by {
                assert(descending[a] == ascending[n - 1 - a]);
                assert(descending[b] == ascending[n - 1 - b]);
                assert(ascending[n - 1 - b]@.price@ < ascending[n - 1 - a]@.price@);
            }
            assert forall|price: i64| #[trigger] self@.bids.contains_key(price) implies exists|j: int|
                0 <= j < n && descending[j]@.price@ == price by {
                assert(self.bids@.contains_key(price));
                let a = choose|a: int| 0 <= a < n && ascending[a]@.price@ == price;
                assert(descending[n - 1 - a] == ascending[a]);
            }
        }
        descending
    }

    /// Ask levels from best (lowest) price to worst.
    pub fn ask_levels(&self) -> (levels: Vec<&PriceLevel>)
        requires
            self@.wf(),
        ensures
            levels.len() == self@.asks.len(),
            forall|i: int|
                0 <= i < levels.len() ==> self@.asks.contains_key(#[trigger] levels[i]@.price@)
                    && self@.asks[levels[i]@.price@] == levels[i]@,
            forall|i: int, j: int|
                0 <= i < j < levels.len() ==> #[trigger] levels[i]@.price@ < #[trigger] levels[j]@.price@,
            forall|price: i64|
                #[trigger] self@.asks.contains_key(price) ==> exists|i: int|
                    0 <= i < levels.len() && levels[i]@.price@ == price,
    {
        proof {
            assert(self@.levels(Side::Sell) == self@.asks);
            assert(self@.asks.dom() =~= self.asks@.dom());
            assert forall|k: i64| #[trigger] self.asks@.contains_key(k) implies self.asks@[k]@.price@ == k by {
                assert(self@.asks.contains_key(k));
                assert(self@.level_wf(Side::Sell, k, self@.asks[k]));
            }
        }
        let ascending = ascending_levels(&self.asks);
        proof {
            assert forall|price: i64| #[trigger] self@.asks.contains_key(price) implies exists|i: int|
                0 <= i < ascending.len() && ascending[i]@.price@ == price by {
                assert(self.asks@.contains_key(price));
            }
        }
        ascending
    }

    fn levels(&self, side: Side) -> (levels: &BTreeMap<i64, PriceLevel>)
        ensures
            *levels == self.side_map(side),
    {
        match side {
            Side::Buy => &self.bids,
            Side::Sell => &self.asks,
        }
    }

    fn levels_mut(&mut self, side: Side) -> (levels: &mut BTreeMap<i64, PriceLevel>)
        ensures
            *levels == old(self).side_map(side),
            *final(self) == old(self).with_side_map(side, *final(levels)),
    {
        match side {
            Side::Buy => &mut self.bids,
            Side::Sell => &mut self.asks,
        }
    }
}

impl Default for OrderBook {
    fn default() -> (book: Self)
        ensures
            book@ == OrderBookView::empty(),
            book@.wf(),
    {
        Self::new()
    }
}

} // verus!

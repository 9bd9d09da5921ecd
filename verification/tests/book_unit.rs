use meow_matching_engine::{
    Order, OrderBook, OrderBookError, OrderId, PriceLevel, PriceTicks, QuantityLots, Side,
};

fn price(value: i64) -> PriceTicks {
    PriceTicks::new(value).expect("positive price")
}

fn quantity(value: i64) -> QuantityLots {
    QuantityLots::new(value).expect("non-negative quantity")
}

fn order(id: u64, side: Side, price_value: i64, quantity_value: i64) -> Order {
    Order::new(OrderId::new(id), side, price(price_value), quantity(quantity_value))
        .expect("valid test order")
}

#[test]
fn order_can_be_looked_up_by_id() {
    let mut book = OrderBook::new();

    book.insert(order(1, Side::Buy, 100, 5)).expect("insert succeeds");

    let resting = book.order(OrderId::new(1)).expect("order exists");

    assert_eq!(resting.price(), price(100));
    assert_eq!(resting.quantity(), quantity(5));
}

#[test]
fn best_bid_is_highest_bid() {
    let mut book = OrderBook::new();

    book.insert(order(1, Side::Buy, 100, 1)).expect("insert");

    book.insert(order(2, Side::Buy, 105, 1)).expect("insert");

    book.insert(order(3, Side::Buy, 102, 1)).expect("insert");

    assert_eq!(book.best_bid().map(PriceLevel::price), Some(price(105)),);
}

#[test]
fn best_ask_is_lowest_ask() {
    let mut book = OrderBook::new();

    book.insert(order(1, Side::Sell, 110, 1)).expect("insert");

    book.insert(order(2, Side::Sell, 105, 1)).expect("insert");

    book.insert(order(3, Side::Sell, 108, 1)).expect("insert");

    assert_eq!(book.best_ask().map(PriceLevel::price), Some(price(105)),);
}

#[test]
fn orders_at_same_price_remain_fifo() {
    let mut book = OrderBook::new();

    book.insert(order(10, Side::Buy, 100, 3)).expect("first order");

    book.insert(order(20, Side::Buy, 100, 4)).expect("second order");

    book.insert(order(30, Side::Buy, 100, 5)).expect("third order");

    let level = book.level(Side::Buy, price(100)).expect("level exists");

    assert_eq!(
        level.order_ids(),
        vec![OrderId::new(10), OrderId::new(20), OrderId::new(30),],
    );

    assert_eq!(level.aggregate_quantity(), quantity(12));
}

#[test]
fn removing_middle_order_preserves_fifo_of_survivors() {
    let mut book = OrderBook::new();

    book.insert(order(10, Side::Buy, 100, 3)).expect("first");

    book.insert(order(20, Side::Buy, 100, 4)).expect("second");

    book.insert(order(30, Side::Buy, 100, 5)).expect("third");

    let removed = book
        .remove(OrderId::new(20))
        .expect("book remains consistent")
        .expect("order exists");

    assert_eq!(removed.id(), OrderId::new(20));

    let level = book.level(Side::Buy, price(100)).expect("level remains");

    assert_eq!(level.order_ids(), vec![OrderId::new(10), OrderId::new(30)],);

    assert_eq!(level.aggregate_quantity(), quantity(8));
}

#[test]
fn removing_last_order_removes_empty_price_level() {
    let mut book = OrderBook::new();

    book.insert(order(1, Side::Sell, 100, 5)).expect("insert");

    book.remove(OrderId::new(1)).expect("book remains consistent").expect("order exists");

    assert!(book.best_ask().is_none());
    assert_eq!(book.ask_level_count(), 0);
    assert!(book.is_empty());
}

#[test]
fn unknown_order_removal_is_not_an_error() {
    let mut book = OrderBook::new();

    let removed = book.remove(OrderId::new(999)).expect("unknown id is a normal lookup miss");

    assert!(removed.is_none());
}

#[test]
fn duplicate_order_id_is_rejected_without_mutation() {
    let mut book = OrderBook::new();

    book.insert(order(1, Side::Buy, 100, 5)).expect("initial insert");

    let result = book.insert(order(1, Side::Sell, 200, 10));

    assert_eq!(result, Err(OrderBookError::DuplicateOrderId(OrderId::new(1))),);

    assert_eq!(book.len(), 1);
    assert_eq!(book.bid_level_count(), 1);
    assert_eq!(book.ask_level_count(), 0);

    let original = book.order(OrderId::new(1)).expect("original remains");

    assert_eq!(original.side(), Side::Buy);
    assert_eq!(original.price(), price(100));
}

#[test]
fn bids_and_asks_at_same_numeric_price_are_independent() {
    let mut book = OrderBook::new();

    book.insert(order(1, Side::Buy, 100, 5)).expect("bid");

    book.insert(order(2, Side::Sell, 100, 7)).expect("ask");

    assert_eq!(book.aggregate_quantity(Side::Buy, price(100)), quantity(5),);

    assert_eq!(book.aggregate_quantity(Side::Sell, price(100)), quantity(7),);
}

#[test]
fn aggregate_overflow_rejects_second_order_atomically() {
    let mut book = OrderBook::new();

    book.insert(order(1, Side::Buy, 100, i64::MAX)).expect("maximum canonical quantity fits");

    let result = book.insert(order(2, Side::Buy, 100, 1));

    assert_eq!(result, Err(OrderBookError::AggregateQuantityOutOfRange { price: price(100) }),);

    assert_eq!(book.len(), 1);
    assert!(!book.contains_order(OrderId::new(2)));

    let level = book.level(Side::Buy, price(100)).expect("original level remains");

    assert_eq!(level.aggregate_quantity(), quantity(i64::MAX));

    assert_eq!(level.order_ids(), vec![OrderId::new(1)],);
}

#[test]
fn level_iterators_are_best_price_first() {
    let mut book = OrderBook::new();

    book.insert(order(1, Side::Buy, 100, 1)).expect("bid");
    book.insert(order(2, Side::Buy, 103, 1)).expect("bid");
    book.insert(order(3, Side::Buy, 101, 1)).expect("bid");

    book.insert(order(4, Side::Sell, 110, 5)).expect("ask");
    book.insert(order(5, Side::Sell, 105, 5)).expect("ask");
    book.insert(order(6, Side::Sell, 108, 5)).expect("ask");

    assert_eq!(
        book.bid_levels().into_iter().map(PriceLevel::price).collect::<Vec<_>>(),
        vec![price(103), price(101), price(100)],
    );

    assert_eq!(
        book.ask_levels().into_iter().map(PriceLevel::price).collect::<Vec<_>>(),
        vec![price(105), price(108), price(110)],
    );
}

#[test]
fn removing_right_after_insert_restores_the_book() {
    let mut book = OrderBook::new();
    book.insert(order(1, Side::Buy, 100, 2)).unwrap();
    book.insert(order(2, Side::Buy, 101, 3)).unwrap();

    let added = order(3, Side::Buy, 100, 4);
    book.insert(added.clone()).unwrap();
    let removed = book.remove(OrderId::new(3)).unwrap();

    assert_eq!(removed, Some(added));
    assert_eq!(book.len(), 2);
    assert_eq!(book.bid_level_count(), 2);
    let level = book.level(Side::Buy, price(100)).unwrap();
    assert_eq!(level.order_ids(), vec![OrderId::new(1)]);
    assert_eq!(level.aggregate_quantity(), quantity(2));
}

#[test]
fn inserting_a_new_price_creates_its_level_and_removing_drops_it() {
    let mut book = OrderBook::new();
    book.insert(order(1, Side::Sell, 120, 2)).unwrap();
    assert_eq!(book.ask_level_count(), 1);

    book.remove(OrderId::new(1)).unwrap();
    assert_eq!(book.ask_level_count(), 0);
    assert!(book.level(Side::Sell, price(120)).is_none());
}

#[test]
fn empty_book_has_no_best_prices_and_zero_aggregates() {
    let book = OrderBook::new();

    assert!(book.best_bid().is_none());
    assert!(book.best_ask().is_none());
    assert!(book.is_empty());
    assert_eq!(book.len(), 0);
    assert_eq!(book.aggregate_quantity(Side::Buy, price(1)), quantity(0));
    assert!(book.bid_levels().is_empty());
    assert!(book.ask_levels().is_empty());
}

#[test]
fn aggregate_is_the_sum_of_resting_quantities() {
    let mut book = OrderBook::new();
    book.insert(order(1, Side::Sell, 50, 2)).unwrap();
    book.insert(order(2, Side::Sell, 50, 3)).unwrap();
    book.insert(order(3, Side::Sell, 50, 11)).unwrap();
    book.remove(OrderId::new(1)).unwrap();

    assert_eq!(book.aggregate_quantity(Side::Sell, price(50)), quantity(14));
    assert_eq!(book.level(Side::Sell, price(50)).unwrap().order_count(), 2);
}

#[test]
fn default_book_is_empty() {
    let book = OrderBook::default();

    assert!(book.is_empty());
    assert_eq!(book.bid_level_count(), 0);
}

#[test]
fn order_count_follows_inserts_and_removals() {
    let mut book = OrderBook::new();
    book.insert(order(1, Side::Buy, 100, 1)).unwrap();
    assert_eq!(book.len(), 1);
    book.insert(order(2, Side::Sell, 101, 1)).unwrap();
    assert_eq!(book.len(), 2);
    assert!(book.insert(order(2, Side::Buy, 99, 1)).is_err());
    assert_eq!(book.len(), 2);
    book.remove(OrderId::new(1)).unwrap();
    assert_eq!(book.len(), 1);
    book.remove(OrderId::new(1)).unwrap();
    assert_eq!(book.len(), 1);
    let queued: usize = book
        .bid_levels()
        .into_iter()
        .chain(book.ask_levels())
        .map(PriceLevel::order_count)
        .sum();
    assert_eq!(queued, book.len());
}

#[test]
fn aggregate_is_zero_exactly_without_a_level() {
    let mut book = OrderBook::new();
    book.insert(order(1, Side::Buy, 100, 6)).unwrap();
    book.insert(order(2, Side::Buy, 100, 4)).unwrap();
    book.insert(order(3, Side::Buy, 101, 9)).unwrap();
    assert_eq!(book.aggregate_quantity(Side::Buy, price(100)), quantity(10));
    assert_eq!(book.aggregate_quantity(Side::Sell, price(100)), quantity(0));
    assert!(book.level(Side::Sell, price(100)).is_none());
}

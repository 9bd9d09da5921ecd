use meow_matching_engine::{OrderBookError, OrderId, PriceLevel, PriceTicks, QuantityLots};

fn price() -> PriceTicks {
    PriceTicks::new(100).expect("positive price")
}

fn quantity(value: i64) -> QuantityLots {
    QuantityLots::new(value).expect("non-negative quantity")
}

#[test]
fn orders_are_appended_in_fifo_order() {
    let mut level = PriceLevel::new(price());

    level.push_back(OrderId::new(10), quantity(5)).expect("first insertion");

    level.push_back(OrderId::new(20), quantity(7)).expect("second insertion");

    level.push_back(OrderId::new(30), quantity(9)).expect("third insertion");

    assert_eq!(
        level.order_ids(),
        vec![OrderId::new(10), OrderId::new(20), OrderId::new(30)],
    );

    assert_eq!(level.front_order_id(), Some(OrderId::new(10)));
    assert_eq!(level.aggregate_quantity(), quantity(21));
}

#[test]
fn removing_middle_order_preserves_relative_fifo_order() {
    let mut level = PriceLevel::new(price());

    level.push_back(OrderId::new(10), quantity(5)).expect("first insertion");

    level.push_back(OrderId::new(20), quantity(7)).expect("second insertion");

    level.push_back(OrderId::new(30), quantity(9)).expect("third insertion");

    level.remove(OrderId::new(20), quantity(7)).expect("middle order exists");

    assert_eq!(level.order_ids(), vec![OrderId::new(10), OrderId::new(30)],);

    assert_eq!(level.aggregate_quantity(), quantity(14));
}

#[test]
fn new_level_is_empty() {
    let level = PriceLevel::new(price());

    assert!(level.is_empty());
    assert_eq!(level.order_count(), 0);
    assert_eq!(level.front_order_id(), None);
    assert_eq!(level.price(), price());
    assert_eq!(level.aggregate_quantity(), quantity(0));
}

#[test]
fn zero_quantity_push_is_inconsistent_and_changes_nothing() {
    let mut level = PriceLevel::new(price());

    assert_eq!(
        level.push_back(OrderId::new(1), quantity(0)),
        Err(OrderBookError::InconsistentState(OrderId::new(1))),
    );
    assert!(level.is_empty());
}

#[test]
fn aggregate_overflow_push_is_refused_and_changes_nothing() {
    let mut level = PriceLevel::new(price());
    level.push_back(OrderId::new(1), quantity(i64::MAX)).expect("maximum fits");

    assert_eq!(
        level.push_back(OrderId::new(2), quantity(1)),
        Err(OrderBookError::AggregateQuantityOutOfRange { price: price() }),
    );
    assert_eq!(level.order_ids(), vec![OrderId::new(1)]);
    assert_eq!(level.aggregate_quantity(), quantity(i64::MAX));
}

#[test]
fn removing_unknown_id_is_inconsistent_and_changes_nothing() {
    let mut level = PriceLevel::new(price());
    level.push_back(OrderId::new(1), quantity(3)).unwrap();

    assert_eq!(
        level.remove(OrderId::new(2), quantity(3)),
        Err(OrderBookError::InconsistentState(OrderId::new(2))),
    );
    assert_eq!(level.order_ids(), vec![OrderId::new(1)]);
    assert_eq!(level.aggregate_quantity(), quantity(3));
}

#[test]
fn removing_more_than_the_aggregate_is_inconsistent_and_changes_nothing() {
    let mut level = PriceLevel::new(price());
    level.push_back(OrderId::new(1), quantity(3)).unwrap();

    assert_eq!(
        level.remove(OrderId::new(1), quantity(4)),
        Err(OrderBookError::InconsistentState(OrderId::new(1))),
    );
    assert_eq!(level.order_ids(), vec![OrderId::new(1)]);
    assert_eq!(level.aggregate_quantity(), quantity(3));
}

#[test]
fn removal_takes_the_first_occurrence() {
    let mut level = PriceLevel::new(price());
    level.push_back(OrderId::new(1), quantity(1)).unwrap();
    level.push_back(OrderId::new(2), quantity(1)).unwrap();
    level.push_back(OrderId::new(1), quantity(1)).unwrap();

    level.remove(OrderId::new(1), quantity(1)).unwrap();

    assert_eq!(level.order_ids(), vec![OrderId::new(2), OrderId::new(1)]);
    assert_eq!(level.front_order_id(), Some(OrderId::new(2)));
    assert_eq!(level.order_count(), 2);
}

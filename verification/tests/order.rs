use meow_matching_engine::{Order, OrderError, OrderId, PriceTicks, QuantityLots, Side};

#[test]
fn valid_resting_order_can_be_created() {
    let order = Order::new(
        OrderId::new(1),
        Side::Buy,
        PriceTicks::new(100).expect("positive price"),
        QuantityLots::new(25).expect("positive quantity"),
    )
    .expect("valid order");

    assert_eq!(order.id(), OrderId::new(1));
    assert_eq!(order.side(), Side::Buy);
    assert_eq!(order.price().get(), 100);
    assert_eq!(order.quantity().get(), 25);
}

#[test]
fn resting_order_rejects_zero_price() {
    let result = Order::new(
        OrderId::new(1),
        Side::Buy,
        PriceTicks::zero(),
        QuantityLots::new(1).expect("positive quantity"),
    );

    assert_eq!(result, Err(OrderError::ZeroPrice));
}

#[test]
fn resting_order_rejects_zero_quantity() {
    let result = Order::new(
        OrderId::new(1),
        Side::Buy,
        PriceTicks::new(1).expect("positive price"),
        QuantityLots::zero(),
    );

    assert_eq!(result, Err(OrderError::ZeroQuantity));
}

#[test]
fn zero_price_is_reported_before_zero_quantity() {
    let result = Order::new(OrderId::new(7), Side::Sell, PriceTicks::zero(), QuantityLots::zero());

    assert_eq!(result, Err(OrderError::ZeroPrice));
}

#[test]
fn cloned_order_is_equal() {
    let order = Order::new(
        OrderId::new(3),
        Side::Sell,
        PriceTicks::new(9).unwrap(),
        QuantityLots::new(4).unwrap(),
    )
    .unwrap();

    assert_eq!(order.clone(), order);
}

#[test]
fn ids_keep_their_numbers() {
    assert_eq!(OrderId::new(77).get(), 77);
    assert_eq!(meow_matching_engine::MarketId::new(9).get(), 9);
}

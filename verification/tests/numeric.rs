use meow_matching_engine::{DomainError, PriceTicks, QuantityLots};

#[test]
fn price_ticks_accept_zero() {
    let price = PriceTicks::new(0).expect("zero is canonical");

    assert_eq!(price, PriceTicks::zero());
    assert!(price.is_zero());
}

#[test]
fn price_ticks_accept_positive_values() {
    let price = PriceTicks::new(6_743_218).expect("positive ticks are valid");

    assert_eq!(price.get(), 6_743_218);
}

#[test]
fn price_ticks_reject_negative_values() {
    assert_eq!(PriceTicks::new(-1), Err(DomainError::NegativePriceTicks(-1)),);
}

#[test]
fn quantity_lots_accept_zero_for_internal_state() {
    let quantity = QuantityLots::new(0).expect("zero is canonical");

    assert_eq!(quantity, QuantityLots::zero());
    assert!(quantity.is_zero());
}

#[test]
fn quantity_lots_reject_negative_values() {
    assert_eq!(QuantityLots::new(-1), Err(DomainError::NegativeQuantityLots(-1)),);
}

#[test]
fn canonical_types_accept_i64_max() {
    assert_eq!(
        PriceTicks::new(i64::MAX)
            .expect("i64::MAX is inside the canonical representation")
            .get(),
        i64::MAX,
    );

    assert_eq!(
        QuantityLots::new(i64::MAX)
            .expect("i64::MAX is inside the canonical representation")
            .get(),
        i64::MAX,
    );
}

#[test]
fn negative_extremes_are_refused_with_their_value() {
    assert_eq!(PriceTicks::new(i64::MIN), Err(DomainError::NegativePriceTicks(i64::MIN)));
    assert_eq!(QuantityLots::new(i64::MIN), Err(DomainError::NegativeQuantityLots(i64::MIN)));
}

#[test]
fn nonzero_values_are_not_zero() {
    assert!(!PriceTicks::new(1).unwrap().is_zero());
    assert!(!QuantityLots::new(1).unwrap().is_zero());
    assert_eq!(QuantityLots::new(42).unwrap().get(), 42);
}

use meow_matching_engine::{EngineConfig, EngineError, MarketId, MatchingEngine, SequenceNumber};

fn test_config() -> EngineConfig {
    EngineConfig::new(MarketId::new(1))
}

#[test]
fn engine_owns_exactly_one_market_configuration() {
    let engine = MatchingEngine::new(test_config());

    assert_eq!(engine.config().market_id(), MarketId::new(1));
}

#[test]
fn sequence_starts_at_zero() {
    let mut engine = MatchingEngine::new(test_config());

    assert_eq!(engine.reserve_sequence().expect("sequence should exist"), SequenceNumber(0),);
}

#[test]
fn sequence_is_monotonic() {
    let mut engine = MatchingEngine::new(test_config());

    assert_eq!(engine.reserve_sequence().expect("first sequence"), SequenceNumber(0),);

    assert_eq!(engine.reserve_sequence().expect("second sequence"), SequenceNumber(1),);

    assert_eq!(engine.reserve_sequence().expect("third sequence"), SequenceNumber(2),);
}

#[test]
fn sequence_overflow_is_refused_and_stays_put() {
    let mut number = SequenceNumber(u64::MAX);

    assert_eq!(number.advance(), Err(EngineError::SequenceOverflow));
    assert_eq!(number, SequenceNumber(u64::MAX));
}

#[test]
fn advance_hands_out_current_and_moves_on() {
    let mut number = SequenceNumber(u64::MAX - 1);

    assert_eq!(number.advance(), Ok(SequenceNumber(u64::MAX - 1)));
    assert_eq!(number, SequenceNumber(u64::MAX));
}

#[test]
fn the_nth_reservation_hands_out_n() {
    let mut engine = MatchingEngine::new(test_config());
    for n in 0..1000u64 {
        assert_eq!(engine.reserve_sequence(), Ok(SequenceNumber(n)));
    }
    assert_eq!(engine.config().market_id(), MarketId::new(1));
}

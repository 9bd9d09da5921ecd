//! Deterministic matching-engine core for one spot market.
//!
//! Commands entering the matching engine are expected to contain already
//! canonicalized integer-domain values: prices are counts of price ticks and
//! quantities are counts of quantity lots.
mod book;
mod config;
mod domain;
mod engine;
mod error;

pub use book::{
    lemma_aggregate_is_resting_quantity, lemma_insert_appends_to_level,
    lemma_insert_keeps_time_priority, lemma_insert_refuses_only_duplicates_and_overflow,
    lemma_inserted_wf, lemma_level_push_appends, lemma_level_removal_keeps_fifo,
    lemma_level_removal_outcome, lemma_queued_count_insert, lemma_queued_count_remove,
    lemma_remove_takes_out_resting_order, lemma_remove_undoes_insert, lemma_removed_wf,
    lemma_resting_quantity_none, lemma_resting_quantity_remove, lemma_sides_independent,
    lemma_sum_frame, lemma_sum_is_resting_quantity, lemma_sum_remove, queued_count,
    resting_quantity, sum_quantities, Order, OrderBook, OrderBookError, OrderBookView, OrderError,
    PriceLevel, PriceLevelView,
};
pub use config::EngineConfig;
pub use domain::{
    lemma_market_id_view_injective, lemma_order_id_view_injective,
    lemma_price_ticks_view_injective, lemma_quantity_lots_view_injective, MarketId, OrderId,
    PriceTicks, QuantityLots, Side,
};
pub use engine::{
    after_reservations, lemma_reservations_count_from_zero, lemma_successor_increases,
    MatchingEngine, SequenceNumber,
};
pub use error::{DomainError, EngineError};

mod error;
mod model;
mod order;
mod order_book;
mod price_level;

pub use error::{OrderBookError, OrderError};
pub use model::{
    lemma_aggregate_is_resting_quantity, lemma_insert_appends_to_level,
    lemma_insert_keeps_time_priority, lemma_insert_refuses_only_duplicates_and_overflow,
    lemma_inserted_wf, lemma_queued_count_insert, lemma_queued_count_remove,
    lemma_remove_takes_out_resting_order, lemma_remove_undoes_insert, lemma_removed_wf,
    lemma_resting_quantity_none, lemma_resting_quantity_remove, lemma_sides_independent,
    lemma_sum_frame, lemma_sum_is_resting_quantity, lemma_sum_remove, queued_count,
    resting_quantity, sum_quantities, OrderBookView,
};
pub use order::Order;
pub use order_book::OrderBook;
pub use price_level::{
    lemma_level_push_appends, lemma_level_removal_keeps_fifo, lemma_level_removal_outcome,
    PriceLevel, PriceLevelView,
};

mod ids;
mod numeric;
mod side;

pub use ids::{lemma_market_id_view_injective, lemma_order_id_view_injective, MarketId, OrderId};
pub use numeric::{
    lemma_price_ticks_view_injective, lemma_quantity_lots_view_injective, PriceTicks, QuantityLots,
};
pub use side::Side;

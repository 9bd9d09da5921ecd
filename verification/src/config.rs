use vstd::prelude::*;

use crate::domain::MarketId;

verus! {

/// The deterministic configuration one matching-engine instance needs.
///
/// Loading it (from files, the environment or services) is left to callers.
#[derive(Debug, Clone, PartialEq, Eq, Structural)]
pub struct EngineConfig {
    market_id: MarketId,
}

impl EngineConfig {
    pub closed spec fn spec_market_id(&self) -> MarketId {
        self.market_id
    }

    pub fn new(market_id: MarketId) -> (config: Self)
        ensures
            config.spec_market_id() == market_id,
    {
        Self { market_id }
    }

    pub fn market_id(&self) -> (market_id: MarketId)
        ensures
            market_id == self.spec_market_id(),
    {
        self.market_id
    }
}

} // verus!

# meow_matching_engine

The deterministic core of a spot-exchange matching engine for one market,
written in Verus: canonical integer prices and quantities, resting limit
orders, FIFO price levels, a two-sided limit order book and the engine's
logical sequence numbers.

Layout:

- `src/domain/` — `PriceTicks`, `QuantityLots` (both non-negative by type
  invariant), `OrderId`, `MarketId`, `Side`.
- `src/book/` — `Order` (positive price and quantity), `PriceLevel` with its
  view, `OrderBook`, and `model.rs`: the book's mathematical view, its
  consistency predicate `wf`, the outcome and effect of `insert` and
  `remove`, and the proved laws (consistency is kept; removing right after an
  insert restores the book; the sides are independent; joining a level keeps
  time priority).
- `src/engine.rs`, `src/config.rs`, `src/error.rs` — sequence numbers (with
  the law that the n-th reservation from zero hands out n), the engine
  configuration and the error values.
- `app/` — the error types again, with `std::error::Error` and their messages
  (via `thiserror`), converted one for one to and from the library's.
- `tests/` — scenario tests.

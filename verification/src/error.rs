use vstd::prelude::*;

verus! {

/// Errors encountered while constructing canonical matching-domain values.
#[derive(Debug, Clone, Copy, PartialEq, Eq, Structural)]
pub enum DomainError {
    /// A price-tick count was negative.
    NegativePriceTicks(i64),
    /// A quantity-lot count was negative.
    NegativeQuantityLots(i64),
}

/// Errors indicating that the matching engine cannot safely complete
/// deterministic processing.
#[derive(Debug, Clone, Copy, PartialEq, Eq, Structural)]
pub enum EngineError {
    /// The engine sequence number overflowed.
    SequenceOverflow,
    /// Checked financial arithmetic overflowed.
    ArithmeticOverflow,
    /// A financial arithmetic result is outside the canonical `i64` range.
    CanonicalIntegerOutRange,
}

} // verus!

use vstd::prelude::*;

use crate::error::DomainError;

verus! {

/// A canonical market price expressed as a count of configured price ticks.
///
/// The broad canonical invariant is `value >= 0`; individual commands may
/// impose stricter ones, such as a limit-order price greater than zero.
#[derive(Debug, Clone, Copy, PartialEq, Eq, PartialOrd, Ord, Hash, Structural)]
pub struct PriceTicks(i64);

impl PriceTicks {
    #[verifier::type_invariant]
    pub closed spec fn canonical(self) -> bool {
        self.0 >= 0
    }

    /// What the type invariant says of the tick count.
    pub proof fn lemma_nonnegative(self)
        requires
            self.canonical(),
        ensures
            self@ >= 0,
    {
    }

    /// The zero price, the least canonical value.
    pub fn zero() -> (zero: Self)
        ensures
            zero@ == 0,
    {
        Self(0)
    }

    /// Creates a canonical price-tick value; negative values are refused.
    pub fn new(value: i64) -> (result: Result<Self, DomainError>)
        ensures
            value < 0 ==> result == Err::<Self, DomainError>(DomainError::NegativePriceTicks(value)),
            value >= 0 ==> (result matches Ok(p) && p@ == value),
    {
        if value < 0 {
            return Err(DomainError::NegativePriceTicks(value));
        }
        Ok(Self(value))
    }

    pub fn get(self) -> (value: i64)
        ensures
            value == self@,
            value >= 0,
    {
        proof {
            use_type_invariant(&self);
        }
        self.0
    }

    pub fn is_zero(self) -> (zero: bool)
        ensures
            zero == (self@ == 0),
    {
        self.0 == 0
    }
}

impl View for PriceTicks {
    type V = i64;

    closed spec fn view(&self) -> i64 {
        self.0
    }
}

/// A canonical order quantity expressed as a count of configured quantity lots.
///
/// Zero is permitted so that a fully filled order can be represented; order
/// admission separately requires submitted quantities to be greater than zero.
#[derive(Debug, Clone, Copy, PartialEq, Eq, PartialOrd, Ord, Hash, Structural)]
pub struct QuantityLots(i64);

impl QuantityLots {
    #[verifier::type_invariant]
    pub closed spec fn canonical(self) -> bool {
        self.0 >= 0
    }

    /// What the type invariant says of the lot count: it fits in `i64`.
    pub proof fn lemma_bounded(self)
        requires
            self.canonical(),
        ensures
            self@ <= i64::MAX,
    {
    }

    /// The zero quantity.
    pub fn zero() -> (zero: Self)
        ensures
            zero@ == 0,
    {
        Self(0)
    }

    /// Creates a canonical quantity-lot value; negative values are refused.
    pub fn new(value: i64) -> (result: Result<Self, DomainError>)
        ensures
            value < 0 ==> result == Err::<Self, DomainError>(DomainError::NegativeQuantityLots(value)),
            value >= 0 ==> (result matches Ok(q) && q@ == value),
    {
        if value < 0 {
            return Err(DomainError::NegativeQuantityLots(value));
        }
        Ok(Self(value))
    }

    pub fn get(self) -> (value: i64)
        ensures
            value == self@,
    {
        proof {
            use_type_invariant(&self);
        }
        self.0
    }

    pub fn is_zero(self) -> (zero: bool)
        ensures
            zero == (self@ == 0),
    {
        proof {
            use_type_invariant(&self);
        }
        self.0 == 0
    }
}

impl View for QuantityLots {
    type V = nat;

    closed spec fn view(&self) -> nat {
        self.0 as nat
    }
}

/// Two price-tick values are equal exactly when their tick counts are.
pub broadcast proof fn lemma_price_ticks_view_injective(a: PriceTicks, b: PriceTicks)
    ensures
        #[trigger] a@ == #[trigger] b@ <==> a == b,
{
}

/// Two quantity-lot values are equal exactly when their lot counts are.
pub broadcast proof fn lemma_quantity_lots_view_injective(a: QuantityLots, b: QuantityLots)
    requires
        a.canonical(),
        b.canonical(),
    ensures
        #[trigger] a@ == #[trigger] b@ <==> a == b,
{
}

} // verus!

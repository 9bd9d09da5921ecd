use vstd::prelude::*;

use crate::config::EngineConfig;
use crate::error::EngineError;

verus! {

/// A deterministic logical arrival sequence number; not a wall-clock time.
#[derive(Debug, Clone, Copy, PartialEq, Eq, PartialOrd, Ord, Structural)]
pub struct SequenceNumber(pub u64);

impl SequenceNumber {
    /// The number after this one, or `None` when `u64` has none.
    pub open spec fn successor(self) -> Option<SequenceNumber> {
        if self.0 == u64::MAX {
            None
        } else {
            Some(SequenceNumber((self.0 + 1) as u64))
        }
    }

    /// Hands out the current number and moves to the next one; at `u64::MAX`
    /// it refuses with `SequenceOverflow` and stays put.
    pub fn advance(&mut self) -> (result: Result<SequenceNumber, EngineError>)
        ensures
            match old(self).successor() {
                Some(next) => {
                    &&& result == Ok::<SequenceNumber, EngineError>(*old(self))
                    &&& *final(self) == next
                },
                None => result == Err::<SequenceNumber, EngineError>(EngineError::SequenceOverflow)
                    && *final(self) == *old(self),
            },
    {
        let current = *self;
        match self.0.checked_add(1) {
            Some(next) => {
                self.0 = next;
                Ok(current)
            },
            None => Err(EngineError::SequenceOverflow),
        }
    }
}

/// Sequence numbers only move forward: the successor of a number is the
/// next larger one, and only `u64::MAX` has none.
pub proof fn lemma_successor_increases(number: SequenceNumber)
    ensures
        number.successor() is None <==> number.0 == u64::MAX,
        number.successor() matches Some(next) ==> next.0 == number.0 + 1 && next.0 > number.0,
{
}

/// Where `count` reservations starting from `start` leave the sequence, or
/// `None` when one of them overflows.
pub open spec fn after_reservations(start: SequenceNumber, count: nat) -> Option<SequenceNumber>
    decreases count,
{
    if count == 0 {
        Some(start)
    } else {
        match after_reservations(start, (count - 1) as nat) {
            Some(number) => number.successor(),
            None => None,
        }
    }
}

/// Reservations are gap-free from zero: after `count` of them a fresh engine
/// hands out `count` next, for every `count` up to `u64::MAX`.
pub proof fn lemma_reservations_count_from_zero(count: nat)
    requires
        count <= u64::MAX,
    ensures
        after_reservations(SequenceNumber(0), count) == Some(SequenceNumber(count as u64)),
    decreases count,
{
    if count > 0 {
        lemma_reservations_count_from_zero((count - 1) as nat);
    }
}

/// Deterministic matching state for exactly one market.
#[derive(Debug)]
pub struct MatchingEngine {
    config: EngineConfig,
    next_sequence: SequenceNumber,
}

impl MatchingEngine {
    pub closed spec fn spec_config(&self) -> EngineConfig {
        self.config
    }

    /// The sequence number the next reservation hands out.
    pub closed spec fn spec_next_sequence(&self) -> SequenceNumber {
        self.next_sequence
    }

    /// An engine for `config`, whose first sequence number is zero.
    pub fn new(config: EngineConfig) -> (engine: Self)
        ensures
            engine.spec_config() == config,
            engine.spec_next_sequence() == SequenceNumber(0),
    {
        Self { config, next_sequence: SequenceNumber(0) }
    }

    pub fn config(&self) -> (config: &EngineConfig)
        ensures
            *config == self.spec_config(),
    {
        &self.config
    }

    /// Reserves the next deterministic logical sequence number.
    pub fn reserve_sequence(&mut self) -> (result: Result<SequenceNumber, EngineError>)
        ensures
            final(self).spec_config() == old(self).spec_config(),
            match old(self).spec_next_sequence().successor() {
                Some(next) => result == Ok::<SequenceNumber, EngineError>(
                    old(self).spec_next_sequence(),
                ) && final(self).spec_next_sequence() == next,
                None => result == Err::<SequenceNumber, EngineError>(EngineError::SequenceOverflow)
                    && final(self).spec_next_sequence() == old(self).spec_next_sequence(),
            },
    {
        self.next_sequence.advance()
    }
}

} // verus!

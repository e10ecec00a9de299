//! Error values of the collector, with their status codes in the C interface.

use vstd::prelude::*;

verus! {

/// Why a collector could not be created.
#[derive(Clone, Copy, Debug, PartialEq, Eq, Structural)]
pub enum InitError {
    TimerUnavailable,
    TimerTooCoarse,
    TimerNotMonotonic,
    MinimalVariation,
    VariationOfVariationMissing,
    MinimalVariationOfVariation,
    ProgrammingError,
    Stuck,
    Health,
    Rct,
    Hash,
    Memory,
    Gcd,
}

impl InitError {
    /// The status code of this error in the C interface.
    pub open spec fn spec_code(self) -> i32 {
        match self {
            InitError::TimerUnavailable => 1,
            InitError::TimerTooCoarse => 2,
            InitError::TimerNotMonotonic => 3,
            InitError::MinimalVariation => 4,
            InitError::VariationOfVariationMissing => 5,
            InitError::MinimalVariationOfVariation => 6,
            InitError::ProgrammingError => 7,
            InitError::Stuck => 8,
            InitError::Health => 9,
            InitError::Rct => 10,
            InitError::Hash => 11,
            InitError::Memory => 12,
            InitError::Gcd => 13,
        }
    }

    pub fn c_code(self) -> (r: i32)
        ensures
            r == self.spec_code(),
    {
        match self {
            InitError::TimerUnavailable => 1,
            InitError::TimerTooCoarse => 2,
            InitError::TimerNotMonotonic => 3,
            InitError::MinimalVariation => 4,
            InitError::VariationOfVariationMissing => 5,
            InitError::MinimalVariationOfVariation => 6,
            InitError::ProgrammingError => 7,
            InitError::Stuck => 8,
            InitError::Health => 9,
            InitError::Rct => 10,
            InitError::Hash => 11,
            InitError::Memory => 12,
            InitError::Gcd => 13,
        }
    }
}

/// Why a read of entropy failed.
#[derive(Clone, Copy, Debug, PartialEq, Eq, Structural)]
pub enum ReadError {
    NullCollector,
    Rct,
    Apt,
    TimerUnavailable,
    Lag,
    RctPermanent,
    AptPermanent,
    LagPermanent,
    RctMemory,
    RctMemoryPermanent,
    OutputTooLarge,
}

impl ReadError {
    /// The status code of this error in the C interface.
    pub open spec fn spec_code(self) -> int {
        match self {
            ReadError::NullCollector => -1,
            ReadError::Rct => -2,
            ReadError::Apt => -3,
            ReadError::TimerUnavailable => -4,
            ReadError::Lag => -5,
            ReadError::RctPermanent => -6,
            ReadError::AptPermanent => -7,
            ReadError::LagPermanent => -8,
            ReadError::RctMemory => -9,
            ReadError::RctMemoryPermanent => -10,
            ReadError::OutputTooLarge => -11,
        }
    }

    pub fn c_code(self) -> (r: isize)
        ensures
            r == self.spec_code(),
            r < 0,
    {
        match self {
            ReadError::NullCollector => -1,
            ReadError::Rct => -2,
            ReadError::Apt => -3,
            ReadError::TimerUnavailable => -4,
            ReadError::Lag => -5,
            ReadError::RctPermanent => -6,
            ReadError::AptPermanent => -7,
            ReadError::LagPermanent => -8,
            ReadError::RctMemory => -9,
            ReadError::RctMemoryPermanent => -10,
            ReadError::OutputTooLarge => -11,
        }
    }
}

} // verus!

//! A CPU timing-jitter entropy source with verified health tests, startup
//! checks and conditioning bookkeeping.

pub mod bits;
pub mod flags;
pub mod health;
pub mod error;
pub mod timer;
pub mod sponge;
pub mod conditioner;
pub mod barrier;
pub mod memory;
pub mod startup;
pub mod model;
pub mod status;
pub mod collector;
pub mod jent_core;
pub mod jent_platform;
pub mod jent_ffi;
pub mod ffi;

pub use collector::{EntropyCollector, EntropyCollectorBuilder};
pub use error::{InitError, ReadError};
pub use flags::{Flags, HashLoop, MemoryLimit};
pub use status::Status;
pub use timer::{CallbackTimer, PlatformTimer, Timer};

use vstd::prelude::*;

verus! {

pub const JENT_MAJVERSION: u32 = 3;

pub const JENT_MINVERSION: u32 = 7;

pub const JENT_PATCHLEVEL: u32 = 1;

pub const JENT_VERSION: u32 = JENT_MAJVERSION * 1_000_000 + JENT_MINVERSION * 10_000
    + JENT_PATCHLEVEL * 100;

/// The library version, encoded as `major * 1_000_000 + minor * 10_000 + patch * 100`.
pub fn version() -> (r: u32)
    ensures
        r == JENT_VERSION,
        r == 3_070_100,
{
    JENT_VERSION
}

} // verus!

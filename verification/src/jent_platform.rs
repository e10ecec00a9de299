//! The platform timer of the workspace variant.

use vstd::prelude::*;
use crate::jent_core::timer::HighResTimer;
use crate::timer::platform_now;

verus! {

/// The platform's high-resolution clock, read through `platform_now`.
#[derive(Debug, Clone, Copy, Default)]
pub struct RdtscTimer;

impl HighResTimer for RdtscTimer {
    fn now(&self) -> (r: u64) {
        match platform_now() {
            Some(t) => t,
            None => 0,
        }
    }
}

} // verus!

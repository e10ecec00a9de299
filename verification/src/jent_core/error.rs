use vstd::prelude::*;

verus! {

#[derive(Debug, Clone, Copy, PartialEq, Eq, Structural)]
pub enum JentError {
    TimerTooCoarse,
    HealthTestFailed,
    OutputBufferTooSmall,
    UnsupportedConditioner,
}

} // verus!

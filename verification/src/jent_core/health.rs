//! The stuck test: a zero delta, or the same delta too many times in a row,
//! fails.

use vstd::prelude::*;
use crate::health::saturating_inc;
use crate::jent_core::error::JentError;

verus! {

/// The abstract state of the stuck test.
pub struct StuckModel {
    pub last_delta: u64,
    pub stuck_count: u32,
    pub repeated_delta_limit: u32,
}

impl StuckModel {
    pub open spec fn initial() -> StuckModel {
        StuckModel { last_delta: 0, stuck_count: 0, repeated_delta_limit: 32 }
    }

    /// The state after observing `delta`, and the verdict on it. A zero
    /// delta leaves the state as it was.
    pub open spec fn observe(self, delta: u64) -> (StuckModel, Result<(), JentError>) {
        if delta == 0 {
            (self, Err(JentError::TimerTooCoarse))
        } else {
            let stuck_count = if delta == self.last_delta {
                saturating_inc(self.stuck_count)
            } else {
                0
            };
            let next = StuckModel { last_delta: delta, stuck_count, ..self };
            if stuck_count > self.repeated_delta_limit {
                (next, Err(JentError::HealthTestFailed))
            } else {
                (next, Ok(()))
            }
        }
    }

    /// The state after observing `delta` `n` more times, and the last verdict.
    pub open spec fn observe_repeated(self, delta: u64, n: nat) -> (StuckModel, Result<(), JentError>)
        decreases n,
    {
        if n == 0 {
            (self, Ok(()))
        } else {
            self.observe_repeated(delta, (n - 1) as nat).0.observe(delta)
        }
    }
}

#[derive(Debug, Clone)]
pub struct HealthState {
    last_delta: u64,
    stuck_count: u32,
    repeated_delta_limit: u32,
}

impl View for HealthState {
    type V = StuckModel;

    closed spec fn view(&self) -> StuckModel {
        StuckModel {
            last_delta: self.last_delta,
            stuck_count: self.stuck_count,
            repeated_delta_limit: self.repeated_delta_limit,
        }
    }
}

impl HealthState {
    pub fn new() -> (r: Self)
        ensures
            r@ == StuckModel::initial(),
    {
        HealthState { last_delta: 0, stuck_count: 0, repeated_delta_limit: 32 }
    }

    pub fn observe_delta(&mut self, delta: u64) -> (r: Result<(), JentError>)
        ensures
            (final(self)@, r) == old(self)@.observe(delta),
    {
        if delta == 0 {
            return Err(JentError::TimerTooCoarse);
        }
        if delta == self.last_delta {
            self.stuck_count = self.stuck_count.saturating_add(1);
        } else {
            self.stuck_count = 0;
        }
        self.last_delta = delta;
        if self.stuck_count > self.repeated_delta_limit {
            return Err(JentError::HealthTestFailed);
        }
        Ok(())
    }
}

impl Default for HealthState {
    fn default() -> (r: Self)
        ensures
            r@ == StuckModel::initial(),
    {
        Self::new()
    }
}

proof fn lemma_stuck_counts(m: StuckModel, delta: u64, n: nat)
    requires
        delta != 0,
        n >= 1,
    ensures
        m.observe_repeated(delta, n).0.last_delta == delta,
        m.observe_repeated(delta, n).0.repeated_delta_limit == m.repeated_delta_limit,
        m.observe_repeated(delta, n).0.stuck_count >= (if n - 1 <= u32::MAX {
            n - 1
        } else {
            u32::MAX as int
        }),
    decreases n,
{
    if n > 1 {
        lemma_stuck_counts(m, delta, (n - 1) as nat);
    } else {
        assert(m.observe_repeated(delta, 0) == (m, Ok::<(), JentError>(())));
    }
}

/// A zero delta always fails as too coarse, and once a nonzero delta has
/// been seen `limit + 2` times in a row, every further sight of it fails the
/// stuck test.
pub proof fn lemma_stuck_delta_fails(m: StuckModel, delta: u64, n: nat)
    requires
        n >= m.repeated_delta_limit + 2,
        m.repeated_delta_limit < u32::MAX,
    ensures
        m.observe(0) == (m, Err::<(), JentError>(JentError::TimerTooCoarse)),
        delta != 0 ==> m.observe_repeated(delta, n).1 == Err::<(), JentError>(
            JentError::HealthTestFailed,
        ),
{
    if delta != 0 {
        lemma_stuck_counts(m, delta, n);
        lemma_stuck_counts(m, delta, (n - 1) as nat);
        let prev = m.observe_repeated(delta, (n - 1) as nat).0;
        assert(m.observe_repeated(delta, n) == prev.observe(delta));
    }
}

} // verus!

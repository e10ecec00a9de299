use jitterentropy::health::{HealthFailure, HealthState};

#[test]
fn rct_fires_on_repetition() {
    let mut h = HealthState::default();
    let mut f = HealthFailure(HealthFailure::NONE);
    for _ in 0..40 {
        f = h.observe_delta(7);
    }
    assert!(f.contains(HealthFailure(HealthFailure::RCT)));
}

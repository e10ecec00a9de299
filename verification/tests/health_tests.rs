use jitterentropy::health::{HealthFailure, HealthState};

#[test]
fn rct_permanent_after_64_repeats() {
    let mut h = HealthState::default();
    let mut f = HealthFailure(0);
    for i in 0..64 {
        f = h.observe_delta(9);
        if i < 32 {
            assert!(!f.contains(HealthFailure(HealthFailure::RCT)));
        }
    }
    assert!(f.contains(HealthFailure(HealthFailure::RCT)));
    assert!(f.contains(HealthFailure(HealthFailure::RCT).permanent()));
    assert_eq!(h.last_failure(), f);
}

#[test]
fn rct_resets_on_change() {
    let mut h = HealthState::default();
    for _ in 0..32 {
        h.observe_delta(9);
    }
    let f = h.observe_delta(10);
    assert!(!f.contains(HealthFailure(HealthFailure::RCT)));
}

#[test]
fn apt_fires_on_stuck_low_bit() {
    let mut h = HealthState::default();
    let mut f = HealthFailure(0);
    for i in 0..512u64 {
        // distinct even deltas: no RCT, low bit always 0
        f = h.observe_delta(2 * i * i + 2 * i + 2);
    }
    assert!(f.contains(HealthFailure(HealthFailure::APT)));
    assert!(f.contains(HealthFailure(HealthFailure::APT).permanent()));
    assert!(!f.contains(HealthFailure(HealthFailure::RCT)));
}

#[test]
fn lag_fires_on_constant_second_difference() {
    let mut h = HealthState::default();
    let mut f = HealthFailure(0);
    for i in 0..40u64 {
        f = h.observe_delta(100 + 3 * i);
    }
    assert!(f.contains(HealthFailure(HealthFailure::LAG)));
    assert!(!f.contains(HealthFailure(HealthFailure::LAG).permanent()));
    assert!(!f.contains(HealthFailure(HealthFailure::RCT)));
}

#[test]
fn failure_helpers() {
    let f = HealthFailure(HealthFailure::APT) | HealthFailure(HealthFailure::LAG);
    assert_eq!(f.bits(), 6);
    assert!(!f.is_empty());
    assert!(HealthFailure(HealthFailure::NONE).is_empty());
    assert_eq!(HealthFailure(HealthFailure::RCT_MEMORY).permanent().bits(), 8 << 16);
    let mut g = HealthFailure(0);
    g |= HealthFailure(HealthFailure::RCT);
    assert_eq!(g.bits(), 1);
}

#[test]
fn lag_fires_exactly_at_the_35th_delta() {
    let mut h = HealthState::default();
    for i in 0..34u64 {
        let f = h.observe_delta(100 + 3 * i);
        assert!(!f.contains(HealthFailure(HealthFailure::LAG)));
    }
    let f = h.observe_delta(100 + 3 * 34);
    assert!(f.contains(HealthFailure(HealthFailure::LAG)));
}

#[test]
fn rct_fires_exactly_at_33_equal_deltas() {
    let mut h = HealthState::default();
    h.observe_delta(1);
    for _ in 0..32 {
        let f = h.observe_delta(7);
        assert!(!f.contains(HealthFailure(HealthFailure::RCT)));
    }
    let f = h.observe_delta(7);
    assert!(f.contains(HealthFailure(HealthFailure::RCT)));
    assert!(!f.contains(HealthFailure(HealthFailure::RCT).permanent()));
}

#[test]
fn apt_counts_only_the_last_512_deltas() {
    let mut h = HealthState::default();
    // 511 odd deltas, then alternating parity: the window of the last 512
    // holds fewer and fewer odd deltas.
    for i in 0..511u64 {
        let f = h.observe_delta(4 * i * i + 4 * i + 3);
        assert!(!f.contains(HealthFailure(HealthFailure::APT)));
    }
    let f = h.observe_delta(2);
    assert!(f.contains(HealthFailure(HealthFailure::APT).permanent()));
    let mut last = f;
    for i in 0..512u64 {
        last = h.observe_delta(2 * i * i + 2 * i + 1 + (i % 2));
    }
    // the last 512 deltas alternate even and odd: 256 of each
    assert!(!last.contains(HealthFailure(HealthFailure::APT)));
}

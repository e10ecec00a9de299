use jitterentropy::startup::{gcd_u64, StartupStats};
use jitterentropy::{EntropyCollector, EntropyCollectorBuilder, Flags, InitError, Timer};

struct ScriptTimer {
    t: u64,
    step: u64,
    calls: u64,
    fail_at: Option<u64>,
    back_at: Option<u64>,
}

impl Timer for ScriptTimer {
    fn now(&mut self) -> Option<u64> {
        self.calls += 1;
        if Some(self.calls) == self.fail_at {
            return None;
        }
        if Some(self.calls) == self.back_at {
            return Some(self.t - 1);
        }
        self.t += self.step;
        Some(self.t)
    }
}

fn script(step: u64) -> ScriptTimer {
    ScriptTimer { t: 1000, step, calls: 0, fail_at: None, back_at: None }
}

#[derive(Clone)]
struct JitterTimer {
    t: u64,
    state: u64,
}

impl Timer for JitterTimer {
    fn now(&mut self) -> Option<u64> {
        self.state ^= self.state << 13;
        self.state ^= self.state >> 7;
        self.state ^= self.state << 17;
        self.t = self.t.wrapping_add(37 + (self.state & 0x1f));
        Some(self.t)
    }
}

fn jitter() -> JitterTimer {
    JitterTimer { t: 0, state: 0x1234_5678_9abc_def0 }
}

#[test]
fn gcd_values() {
    assert_eq!(gcd_u64(0, 0), 0);
    assert_eq!(gcd_u64(0, 12), 12);
    assert_eq!(gcd_u64(12, 0), 12);
    assert_eq!(gcd_u64(48, 18), 6);
    assert_eq!(gcd_u64(17, 5), 1);
}

#[test]
fn stats_verdicts() {
    let mut s = StartupStats::new();
    assert_eq!(s.verdict(), Err(InitError::TimerTooCoarse));
    for _ in 0..10 {
        s.record(0);
    }
    assert_eq!(s.verdict(), Err(InitError::TimerTooCoarse));

    let mut s = StartupStats::new();
    for _ in 0..10 {
        s.record(4);
    }
    assert_eq!(s.verdict(), Err(InitError::Gcd));

    let mut s = StartupStats::new();
    for _ in 0..10 {
        s.record(1);
    }
    assert_eq!(s.verdict(), Err(InitError::MinimalVariation));

    let mut s = StartupStats::new();
    for d in [3u64, 5, 3, 5, 3] {
        s.record(d);
    }
    assert_eq!(s.verdict(), Err(InitError::MinimalVariationOfVariation));

    let mut s = StartupStats::new();
    for d in [3u64, 5, 8, 5, 9] {
        s.record(d);
    }
    assert_eq!(s.verdict(), Ok(()));
}

#[test]
fn frozen_timer_is_too_coarse() {
    let r = EntropyCollector::with_timer(1, Flags(Flags::DISABLE_MEMORY_ACCESS), None, script(0));
    assert_eq!(r.err(), Some(InitError::TimerTooCoarse));
}

#[test]
fn constant_step_timer_fails_gcd() {
    let r = EntropyCollector::with_timer(1, Flags(Flags::DISABLE_MEMORY_ACCESS), None, script(64));
    assert_eq!(r.err(), Some(InitError::Gcd));
}

#[test]
fn unit_step_timer_lacks_variation() {
    let r = EntropyCollector::with_timer(1, Flags(Flags::DISABLE_MEMORY_ACCESS), None, script(1));
    assert_eq!(r.err(), Some(InitError::MinimalVariation));
}

#[test]
fn missing_timer_is_unavailable() {
    let mut t = script(5);
    t.fail_at = Some(1);
    let r = EntropyCollector::with_timer(1, Flags(Flags::DISABLE_MEMORY_ACCESS), None, t);
    assert_eq!(r.err(), Some(InitError::TimerUnavailable));
    let mut t = script(5);
    t.fail_at = Some(10);
    let r = EntropyCollector::with_timer(1, Flags(Flags::DISABLE_MEMORY_ACCESS), None, t);
    assert_eq!(r.err(), Some(InitError::TimerUnavailable));
}

#[test]
fn backwards_timer_is_not_monotonic() {
    let mut t = script(5);
    t.back_at = Some(20);
    let r = EntropyCollector::with_timer(1, Flags(Flags::DISABLE_MEMORY_ACCESS), None, t);
    assert_eq!(r.err(), Some(InitError::TimerNotMonotonic));
}

#[test]
fn bad_configuration_is_a_programming_error() {
    let r = EntropyCollector::with_timer(129, Flags(Flags::DISABLE_MEMORY_ACCESS), None, jitter());
    assert_eq!(r.err(), Some(InitError::ProgrammingError));
    let f = Flags(Flags::FORCE_INTERNAL_TIMER | Flags::DISABLE_INTERNAL_TIMER);
    let r = EntropyCollector::with_timer(1, f, None, jitter());
    assert_eq!(r.err(), Some(InitError::ProgrammingError));
    let r = EntropyCollectorBuilder::new().osr(200).build_with_timer(jitter());
    assert_eq!(r.err(), Some(InitError::ProgrammingError));
}

#[test]
fn memory_size_must_be_power_of_two() {
    let r = EntropyCollector::with_timer(1, Flags(0), Some(3000), jitter());
    assert_eq!(r.err(), Some(InitError::Memory));
    let r = EntropyCollector::with_timer(1, Flags(0), Some(0), jitter());
    assert_eq!(r.err(), Some(InitError::Memory));
    let ec = EntropyCollector::with_timer(1, Flags(0), Some(4096), jitter()).unwrap();
    assert_eq!(ec.status().memory_size, 4096);
    assert!(ec.status().memory_access_enabled);
}

#[test]
fn memory_size_follows_flags() {
    let ec = EntropyCollector::with_timer(1, Flags(0), None, jitter()).unwrap();
    assert_eq!(ec.status().memory_size, 512 * 1024);
    let ec = EntropyCollector::with_timer(1, Flags(1 << Flags::MEMSIZE_SHIFT), None, jitter()).unwrap();
    assert_eq!(ec.status().memory_size, 1 << 20);
    let ec = EntropyCollector::with_timer(1, Flags(Flags::DISABLE_MEMORY_ACCESS), Some(4096), jitter()).unwrap();
    assert_eq!(ec.status().memory_size, 0);
    assert!(!ec.status().memory_access_enabled);
}

#[test]
fn osr_zero_becomes_one() {
    let ec = EntropyCollectorBuilder::new()
        .osr(0)
        .flags(Flags(Flags::DISABLE_MEMORY_ACCESS))
        .build_with_timer(jitter())
        .unwrap();
    assert_eq!(ec.status().osr, 1);
    let ec = EntropyCollector::with_timer(0, Flags(Flags::DISABLE_MEMORY_ACCESS), None, jitter()).unwrap();
    assert_eq!(ec.status().osr, 1);
}

#[test]
fn callback_collector_with_odd_memory_size_is_refused() {
    let r = EntropyCollectorBuilder::new().memory_size(3).build_with_callback(|| 5u64);
    assert_eq!(r.err(), Some(InitError::Memory));
    let r = EntropyCollectorBuilder::new()
        .memory_size(3)
        .flags(Flags(Flags::DISABLE_MEMORY_ACCESS))
        .build_with_callback(|| 5u64);
    assert_eq!(r.err(), Some(InitError::TimerTooCoarse));
}

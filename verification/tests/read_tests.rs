use jitterentropy::conditioner::{Conditioner, Shake256Conditioner};
use jitterentropy::{EntropyCollector, EntropyCollectorBuilder, Flags, ReadError, Timer};
use sha3::digest::{ExtendableOutput, Update, XofReader};

#[derive(Clone)]
struct JitterTimer {
    t: u64,
    state: u64,
}

impl Timer for JitterTimer {
    fn now(&mut self) -> Option<u64> {
        self.state ^= self.state << 13;
        self.state ^= self.state >> 7;
        self.state ^= self.state << 17;
        self.t = self.t.wrapping_add(37 + (self.state & 0x1f));
        Some(self.t)
    }
}

fn jitter() -> JitterTimer {
    JitterTimer { t: 0, state: 0x1234_5678_9abc_def0 }
}

#[test]
fn shake_conditioner_matches_sha3() {
    let mut c = Shake256Conditioner::default();
    c.absorb(b"jitter");
    c.absorb(b"entropy");
    let out = c.finalize_block();
    let mut h = sha3::Shake256::default();
    h.update(b"jitterentropy");
    let mut expect = [0u8; 64];
    h.finalize_xof().read(&mut expect);
    assert_eq!(out, expect);
    assert_ne!(&out[..13], b"jitterentropy");
}

#[test]
fn read_entropy_returns_requested_length() {
    let mut ec = EntropyCollector::with_timer(2, Flags(Flags::DISABLE_MEMORY_ACCESS), None, jitter()).unwrap();
    for len in [0usize, 1, 63, 64, 65, 130] {
        let v = ec.read_entropy(len).unwrap();
        assert_eq!(v.len(), len);
    }
}

#[test]
fn reads_are_deterministic_for_a_deterministic_timer() {
    let mut a = EntropyCollector::with_timer(1, Flags(0), Some(4096), jitter()).unwrap();
    let mut b = EntropyCollector::with_timer(1, Flags(0), Some(4096), jitter()).unwrap();
    let x = a.read_entropy(100).unwrap();
    let y = b.read_entropy(100).unwrap();
    assert_eq!(x, y);
    let z = a.read_entropy(100).unwrap();
    assert_ne!(x, z);
}

#[test]
fn fill_bytes_with_memory_and_hash_loop() {
    let f = Flags(2 << Flags::HASHLOOP_SHIFT);
    let mut ec = EntropyCollectorBuilder::new()
        .osr(3)
        .flags(f)
        .memory_size(8192)
        .build_with_timer(jitter())
        .unwrap();
    let mut out = [0u8; 96];
    ec.fill_bytes(&mut out).unwrap();
    assert!(out[64..].iter().any(|&b| b != 0));
    let s = ec.status();
    assert_eq!(s.hash_loop_count, 4);
    assert_eq!(s.osr, 3);
    assert_eq!(s.memory_size, 8192);
}

#[test]
fn ntg1_collector_reads() {
    let mut ec = EntropyCollector::with_timer(1, Flags(Flags::NTG1), Some(4096), jitter()).unwrap();
    let s = ec.status();
    assert!(s.ntg1_enabled);
    assert!(!s.fips_enabled);
    let v = ec.read_entropy(32).unwrap();
    assert_eq!(v.len(), 32);
}

struct StuckAfter {
    t: u64,
    calls: u64,
    state: u64,
}

impl Timer for StuckAfter {
    fn now(&mut self) -> Option<u64> {
        self.calls += 1;
        if self.calls > 1100 {
            return Some(self.t);
        }
        self.state ^= self.state << 13;
        self.state ^= self.state >> 7;
        self.state ^= self.state << 17;
        self.t = self.t.wrapping_add(37 + (self.state & 0x1f));
        Some(self.t)
    }
}

#[test]
fn frozen_timer_after_startup_fails_health_and_sticks() {
    let mut ec = EntropyCollector::with_timer(
        1,
        Flags(Flags::DISABLE_MEMORY_ACCESS | Flags::FORCE_FIPS),
        None,
        StuckAfter { t: 0, calls: 0, state: 0x1234_5678_9abc_def0 },
    )
    .unwrap();
    let mut out = [0u8; 64];
    let mut errors = Vec::new();
    for _ in 0..200 {
        if let Err(e) = ec.fill_bytes(&mut out) {
            errors.push(e);
        }
    }
    assert_eq!(errors.first(), Some(&ReadError::Rct));
    assert!(errors.contains(&ReadError::RctPermanent));
    assert_eq!(errors.last(), Some(&ReadError::RctPermanent));
    let before = ec.status().last_health_failure;
    assert!(before & (1 << 16) != 0);
    assert_eq!(ec.fill_bytes(&mut out), Err(ReadError::RctPermanent));
    assert_eq!(ec.read_entropy(8), Err(ReadError::RctPermanent));
}

#[test]
fn finish_sample_folds_the_readings() {
    let mut ec = EntropyCollector::with_timer(1, Flags(Flags::DISABLE_MEMORY_ACCESS), None, jitter()).unwrap();
    assert_eq!(ec.finish_sample(10, 5), Err(ReadError::TimerUnavailable));
    let first = ec.finish_sample(100, 200).unwrap();
    assert_ne!(first, 0);
    let second = ec.finish_sample(300, 350).unwrap();
    let expect = 50u64 ^ (350u64 - 200).rotate_left(17) ^ 350u64.rotate_right(9);
    assert_eq!(second, expect);
}

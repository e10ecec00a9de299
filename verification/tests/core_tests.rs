use jitterentropy::jent_core::collector::JentCollector;
use jitterentropy::jent_core::memory::MemoryLoop;
use jitterentropy::jent_core::{
    CallbackTimer, Conditioner, ConditionerKind, HealthState, HighResTimer, JentError,
    Sha3_512Conditioner, Shake256Conditioner,
};
use sha3::digest::{ExtendableOutput, Update, XofReader};
use sha3::Digest;
use std::cell::Cell;

struct Ticker {
    t: Cell<u64>,
    state: Cell<u64>,
}

impl HighResTimer for Ticker {
    fn now(&self) -> u64 {
        let mut s = self.state.get();
        s ^= s << 13;
        s ^= s >> 7;
        s ^= s << 17;
        self.state.set(s);
        self.t.set(self.t.get().wrapping_add(37 + (s & 0x1f)));
        self.t.get()
    }
}

fn ticker() -> Ticker {
    Ticker { t: Cell::new(0), state: Cell::new(0x1234_5678_9abc_def0) }
}

#[test]
fn core_health_stuck_and_coarse() {
    let mut h = HealthState::new();
    assert_eq!(h.observe_delta(0), Err(JentError::TimerTooCoarse));
    for _ in 0..33 {
        assert_eq!(h.observe_delta(5), Ok(()));
    }
    assert_eq!(h.observe_delta(5), Err(JentError::HealthTestFailed));
    assert_eq!(h.observe_delta(6), Ok(()));
    let mut d = HealthState::default();
    assert_eq!(d.observe_delta(1), Ok(()));
}

#[test]
fn sha3_512_conditioner_matches_digest() {
    let mut c = Sha3_512Conditioner::new();
    assert_eq!(c.kind(), ConditionerKind::Sha3_512);
    let mut small = [0u8; 63];
    assert_eq!(c.condition(b"abc", &mut small), Err(JentError::OutputBufferTooSmall));
    let mut out = [7u8; 70];
    assert_eq!(c.condition(b"abc", &mut out), Ok(64));
    let expect = sha3::Sha3_512::digest(b"abc");
    assert_eq!(&out[..64], expect.as_slice());
    assert_eq!(&out[64..], &[7u8; 6]);
}

#[test]
fn shake256_conditioner_matches_xof() {
    let mut c = Shake256Conditioner::new(32);
    assert_eq!(c.kind(), ConditionerKind::Shake256);
    let mut small = [0u8; 31];
    assert_eq!(c.condition(b"abc", &mut small), Err(JentError::OutputBufferTooSmall));
    let mut out = [9u8; 40];
    assert_eq!(c.condition(b"abc", &mut out), Ok(32));
    let mut h = sha3::Shake256::default();
    h.update(b"abc");
    let mut expect = [0u8; 32];
    h.finalize_xof().read(&mut expect);
    assert_eq!(&out[..32], &expect);
    assert_eq!(&out[32..], &[9u8; 8]);
}

#[test]
fn core_collector_samples_and_blocks() {
    let mut c = JentCollector::new(ticker());
    c.set_work_rounds(0);
    let d = c.sample_delta().unwrap();
    assert!(d >= 37 && d < 37 + 32 + 37 + 32);
    let raw = c.raw_block::<20>().unwrap();
    assert!(raw.iter().any(|&b| b != 0));
}

#[test]
fn core_collector_fills_conditioned_output() {
    let mut c = JentCollector::new(ticker());
    let mut cond = Sha3_512Conditioner::new();
    let mut out = [0u8; 100];
    c.fill_conditioned(&mut cond, &mut out).unwrap();
    assert!(out[64..].iter().any(|&b| b != 0));
    let mut shake = Shake256Conditioner::new(16);
    let mut out2 = [0u8; 40];
    c.fill_conditioned(&mut shake, &mut out2).unwrap();
    assert!(out2.iter().any(|&b| b != 0));
}

#[test]
fn core_collector_rejects_frozen_timer() {
    let frozen = CallbackTimer::new(|| 42u64);
    assert_eq!(frozen.now(), 42);
    let mut c = JentCollector::new(frozen);
    assert_eq!(c.sample_delta(), Err(JentError::TimerTooCoarse));
    let mut out = [0u8; 8];
    assert_eq!(
        c.fill_conditioned(&mut Sha3_512Conditioner::new(), &mut out),
        Err(JentError::TimerTooCoarse)
    );
}

#[test]
fn memory_loop_stirs_every_cell() {
    let mut m: MemoryLoop<16> = MemoryLoop::new();
    m.stir();
    let mut d: MemoryLoop<16> = MemoryLoop::default();
    d.stir();
    d.stir();
}

#[test]
fn finish_delta_wraps_and_checks() {
    let mut c = JentCollector::new(ticker());
    assert_eq!(c.finish_delta(5, 5), Err(JentError::TimerTooCoarse));
    assert_eq!(c.finish_delta(10, 3), Ok(3u64.wrapping_sub(10)));
    assert_eq!(c.finish_delta(1, 8), Ok(7));
}

#[test]
fn fill_conditioned_hashes_each_raw_block() {
    let mut c = JentCollector::new(ticker());
    let mut twin = JentCollector::new(ticker());
    let mut out = [0u8; 100];
    c.fill_conditioned(&mut Sha3_512Conditioner::new(), &mut out).unwrap();
    let raw0 = twin.raw_block::<128>().unwrap();
    let raw1 = twin.raw_block::<128>().unwrap();
    let h0 = sha3::Sha3_512::digest(raw0);
    let h1 = sha3::Sha3_512::digest(raw1);
    assert_eq!(&out[..64], &h0[..]);
    assert_eq!(&out[64..], &h1[..36]);

    let mut c = JentCollector::new(ticker());
    let mut twin = JentCollector::new(ticker());
    let mut out = [0u8; 20];
    c.fill_conditioned(&mut Shake256Conditioner::new(16), &mut out).unwrap();
    let mut expect = Vec::new();
    for _ in 0..2 {
        let raw = twin.raw_block::<128>().unwrap();
        let mut h = sha3::Shake256::default();
        h.update(&raw);
        let mut block = [0u8; 16];
        h.finalize_xof().read(&mut block);
        expect.extend_from_slice(&block);
    }
    assert_eq!(&out[..], &expect[..20]);
}

#[test]
fn raw_block_packs_little_endian_deltas() {
    let c = Cell::new(0u64);
    let mut col = JentCollector::new(CallbackTimer::new(move || {
        c.set(c.get() + 3);
        c.get()
    }));
    assert_eq!(col.raw_block::<12>(), Ok([3, 0, 0, 0, 0, 0, 0, 0, 3, 0, 0, 0]));
    assert_eq!(col.raw_block::<0>(), Ok([]));
}

#[test]
fn fill_conditioned_on_empty_output_is_ok() {
    let mut c = JentCollector::new(ticker());
    let mut out = [0u8; 0];
    assert_eq!(c.fill_conditioned(&mut Sha3_512Conditioner::new(), &mut out), Ok(()));
}

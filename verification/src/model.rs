//! The abstract collector: its state, and what it does with each timer
//! reading. Every operation of the collector is stated over these functions
//! and the timer readings it consumed.

use vstd::prelude::*;
use crate::bits::{le_bytes_u32, le_bytes_u64, spec_rotl64, spec_rotr64};
use crate::error::{InitError, ReadError};
use crate::flags::Flags;
use crate::health::HealthModel;
use crate::memory::{is_pow2, lemma_disturb_records, lemma_mask_in_range, MemoryModel};
use crate::sponge::shake256_output;
use crate::timer::all_some;
use crate::startup::{
    lemma_consistent_verdict, lemma_frozen_timer_rejected, lemma_record_consistent, stats_consistent,
    stats_of, StatsModel,
};

verus! {

pub const MIN_OSR: u32 = 1;

pub const MAX_OSR: u32 = 128;

pub const POWERUP_TESTS: usize = 1024;

pub const DEFAULT_MEMORY_SIZE: usize = 512 * 1024;

pub const DEFAULT_MEMORY_ROUNDS: usize = 128;

pub const NTG1_PRESEED_SAMPLES: usize = 240;

pub const GOLDEN_GAMMA: u64 = 0x9e37_79b9_7f4a_7c15;

/// Two consecutive timer readings around one unit of work; `None` stands
/// for a reading that the timer could not give (or that was not taken).
pub type Readings = (Option<u64>, Option<u64>);

/// The abstract state of a collector (its timer aside).
pub struct CollectorModel {
    pub osr: u32,
    pub flags: Flags,
    pub memory: Option<MemoryModel>,
    pub health: HealthModel,
    pub last_time: u64,
    pub work_state: u64,
    pub permanent_failure: u32,
}

impl CollectorModel {
    pub open spec fn wf(self) -> bool {
        &&& MIN_OSR <= self.osr <= MAX_OSR
        &&& self.health.wf()
        &&& self.memory matches Some(m) ==> m.wf()
        &&& sticky_failures_wf(self.permanent_failure)
    }

    /// Health failures abort reads and the startup.
    pub open spec fn fips(self) -> bool {
        self.flags.spec_contains(Flags(Flags::FORCE_FIPS)) || self.flags.spec_contains(
            Flags(Flags::NTG1),
        )
    }

    pub open spec fn with_work(self, work_state: u64) -> CollectorModel {
        CollectorModel { work_state, ..self }
    }
}

/// A set of recorded permanent failures: only bits of the RCT, APT and lag
/// tests, and, where any is set, one of their permanent bits.
pub open spec fn sticky_failures_wf(p: u32) -> bool {
    &&& p & 0xfff8_fff8 == 0
    &&& p != 0 ==> p & 0x7_0000 != 0
}

/// One xorshift step.
pub open spec fn xorshift(x: u64) -> u64 {
    let a = x ^ (x << 13u64);
    let b = a ^ (a >> 7u64);
    b ^ (b << 17u64)
}

/// `n` xorshift steps.
pub open spec fn xorshift_n(x: u64, n: nat) -> u64
    decreases n,
{
    if n == 0 {
        x
    } else {
        xorshift(xorshift_n(x, (n - 1) as nat))
    }
}

/// The work state after one unit of variable work seeded by `seed`: between
/// 64 and 191 xorshift rounds, folded into the rotated old state.
#[verifier::opaque]
pub open spec fn work_after(work_state: u64, seed: u64) -> u64 {
    let x = (seed ^ work_state) | 1;
    let rounds = (x & 0x7f) + 64;
    spec_rotl64(work_state, 7) ^ xorshift_n(x, rounds as nat).wrapping_mul(GOLDEN_GAMMA)
}

/// The read error reported for a set of health failures: permanent ones
/// first, in the order RCT, APT, lag, memory RCT, then transient ones in the
/// same order.
pub open spec fn failure_error(f: u32) -> ReadError {
    if f & 0x1_0000 != 0 {
        ReadError::RctPermanent
    } else if f & 0x2_0000 != 0 {
        ReadError::AptPermanent
    } else if f & 0x4_0000 != 0 {
        ReadError::LagPermanent
    } else if f & 0x8_0000 != 0 {
        ReadError::RctMemoryPermanent
    } else if f & 1 != 0 {
        ReadError::Rct
    } else if f & 2 != 0 {
        ReadError::Apt
    } else if f & 4 != 0 {
        ReadError::Lag
    } else if f & 8 != 0 {
        ReadError::RctMemory
    } else {
        ReadError::TimerUnavailable
    }
}

/// The folded sample of a pair of readings `before <= after`, given the
/// time of the previous sample.
pub open spec fn fold_sample(before: u64, after: u64, last_time: u64) -> u64 {
    let delta = (after - before) as u64;
    let delta_prev = after.wrapping_sub(last_time);
    delta ^ spec_rotl64(delta_prev, 17) ^ spec_rotr64(after, 9)
}

/// The rest of a sample once both readings are in: the readings must not
/// run backwards, the folded sample must not be zero, and the health tests
/// see it. Permanent failures are recorded; with FIPS behaviour any failure
/// is an error.
#[verifier::opaque]
pub open spec fn sample_finish(m: CollectorModel, before: u64, after: u64) -> (CollectorModel, Result<
    u64,
    ReadError,
>) {
    if after < before {
        (m, Err(ReadError::TimerUnavailable))
    } else {
        let m2 = CollectorModel { last_time: after, ..m };
        let folded = fold_sample(before, after, m.last_time);
        if folded == 0 {
            (m2, Err(ReadError::TimerUnavailable))
        } else {
            let (health, f) = m2.health.observe(folded);
            let permanent_failure = if f != 0 && f & 0xffff_0000 != 0 {
                m2.permanent_failure | f
            } else {
                m2.permanent_failure
            };
            let m3 = CollectorModel { health, permanent_failure, ..m2 };
            if f != 0 && m.fips() {
                (m3, Err(failure_error(f)))
            } else {
                (m3, Ok(folded))
            }
        }
    }
}

/// One sample: a reading, a unit of work seeded by it, a second reading,
/// and the rest of the sample; a missing reading is an error.
#[verifier::opaque]
pub open spec fn sample_step(m: CollectorModel, r: Readings) -> (CollectorModel, Result<
    u64,
    ReadError,
>) {
    match r.0 {
        None => (m, Err(ReadError::TimerUnavailable)),
        Some(before) => {
            let m1 = m.with_work(work_after(m.work_state, before ^ m.last_time));
            match r.1 {
                None => (m1, Err(ReadError::TimerUnavailable)),
                Some(after) => sample_finish(m1, before, after),
            }
        },
    }
}

/// One hash round of a sample: its bytes, then (with memory access) the
/// bytes of a memory disturbance seeded by it, then a unit of work.
pub open spec fn mix_once(m: CollectorModel, s: u64) -> (CollectorModel, Seq<u8>) {
    let m1 = m.with_work(work_after(m.work_state, s));
    match m.memory {
        None => (m1, le_bytes_u64(s)),
        Some(mem) => {
            let (mem2, trace) = mem.disturb(s, DEFAULT_MEMORY_ROUNDS as nat);
            (CollectorModel { memory: Some(mem2), ..m1 }, le_bytes_u64(s) + trace)
        },
    }
}

/// `n` hash rounds of a sample.
#[verifier::opaque]
pub open spec fn mix_rounds(m: CollectorModel, s: u64, n: nat) -> (CollectorModel, Seq<u8>)
    decreases n,
{
    if n == 0 {
        (m, Seq::empty())
    } else {
        let (m1, b1) = mix_rounds(m, s, (n - 1) as nat);
        let (m2, b2) = mix_once(m1, s);
        (m2, b1 + b2)
    }
}

/// The bytes of the block domain tag `jitterentropy-rs/v1`.
pub open spec fn domain_tag() -> Seq<u8> {
    seq![
        0x6a, 0x69, 0x74, 0x74, 0x65, 0x72, 0x65, 0x6e, 0x74, 0x72, 0x6f, 0x70, 0x79, 0x2d,
        0x72, 0x73, 0x2f, 0x76, 0x31,
    ]
}

/// What every block's conditioner absorbs first.
pub open spec fn block_header(osr: u32, flags: Flags) -> Seq<u8> {
    domain_tag() + le_bytes_u32(osr) + le_bytes_u32(flags.0)
}

/// A block in progress: the collector, the bytes absorbed so far, the
/// samples taken and the error that ended it, if any.
pub struct BlockState {
    pub model: CollectorModel,
    pub absorbed: Seq<u8>,
    pub samples: nat,
    pub err: Option<ReadError>,
}

pub open spec fn block_start(m: CollectorModel) -> BlockState {
    BlockState { model: m, absorbed: block_header(m.osr, m.flags), samples: 0, err: None }
}

pub open spec fn block_done(b: BlockState) -> bool {
    b.err is Some || b.samples >= b.model.osr
}

/// One sample of a block and its hash rounds.
#[verifier::opaque]
pub open spec fn block_step(b: BlockState, r: Readings) -> BlockState {
    if block_done(b) {
        b
    } else {
        let (m1, s) = sample_step(b.model, r);
        match s {
            Err(e) => BlockState { model: m1, err: Some(e), ..b },
            Ok(v) => {
                let (m2, bytes) = mix_rounds(m1, v, m1.flags.spec_hash_loop_count() as nat);
                BlockState {
                    model: m2,
                    absorbed: b.absorbed + bytes,
                    samples: b.samples + 1,
                    err: None,
                }
            },
        }
    }
}

/// A block run on a sequence of readings.
#[verifier::opaque]
pub open spec fn block_run(m: CollectorModel, rs: Seq<Readings>) -> BlockState
    decreases rs.len(),
{
    if rs.len() == 0 {
        block_start(m)
    } else {
        block_step(block_run(m, rs.drop_last()), rs.last())
    }
}

/// `rs` are exactly the readings a block takes: it is done after the last
/// of them and not before.
pub open spec fn block_consumes(m: CollectorModel, rs: Seq<Readings>) -> bool {
    &&& block_done(block_run(m, rs))
    &&& rs.len() > 0 ==> !block_done(block_run(m, rs.drop_last()))
}

/// The timer calls that a sample made and what they returned: the first,
/// and the second only where the first gave a timestamp.
pub open spec fn sample_calls(r: Readings) -> Seq<Option<u64>> {
    match r.0 {
        None => seq![None],
        Some(_) => seq![r.0, r.1],
    }
}

/// The timer calls of a sequence of samples, in order.
pub open spec fn samples_calls(rs: Seq<Readings>) -> Seq<Option<u64>>
    decreases rs.len(),
{
    if rs.len() == 0 {
        Seq::empty()
    } else {
        samples_calls(rs.drop_last()) + sample_calls(rs.last())
    }
}

/// The timer calls of a sequence of blocks, in order.
pub open spec fn blocks_calls(bs: Seq<Seq<Readings>>) -> Seq<Option<u64>>
    decreases bs.len(),
{
    if bs.len() == 0 {
        Seq::empty()
    } else {
        blocks_calls(bs.drop_last()) + samples_calls(bs.last())
    }
}

pub proof fn lemma_samples_calls_push(rs: Seq<Readings>, r: Readings)
    ensures
        samples_calls(rs.push(r)) == samples_calls(rs) + sample_calls(r),
{
    assert(rs.push(r).drop_last() =~= rs);
}

pub proof fn lemma_blocks_calls_push(bs: Seq<Seq<Readings>>, rs: Seq<Readings>)
    ensures
        blocks_calls(bs.push(rs)) == blocks_calls(bs) + samples_calls(rs),
{
    assert(bs.push(rs).drop_last() =~= bs);
}

/// A read in progress: the collector, the bytes written and the error that
/// ended it, if any.
pub struct FillState {
    pub model: CollectorModel,
    pub written: Seq<u8>,
    pub err: Option<ReadError>,
}

pub open spec fn fill_done(f: FillState, len: nat) -> bool {
    f.err is Some || f.written.len() >= len
}

/// One block of a read of `len` bytes: its output is the SHAKE256 digest of
/// what it absorbed, cut to the bytes still missing.
#[verifier::opaque]
pub open spec fn fill_step(f: FillState, len: nat, rs: Seq<Readings>) -> FillState {
    if fill_done(f, len) {
        f
    } else {
        let b = block_run(f.model, rs);
        match b.err {
            Some(e) => FillState { model: b.model, written: f.written, err: Some(e) },
            None => {
                let n = if len - f.written.len() < 64 {
                    (len - f.written.len()) as int
                } else {
                    64
                };
                FillState {
                    model: b.model,
                    written: f.written + shake256_output(b.absorbed, 64).take(n),
                    err: None,
                }
            },
        }
    }
}

/// A read of `len` bytes run on the readings of its blocks.
#[verifier::opaque]
pub open spec fn fill_run(m: CollectorModel, len: nat, blocks: Seq<Seq<Readings>>) -> FillState
    decreases blocks.len(),
{
    if blocks.len() == 0 {
        FillState { model: m, written: Seq::empty(), err: None }
    } else {
        fill_step(fill_run(m, len, blocks.drop_last()), len, blocks.last())
    }
}

/// Each block of `blocks` took exactly its own readings.
pub open spec fn blocks_consumed(m: CollectorModel, len: nat, blocks: Seq<Seq<Readings>>) -> bool
    decreases blocks.len(),
{
    blocks.len() > 0 ==> {
        &&& blocks_consumed(m, len, blocks.drop_last())
        &&& block_consumes(fill_run(m, len, blocks.drop_last()).model, blocks.last())
    }
}

/// `blocks` are exactly the readings a read of `len` bytes takes, block by
/// block: the read is done after the last block and not before.
pub open spec fn fill_consumes(m: CollectorModel, len: nat, blocks: Seq<Seq<Readings>>) -> bool {
    &&& fill_done(fill_run(m, len, blocks), len)
    &&& blocks.len() > 0 ==> !fill_done(fill_run(m, len, blocks.drop_last()), len)
    &&& blocks_consumed(m, len, blocks)
}

proof fn lemma_seq_push_drop_last<A>(s: Seq<A>, x: A)
    ensures
        s.push(x).drop_last() == s,
        s.push(x).last() == x,
        s.push(x).len() == s.len() + 1,
{
    assert(s.push(x).drop_last() =~= s);
}

pub proof fn lemma_block_run_empty(m: CollectorModel)
    ensures
        block_run(m, Seq::empty()) == block_start(m),
{
    reveal_with_fuel(block_run, 1);
}

pub proof fn lemma_block_run_push(m: CollectorModel, rs: Seq<Readings>, r: Readings)
    ensures
        block_run(m, rs.push(r)) == block_step(block_run(m, rs), r),
{
    reveal_with_fuel(block_run, 1);
    lemma_seq_push_drop_last(rs, r);
}

/// A block step that takes a sample: the sample's hash rounds are absorbed.
pub proof fn lemma_block_step_sampled(b: BlockState, r: Readings)
    requires
        !block_done(b),
    ensures
        ({
            let (m1, s) = sample_step(b.model, r);
            block_step(b, r) == match s {
                Err(e) => BlockState { model: m1, err: Some(e), ..b },
                Ok(v) => {
                    let (m2, bytes) = mix_rounds(m1, v, m1.flags.spec_hash_loop_count() as nat);
                    BlockState {
                        model: m2,
                        absorbed: b.absorbed + bytes,
                        samples: b.samples + 1,
                        err: None,
                    }
                },
            }
        }),
{
    reveal(block_step);
}

pub proof fn lemma_mix_rounds_zero(m: CollectorModel, s: u64)
    ensures
        mix_rounds(m, s, 0) == (m, Seq::<u8>::empty()),
{
    reveal_with_fuel(mix_rounds, 1);
}

pub proof fn lemma_mix_rounds_succ(m: CollectorModel, s: u64, n: nat)
    ensures
        mix_rounds(m, s, n + 1) == ({
            let (m1, b1) = mix_rounds(m, s, n);
            let (m2, b2) = mix_once(m1, s);
            (m2, b1 + b2)
        }),
{
    reveal_with_fuel(mix_rounds, 1);
}

pub proof fn lemma_fill_run_empty(m: CollectorModel, len: nat)
    ensures
        fill_run(m, len, Seq::empty()) == (FillState { model: m, written: Seq::empty(), err: None }),
{
    reveal_with_fuel(fill_run, 1);
}

pub proof fn lemma_fill_run_push(m: CollectorModel, len: nat, blocks: Seq<Seq<Readings>>, rs: Seq<Readings>)
    ensures
        fill_run(m, len, blocks.push(rs)) == fill_step(fill_run(m, len, blocks), len, rs),
{
    reveal_with_fuel(fill_run, 1);
    lemma_seq_push_drop_last(blocks, rs);
}

/// A read step that runs a block.
pub proof fn lemma_fill_step_block(f: FillState, len: nat, rs: Seq<Readings>)
    requires
        !fill_done(f, len),
    ensures
        ({
            let b = block_run(f.model, rs);
            fill_step(f, len, rs) == match b.err {
                Some(e) => FillState { model: b.model, written: f.written, err: Some(e) },
                None => {
                    let n = if len - f.written.len() < 64 {
                        (len - f.written.len()) as int
                    } else {
                        64
                    };
                    FillState {
                        model: b.model,
                        written: f.written + shake256_output(b.absorbed, 64).take(n),
                        err: None,
                    }
                },
            }
        }),
{
    reveal(fill_step);
}

/// A sample never changes the configuration.
pub proof fn lemma_sample_step_config(m: CollectorModel, r: Readings)
    ensures
        sample_step(m, r).0.osr == m.osr,
        sample_step(m, r).0.flags == m.flags,
{
    reveal(sample_step);
    reveal(sample_finish);
}

/// The startup test in progress: the collector, the previous reading, the
/// statistics of the deltas, the deltas taken and the error that ended it.
pub struct StartupState {
    pub model: CollectorModel,
    pub prev: u64,
    pub stats: StatsModel,
    pub steps: nat,
    pub err: Option<InitError>,
}

/// The startup test after its first reading.
pub open spec fn startup_begin(m: CollectorModel, first: Option<u64>) -> StartupState {
    match first {
        None => StartupState {
            model: m,
            prev: 0,
            stats: StatsModel::empty(),
            steps: 0,
            err: Some(InitError::TimerUnavailable),
        },
        Some(p) => StartupState {
            model: m,
            prev: p,
            stats: StatsModel::empty(),
            steps: 0,
            err: None,
        },
    }
}

pub open spec fn startup_done(st: StartupState) -> bool {
    st.err is Some || st.steps >= POWERUP_TESTS
}

/// One delta of the startup test: a unit of work, a reading, the
/// statistics and the health tests.
#[verifier::opaque]
pub open spec fn startup_step(st: StartupState, now: Option<u64>) -> StartupState {
    if startup_done(st) {
        st
    } else {
        let m1 = st.model.with_work(work_after(st.model.work_state, st.prev));
        match now {
            None => StartupState { model: m1, err: Some(InitError::TimerUnavailable), ..st },
            Some(t) => {
                if t < st.prev {
                    StartupState { model: m1, err: Some(InitError::TimerNotMonotonic), ..st }
                } else {
                    let delta = (t - st.prev) as u64;
                    let stats = st.stats.record(delta);
                    let (health, f) = m1.health.observe(delta);
                    let m2 = CollectorModel { health, ..m1 };
                    if f != 0 && m1.fips() {
                        StartupState {
                            model: m2,
                            stats,
                            err: Some(InitError::Health),
                            ..st
                        }
                    } else {
                        StartupState {
                            model: m2,
                            prev: t,
                            stats,
                            steps: st.steps + 1,
                            err: None,
                        }
                    }
                }
            },
        }
    }
}

/// The startup test run on its first reading and the readings after it.
#[verifier::opaque]
pub open spec fn startup_run(m: CollectorModel, first: Option<u64>, nows: Seq<Option<u64>>) -> StartupState
    decreases nows.len(),
{
    if nows.len() == 0 {
        startup_begin(m, first)
    } else {
        startup_step(startup_run(m, first, nows.drop_last()), nows.last())
    }
}

/// `nows` are exactly the readings that the startup test takes.
pub open spec fn startup_consumes(m: CollectorModel, first: Option<u64>, nows: Seq<Option<u64>>) -> bool {
    &&& startup_done(startup_run(m, first, nows))
    &&& nows.len() > 0 ==> !startup_done(startup_run(m, first, nows.drop_last()))
}

/// What the startup test concludes: its error, the verdict on its
/// statistics, or the collector with the last reading as its time.
pub open spec fn startup_outcome(st: StartupState) -> Result<CollectorModel, InitError> {
    match st.err {
        Some(e) => Err(e),
        None => match st.stats.verdict() {
            Err(e) => Err(e),
            Ok(()) => Ok(CollectorModel { last_time: st.prev, ..st.model }),
        },
    }
}

pub proof fn lemma_startup_run_empty(m: CollectorModel, first: Option<u64>)
    ensures
        startup_run(m, first, Seq::empty()) == startup_begin(m, first),
{
    reveal_with_fuel(startup_run, 1);
}

pub proof fn lemma_startup_run_push(m: CollectorModel, first: Option<u64>, nows: Seq<Option<u64>>, now: Option<u64>)
    ensures
        startup_run(m, first, nows.push(now)) == startup_step(startup_run(m, first, nows), now),
{
    reveal_with_fuel(startup_run, 1);
    lemma_seq_push_drop_last(nows, now);
}

pub proof fn lemma_startup_step_open(st: StartupState, now: Option<u64>)
    requires
        !startup_done(st),
    ensures
        startup_step(st, now) == ({
            let m1 = st.model.with_work(work_after(st.model.work_state, st.prev));
            match now {
                None => StartupState { model: m1, err: Some(InitError::TimerUnavailable), ..st },
                Some(t) => {
                    if t < st.prev {
                        StartupState { model: m1, err: Some(InitError::TimerNotMonotonic), ..st }
                    } else {
                        let delta = (t - st.prev) as u64;
                        let stats = st.stats.record(delta);
                        let (health, f) = m1.health.observe(delta);
                        let m2 = CollectorModel { health, ..m1 };
                        if f != 0 && m1.fips() {
                            StartupState {
                                model: m2,
                                stats,
                                err: Some(InitError::Health),
                                ..st
                            }
                        } else {
                            StartupState {
                                model: m2,
                                prev: t,
                                stats,
                                steps: st.steps + 1,
                                err: None,
                            }
                        }
                    }
                },
            }
        }),
{
    reveal(startup_step);
}

/// The NTG.1 pre-shaping in progress: the collector, the xor of the
/// samples, the samples taken and the error that ended it.
pub struct PreshapeState {
    pub model: CollectorModel,
    pub acc: u64,
    pub samples: nat,
    pub err: Option<InitError>,
}

pub open spec fn preshape_done(p: PreshapeState) -> bool {
    p.err is Some || p.samples >= NTG1_PRESEED_SAMPLES
}

/// One pre-shaping sample; any failure to sample is a health error.
pub open spec fn preshape_step(p: PreshapeState, r: Readings) -> PreshapeState {
    if preshape_done(p) {
        p
    } else {
        let (m1, s) = sample_step(p.model, r);
        match s {
            Err(_) => PreshapeState { model: m1, err: Some(InitError::Health), ..p },
            Ok(v) => PreshapeState { model: m1, acc: p.acc ^ v, samples: p.samples + 1, err: None },
        }
    }
}

#[verifier::opaque]
pub open spec fn preshape_run(m: CollectorModel, rs: Seq<Readings>) -> PreshapeState
    decreases rs.len(),
{
    if rs.len() == 0 {
        PreshapeState { model: m, acc: 0, samples: 0, err: None }
    } else {
        preshape_step(preshape_run(m, rs.drop_last()), rs.last())
    }
}

/// `rs` are exactly the readings that the pre-shaping takes.
pub open spec fn preshape_consumes(m: CollectorModel, rs: Seq<Readings>) -> bool {
    &&& preshape_done(preshape_run(m, rs))
    &&& rs.len() > 0 ==> !preshape_done(preshape_run(m, rs.drop_last()))
}

/// What the pre-shaping concludes: its error, or the collector whose memory
/// was stirred by a disturbance seeded with the xor of the samples.
pub open spec fn preshape_outcome(p: PreshapeState) -> Result<CollectorModel, InitError> {
    match p.err {
        Some(e) => Err(e),
        None => match p.model.memory {
            None => Ok(p.model),
            Some(mem) => Ok(
                CollectorModel {
                    memory: Some(mem.disturb(p.acc, NTG1_PRESEED_SAMPLES as nat).0),
                    ..p.model
                },
            ),
        },
    }
}

pub proof fn lemma_preshape_run_empty(m: CollectorModel)
    ensures
        preshape_run(m, Seq::empty()) == (PreshapeState { model: m, acc: 0, samples: 0, err: None }),
{
    reveal_with_fuel(preshape_run, 1);
}

pub proof fn lemma_preshape_run_push(m: CollectorModel, rs: Seq<Readings>, r: Readings)
    ensures
        preshape_run(m, rs.push(r)) == preshape_step(preshape_run(m, rs), r),
{
    reveal_with_fuel(preshape_run, 1);
    lemma_seq_push_drop_last(rs, r);
}

/// The smallest power of two that is at least `v`, searched from `p`.
pub open spec fn pow2_at_least(v: nat, p: nat) -> nat
    decreases (if p < v {
        v - p
    } else {
        0
    }),
    when p >= 1
{
    if p >= v {
        p
    } else {
        pow2_at_least(v, 2 * p)
    }
}

/// The memory size for a memory limit given in KiB: clamped to
/// 4 KiB ..= 64 MiB, rounded up to a power of two.
pub open spec fn memory_size_for_kib(kib: u32) -> nat {
    let bytes = kib * 1024;
    let clamped = if bytes < 4096 {
        4096
    } else if bytes > 0x400_0000 {
        0x400_0000
    } else {
        bytes
    };
    pow2_at_least(clamped as nat, 1)
}

/// The memory size that the flags word selects.
pub open spec fn configured_memory_size_spec(flags: Flags) -> nat {
    match crate::flags::MemoryLimit::spec_from_raw(flags.spec_memsize_raw()) {
        crate::flags::MemoryLimit::Auto => DEFAULT_MEMORY_SIZE as nat,
        crate::flags::MemoryLimit::KiB(kib) => memory_size_for_kib(kib),
    }
}

/// The flags ask for both forcing and disabling the internal timer, or the
/// oversampling rate is above its maximum.
pub open spec fn init_config_error(osr: u32, flags: Flags) -> bool {
    ||| flags.spec_contains(Flags(Flags::FORCE_INTERNAL_TIMER)) && flags.spec_contains(
        Flags(Flags::DISABLE_INTERNAL_TIMER),
    )
    ||| osr > MAX_OSR
}

/// The oversampling rate, at least `MIN_OSR`.
pub open spec fn effective_osr(osr: u32) -> u32 {
    if osr < MIN_OSR {
        MIN_OSR
    } else {
        osr
    }
}

/// The memory noise source a new collector gets.
pub open spec fn initial_memory(flags: Flags, memory_size: Option<usize>) -> Result<
    Option<MemoryModel>,
    InitError,
> {
    if flags.spec_contains(Flags(Flags::DISABLE_MEMORY_ACCESS)) {
        Ok(None)
    } else {
        let size: nat = match memory_size {
            Some(s) => s as nat,
            None => configured_memory_size_spec(flags),
        };
        if size <= usize::MAX && is_pow2(size as usize) {
            Ok(Some(MemoryModel { buf: Seq::new(size, |i: int| 0u8), idx: 0 }))
        } else {
            Err(InitError::Memory)
        }
    }
}

/// A new collector before its startup test, given the timer's first reading.
pub open spec fn initial_model(osr: u32, flags: Flags, memory: Option<MemoryModel>, first: u64) -> CollectorModel {
    CollectorModel {
        osr: effective_osr(osr),
        flags,
        memory,
        health: HealthModel::initial(),
        last_time: first,
        work_state: first ^ GOLDEN_GAMMA,
        permanent_failure: 0,
    }
}

/// The readings a collector's creation takes: the first reading, then the
/// startup test's first reading and the others, then the pre-shaping's.
pub struct InitReadings {
    pub first: Option<u64>,
    pub startup_first: Option<u64>,
    pub startup: Seq<Option<u64>>,
    pub preshape: Seq<Readings>,
}

/// What creating a collector gives on the readings `rd`.
#[verifier::opaque]
pub open spec fn init_outcome(osr: u32, flags: Flags, memory_size: Option<usize>, rd: InitReadings) -> Result<
    CollectorModel,
    InitError,
> {
    if init_config_error(effective_osr(osr), flags) {
        Err(InitError::ProgrammingError)
    } else {
        match rd.first {
            None => Err(InitError::TimerUnavailable),
            Some(t) => match initial_memory(flags, memory_size) {
                Err(e) => Err(e),
                Ok(mem) => {
                    let m0 = initial_model(osr, flags, mem, t);
                    match startup_outcome(startup_run(m0, rd.startup_first, rd.startup)) {
                        Err(e) => Err(e),
                        Ok(m1) => {
                            if flags.spec_contains(Flags(Flags::NTG1)) {
                                preshape_outcome(preshape_run(m1, rd.preshape))
                            } else {
                                Ok(m1)
                            }
                        },
                    }
                },
            },
        }
    }
}

/// `rd` are exactly the readings that creating a collector takes: each
/// stage takes its own, and a stage that is not reached takes none.
#[verifier::opaque]
pub open spec fn init_consumes(osr: u32, flags: Flags, memory_size: Option<usize>, rd: InitReadings) -> bool {
    let reached_first = !init_config_error(effective_osr(osr), flags);
    let reached_startup = reached_first && rd.first is Some && initial_memory(flags, memory_size) is Ok;
    let m0 = initial_model(osr, flags, initial_memory(flags, memory_size)->Ok_0, rd.first->Some_0);
    let st = startup_run(m0, rd.startup_first, rd.startup);
    let reached_preshape = reached_startup && startup_outcome(st) is Ok && flags.spec_contains(
        Flags(Flags::NTG1),
    );
    &&& !reached_first ==> rd.first is None
    &&& reached_startup ==> startup_consumes(m0, rd.startup_first, rd.startup)
    &&& !reached_startup ==> rd.startup_first is None && rd.startup.len() == 0
    &&& reached_preshape ==> preshape_consumes(startup_outcome(st)->Ok_0, rd.preshape)
    &&& !reached_preshape ==> rd.preshape.len() == 0
}

/// The timer calls that creating a collector made on the readings `rd`:
/// none where the configuration is refused, then the first reading, then,
/// where the startup test is reached, its readings and the pre-shaping's
/// samples.
pub open spec fn init_calls(osr: u32, flags: Flags, memory_size: Option<usize>, rd: InitReadings) -> Seq<
    Option<u64>,
> {
    if init_config_error(effective_osr(osr), flags) {
        Seq::empty()
    } else if rd.first is None || initial_memory(flags, memory_size) is Err {
        seq![rd.first]
    } else {
        seq![rd.first, rd.startup_first] + rd.startup + samples_calls(rd.preshape)
    }
}

/// `r` is what creating a collector gives on the readings it takes, and
/// `calls` are the timer calls it made for them.
pub open spec fn init_result(
    osr: u32,
    flags: Flags,
    memory_size: Option<usize>,
    r: Result<CollectorModel, InitError>,
    calls: Seq<Option<u64>>,
) -> bool {
    exists|rd: InitReadings|
        {
            &&& init_consumes(osr, flags, memory_size, rd)
            &&& init_calls(osr, flags, memory_size, rd) == calls
            &&& #[trigger] init_outcome(osr, flags, memory_size, rd) == r
        }
}

proof fn lemma_startup_errors(m: CollectorModel, first: Option<u64>, nows: Seq<Option<u64>>)
    ensures
        startup_run(m, first, nows).err != Some(InitError::ProgrammingError),
        startup_run(m, first, nows).model.osr == m.osr,
        startup_run(m, first, nows).model.flags == m.flags,
    decreases nows.len(),
{
    reveal_with_fuel(startup_run, 1);
    reveal(startup_step);
    if nows.len() > 0 {
        lemma_startup_errors(m, first, nows.drop_last());
    }
}

proof fn lemma_preshape_errors(m: CollectorModel, rs: Seq<Readings>)
    ensures
        preshape_run(m, rs).err != Some(InitError::ProgrammingError),
        preshape_run(m, rs).err is Some ==> preshape_run(m, rs).err == Some(InitError::Health),
    decreases rs.len(),
{
    reveal_with_fuel(preshape_run, 1);
    if rs.len() > 0 {
        lemma_preshape_errors(m, rs.drop_last());
    }
}

/// A collector that is refused its configuration reads nothing.
pub proof fn lemma_init_refused(osr: u32, flags: Flags, memory_size: Option<usize>)
    requires
        init_config_error(effective_osr(osr), flags),
    ensures
        init_result(osr, flags, memory_size, Err(InitError::ProgrammingError), Seq::empty()),
{
    reveal(init_outcome);
    reveal(init_consumes);
    let rd = InitReadings {
        first: None,
        startup_first: None,
        startup: Seq::empty(),
        preshape: Seq::empty(),
    };
    assert(init_consumes(osr, flags, memory_size, rd));
    assert(init_outcome(osr, flags, memory_size, rd) == Err::<CollectorModel, InitError>(
        InitError::ProgrammingError,
    ));
}

/// A collector whose first reading fails, or whose memory cannot be had,
/// stops there.
pub proof fn lemma_init_stopped_early(
    osr: u32,
    flags: Flags,
    memory_size: Option<usize>,
    first: Option<u64>,
    e: InitError,
)
    requires
        !init_config_error(effective_osr(osr), flags),
        first is None ==> e == InitError::TimerUnavailable,
        first is Some ==> initial_memory(flags, memory_size) == Err::<Option<MemoryModel>, InitError>(e),
    ensures
        init_result(osr, flags, memory_size, Err(e), seq![first]),
        e != InitError::ProgrammingError,
{
    reveal(init_outcome);
    reveal(init_consumes);
    let rd = InitReadings { first, startup_first: None, startup: Seq::empty(), preshape: Seq::empty() };
    assert(init_consumes(osr, flags, memory_size, rd));
    assert(init_outcome(osr, flags, memory_size, rd) == Err::<CollectorModel, InitError>(e));
}

/// A collector that reached its startup test ends as the startup test and
/// the pre-shaping say.
pub proof fn lemma_init_after_startup(
    osr: u32,
    flags: Flags,
    memory_size: Option<usize>,
    first: u64,
    startup_first: Option<u64>,
    startup: Seq<Option<u64>>,
    preshape: Seq<Readings>,
    r: Result<CollectorModel, InitError>,
)
    requires
        !init_config_error(effective_osr(osr), flags),
        initial_memory(flags, memory_size) is Ok,
        ({
            let m0 = initial_model(osr, flags, initial_memory(flags, memory_size)->Ok_0, first);
            let st = startup_run(m0, startup_first, startup);
            &&& startup_consumes(m0, startup_first, startup)
            &&& match startup_outcome(st) {
                Err(e) => r == Err::<CollectorModel, InitError>(e) && preshape.len() == 0,
                Ok(m1) => if flags.spec_contains(Flags(Flags::NTG1)) {
                    preshape_consumes(m1, preshape) && r == preshape_outcome(preshape_run(m1, preshape))
                } else {
                    r == Ok::<CollectorModel, InitError>(m1) && preshape.len() == 0
                },
            }
        }),
    ensures
        init_result(
            osr,
            flags,
            memory_size,
            r,
            seq![Some(first), startup_first] + startup + samples_calls(preshape),
        ),
        r != Err::<CollectorModel, InitError>(InitError::ProgrammingError),
{
    reveal(init_outcome);
    reveal(init_consumes);
    let rd = InitReadings { first: Some(first), startup_first, startup, preshape };
    let m0 = initial_model(osr, flags, initial_memory(flags, memory_size)->Ok_0, first);
    lemma_startup_errors(m0, startup_first, startup);
    let st = startup_run(m0, startup_first, startup);
    if let Ok(m1) = startup_outcome(st) {
        lemma_preshape_errors(m1, preshape);
    }
    assert(init_consumes(osr, flags, memory_size, rd));
    assert(init_outcome(osr, flags, memory_size, rd) == r);
}

/// Every failure bit of `before` is still set in `after`.
pub open spec fn keeps_failures(before: u32, after: u32) -> bool {
    after & before == before
}

proof fn lemma_keeps_failures_trans(a: u32, b: u32, c: u32)
    requires
        keeps_failures(a, b),
        keeps_failures(b, c),
    ensures
        keeps_failures(a, c),
        a != 0 ==> c != 0,
{
    assert((b & a == a && c & b == b) ==> (c & a == a && (a != 0 ==> c != 0))) by (bit_vector);
}

proof fn lemma_keeps_failures_refl(a: u32)
    ensures
        keeps_failures(a, a),
{
    assert(a & a == a) by (bit_vector);
}

proof fn lemma_sample_keeps_failures(m: CollectorModel, r: Readings)
    ensures
        keeps_failures(m.permanent_failure, sample_step(m, r).0.permanent_failure),
{
    reveal(sample_step);
    reveal(sample_finish);
    let p = m.permanent_failure;
    lemma_keeps_failures_refl(p);
    assert(forall|f: u32| #![auto] (p | f) & p == p) by (bit_vector);
}

proof fn lemma_mix_rounds_keeps_failures(m: CollectorModel, s: u64, n: nat)
    ensures
        mix_rounds(m, s, n).0.permanent_failure == m.permanent_failure,
    decreases n,
{
    reveal_with_fuel(mix_rounds, 1);
    if n > 0 {
        lemma_mix_rounds_keeps_failures(m, s, (n - 1) as nat);
    }
}

proof fn lemma_block_run_keeps_failures(m: CollectorModel, rs: Seq<Readings>)
    ensures
        keeps_failures(m.permanent_failure, block_run(m, rs).model.permanent_failure),
    decreases rs.len(),
{
    reveal_with_fuel(block_run, 1);
    reveal(block_step);
    if rs.len() == 0 {
        lemma_keeps_failures_refl(m.permanent_failure);
    } else {
        let prev = block_run(m, rs.drop_last());
        lemma_block_run_keeps_failures(m, rs.drop_last());
        if !block_done(prev) {
            let (m1, smp) = sample_step(prev.model, rs.last());
            lemma_sample_keeps_failures(prev.model, rs.last());
            if let Ok(v) = smp {
                lemma_mix_rounds_keeps_failures(m1, v, m1.flags.spec_hash_loop_count() as nat);
            }
            lemma_keeps_failures_trans(
                m.permanent_failure,
                prev.model.permanent_failure,
                block_run(m, rs).model.permanent_failure,
            );
        }
    }
}

/// Permanent failures are sticky: no read clears a recorded permanent
/// failure (and while one is recorded, `fill_bytes` refuses every read with
/// the error it maps to).
pub proof fn lemma_read_keeps_permanent_failures(m: CollectorModel, len: nat, blocks: Seq<Seq<Readings>>)
    ensures
        keeps_failures(m.permanent_failure, fill_run(m, len, blocks).model.permanent_failure),
        m.permanent_failure != 0 ==> fill_run(m, len, blocks).model.permanent_failure != 0,
    decreases blocks.len(),
{
    reveal_with_fuel(fill_run, 1);
    reveal(fill_step);
    lemma_keeps_failures_refl(m.permanent_failure);
    if blocks.len() > 0 {
        let prev = fill_run(m, len, blocks.drop_last());
        lemma_read_keeps_permanent_failures(m, len, blocks.drop_last());
        if !fill_done(prev, len) {
            lemma_block_run_keeps_failures(prev.model, blocks.last());
            lemma_keeps_failures_trans(
                m.permanent_failure,
                prev.model.permanent_failure,
                fill_run(m, len, blocks).model.permanent_failure,
            );
        }
    }
    lemma_keeps_failures_refl(fill_run(m, len, blocks).model.permanent_failure);
    lemma_keeps_failures_trans(
        m.permanent_failure,
        fill_run(m, len, blocks).model.permanent_failure,
        fill_run(m, len, blocks).model.permanent_failure,
    );
}

/// The differences between consecutive readings, starting from `first`.
pub open spec fn reading_deltas(first: u64, nows: Seq<Option<u64>>) -> Seq<u64>
    decreases nows.len(),
{
    if nows.len() == 0 {
        Seq::empty()
    } else {
        let prev = if nows.len() == 1 {
            first
        } else {
            nows[nows.len() - 2]->Some_0
        };
        reading_deltas(first, nows.drop_last()).push((nows.last()->Some_0 - prev) as u64)
    }
}

/// While the startup test has not failed, it has taken one delta per
/// reading, its statistics are those of the differences between consecutive
/// readings, and its previous reading is the last one.
pub proof fn lemma_startup_stats_are_delta_stats(m: CollectorModel, first: u64, nows: Seq<Option<u64>>)
    requires
        startup_run(m, Some(first), nows).err is None,
        nows.len() <= POWERUP_TESTS,
    ensures
        startup_run(m, Some(first), nows).stats == stats_of(reading_deltas(first, nows)),
        startup_run(m, Some(first), nows).steps == nows.len(),
        startup_run(m, Some(first), nows).prev == if nows.len() == 0 {
            first
        } else {
            nows.last()->Some_0
        },
    decreases nows.len(),
{
    reveal_with_fuel(startup_run, 1);
    if nows.len() > 0 {
        let prev = startup_run(m, Some(first), nows.drop_last());
        reveal(startup_step);
        assert(prev.err is None);
        lemma_startup_stats_are_delta_stats(m, first, nows.drop_last());
        assert(!startup_done(prev));
        let now = nows.last();
        assert(now is Some);
        let t = now->Some_0;
        assert(t >= prev.prev);
        if nows.len() > 1 {
            assert(nows.drop_last().last() == nows[nows.len() - 2]);
        }
        let d = reading_deltas(first, nows);
        assert(d.last() == (t - prev.prev) as u64);
        assert(d.drop_last() =~= reading_deltas(first, nows.drop_last()));
        assert(stats_of(d) == stats_of(d.drop_last()).record(d.last()));
    }
}

proof fn lemma_frozen_deltas(t: u64, nows: Seq<Option<u64>>)
    requires
        forall|i: int| 0 <= i < nows.len() ==> nows[i] == Some(t),
    ensures
        forall|i: int| 0 <= i < nows.len() ==> reading_deltas(t, nows)[i] == 0,
        reading_deltas(t, nows).len() == nows.len(),
    decreases nows.len(),
{
    if nows.len() > 0 {
        lemma_frozen_deltas(t, nows.drop_last());
    }
}

/// A timer that never advances never passes the startup test: whatever the
/// collector, the test ends in an error.
pub proof fn lemma_frozen_timer_never_starts(m: CollectorModel, t: u64, nows: Seq<Option<u64>>)
    requires
        startup_consumes(m, Some(t), nows),
        forall|i: int| 0 <= i < nows.len() ==> nows[i] == Some(t),
    ensures
        startup_outcome(startup_run(m, Some(t), nows)) is Err,
{
    let st = startup_run(m, Some(t), nows);
    if st.err is None {
        if nows.len() > POWERUP_TESTS {
            lemma_startup_prefix_stops(m, t, nows);
        }
        lemma_startup_stats_are_delta_stats(m, t, nows);
        lemma_frozen_deltas(t, nows);
        lemma_frozen_timer_rejected(reading_deltas(t, nows));
    }
}

proof fn lemma_startup_prefix_stops(m: CollectorModel, t: u64, nows: Seq<Option<u64>>)
    requires
        startup_consumes(m, Some(t), nows),
        startup_run(m, Some(t), nows).err is None,
    ensures
        nows.len() <= POWERUP_TESTS,
    decreases nows.len(),
{
    reveal_with_fuel(startup_run, 1);
    reveal(startup_step);
    if nows.len() > POWERUP_TESTS {
        let prev = startup_run(m, Some(t), nows.drop_last());
        assert(!startup_done(prev));
        assert(prev.err is None);
        lemma_startup_steps_bounded(m, t, nows.drop_last());
        assert(false);
    }
}

proof fn lemma_startup_steps_bounded(m: CollectorModel, t: u64, nows: Seq<Option<u64>>)
    requires
        startup_run(m, Some(t), nows).err is None,
    ensures
        startup_run(m, Some(t), nows).steps >= if nows.len() <= POWERUP_TESTS {
            nows.len()
        } else {
            POWERUP_TESTS as nat
        },
    decreases nows.len(),
{
    reveal_with_fuel(startup_run, 1);
    reveal(startup_step);
    if nows.len() > 0 {
        let prev = startup_run(m, Some(t), nows.drop_last());
        assert(prev.err is None);
        lemma_startup_steps_bounded(m, t, nows.drop_last());
    }
}

proof fn lemma_mix_rounds_config(m: CollectorModel, s: u64, n: nat)
    ensures
        mix_rounds(m, s, n).0.osr == m.osr,
        mix_rounds(m, s, n).0.flags == m.flags,
    decreases n,
{
    reveal_with_fuel(mix_rounds, 1);
    if n > 0 {
        lemma_mix_rounds_config(m, s, (n - 1) as nat);
    }
}

/// Domain separation: every block's conditioner absorbs the block header
/// (the domain tag, the oversampling rate and the flags word) before any
/// sample, and every sample adds its 8 bytes (times the hash-loop count,
/// with the memory trace) behind it.
pub proof fn lemma_block_absorbs_header_first(m: CollectorModel, rs: Seq<Readings>)
    ensures
        block_run(m, rs).absorbed.len() >= block_header(m.osr, m.flags).len(),
        block_run(m, rs).absorbed.take(block_header(m.osr, m.flags).len() as int) == block_header(
            m.osr,
            m.flags,
        ),
        block_run(m, rs).model.osr == m.osr,
        block_run(m, rs).model.flags == m.flags,
    decreases rs.len(),
{
    reveal_with_fuel(block_run, 1);
    reveal(block_step);
    let h = block_header(m.osr, m.flags);
    if rs.len() == 0 {
        assert(h.take(h.len() as int) =~= h);
    } else {
        lemma_block_absorbs_header_first(m, rs.drop_last());
        let prev = block_run(m, rs.drop_last());
        if !block_done(prev) {
            lemma_sample_step_config(prev.model, rs.last());
            let (m1, smp) = sample_step(prev.model, rs.last());
            if let Ok(v) = smp {
                lemma_mix_rounds_config(m1, v, m1.flags.spec_hash_loop_count() as nat);
                let bytes = mix_rounds(m1, v, m1.flags.spec_hash_loop_count() as nat).1;
                assert((prev.absorbed + bytes).take(h.len() as int) =~= prev.absorbed.take(
                    h.len() as int,
                ));
            }
        }
    }
}

proof fn lemma_startup_keeps_config(m: CollectorModel, first: Option<u64>, nows: Seq<Option<u64>>)
    ensures
        startup_run(m, first, nows).model.permanent_failure == m.permanent_failure,
        startup_run(m, first, nows).model.flags == m.flags,
        startup_run(m, first, nows).model.osr == m.osr,
        startup_run(m, first, nows).model.memory == m.memory,
    decreases nows.len(),
{
    reveal_with_fuel(startup_run, 1);
    reveal(startup_step);
    if nows.len() > 0 {
        lemma_startup_keeps_config(m, first, nows.drop_last());
    }
}

proof fn lemma_preshape_keeps_config(m: CollectorModel, rs: Seq<Readings>)
    requires
        m.flags.spec_contains(Flags(Flags::NTG1)),
    ensures
        preshape_run(m, rs).model.flags == m.flags,
        preshape_run(m, rs).model.osr == m.osr,
        preshape_run(m, rs).model.memory == m.memory,
        preshape_run(m, rs).err is None ==> preshape_run(m, rs).model.permanent_failure
            == m.permanent_failure,
    decreases rs.len(),
{
    reveal_with_fuel(preshape_run, 1);
    reveal(sample_step);
    reveal(sample_finish);
    if rs.len() > 0 {
        lemma_preshape_keeps_config(m, rs.drop_last());
    }
}

/// The memory size that a new collector reports: the size of its memory
/// noise source, 0 where memory access is disabled.
pub open spec fn initial_memory_len(flags: Flags, memory_size: Option<usize>) -> nat {
    match initial_memory(flags, memory_size) {
        Ok(Some(mem)) => mem.buf.len(),
        _ => 0,
    }
}

/// Every collector that is handed out has the configuration it was asked
/// for (so its status reports the oversampling rate, the flags and the
/// memory size it was created with) and no permanent failure recorded: a
/// permanent failure during the NTG.1 pre-shaping refuses the collector.
pub proof fn lemma_new_collector_is_clean(
    osr: u32,
    flags: Flags,
    memory_size: Option<usize>,
    calls: Seq<Option<u64>>,
    m: CollectorModel,
)
    requires
        init_result(osr, flags, memory_size, Ok(m), calls),
    ensures
        m.permanent_failure == 0,
        m.flags == flags,
        m.osr == effective_osr(osr),
        (match m.memory {
            Some(mem) => mem.buf.len(),
            None => 0,
        }) == initial_memory_len(flags, memory_size),
{
    reveal(init_outcome);
    let rd = choose|rd: InitReadings|
        {
            &&& init_consumes(osr, flags, memory_size, rd)
            &&& init_calls(osr, flags, memory_size, rd) == calls
            &&& #[trigger] init_outcome(osr, flags, memory_size, rd) == Ok::<CollectorModel, InitError>(m)
        };
    let m0 = initial_model(osr, flags, initial_memory(flags, memory_size)->Ok_0, rd.first->Some_0);
    lemma_startup_keeps_config(m0, rd.startup_first, rd.startup);
    let st = startup_run(m0, rd.startup_first, rd.startup);
    if let Ok(m1) = startup_outcome(st) {
        if flags.spec_contains(Flags(Flags::NTG1)) {
            lemma_preshape_keeps_config(m1, rd.preshape);
            let p = preshape_run(m1, rd.preshape);
            if let Some(mem) = p.model.memory {
                let mem0 = initial_memory(flags, memory_size)->Ok_0->Some_0;
                lemma_mask_in_range(0, mem0.buf.len() as usize);
                lemma_disturb_records(mem, p.acc, NTG1_PRESEED_SAMPLES as nat);
            }
        }
    }
}


/// A collector that has recorded a permanent failure reports it as the
/// permanent failure of the RCT, APT or lag test: `fill_bytes` and
/// `read_entropy` then answer every call with that error and leave the
/// collector as it is.
pub proof fn lemma_sticky_failure_error(m: CollectorModel)
    requires
        m.wf(),
        m.permanent_failure != 0,
    ensures
        failure_error(m.permanent_failure) == ReadError::RctPermanent || failure_error(
            m.permanent_failure,
        ) == ReadError::AptPermanent || failure_error(m.permanent_failure)
            == ReadError::LagPermanent,
{
    let p = m.permanent_failure;
    assert(p & 0x7_0000 != 0 ==> (p & 0x1_0000 != 0 || p & 0x2_0000 != 0 || p & 0x4_0000 != 0))
        by (bit_vector);
}

proof fn lemma_startup_stats_consistent(m: CollectorModel, first: Option<u64>, nows: Seq<Option<u64>>)
    ensures
        stats_consistent(startup_run(m, first, nows).stats),
        startup_run(m, first, nows).err != Some(InitError::VariationOfVariationMissing),
    decreases nows.len(),
{
    reveal_with_fuel(startup_run, 1);
    reveal(startup_step);
    if nows.len() > 0 {
        let prev = startup_run(m, first, nows.drop_last());
        lemma_startup_stats_consistent(m, first, nows.drop_last());
        if !startup_done(prev) {
            if let Some(t) = nows.last() {
                if t >= prev.prev {
                    lemma_record_consistent(prev.stats, (t - prev.prev) as u64);
                }
            }
        }
    }
}

/// Creating a collector never fails because the variation of variation is
/// missing: wherever the startup test reaches its verdict, the first second
/// difference has counted.
pub proof fn lemma_init_never_variation_of_variation_missing(
    osr: u32,
    flags: Flags,
    memory_size: Option<usize>,
    calls: Seq<Option<u64>>,
    r: Result<CollectorModel, InitError>,
)
    requires
        init_result(osr, flags, memory_size, r, calls),
    ensures
        r != Err::<CollectorModel, InitError>(InitError::VariationOfVariationMissing),
{
    reveal(init_outcome);
    let rd = choose|rd: InitReadings|
        {
            &&& init_consumes(osr, flags, memory_size, rd)
            &&& init_calls(osr, flags, memory_size, rd) == calls
            &&& #[trigger] init_outcome(osr, flags, memory_size, rd) == r
        };
    if !init_config_error(effective_osr(osr), flags) && rd.first is Some && initial_memory(
        flags,
        memory_size,
    ) is Ok {
        let m0 = initial_model(osr, flags, initial_memory(flags, memory_size)->Ok_0, rd.first->Some_0);
        let st = startup_run(m0, rd.startup_first, rd.startup);
        lemma_startup_stats_consistent(m0, rd.startup_first, rd.startup);
        lemma_consistent_verdict(st.stats);
        if let Ok(m1) = startup_outcome(st) {
            lemma_preshape_errors(m1, rd.preshape);
        }
    }
}

proof fn lemma_startup_steps(m: CollectorModel, first: Option<u64>, nows: Seq<Option<u64>>)
    ensures
        !startup_done(startup_run(m, first, nows)) ==> startup_run(m, first, nows).steps
            == nows.len(),
        nows.len() > 0 && startup_done(startup_run(m, first, nows.drop_last())) ==> startup_run(
            m,
            first,
            nows,
        ) == startup_run(m, first, nows.drop_last()),
    decreases nows.len(),
{
    reveal_with_fuel(startup_run, 1);
    reveal(startup_step);
    if nows.len() > 0 {
        lemma_startup_steps(m, first, nows.drop_last());
    }
}

/// A startup test that passes takes its first reading and exactly
/// `POWERUP_TESTS` readings after it.
pub proof fn lemma_passed_startup_reads(m: CollectorModel, first: Option<u64>, nows: Seq<Option<u64>>)
    requires
        startup_consumes(m, first, nows),
        startup_outcome(startup_run(m, first, nows)) is Ok,
    ensures
        first is Some,
        nows.len() == POWERUP_TESTS,
{
    reveal_with_fuel(startup_run, 1);
    reveal(startup_step);
    if nows.len() == 0 {
        assert(startup_run(m, first, nows) == startup_begin(m, first));
    } else {
        lemma_startup_steps(m, first, nows.drop_last());
        let prev = startup_run(m, first, nows.drop_last());
        assert(first is Some) by {
            if first is None {
                lemma_startup_first_missing(m, nows.drop_last());
            }
        }
    }
}

proof fn lemma_startup_first_missing(m: CollectorModel, nows: Seq<Option<u64>>)
    ensures
        startup_run(m, None, nows).err == Some(InitError::TimerUnavailable),
    decreases nows.len(),
{
    reveal_with_fuel(startup_run, 1);
    reveal(startup_step);
    if nows.len() > 0 {
        lemma_startup_first_missing(m, nows.drop_last());
    }
}

/// All the readings of `blocks`, block after block.
pub open spec fn readings_of(blocks: Seq<Seq<Readings>>) -> Seq<Readings>
    decreases blocks.len(),
{
    if blocks.len() == 0 {
        Seq::empty()
    } else {
        readings_of(blocks.drop_last()) + blocks.last()
    }
}

proof fn lemma_readings_prefix(blocks: Seq<Seq<Readings>>, j: int)
    requires
        0 <= j <= blocks.len(),
    ensures
        readings_of(blocks.take(j)).len() <= readings_of(blocks).len(),
        readings_of(blocks).take(readings_of(blocks.take(j)).len() as int) == readings_of(
            blocks.take(j),
        ),
        j < blocks.len() ==> readings_of(blocks.take(j + 1)) == readings_of(blocks.take(j))
            + blocks[j],
    decreases blocks.len(),
{
    if j == blocks.len() {
        assert(blocks.take(j) =~= blocks);
        assert(readings_of(blocks).take(readings_of(blocks).len() as int) =~= readings_of(blocks));
    } else {
        let p = blocks.drop_last();
        lemma_readings_prefix(p, j);
        assert(p.take(j) =~= blocks.take(j));
        let a = readings_of(p);
        let b = readings_of(blocks.take(j));
        assert((a + blocks.last()).take(b.len() as int) =~= a.take(b.len() as int));
        assert(blocks.take(j + 1).drop_last() =~= blocks.take(j));
        if j + 1 < blocks.len() {
            assert(p.take(j + 1) =~= blocks.take(j + 1));
        } else {
            assert(blocks.take(j + 1) =~= blocks);
        }
    }
}

proof fn lemma_block_done_stays(m: CollectorModel, rs: Seq<Readings>, k: int)
    requires
        0 <= k <= rs.len(),
        block_done(block_run(m, rs.take(k))),
    ensures
        block_run(m, rs) == block_run(m, rs.take(k)),
    decreases rs.len(),
{
    if k == rs.len() {
        assert(rs.take(k) =~= rs);
    } else {
        assert(rs.drop_last().take(k) =~= rs.take(k));
        lemma_block_done_stays(m, rs.drop_last(), k);
        reveal_with_fuel(block_run, 1);
        reveal(block_step);
    }
}

proof fn lemma_block_consumes_unique(m: CollectorModel, x: Seq<Readings>, y: Seq<Readings>)
    requires
        block_consumes(m, x),
        block_consumes(m, y),
        x.len() <= y.len(),
        y.take(x.len() as int) == x,
    ensures
        x == y,
{
    if x.len() < y.len() {
        assert(y.drop_last().take(x.len() as int) =~= x);
        lemma_block_done_stays(m, y.drop_last(), x.len() as int);
    } else {
        assert(y.take(x.len() as int) =~= y);
    }
}

proof fn lemma_fill_done_stays(m: CollectorModel, len: nat, bs: Seq<Seq<Readings>>, k: int)
    requires
        0 <= k <= bs.len(),
        fill_done(fill_run(m, len, bs.take(k)), len),
    ensures
        fill_run(m, len, bs) == fill_run(m, len, bs.take(k)),
    decreases bs.len(),
{
    if k == bs.len() {
        assert(bs.take(k) =~= bs);
    } else {
        assert(bs.drop_last().take(k) =~= bs.take(k));
        lemma_fill_done_stays(m, len, bs.drop_last(), k);
        reveal_with_fuel(fill_run, 1);
        reveal(fill_step);
    }
}

proof fn lemma_blocks_consumed_each(m: CollectorModel, len: nat, bs: Seq<Seq<Readings>>, k: int)
    requires
        blocks_consumed(m, len, bs),
        0 <= k < bs.len(),
    ensures
        block_consumes(fill_run(m, len, bs.take(k)).model, bs[k]),
    decreases bs.len(),
{
    if k == bs.len() - 1 {
        assert(bs.take(k) =~= bs.drop_last());
    } else {
        assert(bs.drop_last().take(k) =~= bs.take(k));
        lemma_blocks_consumed_each(m, len, bs.drop_last(), k);
    }
}

/// The readings `a` and `b` agree as far as both go.
pub open spec fn agree(a: Seq<Readings>, b: Seq<Readings>) -> bool {
    forall|i: int| 0 <= i < a.len() && i < b.len() ==> #[trigger] a[i] == b[i]
}

proof fn lemma_same_block(
    m: CollectorModel,
    len: nat,
    b1: Seq<Seq<Readings>>,
    b2: Seq<Seq<Readings>>,
    k: int,
)
    requires
        blocks_consumed(m, len, b1),
        blocks_consumed(m, len, b2),
        agree(readings_of(b1), readings_of(b2)),
        0 <= k < b1.len(),
        k < b2.len(),
        b1.take(k) == b2.take(k),
    ensures
        b1[k] == b2[k],
{
    lemma_blocks_consumed_each(m, len, b1, k);
    lemma_blocks_consumed_each(m, len, b2, k);
    lemma_readings_prefix(b1, k);
    lemma_readings_prefix(b2, k);
    lemma_readings_prefix(b1, k + 1);
    lemma_readings_prefix(b2, k + 1);
    let s = fill_run(m, len, b1.take(k)).model;
    let p = readings_of(b1.take(k));
    let r1 = readings_of(b1);
    let r2 = readings_of(b2);
    let x = b1[k];
    let y = b2[k];
    let q1 = p + x;
    let q2 = p + y;
    assert(r1.take(q1.len() as int) == q1);
    assert(r2.take(q2.len() as int) == q2);
    if x.len() <= y.len() {
        assert forall|i: int| 0 <= i < x.len() implies #[trigger] y.take(x.len() as int)[i] == x[i] by {
            assert(q1[p.len() + i] == r1[p.len() + i]);
            assert(q2[p.len() + i] == r2[p.len() + i]);
        }
        assert(y.take(x.len() as int) =~= x);
        lemma_block_consumes_unique(s, x, y);
    } else {
        assert forall|i: int| 0 <= i < y.len() implies #[trigger] x.take(y.len() as int)[i] == y[i] by {
            assert(q1[p.len() + i] == r1[p.len() + i]);
            assert(q2[p.len() + i] == r2[p.len() + i]);
        }
        assert(x.take(y.len() as int) =~= y);
        lemma_block_consumes_unique(s, y, x);
    }
}

proof fn lemma_same_blocks_upto(
    m: CollectorModel,
    len: nat,
    b1: Seq<Seq<Readings>>,
    b2: Seq<Seq<Readings>>,
    k: int,
)
    requires
        blocks_consumed(m, len, b1),
        blocks_consumed(m, len, b2),
        agree(readings_of(b1), readings_of(b2)),
        0 <= k <= b1.len(),
        k <= b2.len(),
    ensures
        b1.take(k) == b2.take(k),
    decreases k,
{
    if k == 0 {
        assert(b1.take(0) =~= b2.take(0));
    } else {
        lemma_same_blocks_upto(m, len, b1, b2, k - 1);
        lemma_same_block(m, len, b1, b2, k - 1);
        assert(b1.take(k) =~= b1.take(k - 1).push(b1[k - 1]));
        assert(b2.take(k) =~= b2.take(k - 1).push(b2[k - 1]));
    }
}

/// A read's outcome is fixed by the state it starts from and the readings
/// the timer gives: two reads of `len` bytes from the same state, over
/// readings that agree as far as both go, take the same blocks of readings,
/// and so end in the same state with the same output and the same result.
pub proof fn lemma_read_determined(m: CollectorModel, len: nat, b1: Seq<Seq<Readings>>, b2: Seq<Seq<Readings>>)
    requires
        fill_consumes(m, len, b1),
        fill_consumes(m, len, b2),
        agree(readings_of(b1), readings_of(b2)),
    ensures
        b1 == b2,
        fill_run(m, len, b1) == fill_run(m, len, b2),
{
    if b1.len() <= b2.len() {
        lemma_same_blocks_upto(m, len, b1, b2, b1.len() as int);
        assert(b1.take(b1.len() as int) =~= b1);
        if b1.len() < b2.len() {
            assert(b2.drop_last().take(b1.len() as int) =~= b1);
            lemma_fill_done_stays(m, len, b2.drop_last(), b1.len() as int);
        } else {
            assert(b2.take(b2.len() as int) =~= b2);
        }
    } else {
        lemma_same_blocks_upto(m, len, b1, b2, b2.len() as int);
        assert(b2.take(b2.len() as int) =~= b2);
        assert(b1.drop_last().take(b2.len() as int) =~= b2);
        lemma_fill_done_stays(m, len, b1.drop_last(), b2.len() as int);
    }
}

proof fn lemma_startup_readings_some(m: CollectorModel, first: Option<u64>, nows: Seq<Option<u64>>)
    requires
        nows.len() == 0 || !startup_done(startup_run(m, first, nows.drop_last())),
        startup_run(m, first, nows).err is None,
    ensures
        first is Some,
        forall|i: int| 0 <= i < nows.len() ==> #[trigger] nows[i] is Some,
    decreases nows.len(),
{
    reveal_with_fuel(startup_run, 1);
    reveal(startup_step);
    if nows.len() == 0 {
        if first is None {
            assert(startup_run(m, first, nows) == startup_begin(m, first));
        }
    } else {
        let dl = nows.drop_last();
        if dl.len() > 0 && startup_done(startup_run(m, first, dl.drop_last())) {
            lemma_startup_steps(m, first, dl);
        }
        lemma_startup_readings_some(m, first, dl);
        assert forall|i: int| 0 <= i < nows.len() implies #[trigger] nows[i] is Some by {
            if i < dl.len() {
                assert(nows[i] == dl[i]);
            }
        }
    }
}

proof fn lemma_preshape_progress(m: CollectorModel, rs: Seq<Readings>)
    requires
        rs.len() == 0 || !preshape_done(preshape_run(m, rs.drop_last())),
        preshape_run(m, rs).err is None,
    ensures
        preshape_run(m, rs).samples == rs.len(),
        forall|i: int| 0 <= i < rs.len() ==> (#[trigger] rs[i]).0 is Some && rs[i].1 is Some,
        preshape_consumes(m, rs) ==> rs.len() == NTG1_PRESEED_SAMPLES,
    decreases rs.len(),
{
    reveal_with_fuel(preshape_run, 1);
    reveal(sample_step);
    if rs.len() > 0 {
        let dl = rs.drop_last();
        if dl.len() > 0 && preshape_done(preshape_run(m, dl.drop_last())) {
            lemma_preshape_run_push(m, dl.drop_last(), dl.last());
            assert(dl.drop_last().push(dl.last()) =~= dl);
        }
        lemma_preshape_progress(m, dl);
        assert forall|i: int| 0 <= i < rs.len() implies (#[trigger] rs[i]).0 is Some && rs[i].1 is Some by {
            if i < dl.len() {
                assert(rs[i] == dl[i]);
            }
        }
    }
}

proof fn lemma_samples_calls_full(rs: Seq<Readings>)
    requires
        forall|i: int| 0 <= i < rs.len() ==> (#[trigger] rs[i]).0 is Some && rs[i].1 is Some,
    ensures
        samples_calls(rs).len() == 2 * rs.len(),
        all_some(samples_calls(rs)),
    decreases rs.len(),
{
    if rs.len() > 0 {
        let dl = rs.drop_last();
        assert forall|i: int| 0 <= i < dl.len() implies (#[trigger] dl[i]).0 is Some && dl[i].1 is Some by {
            assert(dl[i] == rs[i]);
        }
        lemma_samples_calls_full(dl);
        let a = samples_calls(dl);
        let b = sample_calls(rs.last());
        assert(rs.last() == rs[rs.len() - 1]);
        assert forall|i: int| 0 <= i < (a + b).len() implies #[trigger] (a + b)[i] is Some by {
            if i < a.len() {
                assert(a[i] is Some);
            }
        }
    }
}

proof fn lemma_init_ok_shape(
    osr: u32,
    flags: Flags,
    memory_size: Option<usize>,
    rd: InitReadings,
    m: CollectorModel,
)
    requires
        init_consumes(osr, flags, memory_size, rd),
        init_outcome(osr, flags, memory_size, rd) == Ok::<CollectorModel, InitError>(m),
    ensures
        !init_config_error(effective_osr(osr), flags),
        rd.first is Some,
        initial_memory(flags, memory_size) is Ok,
        ({
            let m0 = initial_model(osr, flags, initial_memory(flags, memory_size)->Ok_0, rd.first->Some_0);
            let st = startup_run(m0, rd.startup_first, rd.startup);
            &&& startup_consumes(m0, rd.startup_first, rd.startup)
            &&& startup_outcome(st) is Ok
            &&& flags.spec_contains(Flags(Flags::NTG1)) ==> preshape_consumes(
                startup_outcome(st)->Ok_0,
                rd.preshape,
            ) && preshape_run(startup_outcome(st)->Ok_0, rd.preshape).err is None
            &&& !flags.spec_contains(Flags(Flags::NTG1)) ==> rd.preshape.len() == 0
        }),
{
    reveal(init_outcome);
    reveal(init_consumes);
}

/// A collector that is handed out took exactly its first reading, the
/// startup test's 1025 and, with the NTG.1 flag, two for each of the
/// pre-shaping's 240 samples, and every one of them was a timestamp.
pub proof fn lemma_created_calls(
    osr: u32,
    flags: Flags,
    memory_size: Option<usize>,
    calls: Seq<Option<u64>>,
    m: CollectorModel,
)
    requires
        init_result(osr, flags, memory_size, Ok(m), calls),
    ensures
        calls.len() == 2 + POWERUP_TESTS + if flags.spec_contains(Flags(Flags::NTG1)) {
            2 * NTG1_PRESEED_SAMPLES
        } else {
            0
        },
        all_some(calls),
{
    let rd = choose|rd: InitReadings|
        {
            &&& init_consumes(osr, flags, memory_size, rd)
            &&& init_calls(osr, flags, memory_size, rd) == calls
            &&& #[trigger] init_outcome(osr, flags, memory_size, rd) == Ok::<CollectorModel, InitError>(m)
        };
    lemma_init_ok_shape(osr, flags, memory_size, rd, m);
    let m0 = initial_model(osr, flags, initial_memory(flags, memory_size)->Ok_0, rd.first->Some_0);
    let st = startup_run(m0, rd.startup_first, rd.startup);
    lemma_passed_startup_reads(m0, rd.startup_first, rd.startup);
    lemma_startup_readings_some(m0, rd.startup_first, rd.startup);
    let m1 = startup_outcome(st)->Ok_0;
    if flags.spec_contains(Flags(Flags::NTG1)) {
        lemma_preshape_progress(m1, rd.preshape);
    }
    lemma_samples_calls_full(rd.preshape);
    let c = seq![rd.first, rd.startup_first] + rd.startup + samples_calls(rd.preshape);
    assert(calls == c);
    assert forall|i: int| 0 <= i < c.len() implies #[trigger] c[i] is Some by {
        if i >= 2 && i < 2 + rd.startup.len() {
            assert(c[i] == rd.startup[i - 2]);
        } else if i >= 2 + rd.startup.len() {
            assert(c[i] == samples_calls(rd.preshape)[i - 2 - rd.startup.len()]);
        }
    }
}

proof fn lemma_startup_done_stays(m: CollectorModel, first: Option<u64>, nows: Seq<Option<u64>>, k: int)
    requires
        0 <= k <= nows.len(),
        startup_done(startup_run(m, first, nows.take(k))),
    ensures
        startup_run(m, first, nows) == startup_run(m, first, nows.take(k)),
    decreases nows.len(),
{
    if k == nows.len() {
        assert(nows.take(k) =~= nows);
    } else {
        assert(nows.drop_last().take(k) =~= nows.take(k));
        lemma_startup_done_stays(m, first, nows.drop_last(), k);
        reveal_with_fuel(startup_run, 1);
        reveal(startup_step);
    }
}

proof fn lemma_startup_consumes_unique(
    m: CollectorModel,
    first: Option<u64>,
    x: Seq<Option<u64>>,
    y: Seq<Option<u64>>,
)
    requires
        startup_consumes(m, first, x),
        startup_consumes(m, first, y),
        x.len() <= y.len(),
        y.take(x.len() as int) == x,
    ensures
        x == y,
{
    if x.len() < y.len() {
        assert(y.drop_last().take(x.len() as int) =~= x);
        lemma_startup_done_stays(m, first, y.drop_last(), x.len() as int);
    } else {
        assert(y.take(x.len() as int) =~= y);
    }
}

proof fn lemma_full_calls(q: Seq<Readings>)
    requires
        forall|i: int| 0 <= i < q.len() ==> (#[trigger] q[i]).0 is Some && q[i].1 is Some,
    ensures
        samples_calls(q).len() == 2 * q.len(),
        forall|i: int|
            0 <= i < q.len() ==> samples_calls(q)[2 * i] == (#[trigger] q[i]).0 && samples_calls(
                q,
            )[2 * i + 1] == q[i].1,
    decreases q.len(),
{
    if q.len() > 0 {
        let dl = q.drop_last();
        assert forall|i: int| 0 <= i < dl.len() implies (#[trigger] dl[i]).0 is Some && dl[i].1 is Some by {
            assert(dl[i] == q[i]);
        }
        lemma_full_calls(dl);
        assert(q.last() == q[q.len() - 1]);
        assert forall|i: int| 0 <= i < q.len() implies samples_calls(q)[2 * i] == (
        #[trigger] q[i]).0 && samples_calls(q)[2 * i + 1] == q[i].1 by {
            if i < dl.len() {
                assert(q[i] == dl[i]);
            }
        }
    }
}

proof fn lemma_preshape_prefix_full(m: CollectorModel, p: Seq<Readings>)
    requires
        preshape_consumes(m, p),
    ensures
        p.len() > 0,
        forall|i: int| 0 <= i < p.len() - 1 ==> (#[trigger] p[i]).0 is Some && p[i].1 is Some,
{
    reveal_with_fuel(preshape_run, 1);
    let dl = p.drop_last();
    if dl.len() > 0 && preshape_done(preshape_run(m, dl.drop_last())) {
        lemma_preshape_run_push(m, dl.drop_last(), dl.last());
        assert(dl.drop_last().push(dl.last()) =~= dl);
    }
    lemma_preshape_progress(m, dl);
    assert forall|i: int| 0 <= i < p.len() - 1 implies (#[trigger] p[i]).0 is Some && p[i].1 is Some by {
        assert(p[i] == dl[i]);
    }
}

proof fn lemma_calls_split(
    d1: Seq<Readings>,
    l1: Readings,
    d2: Seq<Readings>,
    l2: Readings,
)
    requires
        forall|i: int| 0 <= i < d1.len() ==> (#[trigger] d1[i]).0 is Some && d1[i].1 is Some,
        forall|i: int| 0 <= i < d2.len() ==> (#[trigger] d2[i]).0 is Some && d2[i].1 is Some,
        samples_calls(d1) + sample_calls(l1) == samples_calls(d2) + sample_calls(l2),
    ensures
        d1 == d2,
        l1.0 == l2.0,
        l1.0 is Some ==> l1.1 == l2.1,
{
    lemma_full_calls(d1);
    lemma_full_calls(d2);
    let s = samples_calls(d1) + sample_calls(l1);
    let n1 = sample_calls(l1).len();
    let n2 = sample_calls(l2).len();
    assert(n1 == 1 || n1 == 2);
    assert(n2 == 1 || n2 == 2);
    assert(s.len() == 2 * d1.len() + n1);
    assert(s.len() == 2 * d2.len() + n2);
    assert(d1.len() == d2.len() && n1 == n2) by {
        if d1.len() < d2.len() {
            let j = d1.len() as int;
            assert(s[2 * j] == d2[j].0);
            assert(s[2 * j] == sample_calls(l1)[0]);
        } else if d2.len() < d1.len() {
            let j = d2.len() as int;
            assert(s[2 * j] == d1[j].0);
            assert(s[2 * j] == sample_calls(l2)[0]);
        }
    }
    let k = d1.len() as int;
    assert forall|i: int| 0 <= i < k implies d1[i] == d2[i] by {
        assert(s[2 * i] == d1[i].0 && s[2 * i] == d2[i].0);
        assert(s[2 * i + 1] == d1[i].1 && s[2 * i + 1] == d2[i].1);
    }
    assert(d1 =~= d2);
    assert(s[2 * k] == sample_calls(l1)[0] && s[2 * k] == sample_calls(l2)[0]);
    if l1.0 is Some {
        assert(s[2 * k + 1] == sample_calls(l1)[1] && s[2 * k + 1] == sample_calls(l2)[1]);
    }
}

proof fn lemma_preshape_step_same(p: PreshapeState, l1: Readings, l2: Readings)
    requires
        l1.0 == l2.0,
        l1.0 is Some ==> l1.1 == l2.1,
    ensures
        preshape_step(p, l1) == preshape_step(p, l2),
{
    reveal(sample_step);
    if l1.0 is Some {
        assert(l1 == l2);
    }
}

proof fn lemma_preshape_same(m: CollectorModel, p1: Seq<Readings>, p2: Seq<Readings>)
    requires
        preshape_consumes(m, p1),
        preshape_consumes(m, p2),
        samples_calls(p1) == samples_calls(p2),
    ensures
        preshape_run(m, p1) == preshape_run(m, p2),
{
    lemma_preshape_prefix_full(m, p1);
    lemma_preshape_prefix_full(m, p2);
    let d1 = p1.drop_last();
    let d2 = p2.drop_last();
    assert forall|i: int| 0 <= i < d1.len() implies (#[trigger] d1[i]).0 is Some && d1[i].1 is Some by {
        assert(d1[i] == p1[i]);
    }
    assert forall|i: int| 0 <= i < d2.len() implies (#[trigger] d2[i]).0 is Some && d2[i].1 is Some by {
        assert(d2[i] == p2[i]);
    }
    lemma_calls_split(d1, p1.last(), d2, p2.last());
    assert(p1 =~= d1.push(p1.last()));
    assert(p2 =~= d2.push(p2.last()));
    lemma_preshape_run_push(m, d1, p1.last());
    lemma_preshape_run_push(m, d1, p2.last());
    lemma_preshape_step_same(preshape_run(m, d1), p1.last(), p2.last());
}

proof fn lemma_init_consumes_stages(osr: u32, flags: Flags, memory_size: Option<usize>, rd: InitReadings)
    requires
        init_consumes(osr, flags, memory_size, rd),
        !init_config_error(effective_osr(osr), flags),
        rd.first is Some,
        initial_memory(flags, memory_size) is Ok,
    ensures
        ({
            let m0 = initial_model(osr, flags, initial_memory(flags, memory_size)->Ok_0, rd.first->Some_0);
            let st = startup_run(m0, rd.startup_first, rd.startup);
            &&& startup_consumes(m0, rd.startup_first, rd.startup)
            &&& startup_outcome(st) is Ok && flags.spec_contains(Flags(Flags::NTG1))
                ==> preshape_consumes(startup_outcome(st)->Ok_0, rd.preshape)
            &&& !(startup_outcome(st) is Ok && flags.spec_contains(Flags(Flags::NTG1)))
                ==> rd.preshape.len() == 0
        }),
{
    reveal(init_consumes);
}

proof fn lemma_init_outcome_congruent(
    osr: u32,
    flags: Flags,
    memory_size: Option<usize>,
    rd1: InitReadings,
    rd2: InitReadings,
)
    requires
        rd1.first == rd2.first,
        rd1.startup_first == rd2.startup_first,
        rd1.startup == rd2.startup,
        ({
            let m0 = initial_model(osr, flags, initial_memory(flags, memory_size)->Ok_0, rd1.first->Some_0);
            let st = startup_run(m0, rd1.startup_first, rd1.startup);
            startup_outcome(st) is Ok ==> preshape_run(startup_outcome(st)->Ok_0, rd1.preshape)
                == preshape_run(startup_outcome(st)->Ok_0, rd2.preshape)
        }),
    ensures
        init_outcome(osr, flags, memory_size, rd1) == init_outcome(osr, flags, memory_size, rd2),
{
    reveal(init_outcome);
}

/// Creating a collector is determined by its settings and by what the
/// timer's calls return: two creations with the same settings whose timer
/// calls returned the same values end with the same outcome (the same
/// collector, or the same error).
pub proof fn lemma_init_determined(
    osr: u32,
    flags: Flags,
    memory_size: Option<usize>,
    calls: Seq<Option<u64>>,
    r1: Result<CollectorModel, InitError>,
    r2: Result<CollectorModel, InitError>,
)
    requires
        init_result(osr, flags, memory_size, r1, calls),
        init_result(osr, flags, memory_size, r2, calls),
    ensures
        r1 == r2,
{
    let rd1 = choose|rd: InitReadings|
        {
            &&& init_consumes(osr, flags, memory_size, rd)
            &&& init_calls(osr, flags, memory_size, rd) == calls
            &&& #[trigger] init_outcome(osr, flags, memory_size, rd) == r1
        };
    let rd2 = choose|rd: InitReadings|
        {
            &&& init_consumes(osr, flags, memory_size, rd)
            &&& init_calls(osr, flags, memory_size, rd) == calls
            &&& #[trigger] init_outcome(osr, flags, memory_size, rd) == r2
        };
    if init_config_error(effective_osr(osr), flags) {
        reveal(init_outcome);
    } else {
        assert(calls[0] == rd1.first && calls[0] == rd2.first);
        if rd1.first is None || initial_memory(flags, memory_size) is Err {
            reveal(init_outcome);
        } else {
            assert(calls[1] == rd1.startup_first && calls[1] == rd2.startup_first);
            lemma_init_consumes_stages(osr, flags, memory_size, rd1);
            lemma_init_consumes_stages(osr, flags, memory_size, rd2);
            let m0 = initial_model(osr, flags, initial_memory(flags, memory_size)->Ok_0, rd1.first->Some_0);
            let sf = rd1.startup_first;
            let x = rd1.startup;
            let y = rd2.startup;
            let rest = calls.skip(2);
            assert(rest =~= x + samples_calls(rd1.preshape));
            assert(rest =~= y + samples_calls(rd2.preshape));
            if x.len() <= y.len() {
                assert(y.take(x.len() as int) =~= x) by {
                    assert forall|i: int| 0 <= i < x.len() implies y[i] == x[i] by {
                        assert(rest[i] == x[i] && rest[i] == y[i]);
                    }
                }
                lemma_startup_consumes_unique(m0, sf, x, y);
            } else {
                assert(x.take(y.len() as int) =~= y) by {
                    assert forall|i: int| 0 <= i < y.len() implies x[i] == y[i] by {
                        assert(rest[i] == x[i] && rest[i] == y[i]);
                    }
                }
                lemma_startup_consumes_unique(m0, sf, y, x);
            }
            assert(samples_calls(rd1.preshape) =~= rest.skip(x.len() as int));
            assert(samples_calls(rd2.preshape) =~= rest.skip(x.len() as int));
            let st = startup_run(m0, sf, x);
            if startup_outcome(st) is Ok && flags.spec_contains(Flags(Flags::NTG1)) {
                lemma_preshape_same(startup_outcome(st)->Ok_0, rd1.preshape, rd2.preshape);
            } else {
                assert(rd1.preshape =~= rd2.preshape);
            }
            lemma_init_outcome_congruent(osr, flags, memory_size, rd1, rd2);
        }
    }
}

proof fn lemma_pow2_at_least_bounds(v: nat, p: nat)
    requires
        1 <= p <= v,
    ensures
        v <= pow2_at_least(v, p) < 2 * v,
    decreases v - p,
{
    if p < v {
        if 2 * p <= v {
            lemma_pow2_at_least_bounds(v, 2 * p);
        } else {
            assert(pow2_at_least(v, 2 * p) == 2 * p);
        }
    }
}

/// The memory size for a limit of `kib` KiB is the limit in bytes rounded
/// up to a power of two, within 4 KiB ..= 64 MiB: for a limit inside that
/// range it is at least the limit and less than twice it; below it is
/// 4 KiB, above it 64 MiB.
pub proof fn lemma_memory_size_follows_limit(kib: u32)
    ensures
        4096 <= 1024 * kib <= 0x400_0000 ==> 1024 * kib <= memory_size_for_kib(kib) < 2 * (1024
            * kib),
        1024 * kib < 4096 ==> memory_size_for_kib(kib) == 4096,
        1024 * kib > 0x400_0000 ==> memory_size_for_kib(kib) == 0x400_0000,
{
    let b = 1024 * kib;
    if 4096 <= b <= 0x400_0000 {
        lemma_pow2_at_least_bounds(b as nat, 1);
    } else if b < 4096 {
        reveal_with_fuel(pow2_at_least, 14);
    } else {
        reveal_with_fuel(pow2_at_least, 28);
    }
}

/// A sample whose health tests raise a permanent failure records it among
/// the collector's permanent failures, whatever the flags (with or without
/// FIPS behaviour); a permanent RCT failure then makes every read fail with
/// `RctPermanent`.
pub proof fn lemma_permanent_failure_recorded(m: CollectorModel, before: u64, after: u64)
    requires
        before <= after,
        fold_sample(before, after, m.last_time) != 0,
        m.health.observe(fold_sample(before, after, m.last_time)).1 & 0xffff_0000 != 0,
    ensures
        ({
            let f = m.health.observe(fold_sample(before, after, m.last_time)).1;
            let p = sample_finish(m, before, after).0.permanent_failure;
            &&& p & f == f
            &&& p & m.permanent_failure == m.permanent_failure
            &&& f & 0x1_0000 != 0 ==> failure_error(p) == ReadError::RctPermanent
        }),
{
    reveal(sample_finish);
    let f = m.health.observe(fold_sample(before, after, m.last_time)).1;
    let q = m.permanent_failure;
    assert(f & 0xffff_0000 != 0 ==> f != 0) by (bit_vector);
    assert((q | f) & f == f && (q | f) & q == q && (f & 0x1_0000 != 0 ==> (q | f) & 0x1_0000
        != 0)) by (bit_vector);
    let m2 = CollectorModel { last_time: after, ..m };
    assert(m2.health == m.health);
}

/// A sample whose health tests raise no permanent failure leaves the
/// recorded permanent failures as they were; without FIPS behaviour a
/// sample whose readings run forwards and fold to a nonzero value succeeds
/// with that value, whatever its health tests say.
pub proof fn lemma_sample_outside_fips(m: CollectorModel, before: u64, after: u64)
    requires
        before <= after,
        fold_sample(before, after, m.last_time) != 0,
    ensures
        ({
            let f = m.health.observe(fold_sample(before, after, m.last_time)).1;
            let (m2, r) = sample_finish(m, before, after);
            &&& f & 0xffff_0000 == 0 ==> m2.permanent_failure == m.permanent_failure
            &&& !m.fips() ==> r == Ok::<u64, ReadError>(fold_sample(before, after, m.last_time))
            &&& m.fips() && f != 0 ==> r == Err::<u64, ReadError>(failure_error(f))
        }),
{
    reveal(sample_finish);
    let m2 = CollectorModel { last_time: after, ..m };
    assert(m2.health == m.health);
    assert(m2.fips() == m.fips());
}

} // verus!

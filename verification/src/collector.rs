//! The entropy collector: startup test, sampling, conditioning and reads.

use vstd::prelude::*;
use crate::barrier::{black_box, zeroize_block, zeroize_vec};
use crate::bits::{copy_at, rotl64, rotr64, u32_to_le_bytes, u64_to_le_bytes};
use crate::conditioner::{Conditioner, Shake256Conditioner};
use crate::error::{InitError, ReadError};
use crate::flags::{Flags, MemoryLimit};
use crate::health::{lemma_permanent_implies_transient, HealthFailure, HealthState};
use crate::startup::StartupStats;
use crate::memory::MemoryNoise;
use crate::model::{
    blocks_calls, lemma_blocks_calls_push, lemma_samples_calls_push, sample_calls, samples_calls,
    block_consumes, block_done, block_run, block_start, blocks_consumed,
    configured_memory_size_spec, domain_tag, effective_osr, failure_error, fill_consumes,
    fill_done, fill_run, init_config_error, init_result, initial_memory, initial_model, sticky_failures_wf,
    lemma_block_run_empty, lemma_block_run_push, lemma_block_step_sampled, lemma_fill_run_empty,
    lemma_fill_run_push, lemma_fill_step_block, lemma_init_after_startup, lemma_init_refused,
    lemma_init_stopped_early, lemma_mix_rounds_succ, lemma_mix_rounds_zero,
    lemma_preshape_run_empty, lemma_preshape_run_push, lemma_sample_step_config,
    lemma_startup_run_empty, lemma_startup_run_push, lemma_startup_step_open, mix_once,
    mix_rounds, pow2_at_least, preshape_consumes, preshape_done, preshape_outcome, preshape_run,
    sample_finish, sample_step, startup_consumes, startup_done, startup_outcome, startup_run,
    work_after, xorshift_n, BlockState, CollectorModel, DEFAULT_MEMORY_ROUNDS,
    DEFAULT_MEMORY_SIZE, FillState, GOLDEN_GAMMA, MAX_OSR, MIN_OSR, NTG1_PRESEED_SAMPLES,
    POWERUP_TESTS, PreshapeState, Readings, StartupState,
};
use crate::sponge::shake256_output;
use crate::timer::{all_some, lemma_advanced_call, lemma_advanced_none, lemma_advanced_trans, timer_advanced};
use crate::status::Status;
use crate::timer::{CallbackTimer, PlatformTimer, Timer};
use crate::JENT_VERSION;

verus! {

/// The collector, sampling timing jitter from its timer `T`.
pub struct EntropyCollector<T: Timer = PlatformTimer> {
    osr: u32,
    flags: Flags,
    timer: T,
    memory: Option<MemoryNoise>,
    health: HealthState,
    last_time: u64,
    work_state: u64,
    permanent_failure: HealthFailure,
}

impl<T: Timer> View for EntropyCollector<T> {
    type V = CollectorModel;

    closed spec fn view(&self) -> CollectorModel {
        CollectorModel {
            osr: self.osr,
            flags: self.flags,
            memory: match self.memory {
                Some(m) => Some(m@),
                None => None,
            },
            health: self.health@,
            last_time: self.last_time,
            work_state: self.work_state,
            permanent_failure: self.permanent_failure.0,
        }
    }
}

/// The 19 bytes of the block domain tag.
fn domain_tag_bytes() -> (r: [u8; 19])
    ensures
        r@ == domain_tag(),
{
    let r: [u8; 19] = [
        0x6a, 0x69, 0x74, 0x74, 0x65, 0x72, 0x65, 0x6e, 0x74, 0x72, 0x6f, 0x70, 0x79, 0x2d,
        0x72, 0x73, 0x2f, 0x76, 0x31,
    ];
    assert(r@ =~= domain_tag());
    r
}

impl<T: Timer> EntropyCollector<T> {
    pub closed spec fn wf(&self) -> bool {
        self@.wf()
    }

    /// The collector's timer.
    pub closed spec fn timer(&self) -> T {
        self.timer
    }

    /// A well-formed collector has a well-formed model, so the laws stated
    /// over models apply to it.
    pub proof fn lemma_model_wf(&self)
        requires
            self.wf(),
        ensures
            self@.wf(),
    {
    }

    /// One unit of variable work seeded by `seed`.
    fn variable_work(&mut self, seed: u64)
        ensures
            final(self)@ == old(self)@.with_work(work_after(old(self)@.work_state, seed)),
            final(self).timer() == old(self).timer(),
    {
        reveal(work_after);
        let mut x = (seed ^ self.work_state) | 1;
        assert(x & 0x7f <= 0x7f) by (bit_vector);
        let rounds = ((x & 0x7f) as usize) + 64;
        let ghost x0 = x;
        let mut i: usize = 0;
        while i < rounds
            invariant
                x == xorshift_n(x0, i as nat),
                i <= rounds,
                rounds == (x0 & 0x7f) + 64,
            decreases rounds - i,
        {
            x = x ^ (x << 13u64);
            x = x ^ (x >> 7u64);
            x = x ^ (x << 17u64);
            let _ = black_box(x.wrapping_add(i as u64));
            i = i + 1;
        }
        self.work_state = rotl64(self.work_state, 7) ^ x.wrapping_mul(GOLDEN_GAMMA);
    }

    fn fips_enabled(&self) -> (r: bool)
        ensures
            r == self@.fips(),
    {
        self.flags.contains(Flags(Flags::FORCE_FIPS)) || self.flags.contains(Flags(Flags::NTG1))
    }

    fn memory_len(&self) -> (r: usize)
        ensures
            r == match self@.memory {
                Some(m) => m.buf.len(),
                None => 0,
            },
    {
        match &self.memory {
            Some(m) => m.len(),
            None => 0,
        }
    }

    /// The read error for a set of health failures.
    fn map_failure(failure: HealthFailure) -> (r: ReadError)
        ensures
            r == failure_error(failure.0),
    {
        assert(1u32 << 16u32 == 0x1_0000u32 && 2u32 << 16u32 == 0x2_0000u32 && 4u32 << 16u32
            == 0x4_0000u32 && 8u32 << 16u32 == 0x8_0000u32) by (bit_vector);
        if failure.contains(HealthFailure(HealthFailure::RCT).permanent()) {
            return ReadError::RctPermanent;
        }
        if failure.contains(HealthFailure(HealthFailure::APT).permanent()) {
            return ReadError::AptPermanent;
        }
        if failure.contains(HealthFailure(HealthFailure::LAG).permanent()) {
            return ReadError::LagPermanent;
        }
        if failure.contains(HealthFailure(HealthFailure::RCT_MEMORY).permanent()) {
            return ReadError::RctMemoryPermanent;
        }
        if failure.contains(HealthFailure(HealthFailure::RCT)) {
            return ReadError::Rct;
        }
        if failure.contains(HealthFailure(HealthFailure::APT)) {
            return ReadError::Apt;
        }
        if failure.contains(HealthFailure(HealthFailure::LAG)) {
            return ReadError::Lag;
        }
        if failure.contains(HealthFailure(HealthFailure::RCT_MEMORY)) {
            return ReadError::RctMemory;
        }
        ReadError::TimerUnavailable
    }

    /// Takes one folded timing sample and runs the health tests on it.
    fn sample(&mut self) -> (r: (Result<u64, ReadError>, Ghost<Readings>))
        requires
            old(self)@.wf(),
        ensures
            final(self)@.wf(),
            (final(self)@, r.0) == sample_step(old(self)@, r.1@),
            timer_advanced(old(self).timer(), final(self).timer(), sample_calls(r.1@)),
            r.0 is Ok ==> r.1@.0 is Some && r.1@.1 is Some,
    {
        reveal(sample_step);
        let ghost t0 = self.timer;
        let first = self.timer.now();
        proof {
            lemma_advanced_call(t0, self.timer, first);
        }
        let before = match first {
            Some(t) => t,
            None => {
                return (Err(ReadError::TimerUnavailable), Ghost((None, None)));
            },
        };
        let last = self.last_time;
        self.variable_work(before ^ last);
        let ghost t1 = self.timer;
        let second = self.timer.now();
        proof {
            lemma_advanced_call(t1, self.timer, second);
            lemma_advanced_trans(t0, t1, self.timer, seq![first], seq![second]);
            assert(seq![first] + seq![second] =~= sample_calls((first, second)));
        }
        let after = match second {
            Some(t) => t,
            None => {
                return (Err(ReadError::TimerUnavailable), Ghost((Some(before), None)));
            },
        };
        (self.finish_sample(before, after), Ghost((Some(before), Some(after))))
    }

    /// The rest of a sample, given the readings taken before and after its
    /// unit of work.
    pub fn finish_sample(&mut self, before: u64, after: u64) -> (r: Result<u64, ReadError>)
        requires
            old(self).wf(),
        ensures
            final(self).wf(),
            (final(self)@, r) == sample_finish(old(self)@, before, after),
            final(self).timer() == old(self).timer(),
    {
        reveal(sample_finish);
        if after < before {
            return Err(ReadError::TimerUnavailable);
        }
        let delta = after - before;
        let delta_prev = after.wrapping_sub(self.last_time);
        self.last_time = after;
        let folded = delta ^ rotl64(delta_prev, 17) ^ rotr64(after, 9);
        if folded == 0 {
            return Err(ReadError::TimerUnavailable);
        }
        let ghost h0 = self.health@;
        let failure = self.health.observe_delta(folded);
        proof {
            lemma_permanent_implies_transient(h0, folded);
            let (p, f) = (self.permanent_failure.0, failure.0);
            assert(sticky_failures_wf(p) && f & 0xfff8_fff8 == 0 && f & 0xffff_0000 != 0
                ==> sticky_failures_wf(p | f)) by (bit_vector);
        }
        if !failure.is_empty() {
            if failure.bits() & 0xffff_0000 != 0 {
                self.permanent_failure = self.permanent_failure | failure;
            }
            if self.fips_enabled() {
                return Err(Self::map_failure(failure));
            }
        }
        Ok(folded)
    }

    /// One output block: `osr` samples, each fed `hash_loop` times to a fresh
    /// SHAKE256 conditioner together with the memory noise it stirs.
    fn block(&mut self) -> (r: (Result<[u8; 64], ReadError>, Ghost<Seq<Readings>>))
        requires
            old(self)@.wf(),
        ensures
            final(self)@.wf(),
            block_consumes(old(self)@, r.1@),
            final(self)@ == block_run(old(self)@, r.1@).model,
            match r.0 {
                Ok(out) => block_run(old(self)@, r.1@).err is None && out@ == shake256_output(
                    block_run(old(self)@, r.1@).absorbed,
                    64,
                ),
                Err(e) => block_run(old(self)@, r.1@).err == Some(e),
            },
            timer_advanced(old(self).timer(), final(self).timer(), samples_calls(r.1@)),
            r.0 is Ok ==> final(self)@.osr == old(self)@.osr && samples_calls(r.1@).len() == 2
                * old(self)@.osr,
    {
        let ghost m0 = self@;
        let ghost t0 = self.timer;
        let mut c = Shake256Conditioner::default();
        let tag = domain_tag_bytes();
        c.absorb(&tag);
        let osr_bytes = u32_to_le_bytes(self.osr);
        c.absorb(&osr_bytes);
        let flag_bytes = u32_to_le_bytes(self.flags.bits());
        c.absorb(&flag_bytes);
        let count = self.flags.hash_loop().count();
        let osr = self.osr;
        let ghost mut rs: Seq<Readings> = Seq::empty();
        proof {
            lemma_block_run_empty(m0);
            assert(c.absorbed() =~= block_start(m0).absorbed);
            lemma_advanced_none(t0);
        }
        let mut i: u32 = 0;
        while i < osr
            invariant
                self@.wf(),
                m0 == old(self)@,
                osr == m0.osr,
                count == m0.flags.spec_hash_loop_count(),
                self@.flags == m0.flags,
                self@.osr == osr,
                rs.len() == i,
                i <= osr,
                t0 == old(self).timer(),
                timer_advanced(t0, self.timer(), samples_calls(rs)),
                samples_calls(rs).len() == 2 * i,
                rs.len() > 0 ==> !block_done(block_run(m0, rs.drop_last())),
                block_run(m0, rs) == (BlockState {
                    model: self@,
                    absorbed: c.absorbed(),
                    samples: i as nat,
                    err: None,
                }),
            decreases osr - i,
        {
            let ghost state = block_run(m0, rs);
            let ghost rs_prev = rs;
            let ghost ti = self.timer;
            let (s, Ghost(p)) = self.sample();
            proof {
                lemma_advanced_trans(t0, ti, self.timer, samples_calls(rs), sample_calls(p));
                lemma_samples_calls_push(rs, p);
                lemma_sample_step_config(state.model, p);
                lemma_block_run_push(m0, rs, p);
                lemma_block_step_sampled(state, p);
                assert(rs.push(p).drop_last() =~= rs);
                rs = rs.push(p);
            }
            let sample = match s {
                Ok(v) => v,
                Err(e) => {
                    proof {
                        assert(rs.drop_last() == rs_prev);
                    }
                    return (Err(e), Ghost(rs));
                },
            };
            let sb = u64_to_le_bytes(sample);
            let ghost m1 = self@;
            let ghost t1 = self.timer;
            let ghost a1 = c.absorbed();
            proof {
                lemma_mix_rounds_zero(m1, sample);
                assert(a1 + Seq::<u8>::empty() =~= a1);
            }
            let mut j: usize = 0;
            while j < count
                invariant
                    self@.wf(),
                    self@.flags == m0.flags,
                    self@.osr == osr,
                    j <= count,
                    sb@ == crate::bits::le_bytes_u64(sample),
                    self@ == mix_rounds(m1, sample, j as nat).0,
                    c.absorbed() == a1 + mix_rounds(m1, sample, j as nat).1,
                    self.timer() == t1,
                decreases count - j,
            {
                let ghost before = self@;
                let ghost ab = c.absorbed();
                c.absorb(&sb);
                match &mut self.memory {
                    Some(mem) => {
                        let mut trace = mem.disturb(sample, DEFAULT_MEMORY_ROUNDS);
                        c.absorb(trace.as_slice());
                        zeroize_vec(&mut trace);
                    },
                    None => {},
                }
                self.variable_work(sample);
                proof {
                    lemma_mix_rounds_succ(m1, sample, j as nat);
                    let (mm, bb) = mix_once(before, sample);
                    assert(self@ == mm);
                    assert(c.absorbed() =~= ab + bb);
                    assert(a1 + mix_rounds(m1, sample, (j + 1) as nat).1 =~= ab + bb) by {
                        assert(a1 + (mix_rounds(m1, sample, j as nat).1 + bb) =~= (a1 + mix_rounds(m1, sample, j as nat).1) + bb);
                    }
                }
                j = j + 1;
            }
            i = i + 1;
        }
        proof {
            if rs.len() > 0 {
                assert(rs.drop_last().len() == rs.len() - 1);
            }
        }
        let out = c.finalize_block();
        (Ok(out), Ghost(rs))
    }

    /// Fills `out` with conditioned entropy, block by block.
    pub fn fill_bytes(&mut self, out: &mut [u8]) -> (r: Result<(), ReadError>)
        requires
            old(self).wf(),
        ensures
            final(self).wf(),
            final(out)@.len() == old(out)@.len(),
            old(self)@.permanent_failure != 0 ==> {
                &&& r == Err::<(), ReadError>(failure_error(old(self)@.permanent_failure))
                &&& final(self)@ == old(self)@
                &&& final(self).timer() == old(self).timer()
                &&& final(out)@ == old(out)@
            },
            old(self)@.permanent_failure == 0 ==> exists|blocks: Seq<Seq<Readings>>|
                {
                    let f = #[trigger] fill_run(old(self)@, old(out)@.len(), blocks);
                    &&& fill_consumes(old(self)@, old(out)@.len(), blocks)
                    &&& final(self)@ == f.model
                    &&& final(out)@ == f.written + old(out)@.skip(f.written.len() as int)
                    &&& f.err is None ==> f.written.len() == old(out)@.len()
                    &&& timer_advanced(old(self).timer(), final(self).timer(), blocks_calls(blocks))
                    &&& r == match f.err {
                        Some(e) => Err(e),
                        None => Ok(()),
                    }
                },
    {
        if !self.permanent_failure.is_empty() {
            return Err(Self::map_failure(self.permanent_failure));
        }
        let ghost m0 = self@;
        let ghost t0 = self.timer;
        let ghost out0 = out@;
        let len = out.len();
        let mut written: usize = 0;
        let ghost mut blocks: Seq<Seq<Readings>> = Seq::empty();
        proof {
            lemma_advanced_none(t0);
            lemma_fill_run_empty(m0, len as nat);
            assert(out@.take(0) =~= Seq::<u8>::empty());
        }
        while written < len
            invariant
                self@.wf(),
                m0 == old(self)@,
                m0.permanent_failure == 0,
                t0 == old(self).timer(),
                timer_advanced(t0, self.timer(), blocks_calls(blocks)),
                self@.osr == m0.osr,
                blocks_calls(blocks).len() == 2 * m0.osr * blocks.len(),
                written == if 64 * blocks.len() <= len {
                    64 * blocks.len() as int
                } else {
                    len as int
                },
                blocks.len() > 0 ==> 64 * (blocks.len() - 1) < len,
                out0 == old(out)@,
                len == out0.len(),
                out@.len() == len,
                written <= len,
                blocks_consumed(m0, len as nat, blocks),
                blocks.len() > 0 ==> !fill_done(fill_run(m0, len as nat, blocks.drop_last()), len as nat),
                fill_run(m0, len as nat, blocks) == (FillState {
                    model: self@,
                    written: out@.take(written as int),
                    err: None,
                }),
                out@.skip(written as int) == out0.skip(written as int),
            decreases len - written,
        {
            let ghost prev = fill_run(m0, len as nat, blocks);
            let ghost blocks_prev = blocks;
            let ghost ti = self.timer;
            let (b, Ghost(rs)) = self.block();
            proof {
                lemma_advanced_trans(t0, ti, self.timer, blocks_calls(blocks), samples_calls(rs));
                lemma_blocks_calls_push(blocks, rs);
                lemma_fill_run_push(m0, len as nat, blocks, rs);
                lemma_fill_step_block(prev, len as nat, rs);
                assert(blocks.push(rs).drop_last() =~= blocks);
                blocks = blocks.push(rs);
            }
            let mut block = match b {
                Ok(v) => v,
                Err(e) => {
                    proof {
                        assert(out@ =~= out@.take(written as int) + out0.skip(written as int));
                    }
                    return Err(e);
                },
            };
            proof {
                let k = blocks.len() as int;
                let o = m0.osr as int;
                assert(2 * o * k == 2 * o * (k - 1) + 2 * o) by (nonlinear_arith);
            }
            let n = if len - written < 64 {
                len - written
            } else {
                64
            };
            let ghost before = out@;
            copy_at(out, written, &block, n);
            proof {
                let blk = shake256_output(block_run(prev.model, rs).absorbed, 64);
                assert(out@.take((written + n) as int) =~= prev.written + blk.take(n as int));
                assert(out@.skip((written + n) as int) =~= before.skip((written + n) as int));
                assert(before.skip((written + n) as int) =~= before.skip(written as int).skip(
                    n as int,
                ));
                assert(out0.skip((written + n) as int) =~= out0.skip(written as int).skip(
                    n as int,
                ));
            }
            zeroize_block(&mut block);
            written = written + n;
        }
        proof {
            assert(out@ =~= out@.take(written as int) + out0.skip(written as int));
        }
        Ok(())
    }

    /// Reads `len` bytes of conditioned entropy: on the same state and
    /// readings, the bytes that `fill_bytes` writes into a buffer of `len`
    /// bytes, and the same error where it fails.
    pub fn read_entropy(&mut self, len: usize) -> (r: Result<Vec<u8>, ReadError>)
        requires
            old(self).wf(),
        ensures
            final(self).wf(),
            old(self)@.permanent_failure != 0 ==> {
                &&& r == Err::<Vec<u8>, ReadError>(failure_error(old(self)@.permanent_failure))
                &&& final(self)@ == old(self)@
                &&& final(self).timer() == old(self).timer()
            },
            old(self)@.permanent_failure == 0 ==> exists|blocks: Seq<Seq<Readings>>|
                {
                    let f = #[trigger] fill_run(old(self)@, len as nat, blocks);
                    &&& fill_consumes(old(self)@, len as nat, blocks)
                    &&& final(self)@ == f.model
                    &&& match r {
                        Ok(v) => f.err is None && v@ == f.written && v@.len() == len,
                        Err(e) => f.err == Some(e),
                    }
                    &&& timer_advanced(old(self).timer(), final(self).timer(), blocks_calls(blocks))
                },
    {
        let mut out = vec![0u8; len];
        match self.fill_bytes(out.as_mut_slice()) {
            Ok(()) => Ok(out),
            Err(e) => Err(e),
        }
    }

    pub fn version(&self) -> (r: u32)
        ensures
            r == JENT_VERSION,
    {
        JENT_VERSION
    }

    /// A snapshot of the configuration and of the health failures seen.
    pub fn status(&self) -> (r: Status)
        ensures
            r.version == JENT_VERSION,
            r.osr == self@.osr,
            r.flags == self@.flags.0,
            r.fips_enabled == self@.flags.spec_contains(Flags(Flags::FORCE_FIPS)),
            r.ntg1_enabled == self@.flags.spec_contains(Flags(Flags::NTG1)),
            r.memory_size == (match self@.memory {
                Some(m) => m.buf.len(),
                None => 0,
            }),
            r.memory_access_enabled == (r.memory_size > 0),
            r.hash_loop_count == self@.flags.spec_hash_loop_count(),
            r.last_health_failure == self@.health.last_failure | self@.permanent_failure,
    {
        Status::new(
            self.osr,
            self.flags,
            self.memory_len(),
            self.health.last_failure().bits() | self.permanent_failure.bits(),
        )
    }

    /// The startup test: 1024 timing deltas around units of work, checked
    /// for monotonicity and health, then judged on their statistics.
    fn startup_test(&mut self) -> (r: (Result<(), InitError>, Ghost<(Option<u64>, Seq<Option<u64>>)>))
        requires
            old(self)@.wf(),
        ensures
            final(self)@.wf(),
            startup_consumes(old(self)@, r.1@.0, r.1@.1),
            match r.0 {
                Ok(()) => startup_outcome(startup_run(old(self)@, r.1@.0, r.1@.1)) == Ok::<
                    CollectorModel,
                    InitError,
                >(final(self)@),
                Err(e) => startup_outcome(startup_run(old(self)@, r.1@.0, r.1@.1)) == Err::<
                    CollectorModel,
                    InitError,
                >(e),
            },
            timer_advanced(old(self).timer(), final(self).timer(), seq![r.1@.0] + r.1@.1),
    {
        let ghost m0 = self@;
        let ghost t0 = self.timer;
        let first = self.timer.now();
        proof {
            lemma_startup_run_empty(m0, first);
            lemma_advanced_call(t0, self.timer, first);
            assert(seq![first] + Seq::<Option<u64>>::empty() =~= seq![first]);
        }
        let mut prev = match first {
            Some(t) => t,
            None => {
                return (Err(InitError::TimerUnavailable), Ghost((first, Seq::empty())));
            },
        };
        let mut stats = StartupStats::new();
        let ghost mut nows: Seq<Option<u64>> = Seq::empty();
        let mut i: usize = 0;
        while i < POWERUP_TESTS
            invariant
                self@.wf(),
                m0 == old(self)@,
                i <= POWERUP_TESTS,
                nows.len() == i,
                t0 == old(self).timer(),
                timer_advanced(t0, self.timer(), seq![first] + nows),
                stats@.nonzero <= i && stats@.variations <= i && stats@.var_of_var <= i,
                startup_run(m0, first, nows) == (StartupState {
                    model: self@,
                    prev,
                    stats: stats@,
                    steps: i as nat,
                    err: None,
                }),
                nows.len() > 0 ==> !startup_done(startup_run(m0, first, nows.drop_last())),
            decreases POWERUP_TESTS - i,
        {
            let ghost st = startup_run(m0, first, nows);
            let ghost nows_prev = nows;
            self.variable_work(prev);
            let ghost ti = self.timer;
            let now = self.timer.now();
            proof {
                lemma_advanced_call(ti, self.timer, now);
                lemma_advanced_trans(t0, ti, self.timer, seq![first] + nows, seq![now]);
                assert(seq![first] + nows + seq![now] =~= seq![first] + nows.push(now));
                lemma_startup_run_push(m0, first, nows, now);
                lemma_startup_step_open(st, now);
                nows = nows.push(now);
                assert(nows.drop_last() =~= nows_prev);
            }
            let now = match now {
                Some(t) => t,
                None => {
                    return (Err(InitError::TimerUnavailable), Ghost((first, nows)));
                },
            };
            if now < prev {
                return (Err(InitError::TimerNotMonotonic), Ghost((first, nows)));
            }
            let delta = now - prev;
            stats.record(delta);
            let failure = self.health.observe_delta(delta);
            if !failure.is_empty() && self.fips_enabled() {
                return (Err(InitError::Health), Ghost((first, nows)));
            }
            prev = now;
            i = i + 1;
        }
        match stats.verdict() {
            Ok(()) => {},
            Err(e) => {
                return (Err(e), Ghost((first, nows)));
            },
        }
        self.last_time = prev;
        (Ok(()), Ghost((first, nows)))
    }

    /// NTG.1 pre-shaping: 240 samples whose xor seeds one more memory
    /// disturbance; any failure to sample is a health error.
    fn ntg1_preshape(&mut self) -> (r: (Result<(), InitError>, Ghost<Seq<Readings>>))
        requires
            old(self)@.wf(),
        ensures
            final(self)@.wf(),
            preshape_consumes(old(self)@, r.1@),
            match r.0 {
                Ok(()) => preshape_outcome(preshape_run(old(self)@, r.1@)) == Ok::<
                    CollectorModel,
                    InitError,
                >(final(self)@),
                Err(e) => preshape_outcome(preshape_run(old(self)@, r.1@)) == Err::<
                    CollectorModel,
                    InitError,
                >(e),
            },
            timer_advanced(old(self).timer(), final(self).timer(), samples_calls(r.1@)),
    {
        let ghost m0 = self@;
        let ghost t0 = self.timer;
        let mut acc: u64 = 0;
        let ghost mut rs: Seq<Readings> = Seq::empty();
        proof {
            lemma_preshape_run_empty(m0);
            lemma_advanced_none(t0);
        }
        let mut i: usize = 0;
        while i < NTG1_PRESEED_SAMPLES
            invariant
                self@.wf(),
                m0 == old(self)@,
                i <= NTG1_PRESEED_SAMPLES,
                rs.len() == i,
                t0 == old(self).timer(),
                timer_advanced(t0, self.timer(), samples_calls(rs)),
                preshape_run(m0, rs) == (PreshapeState {
                    model: self@,
                    acc,
                    samples: i as nat,
                    err: None,
                }),
                rs.len() > 0 ==> !preshape_done(preshape_run(m0, rs.drop_last())),
            decreases NTG1_PRESEED_SAMPLES - i,
        {
            let ghost rs_prev = rs;
            let ghost ti = self.timer;
            let (s, Ghost(p)) = self.sample();
            proof {
                lemma_advanced_trans(t0, ti, self.timer, samples_calls(rs), sample_calls(p));
                lemma_samples_calls_push(rs, p);
                lemma_preshape_run_push(m0, rs, p);
                rs = rs.push(p);
                assert(rs.drop_last() =~= rs_prev);
            }
            match s {
                Ok(v) => {
                    acc = acc ^ v;
                },
                Err(_) => {
                    return (Err(InitError::Health), Ghost(rs));
                },
            }
            i = i + 1;
        }
        let _ = black_box(acc);
        match &mut self.memory {
            Some(mem) => {
                let mut trace = mem.disturb(acc, NTG1_PRESEED_SAMPLES);
                zeroize_vec(&mut trace);
            },
            None => {},
        }
        (Ok(()), Ghost(rs))
    }
}

/// The memory size that the flags word selects: the default, or the limit
/// in KiB clamped to 4 KiB ..= 64 MiB and rounded up to a power of two.
fn configured_memory_size(flags: Flags) -> (r: usize)
    ensures
        r == configured_memory_size_spec(flags),
        crate::memory::is_pow2(r),
{
    match flags.memory_limit() {
        MemoryLimit::Auto => {
            proof {
                assert(DEFAULT_MEMORY_SIZE == (1usize << 19u32)) by (bit_vector);
            }
            DEFAULT_MEMORY_SIZE
        },
        MemoryLimit::KiB(kib) => {
            let bytes: u64 = (kib as u64) * 1024;
            let clamped: u64 = if bytes < 4096 {
                4096
            } else if bytes > 0x400_0000 {
                0x400_0000
            } else {
                bytes
            };
            let mut p: usize = 1;
            let mut k: u32 = 0;
            assert(1usize << 0u32 == 1usize) by (bit_vector);
            while (p as u64) < clamped
                invariant
                    1 <= p <= 0x400_0000,
                    k <= 26,
                    p == (1usize << k),
                    4096 <= clamped <= 0x400_0000,
                    pow2_at_least(clamped as nat, p as nat) == pow2_at_least(clamped as nat, 1),
                decreases 26 - k,
            {
                proof {
                    assert(k < 26) by (bit_vector)
                        requires
                            p == (1usize << k),
                            p < 0x400_0000usize,
                            k <= 26u32,
                    ;
                    assert(2 * p == (1usize << (k + 1) as u32) && (1usize << (k + 1) as u32)
                        <= 0x400_0000usize) by (bit_vector)
                        requires
                            p == (1usize << k),
                            k < 26u32,
                    ;
                    assert(pow2_at_least(clamped as nat, p as nat) == pow2_at_least(
                        clamped as nat,
                        2 * p as nat,
                    ));
                }
                p = p * 2;
                k = k + 1;
            }
            proof {
                assert(pow2_at_least(clamped as nat, p as nat) == p);
                assert(k < usize::BITS);
            }
            p
        },
    }
}

impl<T: Timer> EntropyCollector<T> {
    /// A collector reading `timer`, with `osr` samples per 64-byte block
    /// (at least 1), configured by `flags`, with a memory noise source of
    /// `memory_size` bytes (or the size the flags select) unless the flags
    /// disable memory access. It has passed the startup test, and with the
    /// NTG.1 flag the pre-shaping.
    pub fn with_timer(osr: u32, flags: Flags, memory_size: Option<usize>, timer: T) -> (r: Result<Self, InitError>)
        ensures
            r matches Ok(ec) ==> ec.wf(),
            r == Err::<Self, InitError>(InitError::ProgrammingError) <==> init_config_error(
                effective_osr(osr),
                flags,
            ),
            created_on(osr, flags, memory_size, timer, r),
    {
        let ghost timer0 = timer;
        let mut timer = timer;
        if flags.contains(Flags(Flags::FORCE_INTERNAL_TIMER)) && flags.contains(
            Flags(Flags::DISABLE_INTERNAL_TIMER),
        ) {
            proof {
                lemma_init_refused(osr, flags, memory_size);
                lemma_no_calls(timer0, osr, flags, memory_size, Err(InitError::ProgrammingError));
            }
            return Err(InitError::ProgrammingError);
        }
        let eff = if osr < MIN_OSR {
            MIN_OSR
        } else {
            osr
        };
        if eff > MAX_OSR {
            proof {
                lemma_init_refused(osr, flags, memory_size);
                lemma_no_calls(timer0, osr, flags, memory_size, Err(InitError::ProgrammingError));
            }
            return Err(InitError::ProgrammingError);
        }
        let first = timer.now();
        proof {
            lemma_advanced_call(timer0, timer, first);
        }
        let t = match first {
            Some(t) => t,
            None => {
                proof {
                    lemma_init_stopped_early(osr, flags, memory_size, first, InitError::TimerUnavailable);
                }
                return Err(InitError::TimerUnavailable);
            },
        };
        let memory = if flags.contains(Flags(Flags::DISABLE_MEMORY_ACCESS)) {
            None
        } else {
            let size = match memory_size {
                Some(s) => s,
                None => configured_memory_size(flags),
            };
            match MemoryNoise::new(size) {
                Some(m) => Some(m),
                None => {
                    proof {
                        lemma_init_stopped_early(osr, flags, memory_size, first, InitError::Memory);
                    }
                    return Err(InitError::Memory);
                },
            }
        };
        let mut ec = EntropyCollector {
            osr: eff,
            flags,
            timer,
            memory,
            health: HealthState::default(),
            last_time: t,
            work_state: t ^ GOLDEN_GAMMA,
            permanent_failure: HealthFailure(HealthFailure::NONE),
        };
        let ghost m0 = ec@;
        let ghost t1 = ec.timer;
        assert(sticky_failures_wf(0u32)) by (bit_vector);
        assert(initial_memory(flags, memory_size) is Ok);
        assert(m0 == initial_model(osr, flags, initial_memory(flags, memory_size)->Ok_0, t));
        let (sr, Ghost(sreads)) = ec.startup_test();
        let ghost t2 = ec.timer;
        proof {
            lemma_advanced_trans(timer0, t1, t2, seq![first], seq![sreads.0] + sreads.1);
            assert(seq![first] + (seq![sreads.0] + sreads.1) =~= seq![first, sreads.0] + sreads.1);
        }
        match sr {
            Ok(()) => {},
            Err(e) => {
                proof {
                    lemma_init_after_startup(osr, flags, memory_size, t, sreads.0, sreads.1, Seq::empty(), Err(e));
                    assert(seq![first, sreads.0] + sreads.1 + samples_calls(Seq::empty()) =~= seq![first, sreads.0] + sreads.1);
                }
                return Err(e);
            },
        }
        if flags.contains(Flags(Flags::NTG1)) {
            let (pr, Ghost(preads)) = ec.ntg1_preshape();
            proof {
                lemma_advanced_trans(timer0, t2, ec.timer, seq![first, sreads.0] + sreads.1, samples_calls(preads));
            }
            match pr {
                Ok(()) => {
                    proof {
                        lemma_init_after_startup(osr, flags, memory_size, t, sreads.0, sreads.1, preads, Ok(ec@));
                    }
                },
                Err(e) => {
                    proof {
                        lemma_init_after_startup(osr, flags, memory_size, t, sreads.0, sreads.1, preads, Err(e));
                    }
                    return Err(e);
                },
            }
        } else {
            proof {
                lemma_init_after_startup(osr, flags, memory_size, t, sreads.0, sreads.1, Seq::empty(), Ok(ec@));
                assert(seq![first, sreads.0] + sreads.1 + samples_calls(Seq::empty()) =~= seq![first, sreads.0] + sreads.1);
            }
        }
        Ok(ec)
    }
}

/// The model of a created collector, or the error.
pub open spec fn model_of<T: Timer>(r: Result<EntropyCollector<T>, InitError>) -> Result<
    CollectorModel,
    InitError,
> {
    match r {
        Ok(ec) => Ok(ec@),
        Err(e) => Err(e),
    }
}

/// `r` is what creating a collector on `timer` gives: the outcome on the
/// readings it took, where the timer calls that took them all returned
/// timestamps if `timer` always reads, and, for a collector handed out, its
/// timer is `timer` advanced by exactly those calls.
pub open spec fn created_on<T: Timer>(
    osr: u32,
    flags: Flags,
    memory_size: Option<usize>,
    timer: T,
    r: Result<EntropyCollector<T>, InitError>,
) -> bool {
    exists|calls: Seq<Option<u64>>|
        {
            &&& #[trigger] init_result(
                osr,
                flags,
                memory_size,
                model_of(r),
                calls,
            )
            &&& timer.always_reads() ==> all_some(calls)
            &&& r matches Ok(ec) ==> timer_advanced(timer, ec.timer(), calls)
        }
}

proof fn lemma_no_calls<T: Timer>(
    timer: T,
    osr: u32,
    flags: Flags,
    memory_size: Option<usize>,
    r: Result<EntropyCollector<T>, InitError>,
)
    requires
        r is Err,
        init_result(osr, flags, memory_size, model_of(r), Seq::empty()),
    ensures
        created_on(osr, flags, memory_size, timer, r),
{
}

impl EntropyCollector<PlatformTimer> {
    /// A collector on the platform clock, with the memory size that the
    /// flags select.
    pub fn new(osr: u32, flags: Flags) -> (r: Result<Self, InitError>)
        ensures
            r matches Ok(ec) ==> ec.wf(),
            r == Err::<Self, InitError>(InitError::ProgrammingError) <==> init_config_error(
                effective_osr(osr),
                flags,
            ),
            created_on(osr, flags, None, PlatformTimer, r),
    {
        Self::with_timer(osr, flags, None, PlatformTimer)
    }
}

/// Collects the settings of a collector.
#[derive(Clone, Debug)]
pub struct EntropyCollectorBuilder {
    osr: u32,
    flags: Flags,
    memory_size: Option<usize>,
}

impl EntropyCollectorBuilder {
    pub closed spec fn osr_setting(self) -> u32 {
        self.osr
    }

    pub closed spec fn flags_setting(self) -> Flags {
        self.flags
    }

    pub closed spec fn memory_size_setting(self) -> Option<usize> {
        self.memory_size
    }

    pub fn new() -> (r: Self)
        ensures
            r.osr_setting() == MIN_OSR,
            r.flags_setting() == Flags(0),
            r.memory_size_setting() is None,
    {
        Self::default()
    }

    /// Sets the oversampling rate, raised to at least 1.
    pub fn osr(self, osr: u32) -> (r: Self)
        ensures
            r.osr_setting() == effective_osr(osr),
            r.flags_setting() == self.flags_setting(),
            r.memory_size_setting() == self.memory_size_setting(),
    {
        let mut b = self;
        b.osr = if osr < MIN_OSR {
            MIN_OSR
        } else {
            osr
        };
        b
    }

    pub fn flags(self, flags: Flags) -> (r: Self)
        ensures
            r.osr_setting() == self.osr_setting(),
            r.flags_setting() == flags,
            r.memory_size_setting() == self.memory_size_setting(),
    {
        let mut b = self;
        b.flags = flags;
        b
    }

    pub fn memory_size(self, memory_size: usize) -> (r: Self)
        ensures
            r.osr_setting() == self.osr_setting(),
            r.flags_setting() == self.flags_setting(),
            r.memory_size_setting() == Some(memory_size),
    {
        let mut b = self;
        b.memory_size = Some(memory_size);
        b
    }

    /// A collector on the platform clock with these settings.
    pub fn build(self) -> (r: Result<EntropyCollector<PlatformTimer>, InitError>)
        ensures
            r matches Ok(ec) ==> ec.wf(),
            r == Err::<EntropyCollector<PlatformTimer>, InitError>(InitError::ProgrammingError)
                <==> init_config_error(effective_osr(self.osr_setting()), self.flags_setting()),
            created_on(
                self.osr_setting(),
                self.flags_setting(),
                self.memory_size_setting(),
                PlatformTimer,
                r,
            ),
    {
        EntropyCollector::with_timer(self.osr, self.flags, self.memory_size, PlatformTimer)
    }

    /// A collector on `timer` with these settings.
    pub fn build_with_timer<T: Timer>(self, timer: T) -> (r: Result<EntropyCollector<T>, InitError>)
        ensures
            r matches Ok(ec) ==> ec.wf(),
            r == Err::<EntropyCollector<T>, InitError>(InitError::ProgrammingError)
                <==> init_config_error(effective_osr(self.osr_setting()), self.flags_setting()),
            created_on(
                self.osr_setting(),
                self.flags_setting(),
                self.memory_size_setting(),
                timer,
                r,
            ),
    {
        EntropyCollector::with_timer(self.osr, self.flags, self.memory_size, timer)
    }

    /// A collector whose timestamps come from `f`, with these settings.
    pub fn build_with_callback<F: FnMut() -> u64>(self, f: F) -> (r: Result<
        EntropyCollector<CallbackTimer<F>>,
        InitError,
    >)
        ensures
            r matches Ok(ec) ==> ec.wf(),
            r == Err::<EntropyCollector<CallbackTimer<F>>, InitError>(InitError::ProgrammingError)
                <==> init_config_error(effective_osr(self.osr_setting()), self.flags_setting()),
            exists|t: CallbackTimer<F>|
                t.callback() == f && t.log() == Seq::<Option<u64>>::empty() && #[trigger] created_on(
                    self.osr_setting(),
                    self.flags_setting(),
                    self.memory_size_setting(),
                    t,
                    r,
                ),
    {
        self.build_with_timer(CallbackTimer::new(f))
    }
}

impl Default for EntropyCollectorBuilder {
    fn default() -> (r: Self)
        ensures
            r.osr_setting() == MIN_OSR,
            r.flags_setting() == Flags(0),
            r.memory_size_setting() is None,
    {
        EntropyCollectorBuilder { osr: MIN_OSR, flags: Flags::empty(), memory_size: None }
    }
}

} // verus!

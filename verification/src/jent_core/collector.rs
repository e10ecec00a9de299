//! The workspace collector: raw timing deltas, checked by the stuck test,
//! packed into raw blocks and conditioned.

use vstd::prelude::*;
use crate::barrier::black_box;
use crate::bits::{byte_of_u64, copy_at, le_bytes_u64, rotl64, spec_rotl64, u64_to_le_bytes};
use crate::jent_core::conditioner::Conditioner;
use crate::jent_core::error::JentError;
use crate::jent_core::health::{HealthState, StuckModel};
use crate::jent_core::timer::HighResTimer;

verus! {

/// The abstract state of a workspace collector (its timer aside).
pub struct JentModel {
    pub health: StuckModel,
    pub last_delta: u64,
    pub last_delta2: u64,
    pub last_delta3: u64,
    pub work_rounds: usize,
}

/// One round of the jitter work.
pub open spec fn jitter_round(x: u64, i: usize) -> u64 {
    let a = x ^ (i as u64).wrapping_mul(0xD6E8_FEB8_6659_FD93);
    let b = spec_rotl64(a, 13);
    let c = b.wrapping_mul(0xBF58_476D_1CE4_E5B9);
    c ^ (c >> 29u64)
}

/// The first `n` rounds of the jitter work from `x`.
pub open spec fn jitter_rounds(x: u64, n: nat) -> u64
    decreases n,
{
    if n == 0 {
        x
    } else {
        jitter_round(jitter_rounds(x, (n - 1) as nat), (n - 1) as usize)
    }
}

/// The value the jitter work computes from the delta history.
pub open spec fn jitter_work(m: JentModel) -> u64 {
    let x = m.last_delta ^ spec_rotl64(m.last_delta2, 17) ^ spec_rotl64(m.last_delta3, 31)
        ^ 0x9E37_79B9_7F4A_7C15u64;
    jitter_rounds(x, m.work_rounds as nat)
}

/// One delta from the readings `t1` and `t2`: checked by the stuck test,
/// then pushed into the history.
pub open spec fn core_sample(m: JentModel, t1: u64, t2: u64) -> (JentModel, Result<u64, JentError>) {
    let delta = t2.wrapping_sub(t1);
    let (health, r) = m.health.observe(delta);
    match r {
        Err(e) => (JentModel { health, ..m }, Err(e)),
        Ok(()) => (
            JentModel {
                health,
                last_delta: delta,
                last_delta2: m.last_delta,
                last_delta3: m.last_delta2,
                ..m
            },
            Ok(delta),
        ),
    }
}

/// A raw block in progress.
pub struct RawState {
    pub model: JentModel,
    pub bytes: Seq<u8>,
    pub err: Option<JentError>,
}

pub open spec fn raw_done(s: RawState, n: nat) -> bool {
    s.err is Some || s.bytes.len() >= n
}

/// One delta of a raw block of `n` bytes: its little-endian bytes, cut to
/// the bytes still missing.
pub open spec fn raw_step(s: RawState, n: nat, r: (u64, u64)) -> RawState {
    if raw_done(s, n) {
        s
    } else {
        let (m1, d) = core_sample(s.model, r.0, r.1);
        match d {
            Err(e) => RawState { model: m1, err: Some(e), ..s },
            Ok(delta) => {
                let k = if n - s.bytes.len() < 8 {
                    (n - s.bytes.len()) as int
                } else {
                    8
                };
                RawState { model: m1, bytes: s.bytes + le_bytes_u64(delta).take(k), err: None }
            },
        }
    }
}

#[verifier::opaque]
pub open spec fn raw_run(m: JentModel, n: nat, rs: Seq<(u64, u64)>) -> RawState
    decreases rs.len(),
{
    if rs.len() == 0 {
        RawState { model: m, bytes: Seq::empty(), err: None }
    } else {
        raw_step(raw_run(m, n, rs.drop_last()), n, rs.last())
    }
}

/// `rs` are exactly the readings that a raw block of `n` bytes takes.
pub open spec fn raw_consumes(m: JentModel, n: nat, rs: Seq<(u64, u64)>) -> bool {
    &&& raw_done(raw_run(m, n, rs), n)
    &&& rs.len() > 0 ==> !raw_done(raw_run(m, n, rs.drop_last()), n)
}

pub proof fn lemma_raw_run_empty(m: JentModel, n: nat)
    ensures
        raw_run(m, n, Seq::empty()) == (RawState { model: m, bytes: Seq::empty(), err: None }),
{
    reveal_with_fuel(raw_run, 1);
}

pub proof fn lemma_raw_run_push(m: JentModel, n: nat, rs: Seq<(u64, u64)>, r: (u64, u64))
    ensures
        raw_run(m, n, rs.push(r)) == raw_step(raw_run(m, n, rs), n, r),
{
    reveal_with_fuel(raw_run, 1);
    assert(rs.push(r).drop_last() =~= rs);
}

proof fn lemma_raw_bytes_progress(m: JentModel, n: nat, rs: Seq<(u64, u64)>)
    requires
        raw_run(m, n, rs).err is None,
        rs.len() == 0 || !raw_done(raw_run(m, n, rs.drop_last()), n),
    ensures
        raw_run(m, n, rs).bytes.len() == if 8 * rs.len() <= n {
            8 * rs.len()
        } else {
            n
        },
        forall|i: int, j: int|
            0 <= i < rs.len() && 0 <= j < 8 && 8 * i + j < raw_run(m, n, rs).bytes.len()
                ==> #[trigger] raw_run(m, n, rs).bytes[8 * i + j] == byte_of_u64(
                (#[trigger] rs[i]).1.wrapping_sub(rs[i].0),
                j,
            ),
    decreases rs.len(),
{
    if rs.len() == 0 {
        lemma_raw_run_empty(m, n);
        assert(rs =~= Seq::<(u64, u64)>::empty());
    } else {
        let dl = rs.drop_last();
        let last = rs.last();
        assert(dl.push(last) =~= rs);
        lemma_raw_run_push(m, n, dl, last);
        if dl.len() > 0 && raw_done(raw_run(m, n, dl.drop_last()), n) {
            lemma_raw_run_push(m, n, dl.drop_last(), dl.last());
            assert(dl.drop_last().push(dl.last()) =~= dl);
        }
        lemma_raw_bytes_progress(m, n, dl);
        let s0 = raw_run(m, n, dl);
        let s1 = raw_run(m, n, rs);
        assert(!raw_done(s0, n));
        assert(s0.bytes.len() == 8 * dl.len());
        let delta = last.1.wrapping_sub(last.0);
        let k = if n - s0.bytes.len() < 8 {
            (n - s0.bytes.len()) as int
        } else {
            8
        };
        assert(s1.bytes == s0.bytes + le_bytes_u64(delta).take(k));
        assert(le_bytes_u64(delta).len() == 8);
        assert(s1.bytes.len() == 8 * dl.len() + k);
        assert(rs.len() == dl.len() + 1);
        assert(8 * rs.len() == 8 * dl.len() + 8);
        assert(s1.bytes.len() == if 8 * rs.len() <= n {
            8 * rs.len()
        } else {
            n
        });
        assert forall|i: int, j: int|
            0 <= i < rs.len() && 0 <= j < 8 && 8 * i + j < s1.bytes.len() implies #[trigger] s1.bytes[8
                * i + j] == byte_of_u64((#[trigger] rs[i]).1.wrapping_sub(rs[i].0), j) by {
            if i < dl.len() {
                assert(rs[i] == dl[i]);
                assert(8 * i + j < s0.bytes.len());
            } else {
                assert(rs[i] == last);
                assert(8 * i + j == s0.bytes.len() + j);
            }
        }
    }
}

/// A raw block holds the full little-endian images of its deltas, one
/// after the other, the last one cut to the bytes still missing: byte `j`
/// of the `i`-th delta `t2 - t1` (wrapping) stands at `8 * i + j`. A raw
/// block of 8 bytes is thus the little-endian image of its one delta.
pub proof fn lemma_raw_block_bytes(m: JentModel, n: nat, rs: Seq<(u64, u64)>)
    requires
        raw_consumes(m, n, rs),
        raw_run(m, n, rs).err is None,
    ensures
        raw_run(m, n, rs).bytes.len() == n,
        forall|i: int, j: int|
            0 <= i < rs.len() && 0 <= j < 8 && 8 * i + j < n ==> #[trigger] raw_run(
                m,
                n,
                rs,
            ).bytes[8 * i + j] == byte_of_u64((#[trigger] rs[i]).1.wrapping_sub(rs[i].0), j),
        n == 8 ==> rs.len() == 1 && raw_run(m, n, rs).bytes == le_bytes_u64(
            rs[0].1.wrapping_sub(rs[0].0),
        ),
{
    lemma_raw_bytes_progress(m, n, rs);
    if n == 8 {
        if rs.len() > 1 {
            let dl = rs.drop_last();
            if raw_done(raw_run(m, n, dl.drop_last()), n) {
                lemma_raw_run_push(m, n, dl.drop_last(), dl.last());
                assert(dl.drop_last().push(dl.last()) =~= dl);
            }
            lemma_raw_bytes_progress(m, n, dl);
            assert(false);
        }
        let b = raw_run(m, n, rs).bytes;
        assert forall|j: int| 0 <= j < 8 implies b[j] == le_bytes_u64(rs[0].1.wrapping_sub(rs[0].0))[j] by {
            assert(b[8 * 0 + j] == byte_of_u64(rs[0].1.wrapping_sub(rs[0].0), j));
        }
        assert(b =~= le_bytes_u64(rs[0].1.wrapping_sub(rs[0].0)));
    }
}

/// A conditioned read in progress.
pub struct CondState {
    pub model: JentModel,
    pub written: Seq<u8>,
    pub err: Option<JentError>,
}

pub open spec fn cond_done(s: CondState, len: nat) -> bool {
    s.err is Some || s.written.len() >= len
}

/// The size of the buffer that each conditioner call writes into.
pub open spec fn cond_buffer_len() -> nat {
    64
}

/// One raw block of 128 bytes taken from the readings `rs`, then handed
/// to the conditioner `c`, whose call failed with `e` or, where `e` is
/// `None`, produced `c.conditioned` of the raw block; the conditioned
/// bytes are cut to the bytes still missing.
#[verifier::opaque]
pub open spec fn cond_step<C: Conditioner>(
    c: C,
    s: CondState,
    len: nat,
    rs: Seq<(u64, u64)>,
    e: Option<JentError>,
) -> CondState {
    if cond_done(s, len) {
        s
    } else {
        let raw = raw_run(s.model, 128, rs);
        match raw.err {
            Some(re) => CondState { model: raw.model, err: Some(re), ..s },
            None => match e {
                Some(ce) => CondState { model: raw.model, err: Some(ce), ..s },
                None => {
                    let bytes = c.conditioned(raw.bytes);
                    let k = if len - s.written.len() < bytes.len() {
                        (len - s.written.len()) as int
                    } else {
                        bytes.len() as int
                    };
                    CondState { model: raw.model, written: s.written + bytes.take(k), err: None }
                },
            },
        }
    }
}

/// A conditioned read of `len` bytes over the readings of each raw block
/// (`blocks`) and the outcome of each conditioner call (`es`).
#[verifier::opaque]
pub open spec fn cond_run<C: Conditioner>(
    c: C,
    m: JentModel,
    len: nat,
    blocks: Seq<Seq<(u64, u64)>>,
    es: Seq<Option<JentError>>,
) -> CondState
    decreases blocks.len(),
{
    if blocks.len() == 0 || es.len() != blocks.len() {
        CondState { model: m, written: Seq::empty(), err: None }
    } else {
        cond_step(
            c,
            cond_run(c, m, len, blocks.drop_last(), es.drop_last()),
            len,
            blocks.last(),
            es.last(),
        )
    }
}

pub proof fn lemma_cond_run_empty<C: Conditioner>(c: C, m: JentModel, len: nat)
    ensures
        cond_run(c, m, len, Seq::empty(), Seq::empty()) == (CondState {
            model: m,
            written: Seq::empty(),
            err: None,
        }),
{
    reveal_with_fuel(cond_run, 1);
}

pub proof fn lemma_cond_run_push<C: Conditioner>(
    c: C,
    m: JentModel,
    len: nat,
    blocks: Seq<Seq<(u64, u64)>>,
    es: Seq<Option<JentError>>,
    rs: Seq<(u64, u64)>,
    e: Option<JentError>,
)
    requires
        blocks.len() == es.len(),
    ensures
        cond_run(c, m, len, blocks.push(rs), es.push(e)) == cond_step(
            c,
            cond_run(c, m, len, blocks, es),
            len,
            rs,
            e,
        ),
{
    reveal_with_fuel(cond_run, 1);
    assert(blocks.push(rs).drop_last() =~= blocks);
    assert(es.push(e).drop_last() =~= es);
}

/// Each raw block took exactly its own readings; a conditioner call
/// failed only on a buffer of `cond_buffer_len()` bytes that `c` does not
/// accept, and was made only on a raw block that was complete.
#[verifier::opaque]
pub open spec fn cond_blocks_consumed<C: Conditioner>(
    c: C,
    m: JentModel,
    len: nat,
    blocks: Seq<Seq<(u64, u64)>>,
    es: Seq<Option<JentError>>,
) -> bool
    decreases blocks.len(),
{
    blocks.len() > 0 && blocks.len() == es.len() ==> {
        let prev = cond_run(c, m, len, blocks.drop_last(), es.drop_last());
        &&& cond_blocks_consumed(c, m, len, blocks.drop_last(), es.drop_last())
        &&& raw_consumes(prev.model, 128, blocks.last())
        &&& es.last() is Some ==> !c.accepts(cond_buffer_len()) && raw_run(
            prev.model,
            128,
            blocks.last(),
        ).err is None
    }
}

proof fn lemma_cond_advance<C: Conditioner>(
    c: C,
    m: JentModel,
    len: nat,
    blocks: Seq<Seq<(u64, u64)>>,
    es: Seq<Option<JentError>>,
    rs: Seq<(u64, u64)>,
    e: Option<JentError>,
)
    requires
        blocks.len() == es.len(),
        cond_blocks_consumed(c, m, len, blocks, es),
        !cond_done(cond_run(c, m, len, blocks, es), len),
        raw_consumes(cond_run(c, m, len, blocks, es).model, 128, rs),
        e is Some ==> !c.accepts(cond_buffer_len()) && raw_run(
            cond_run(c, m, len, blocks, es).model,
            128,
            rs,
        ).err is None,
    ensures
        cond_blocks_consumed(c, m, len, blocks.push(rs), es.push(e)),
        blocks.push(rs).drop_last() == blocks,
        es.push(e).drop_last() == es,
        cond_run(c, m, len, blocks.push(rs), es.push(e)) == cond_step(
            c,
            cond_run(c, m, len, blocks, es),
            len,
            rs,
            e,
        ),
{
    lemma_cond_run_push(c, m, len, blocks, es, rs, e);
    reveal_with_fuel(cond_blocks_consumed, 1);
    assert(blocks.push(rs).drop_last() =~= blocks);
    assert(es.push(e).drop_last() =~= es);
}

proof fn lemma_cond_consumed_empty<C: Conditioner>(c: C, m: JentModel, len: nat)
    ensures
        cond_blocks_consumed(c, m, len, Seq::empty(), Seq::empty()),
{
    reveal_with_fuel(cond_blocks_consumed, 1);
}

/// The workspace collector over the timer `T`.
pub struct JentCollector<T: HighResTimer> {
    timer: T,
    health: HealthState,
    last_delta: u64,
    last_delta2: u64,
    last_delta3: u64,
    work_rounds: usize,
}

impl<T: HighResTimer> View for JentCollector<T> {
    type V = JentModel;

    closed spec fn view(&self) -> JentModel {
        JentModel {
            health: self.health@,
            last_delta: self.last_delta,
            last_delta2: self.last_delta2,
            last_delta3: self.last_delta3,
            work_rounds: self.work_rounds,
        }
    }
}

/// Every reading of `rs` is one that `timer` may give.
pub open spec fn read_from<T: HighResTimer>(timer: T, rs: Seq<(u64, u64)>) -> bool {
    forall|i: int| 0 <= i < rs.len() ==> timer.may_read(#[trigger] rs[i].0) && timer.may_read(rs[i].1)
}

impl<T: HighResTimer> JentCollector<T> {
    /// The collector's timer.
    pub closed spec fn timer(&self) -> T {
        self.timer
    }

    pub fn new(timer: T) -> (r: Self)
        ensures
            r.timer() == timer,
            r@ == (JentModel {
                health: StuckModel::initial(),
                last_delta: 0,
                last_delta2: 0,
                last_delta3: 0,
                work_rounds: 64,
            }),
    {
        JentCollector {
            timer,
            health: HealthState::new(),
            last_delta: 0,
            last_delta2: 0,
            last_delta3: 0,
            work_rounds: 64,
        }
    }

    /// Sets the number of jitter-work rounds, at least 1.
    pub fn set_work_rounds(&mut self, rounds: usize)
        ensures
            final(self).timer() == old(self).timer(),
            final(self)@ == (JentModel {
                work_rounds: if rounds < 1 {
                    1
                } else {
                    rounds
                },
                ..old(self)@
            }),
    {
        self.work_rounds = if rounds < 1 {
            1
        } else {
            rounds
        };
    }

    fn cpu_jitter_work(&mut self) -> (r: u64)
        ensures
            final(self)@ == old(self)@,
            final(self).timer() == old(self).timer(),
            r == jitter_work(old(self)@),
    {
        let mut x = self.last_delta ^ rotl64(self.last_delta2, 17) ^ rotl64(self.last_delta3, 31)
            ^ 0x9E37_79B9_7F4A_7C15u64;
        let ghost x0 = x;
        let mut i: usize = 0;
        while i < self.work_rounds
            invariant
                i <= self.work_rounds,
                x == jitter_rounds(x0, i as nat),
            decreases self.work_rounds - i,
        {
            x = x ^ (i as u64).wrapping_mul(0xD6E8_FEB8_6659_FD93);
            x = rotl64(x, 13);
            x = x.wrapping_mul(0xBF58_476D_1CE4_E5B9);
            x = x ^ (x >> 29u64);
            i = i + 1;
        }
        x
    }

    /// One raw delta, between two readings around the jitter work, checked
    /// by the stuck test.
    pub fn sample_delta(&mut self) -> (r: Result<u64, JentError>)
        ensures
            final(self).timer() == old(self).timer(),
            exists|t1: u64, t2: u64|
                #[trigger] core_sample(old(self)@, t1, t2) == (final(self)@, r) && old(
                    self,
                ).timer().may_read(t1) && old(self).timer().may_read(t2),
    {
        let (r, Ghost(t)) = self.sample_delta_read();
        assert(core_sample(old(self)@, t.0, t.1) == (self@, r));
        r
    }

    fn sample_delta_read(&mut self) -> (r: (Result<u64, JentError>, Ghost<(u64, u64)>))
        ensures
            core_sample(old(self)@, r.1@.0, r.1@.1) == (final(self)@, r.0),
            final(self).timer() == old(self).timer(),
            old(self).timer().may_read(r.1@.0) && old(self).timer().may_read(r.1@.1),
    {
        let t1 = self.timer.now();
        let work = self.cpu_jitter_work();
        let _ = black_box(work);
        let t2 = self.timer.now();
        (self.finish_delta(t1, t2), Ghost((t1, t2)))
    }

    /// The rest of a raw delta, given the readings taken before and after
    /// the jitter work.
    pub fn finish_delta(&mut self, t1: u64, t2: u64) -> (r: Result<u64, JentError>)
        ensures
            (final(self)@, r) == core_sample(old(self)@, t1, t2),
            final(self).timer() == old(self).timer(),
    {
        let delta = t2.wrapping_sub(t1);
        match self.health.observe_delta(delta) {
            Ok(()) => {},
            Err(e) => {
                return Err(e);
            },
        }
        self.last_delta3 = self.last_delta2;
        self.last_delta2 = self.last_delta;
        self.last_delta = delta;
        Ok(delta)
    }

    fn raw_block_read<const N: usize>(&mut self) -> (r: (Result<[u8; N], JentError>, Ghost<Seq<(u64, u64)>>))
        ensures
            raw_consumes(old(self)@, N as nat, r.1@),
            final(self)@ == raw_run(old(self)@, N as nat, r.1@).model,
            final(self).timer() == old(self).timer(),
            read_from(old(self).timer(), r.1@),
            match r.0 {
                Ok(out) => raw_run(old(self)@, N as nat, r.1@).err is None && out@ == raw_run(
                    old(self)@,
                    N as nat,
                    r.1@,
                ).bytes,
                Err(e) => raw_run(old(self)@, N as nat, r.1@).err == Some(e),
            },
    {
        let ghost m0 = self@;
        let mut out = [0u8; N];
        let mut written: usize = 0;
        let ghost mut rs: Seq<(u64, u64)> = Seq::empty();
        proof {
            lemma_raw_run_empty(m0, N as nat);
            assert(out@.take(0) =~= Seq::<u8>::empty());
        }
        while written < N
            invariant
                m0 == old(self)@,
                written <= N,
                out@.len() == N,
                raw_run(m0, N as nat, rs) == (RawState {
                    model: self@,
                    bytes: out@.take(written as int),
                    err: None,
                }),
                rs.len() > 0 ==> !raw_done(raw_run(m0, N as nat, rs.drop_last()), N as nat),
                self.timer() == old(self).timer(),
                read_from(old(self).timer(), rs),
            decreases N - written,
        {
            let ghost rs_prev = rs;
            let (d, Ghost(t)) = self.sample_delta_read();
            proof {
                lemma_raw_run_push(m0, N as nat, rs, t);
                rs = rs.push(t);
                assert(rs.drop_last() =~= rs_prev);
                assert forall|i: int| 0 <= i < rs.len() implies old(self).timer().may_read(
                    #[trigger] rs[i].0,
                ) && old(self).timer().may_read(rs[i].1) by {
                    if i < rs_prev.len() {
                        assert(rs[i] == rs_prev[i]);
                        assert(read_from(old(self).timer(), rs_prev));
                        assert(old(self).timer().may_read(rs_prev[i].0));
                    } else {
                        assert(rs[i] == t);
                    }
                }
            }
            let delta = match d {
                Ok(v) => v,
                Err(e) => {
                    return (Err(e), Ghost(rs));
                },
            };
            let bytes = u64_to_le_bytes(delta);
            let n = if N - written < 8 {
                N - written
            } else {
                8
            };
            let ghost before = out@;
            copy_at(&mut out, written, &bytes, n);
            assert(out@.take((written + n) as int) =~= before.take(written as int) + bytes@.take(
                n as int,
            ));
            written = written + n;
        }
        assert(out@.take(N as int) =~= out@);
        (Ok(out), Ghost(rs))
    }

    /// A raw block of `N` bytes: the little-endian bytes of successive
    /// deltas.
    pub fn raw_block<const N: usize>(&mut self) -> (r: Result<[u8; N], JentError>)
        ensures
            final(self).timer() == old(self).timer(),
            exists|rs: Seq<(u64, u64)>|
                {
                    let s = #[trigger] raw_run(old(self)@, N as nat, rs);
                    &&& raw_consumes(old(self)@, N as nat, rs)
                    &&& read_from(old(self).timer(), rs)
                    &&& final(self)@ == s.model
                    &&& match r {
                        Ok(out) => s.err is None && out@ == s.bytes,
                        Err(e) => s.err == Some(e),
                    }
                },
    {
        let (r, Ghost(rs)) = self.raw_block_read::<N>();
        assert(raw_consumes(old(self)@, N as nat, rs));
        r
    }

    #[verifier::rlimit(30)]
    /// Fills `out` with conditioned output: raw blocks of 128 bytes, each
    /// handed to `conditioner` with a buffer of 64 bytes, whose output is
    /// cut to the bytes still missing.
    pub fn fill_conditioned<C: Conditioner>(&mut self, conditioner: &mut C, out: &mut [u8]) -> (r: Result<(), JentError>)
        requires
            old(out)@.len() > 0 ==> old(conditioner).produces() > 0,
        ensures
            final(out)@.len() == old(out)@.len(),
            final(conditioner).produces() == old(conditioner).produces(),
            forall|x: Seq<u8>| #[trigger] final(conditioner).conditioned(x) == old(conditioner).conditioned(x),
            forall|l: nat| #[trigger] final(conditioner).accepts(l) == old(conditioner).accepts(l),
            final(self).timer() == old(self).timer(),
            old(out)@.len() == 0 ==> r is Ok && final(self)@ == old(self)@ && *final(conditioner)
                == *old(conditioner),
            exists|blocks: Seq<Seq<(u64, u64)>>, es: Seq<Option<JentError>>|
                {
                    let s = #[trigger] cond_run(*old(conditioner), old(self)@, old(out)@.len(), blocks, es);
                    &&& blocks.len() == es.len()
                    &&& forall|k: int| 0 <= k < blocks.len() ==> read_from(old(self).timer(), #[trigger] blocks[k])
                    &&& cond_blocks_consumed(*old(conditioner), old(self)@, old(out)@.len(), blocks, es)
                    &&& cond_done(s, old(out)@.len())
                    &&& blocks.len() > 0 ==> !cond_done(
                        cond_run(
                            *old(conditioner),
                            old(self)@,
                            old(out)@.len(),
                            blocks.drop_last(),
                            es.drop_last(),
                        ),
                        old(out)@.len(),
                    )
                    &&& final(self)@ == s.model
                    &&& final(out)@ == s.written + old(out)@.skip(s.written.len() as int)
                    &&& r == match s.err {
                        Some(e) => Err(e),
                        None => Ok(()),
                    }
                },
    {
        let ghost m0 = self@;
        let ghost out0 = out@;
        let ghost c0 = *conditioner;
        let len = out.len();
        let mut pos: usize = 0;
        let mut conditioned = [0u8; 64];
        let ghost mut blocks: Seq<Seq<(u64, u64)>> = Seq::empty();
        let ghost mut es: Seq<Option<JentError>> = Seq::empty();
        proof {
            lemma_cond_run_empty(c0, m0, len as nat);
            lemma_cond_consumed_empty(c0, m0, len as nat);
            assert(out@.take(0) =~= Seq::<u8>::empty());
        }
        while pos < len
            invariant
                m0 == old(self)@,
                out0 == old(out)@,
                c0 == *old(conditioner),
                len == out0.len(),
                out@.len() == len,
                pos <= len,
                conditioned@.len() == 64,
                conditioner.produces() == c0.produces(),
                forall|x: Seq<u8>| #[trigger] conditioner.conditioned(x) == c0.conditioned(x),
                forall|l: nat| #[trigger] conditioner.accepts(l) == c0.accepts(l),
                len > 0 ==> c0.produces() > 0,
                blocks.len() == es.len(),
                len == 0 ==> *conditioner == *old(conditioner) && self@ == m0,
                self.timer() == old(self).timer(),
                forall|k: int| 0 <= k < blocks.len() ==> read_from(old(self).timer(), #[trigger] blocks[k]),
                cond_blocks_consumed(c0, m0, len as nat, blocks, es),
                cond_run(c0, m0, len as nat, blocks, es) == (CondState {
                    model: self@,
                    written: out@.take(pos as int),
                    err: None,
                }),
                out@.skip(pos as int) == out0.skip(pos as int),
                blocks.len() > 0 ==> !cond_done(
                    cond_run(c0, m0, len as nat, blocks.drop_last(), es.drop_last()),
                    len as nat,
                ),
            decreases len - pos,
        {
            let ghost prev = cond_run(c0, m0, len as nat, blocks, es);
            let (raw, Ghost(rs)) = self.raw_block_read::<128>();
            let raw = match raw {
                Ok(v) => v,
                Err(e) => {
                    proof {
                        lemma_cond_advance(c0, m0, len as nat, blocks, es, rs, None);
                        reveal(cond_step);
                        blocks = blocks.push(rs);
                        es = es.push(None);
                        assert(out@ =~= out@.take(pos as int) + out0.skip(pos as int));
                    }
                    return Err(e);
                },
            };
            let produced_now = match conditioner.condition(&raw, &mut conditioned) {
                Ok(n) => n,
                Err(e) => {
                    proof {
                        lemma_cond_advance(c0, m0, len as nat, blocks, es, rs, Some(e));
                        reveal(cond_step);
                        blocks = blocks.push(rs);
                        es = es.push(Some(e));
                        assert(out@ =~= out@.take(pos as int) + out0.skip(pos as int));
                    }
                    return Err(e);
                },
            };
            let ghost cbytes = conditioned@.take(produced_now as int);
            proof {
                assert(cbytes == c0.conditioned(raw@));
                lemma_cond_advance(c0, m0, len as nat, blocks, es, rs, None);
                reveal(cond_step);
                blocks = blocks.push(rs);
                es = es.push(None);
            }
            let n = if produced_now < len - pos {
                produced_now
            } else {
                len - pos
            };
            let ghost before = out@;
            copy_at(out, pos, &conditioned, n);
            proof {
                assert(out@.take((pos + n) as int) =~= before.take(pos as int) + cbytes.take(
                    n as int,
                ));
                assert(out@.skip((pos + n) as int) =~= before.skip((pos + n) as int));
                assert(before.skip((pos + n) as int) =~= before.skip(pos as int).skip(n as int));
                assert(out0.skip((pos + n) as int) =~= out0.skip(pos as int).skip(n as int));
            }
            pos = pos + n;
        }
        proof {
            assert(out@ =~= out@.take(pos as int) + out0.skip(pos as int));
        }
        Ok(())
    }
}

} // verus!

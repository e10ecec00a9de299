//! Runtime health tests on timing deltas: the repetition count test (RCT),
//! the lag predictor and the adaptive proportion test (APT) over a window of
//! low bits.

use vstd::prelude::*;

verus! {

/// A set of health-test failures: bits 0..4 are transient failures, the
/// same bits shifted by `PERMANENT_SHIFT` are permanent ones.
#[derive(Clone, Copy, Debug, Default, PartialEq, Eq, Structural)]
pub struct HealthFailure(pub u32);

impl HealthFailure {
    pub const NONE: u32 = 0;

    pub const RCT: u32 = 0x1;

    pub const APT: u32 = 0x2;

    pub const LAG: u32 = 0x4;

    pub const RCT_MEMORY: u32 = 0x8;

    pub const PERMANENT_SHIFT: u32 = 16;

    /// Some bit of `other` is set in `self`.
    pub open spec fn spec_contains(self, other: HealthFailure) -> bool {
        self.0 & other.0 != 0
    }

    pub fn bits(self) -> (r: u32)
        ensures
            r == self.0,
    {
        self.0
    }

    pub fn is_empty(self) -> (r: bool)
        ensures
            r == (self.0 == 0),
    {
        self.0 == 0
    }

    pub fn contains(self, other: HealthFailure) -> (r: bool)
        ensures
            r == self.spec_contains(other),
    {
        (self.0 & other.0) != 0
    }

    /// The permanent counterpart of these failures.
    pub fn permanent(self) -> (r: HealthFailure)
        ensures
            r.0 == self.0 << 16u32,
    {
        HealthFailure(self.0 << Self::PERMANENT_SHIFT)
    }
}

impl core::ops::BitOr for HealthFailure {
    type Output = Self;

    fn bitor(self, rhs: Self) -> (r: Self)
        ensures
            r.0 == self.0 | rhs.0,
    {
        HealthFailure(self.0 | rhs.0)
    }
}

impl vstd::std_specs::ops::BitOrSpecImpl for HealthFailure {
    open spec fn obeys_bitor_spec() -> bool {
        true
    }

    open spec fn bitor_req(self, rhs: HealthFailure) -> bool {
        true
    }

    open spec fn bitor_spec(self, rhs: HealthFailure) -> HealthFailure {
        HealthFailure(self.0 | rhs.0)
    }
}

impl core::ops::BitOrAssign for HealthFailure {
    fn bitor_assign(&mut self, rhs: Self)
        ensures
            final(self).0 == old(self).0 | rhs.0,
    {
        self.0 = self.0 | rhs.0;
    }
}

pub const RCT_CUTOFF: u32 = 31;

pub const RCT_PERMANENT_CUTOFF: u32 = 62;

pub const APT_WINDOW: usize = 512;

pub const APT_CUTOFF: usize = 325;

pub const APT_PERMANENT_CUTOFF: usize = 450;

pub const LAG_CUTOFF: u32 = 32;

pub const LAG_PERMANENT_CUTOFF: u32 = 64;

/// The failure word with the given transient and permanent bits set.
pub open spec fn failure_word(
    rct: bool,
    apt: bool,
    lag: bool,
    rct_permanent: bool,
    apt_permanent: bool,
    lag_permanent: bool,
) -> u32 {
    (if rct { 1u32 } else { 0u32 }) | (if apt { 2u32 } else { 0u32 }) | (if lag {
        4u32
    } else {
        0u32
    }) | (if rct_permanent { 0x1_0000u32 } else { 0u32 }) | (if apt_permanent {
        0x2_0000u32
    } else {
        0u32
    }) | (if lag_permanent { 0x4_0000u32 } else { 0u32 })
}

/// `x + 1`, saturating at `u32::MAX`.
pub open spec fn saturating_inc(x: u32) -> u32 {
    if x == u32::MAX {
        x
    } else {
        (x + 1) as u32
    }
}

/// The distance between two values.
pub open spec fn spec_abs_diff(a: u64, b: u64) -> u64 {
    if a >= b {
        (a - b) as u64
    } else {
        (b - a) as u64
    }
}

/// The number of entries equal to 1.
pub open spec fn count_ones(s: Seq<u8>) -> nat
    decreases s.len(),
{
    if s.len() == 0 {
        0
    } else {
        count_ones(s.drop_last()) + if s.last() == 1 {
            1nat
        } else {
            0nat
        }
    }
}

/// The abstract state of the health tests.
pub struct HealthModel {
    pub last_delta: Option<u64>,
    pub last_delta2_abs: Option<u64>,
    pub rct_count: u32,
    pub lag_count: u32,
    /// The low bits of the last 512 deltas, in ring order.
    pub window: Seq<u8>,
    /// The ring position that the next delta overwrites.
    pub pos: int,
    /// The ring has been filled once.
    pub filled: bool,
    pub last_failure: u32,
}

impl HealthModel {
    pub open spec fn wf(self) -> bool {
        &&& self.window.len() == 512
        &&& 0 <= self.pos < 512
        &&& forall|i: int| 0 <= i < 512 ==> #[trigger] self.window[i] <= 1
    }

    pub open spec fn initial() -> HealthModel {
        HealthModel {
            last_delta: None,
            last_delta2_abs: None,
            rct_count: 0,
            lag_count: 0,
            window: Seq::new(512, |i: int| 0u8),
            pos: 0,
            filled: false,
            last_failure: 0,
        }
    }

    /// The state after observing `delta`, and the failures it raises.
    pub open spec fn observe(self, delta: u64) -> (HealthModel, u32) {
        let rct = if self.last_delta == Some(delta) {
            saturating_inc(self.rct_count)
        } else {
            0u32
        };
        let (delta2_abs, lag, lag_hit) = match self.last_delta {
            None => (self.last_delta2_abs, self.lag_count, false),
            Some(prev) => {
                let d2 = spec_abs_diff(prev, delta);
                if self.last_delta2_abs == Some(d2) {
                    (Some(d2), saturating_inc(self.lag_count), true)
                } else {
                    (Some(d2), 0u32, false)
                }
            },
        };
        let window = self.window.update(self.pos, (delta & 1) as u8);
        let wrapped = self.pos + 1 == 512;
        let filled = self.filled || wrapped;
        let ones = count_ones(window);
        let most = if ones >= 512 - ones {
            ones as int
        } else {
            512 - ones
        };
        let failure = failure_word(
            rct > RCT_CUTOFF,
            filled && most > APT_CUTOFF,
            lag_hit && lag > LAG_CUTOFF,
            rct > RCT_PERMANENT_CUTOFF,
            filled && most > APT_PERMANENT_CUTOFF,
            lag_hit && lag > LAG_PERMANENT_CUTOFF,
        );
        (
            HealthModel {
                last_delta: Some(delta),
                last_delta2_abs: delta2_abs,
                rct_count: rct,
                lag_count: lag,
                window,
                pos: if wrapped {
                    0
                } else {
                    self.pos + 1
                },
                filled,
                last_failure: failure,
            },
            failure,
        )
    }

    /// The state after observing `delta` `n` more times, and the failures
    /// of the last observation.
    pub open spec fn observe_repeated(self, delta: u64, n: nat) -> (HealthModel, u32)
        decreases n,
    {
        if n == 0 {
            (self, self.last_failure)
        } else {
            self.observe_repeated(delta, (n - 1) as nat).0.observe(delta)
        }
    }
}

/// The state of the runtime health tests.
#[derive(Debug)]
pub struct HealthState {
    last_delta: Option<u64>,
    last_delta2_abs: Option<u64>,
    rct_count: u32,
    lag_count: u32,
    apt: [u8; 512],
    apt_pos: usize,
    apt_filled: bool,
    last_failure: HealthFailure,
}

impl View for HealthState {
    type V = HealthModel;

    closed spec fn view(&self) -> HealthModel {
        HealthModel {
            last_delta: self.last_delta,
            last_delta2_abs: self.last_delta2_abs,
            rct_count: self.rct_count,
            lag_count: self.lag_count,
            window: self.apt@,
            pos: self.apt_pos as int,
            filled: self.apt_filled,
            last_failure: self.last_failure.0,
        }
    }
}

impl Clone for HealthState {
    fn clone(&self) -> (r: Self)
        ensures
            r@ == self@,
    {
        proof {
            use_type_invariant(self);
        }
        HealthState {
            last_delta: self.last_delta,
            last_delta2_abs: self.last_delta2_abs,
            rct_count: self.rct_count,
            lag_count: self.lag_count,
            apt: self.apt,
            apt_pos: self.apt_pos,
            apt_filled: self.apt_filled,
            last_failure: self.last_failure,
        }
    }
}

impl Default for HealthState {
    fn default() -> (r: Self)
        ensures
            r@ == HealthModel::initial(),
    {
        let r = HealthState {
            last_delta: None,
            last_delta2_abs: None,
            rct_count: 0,
            lag_count: 0,
            apt: [0u8; 512],
            apt_pos: 0,
            apt_filled: false,
            last_failure: HealthFailure(HealthFailure::NONE),
        };
        assert(r@.window =~= HealthModel::initial().window);
        r
    }
}

impl HealthState {
    #[verifier::type_invariant]
    spec fn inv(self) -> bool {
        self@.wf()
    }

    /// Counts the ones in the APT window.
    fn window_ones(&self) -> (r: usize)
        ensures
            r == count_ones(self@.window),
            r <= 512,
    {
        proof {
            use_type_invariant(self);
        }
        let mut ones: usize = 0;
        let mut i: usize = 0;
        while i < APT_WINDOW
            invariant
                self@.wf(),
                i <= 512,
                ones == count_ones(self@.window.take(i as int)),
                ones <= i,
            decreases 512 - i,
        {
            proof {
                assert(self@.window.take(i + 1).drop_last() =~= self@.window.take(i as int));
                assert(self@.window[i as int] <= 1);
            }
            ones = ones + self.apt[i] as usize;
            i = i + 1;
        }
        assert(self@.window.take(512) =~= self@.window);
        ones
    }

    /// Feeds one timing delta to every health test and returns the failures
    /// it raises.
    pub fn observe_delta(&mut self, delta: u64) -> (r: HealthFailure)
        ensures
            (final(self)@, r.0) == old(self)@.observe(delta),
            final(self)@.wf(),
    {
        proof {
            use_type_invariant(&*self);
        }
        let repeated = match self.last_delta {
            Some(d) => d == delta,
            None => false,
        };
        let rct: u32 = if repeated {
            self.rct_count.saturating_add(1)
        } else {
            0
        };
        self.rct_count = rct;
        let mut lag_hit = false;
        match self.last_delta {
            Some(prev) => {
                let d2 = if prev >= delta {
                    prev - delta
                } else {
                    delta - prev
                };
                let same = match self.last_delta2_abs {
                    Some(x) => x == d2,
                    None => false,
                };
                if same {
                    self.lag_count = self.lag_count.saturating_add(1);
                    lag_hit = true;
                } else {
                    self.lag_count = 0;
                }
                self.last_delta2_abs = Some(d2);
            },
            None => {},
        }
        let bit = (delta & 1) as u8;
        assert(bit <= 1) by (bit_vector)
            requires
                bit == (delta & 1) as u8,
        ;
        let pos = self.apt_pos;
        self.apt[pos] = bit;
        let next = pos + 1;
        if next == APT_WINDOW {
            self.apt_pos = 0;
            self.apt_filled = true;
        } else {
            self.apt_pos = next;
        }
        let mut apt_transient = false;
        let mut apt_permanent = false;
        if self.apt_filled {
            let ones = self.window_ones();
            let zeros = APT_WINDOW - ones;
            let most = if ones >= zeros {
                ones
            } else {
                zeros
            };
            apt_transient = most > APT_CUTOFF;
            apt_permanent = most > APT_PERMANENT_CUTOFF;
        }
        let lag = self.lag_count;
        let w: u32 = (if rct > RCT_CUTOFF {
            1u32
        } else {
            0u32
        }) | (if apt_transient {
            2u32
        } else {
            0u32
        }) | (if lag_hit && lag > LAG_CUTOFF {
            4u32
        } else {
            0u32
        }) | (if rct > RCT_PERMANENT_CUTOFF {
            0x1_0000u32
        } else {
            0u32
        }) | (if apt_permanent {
            0x2_0000u32
        } else {
            0u32
        }) | (if lag_hit && lag > LAG_PERMANENT_CUTOFF {
            0x4_0000u32
        } else {
            0u32
        });
        self.last_delta = Some(delta);
        self.last_failure = HealthFailure(w);
        proof {
            let o = old(self)@.observe(delta);
            assert(self@.window =~= o.0.window);
        }
        HealthFailure(w)
    }

    /// The failures raised by the most recent observation.
    pub fn last_failure(&self) -> (r: HealthFailure)
        ensures
            r.0 == self@.last_failure,
    {
        self.last_failure
    }
}

/// Which bits of a failure word are set.
pub proof fn lemma_failure_word_bits(a: bool, b: bool, c: bool, d: bool, e: bool, f: bool)
    ensures
        (failure_word(a, b, c, d, e, f) & 1 != 0) == a,
        (failure_word(a, b, c, d, e, f) & 2 != 0) == b,
        (failure_word(a, b, c, d, e, f) & 4 != 0) == c,
        (failure_word(a, b, c, d, e, f) & 0x1_0000 != 0) == d,
        (failure_word(a, b, c, d, e, f) & 0x2_0000 != 0) == e,
        (failure_word(a, b, c, d, e, f) & 0x4_0000 != 0) == f,
        (failure_word(a, b, c, d, e, f) == 0) == (!a && !b && !c && !d && !e && !f),
{
    let w = failure_word(a, b, c, d, e, f);
    assert(w == (if a { 1u32 } else { 0u32 }) | (if b { 2u32 } else { 0u32 }) | (if c {
        4u32
    } else {
        0u32
    }) | (if d { 0x1_0000u32 } else { 0u32 }) | (if e { 0x2_0000u32 } else { 0u32 }) | (if f {
        0x4_0000u32
    } else {
        0u32
    }));
    assert((w & 1 != 0) == a && (w & 2 != 0) == b && (w & 4 != 0) == c && (w & 0x1_0000 != 0)
        == d && (w & 0x2_0000 != 0) == e && (w & 0x4_0000 != 0) == f && (w == 0) == (!a && !b
        && !c && !d && !e && !f)) by (bit_vector)
        requires
            w == (if a { 1u32 } else { 0u32 }) | (if b { 2u32 } else { 0u32 }) | (if c {
                4u32
            } else {
                0u32
            }) | (if d { 0x1_0000u32 } else { 0u32 }) | (if e { 0x2_0000u32 } else { 0u32 })
                | (if f { 0x4_0000u32 } else { 0u32 }),
    ;
}

/// Every permanent failure that an observation raises comes with its
/// transient counterpart, and no other bits than those of the RCT, APT and
/// lag tests are ever raised.
pub proof fn lemma_permanent_implies_transient(m: HealthModel, delta: u64)
    ensures
        ({
            let w = m.observe(delta).1;
            &&& (w & 0x1_0000 != 0) ==> (w & 1 != 0)
            &&& (w & 0x2_0000 != 0) ==> (w & 2 != 0)
            &&& (w & 0x4_0000 != 0) ==> (w & 4 != 0)
            &&& w & 0xfff8_fff8 == 0
        }),
{
    let rct = m.observe(delta).0.rct_count;
    let lag = m.observe(delta).0.lag_count;
    let window = m.window.update(m.pos, (delta & 1) as u8);
    let filled = m.filled || m.pos + 1 == 512;
    let ones = count_ones(window);
    let most = if ones >= 512 - ones {
        ones as int
    } else {
        512 - ones
    };
    let lag_hit = m.last_delta is Some && m.last_delta2_abs == Some(
        spec_abs_diff(m.last_delta->0, delta),
    );
    let (a, b, c, d, e, f) = (
        rct > RCT_CUTOFF,
        filled && most > APT_CUTOFF,
        lag_hit && lag > LAG_CUTOFF,
        rct > RCT_PERMANENT_CUTOFF,
        filled && most > APT_PERMANENT_CUTOFF,
        lag_hit && lag > LAG_PERMANENT_CUTOFF,
    );
    assert(m.observe(delta).1 == failure_word(a, b, c, d, e, f));
    lemma_failure_word_bits(a, b, c, d, e, f);
    let w = failure_word(a, b, c, d, e, f);
    assert(w & 0xfff8_fff8 == 0) by (bit_vector)
        requires
            w == (if a { 1u32 } else { 0u32 }) | (if b { 2u32 } else { 0u32 }) | (if c {
                4u32
            } else {
                0u32
            }) | (if d { 0x1_0000u32 } else { 0u32 }) | (if e { 0x2_0000u32 } else { 0u32 })
                | (if f { 0x4_0000u32 } else { 0u32 }),
    ;
}

proof fn lemma_repeat_counts(m: HealthModel, delta: u64, n: nat)
    requires
        n >= 1,
    ensures
        m.observe_repeated(delta, n).0.last_delta == Some(delta),
        m.observe_repeated(delta, n).0.rct_count >= (if n - 1 <= u32::MAX {
            n - 1
        } else {
            u32::MAX as int
        }),
    decreases n,
{
    if n > 1 {
        lemma_repeat_counts(m, delta, (n - 1) as nat);
    }
}

/// The repetition count test: once the same delta has been observed 33 times
/// in a row, every further observation of it raises a transient RCT failure,
/// and from the 64th on a permanent one as well.
pub proof fn lemma_rct_fires_on_repetition(m: HealthModel, delta: u64, n: nat)
    requires
        n >= 33,
    ensures
        m.observe_repeated(delta, n).1 & 1 != 0,
        n >= 64 ==> m.observe_repeated(delta, n).1 & 0x1_0000 != 0,
{
    lemma_repeat_counts(m, delta, n);
    lemma_repeat_counts(m, delta, (n - 1) as nat);
    let prev = m.observe_repeated(delta, (n - 1) as nat).0;
    assert(m.observe_repeated(delta, n) == prev.observe(delta));
    lemma_permanent_implies_transient(prev, delta);
    let rct = prev.observe(delta).0.rct_count;
    let lag = prev.observe(delta).0.lag_count;
    let window = prev.window.update(prev.pos, (delta & 1) as u8);
    let filled = prev.filled || prev.pos + 1 == 512;
    let ones = count_ones(window);
    let most = if ones >= 512 - ones {
        ones as int
    } else {
        512 - ones
    };
    let lag_hit = prev.last_delta is Some && prev.last_delta2_abs == Some(
        spec_abs_diff(prev.last_delta->0, delta),
    );
    lemma_failure_word_bits(
        rct > RCT_CUTOFF,
        filled && most > APT_CUTOFF,
        lag_hit && lag > LAG_CUTOFF,
        rct > RCT_PERMANENT_CUTOFF,
        filled && most > APT_PERMANENT_CUTOFF,
        lag_hit && lag > LAG_PERMANENT_CUTOFF,
    );
}

proof fn lemma_count_ones_constant(n: nat, b: u8)
    requires
        b <= 1,
    ensures
        count_ones(Seq::new(n, |i: int| b)) == if b == 1 {
            n
        } else {
            0
        },
    decreases n,
{
    if n > 0 {
        assert(Seq::new(n, |i: int| b).drop_last() =~= Seq::new((n - 1) as nat, |i: int| b));
        lemma_count_ones_constant((n - 1) as nat, b);
    }
}

proof fn lemma_stuck_bit_window(delta: u64, k: nat)
    requires
        k <= 512,
    ensures
        ({
            let m = HealthModel::initial().observe_repeated(delta, k).0;
            &&& m.window.len() == 512
            &&& forall|i: int| 0 <= i < k ==> #[trigger] m.window[i] == (delta & 1) as u8
            &&& forall|i: int| k <= i < 512 ==> #[trigger] m.window[i] == 0u8
            &&& m.pos == if k == 512 {
                0
            } else {
                k as int
            }
            &&& m.filled == (k == 512)
        }),
    decreases k,
{
    if k > 0 {
        lemma_stuck_bit_window(delta, (k - 1) as nat);
    }
}

/// The adaptive proportion test: from a fresh state, a low bit that never
/// changes raises a permanent APT failure as soon as the 512-bit window has
/// filled.
pub proof fn lemma_apt_fires_on_stuck_bit(delta: u64)
    ensures
        HealthModel::initial().observe_repeated(delta, 512).1 & 0x2_0000 != 0,
        HealthModel::initial().observe_repeated(delta, 512).1 & 2 != 0,
{
    let b = (delta & 1) as u8;
    assert(b <= 1) by (bit_vector)
        requires
            b == (delta & 1) as u8,
    ;
    lemma_stuck_bit_window(delta, 511);
    let prev = HealthModel::initial().observe_repeated(delta, 511).0;
    assert(HealthModel::initial().observe_repeated(delta, 512) == prev.observe(delta));
    let window = prev.window.update(prev.pos, b);
    assert(window =~= Seq::new(512, |i: int| b));
    lemma_count_ones_constant(512, b);
    let rct = prev.observe(delta).0.rct_count;
    let lag = prev.observe(delta).0.lag_count;
    let lag_hit = prev.last_delta is Some && prev.last_delta2_abs == Some(
        spec_abs_diff(prev.last_delta->0, delta),
    );
    lemma_failure_word_bits(
        rct > RCT_CUTOFF,
        true,
        lag_hit && lag > LAG_CUTOFF,
        rct > RCT_PERMANENT_CUTOFF,
        true,
        lag_hit && lag > LAG_PERMANENT_CUTOFF,
    );
}

/// The health state and the failures of the last observation after
/// observing `ds`, in order, from the initial state.
pub open spec fn health_after(ds: Seq<u64>) -> (HealthModel, u32)
    decreases ds.len(),
{
    if ds.len() == 0 {
        (HealthModel::initial(), 0)
    } else {
        health_after(ds.drop_last()).0.observe(ds.last())
    }
}

/// The last `k + 1` entries of `s` are all equal.
pub open spec fn ends_with_run(s: Seq<u64>, k: nat) -> bool {
    &&& k < s.len()
    &&& forall|i: int| s.len() - 1 - k <= i < s.len() ==> #[trigger] s[i] == s.last()
}

/// The distances between consecutive deltas.
pub open spec fn second_diffs(ds: Seq<u64>) -> Seq<u64> {
    Seq::new((ds.len() - 1) as nat, |i: int| spec_abs_diff(ds[i], ds[i + 1]))
}

/// `c` counts the repetitions at the end of `s`, saturating at `u32::MAX`.
pub open spec fn counts_run(s: Seq<u64>, c: u32) -> bool {
    &&& ends_with_run(s, c as nat)
    &&& c < u32::MAX ==> !ends_with_run(s, (c + 1) as nat)
}

proof fn lemma_run_mono(s: Seq<u64>, j: nat, k: nat)
    requires
        j <= k,
        ends_with_run(s, k),
    ensures
        ends_with_run(s, j),
{
}

proof fn lemma_counts_run_push(s: Seq<u64>, c: u32, x: u64)
    requires
        s.len() > 0,
        counts_run(s, c),
    ensures
        counts_run(s.push(x), if s.last() == x { saturating_inc(c) } else { 0u32 }),
{
    let t = s.push(x);
    assert(t.last() == x);
    assert(forall|i: int| 0 <= i < s.len() ==> t[i] == s[i]);
    if s.last() == x {
        let c1 = saturating_inc(c);
        assert forall|i: int| t.len() - 1 - c1 <= i < t.len() implies #[trigger] t[i] == t.last() by {
            if i < s.len() {
                assert(s[i] == s.last());
            }
        }
        if c1 < u32::MAX {
            assert(c < u32::MAX);
            if ends_with_run(t, (c1 + 1) as nat) {
                assert forall|i: int| s.len() - 1 - (c + 1) <= i < s.len() implies #[trigger] s[i]
                    == s.last() by {
                    assert(t[i] == t.last());
                }
            }
        }
    } else {
        assert(t[t.len() - 2] == s.last());
    }
}

/// What the health state keeps of the deltas observed from the initial
/// state: the last one, the last distance, and the runs that the RCT and the
/// lag test count.
pub open spec fn tracks_history(h: HealthModel, ds: Seq<u64>) -> bool {
    &&& ds.len() == 0 ==> h.last_delta is None && h.last_delta2_abs is None && h.rct_count == 0
        && h.lag_count == 0
    &&& ds.len() > 0 ==> h.last_delta == Some(ds.last()) && counts_run(ds, h.rct_count)
    &&& ds.len() == 1 ==> h.last_delta2_abs is None && h.lag_count == 0
    &&& ds.len() >= 2 ==> h.last_delta2_abs == Some(second_diffs(ds).last()) && counts_run(
        second_diffs(ds),
        h.lag_count,
    )
}

proof fn lemma_history_tracked(ds: Seq<u64>)
    ensures
        tracks_history(health_after(ds).0, ds),
    decreases ds.len(),
{
    if ds.len() > 0 {
        let p = ds.drop_last();
        let d = ds.last();
        lemma_history_tracked(p);
        let h = health_after(p).0;
        assert(p.push(d) =~= ds);
        if p.len() == 0 {
            assert(forall|i: int| ds.len() - 1 - 0 <= i < ds.len() ==> #[trigger] ds[i] == ds.last());
        } else {
            lemma_counts_run_push(p, h.rct_count, d);
            let e = second_diffs(ds);
            let ep = second_diffs(p);
            assert(e.len() == p.len());
            if p.len() == 1 {
                assert(forall|i: int| e.len() - 1 - 0 <= i < e.len() ==> #[trigger] e[i] == e.last());
                assert(!ends_with_run(e, 1));
            } else {
                assert(ep.push(spec_abs_diff(p.last(), d)) =~= e);
                lemma_counts_run_push(ep, h.lag_count, spec_abs_diff(p.last(), d));
            }
        }
    }
}

proof fn lemma_last_observation_bits(ds: Seq<u64>)
    requires
        ds.len() > 0,
    ensures
        ({
            let h0 = health_after(ds.drop_last()).0;
            let (h, w) = health_after(ds);
            &&& (w & 1 != 0) == (h.rct_count > RCT_CUTOFF)
            &&& (w & 0x1_0000 != 0) == (h.rct_count > RCT_PERMANENT_CUTOFF)
            &&& (w & 4 != 0) == (h.lag_count > LAG_CUTOFF && h0.last_delta is Some
                && h0.last_delta2_abs == Some(spec_abs_diff(h0.last_delta->0, ds.last())))
            &&& (w & 0x4_0000 != 0) == (h.lag_count > LAG_PERMANENT_CUTOFF && h0.last_delta is Some
                && h0.last_delta2_abs == Some(spec_abs_diff(h0.last_delta->0, ds.last())))
            &&& h.lag_count > 0 ==> h0.last_delta is Some && h0.last_delta2_abs == Some(
                spec_abs_diff(h0.last_delta->0, ds.last()),
            )
        }),
{
    let h0 = health_after(ds.drop_last()).0;
    let delta = ds.last();
    lemma_history_tracked(ds.drop_last());
    let h = h0.observe(delta).0;
    let window = h0.window.update(h0.pos, (delta & 1) as u8);
    let filled = h0.filled || h0.pos + 1 == 512;
    let ones = count_ones(window);
    let most = if ones >= 512 - ones {
        ones as int
    } else {
        512 - ones
    };
    let lag_hit = h0.last_delta is Some && h0.last_delta2_abs == Some(
        spec_abs_diff(h0.last_delta->0, delta),
    );
    lemma_failure_word_bits(
        h.rct_count > RCT_CUTOFF,
        filled && most > APT_CUTOFF,
        lag_hit && h.lag_count > LAG_CUTOFF,
        h.rct_count > RCT_PERMANENT_CUTOFF,
        filled && most > APT_PERMANENT_CUTOFF,
        lag_hit && h.lag_count > LAG_PERMANENT_CUTOFF,
    );
}

/// The repetition count test over a whole history: after the deltas `ds`,
/// observed from the initial state, the last observation raises a transient
/// RCT failure exactly when the last 33 deltas are equal, and a permanent
/// one exactly when the last 64 are.
pub proof fn lemma_rct_window(ds: Seq<u64>)
    ensures
        (health_after(ds).1 & 1 != 0) == ends_with_run(ds, 32),
        (health_after(ds).1 & 0x1_0000 != 0) == ends_with_run(ds, 63),
{
    if ds.len() > 0 {
        lemma_history_tracked(ds);
        lemma_last_observation_bits(ds);
        let c = health_after(ds).0.rct_count;
        if c > RCT_CUTOFF {
            lemma_run_mono(ds, 32, c as nat);
        } else if ends_with_run(ds, 32) {
            lemma_run_mono(ds, (c + 1) as nat, 32);
        }
        if c > RCT_PERMANENT_CUTOFF {
            lemma_run_mono(ds, 63, c as nat);
        } else if ends_with_run(ds, 63) {
            lemma_run_mono(ds, (c + 1) as nat, 63);
        }
    } else {
        assert(0u32 & 1 == 0 && 0u32 & 0x1_0000 == 0) by (bit_vector);
    }
}

/// The lag test over a whole history: after the deltas `ds`, observed from
/// the initial state, the last observation raises a transient lag failure
/// exactly when the last 34 distances between consecutive deltas are equal,
/// and a permanent one exactly when the last 66 are.
pub proof fn lemma_lag_window(ds: Seq<u64>)
    ensures
        (health_after(ds).1 & 4 != 0) == (ds.len() >= 2 && ends_with_run(second_diffs(ds), 33)),
        (health_after(ds).1 & 0x4_0000 != 0) == (ds.len() >= 2 && ends_with_run(
            second_diffs(ds),
            65,
        )),
{
    if ds.len() > 0 {
        lemma_history_tracked(ds);
        lemma_last_observation_bits(ds);
        let c = health_after(ds).0.lag_count;
        if ds.len() >= 2 {
            let e = second_diffs(ds);
            if c > LAG_CUTOFF {
                lemma_run_mono(e, 33, c as nat);
            } else if ends_with_run(e, 33) {
                lemma_run_mono(e, (c + 1) as nat, 33);
            }
            if c > LAG_PERMANENT_CUTOFF {
                lemma_run_mono(e, 65, c as nat);
            } else if ends_with_run(e, 65) {
                lemma_run_mono(e, (c + 1) as nat, 65);
            }
        }
    } else {
        assert(0u32 & 4 == 0 && 0u32 & 0x4_0000 == 0) by (bit_vector);
    }
}

/// The low bits of `s`.
pub open spec fn low_bits(s: Seq<u64>) -> Seq<u8> {
    Seq::new(s.len(), |i: int| (s[i] & 1) as u8)
}

/// `l` rotated right by `p` places.
pub open spec fn rotated(l: Seq<u8>, p: int) -> Seq<u8> {
    Seq::new(l.len(), |j: int| if j < p { l[l.len() - p + j] } else { l[j - p] })
}

/// The APT window after the deltas `ds`: before 512 deltas, their low bits
/// followed by zeros; after, the low bits of the last 512 deltas in ring
/// order.
pub open spec fn apt_window_of(ds: Seq<u64>) -> Seq<u8> {
    if ds.len() < 512 {
        low_bits(ds) + Seq::new((512 - ds.len()) as nat, |i: int| 0u8)
    } else {
        rotated(low_bits(ds.subrange(ds.len() - 512, ds.len() as int)), ds.len() as int % 512)
    }
}

proof fn lemma_apt_window_tracked(ds: Seq<u64>)
    ensures
        health_after(ds).0.window == apt_window_of(ds),
        health_after(ds).0.pos == ds.len() as int % 512,
        health_after(ds).0.filled == (ds.len() >= 512),
    decreases ds.len(),
{
    if ds.len() == 0 {
        assert(apt_window_of(ds) =~= Seq::new(512, |i: int| 0u8));
    } else {
        let p = ds.drop_last();
        let d = ds.last();
        lemma_apt_window_tracked(p);
        let h = health_after(p).0;
        let n = p.len() as int;
        let b = (d & 1) as u8;
        assert(forall|i: int| 0 <= i < n ==> #[trigger] ds[i] == p[i]);
        if n < 511 {
            assert(h.window.update(n, b) =~= apt_window_of(ds));
        } else if n == 511 {
            assert(ds.subrange(0, 512) =~= ds);
            assert(h.window.update(n, b) =~= apt_window_of(ds));
        } else {
            let q = n % 512;
            let l = low_bits(p.subrange(n - 512, n));
            let l2 = low_bits(ds.subrange(n + 1 - 512, n + 1));
            assert forall|k: int| 0 <= k < 511 implies #[trigger] l2[k] == l[k + 1] by {}
            assert(l2[511] == b);
            assert(h.window.update(q, b) =~= apt_window_of(ds)) by {
                if q < 511 {
                    assert((n + 1) % 512 == q + 1);
                } else {
                    assert((n + 1) % 512 == 0);
                }
            }
        }
    }
}

proof fn lemma_count_ones_concat(a: Seq<u8>, b: Seq<u8>)
    ensures
        count_ones(a + b) == count_ones(a) + count_ones(b),
    decreases b.len(),
{
    if b.len() > 0 {
        lemma_count_ones_concat(a, b.drop_last());
        assert((a + b).drop_last() =~= a + b.drop_last());
    } else {
        assert(a + b =~= a);
    }
}

proof fn lemma_count_ones_rotated(l: Seq<u8>, p: int)
    requires
        0 <= p <= l.len(),
    ensures
        count_ones(rotated(l, p)) == count_ones(l),
{
    let hi = l.subrange(l.len() - p, l.len() as int);
    let lo = l.subrange(0, l.len() - p);
    assert(rotated(l, p) =~= hi + lo);
    assert(l =~= lo + hi);
    lemma_count_ones_concat(hi, lo);
    lemma_count_ones_concat(lo, hi);
}

/// The adaptive proportion test over a whole history: after the deltas
/// `ds`, observed from the initial state, the last observation raises an APT
/// failure only once 512 deltas have been seen, and then exactly when more
/// than 325 of the last 512 deltas share their low bit (a permanent one when
/// more than 450 do).
pub proof fn lemma_apt_window(ds: Seq<u64>)
    ensures
        ({
            let w = health_after(ds).1;
            let ones = count_ones(low_bits(ds.subrange(ds.len() - 512, ds.len() as int)));
            let most = if ones >= 512 - ones {
                ones as int
            } else {
                512 - ones
            };
            &&& (w & 2 != 0) == (ds.len() >= 512 && most > 325)
            &&& (w & 0x2_0000 != 0) == (ds.len() >= 512 && most > 450)
        }),
{
    if ds.len() == 0 {
        assert(0u32 & 2 == 0 && 0u32 & 0x2_0000 == 0) by (bit_vector);
    } else {
        lemma_apt_window_tracked(ds);
        let h0 = health_after(ds.drop_last()).0;
        lemma_apt_window_tracked(ds.drop_last());
        let delta = ds.last();
        let h = h0.observe(delta).0;
        let lag_hit = h0.last_delta is Some && h0.last_delta2_abs == Some(
            spec_abs_diff(h0.last_delta->0, delta),
        );
        let ones_w = count_ones(h.window);
        let most_w = if ones_w >= 512 - ones_w {
            ones_w as int
        } else {
            512 - ones_w
        };
        lemma_failure_word_bits(
            h.rct_count > RCT_CUTOFF,
            h.filled && most_w > APT_CUTOFF,
            lag_hit && h.lag_count > LAG_CUTOFF,
            h.rct_count > RCT_PERMANENT_CUTOFF,
            h.filled && most_w > APT_PERMANENT_CUTOFF,
            lag_hit && h.lag_count > LAG_PERMANENT_CUTOFF,
        );
        if ds.len() >= 512 {
            let l = low_bits(ds.subrange(ds.len() - 512, ds.len() as int));
            lemma_count_ones_rotated(l, ds.len() as int % 512);
        }
    }
}

} // verus!

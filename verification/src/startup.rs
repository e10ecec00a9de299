//! The startup test on the timer: statistics of the first timing deltas and
//! the verdict on them.

use vstd::prelude::*;
use crate::error::InitError;
use crate::health::spec_abs_diff;

verus! {

/// The greatest common divisor, by Euclid's recursion.
pub open spec fn spec_gcd(a: nat, b: nat) -> nat
    decreases b,
{
    if b == 0 {
        a
    } else {
        spec_gcd(b, a % b)
    }
}

/// `d` divides `n`.
pub open spec fn divides(d: nat, n: nat) -> bool {
    exists|k: nat| n == #[trigger] (d * k)
}

proof fn lemma_divides_mod(d: nat, a: nat, b: nat)
    requires
        b > 0,
        divides(d, a),
        divides(d, b),
    ensures
        divides(d, a % b),
{
    let ka = choose|k: nat| a == #[trigger] (d * k);
    let kb = choose|k: nat| b == #[trigger] (d * k);
    let q = a / b;
    let r = a % b;
    assert(a == b * q + r) by (nonlinear_arith)
        requires
            b > 0,
            q == a / b,
            r == a % b,
    ;
    if d == 0 {
        assert(a == 0 && b == 0) by (nonlinear_arith)
            requires
                a == d * ka,
                b == d * kb,
                d == 0,
        ;
    } else {
        assert(r == d * (ka - kb * q)) by (nonlinear_arith)
            requires
                a == d * ka,
                b == d * kb,
                a == b * q + r,
        ;
        assert(ka - kb * q >= 0) by (nonlinear_arith)
            requires
                r == d * (ka - kb * q),
                d > 0,
                r >= 0,
        ;
        let k: nat = (ka - kb * q) as nat;
        assert(r == d * k);
    }
}

proof fn lemma_divides_back(g: nat, a: nat, b: nat)
    requires
        b > 0,
        divides(g, b),
        divides(g, a % b),
    ensures
        divides(g, a),
{
    let kb = choose|k: nat| b == #[trigger] (g * k);
    let kr = choose|k: nat| a % b == #[trigger] (g * k);
    let q = a / b;
    assert(a == b * q + a % b) by (nonlinear_arith)
        requires
            b > 0,
            q == a / b,
    ;
    assert(a == g * (kb * q + kr)) by (nonlinear_arith)
        requires
            a == b * q + a % b,
            b == g * kb,
            a % b == g * kr,
    ;
    let k: nat = kb * q + kr;
    assert(a == g * k);
}

/// The greatest common divisor divides both arguments, and every common
/// divisor of them divides it: it is the greatest common divisor.
pub proof fn lemma_gcd_is_greatest_common_divisor(a: nat, b: nat, d: nat)
    ensures
        divides(spec_gcd(a, b), a),
        divides(spec_gcd(a, b), b),
        divides(d, a) && divides(d, b) ==> divides(d, spec_gcd(a, b)),
    decreases b,
{
    if b == 0 {
        assert(a == a * 1);
        assert(0 == a * 0);
    } else {
        lemma_gcd_is_greatest_common_divisor(b, a % b, d);
        lemma_divides_back(spec_gcd(a, b), a, b);
        if divides(d, a) && divides(d, b) {
            lemma_divides_mod(d, a, b);
        }
    }
}

/// Euclid's algorithm on `u64`.
pub fn gcd_u64(a: u64, b: u64) -> (r: u64)
    ensures
        r == spec_gcd(a as nat, b as nat),
{
    let mut a = a;
    let mut b = b;
    let ghost (a0, b0) = (a as nat, b as nat);
    while b != 0
        invariant
            spec_gcd(a as nat, b as nat) == spec_gcd(a0, b0),
        decreases b,
    {
        let r = a % b;
        a = b;
        b = r;
    }
    a
}

/// The statistics that the startup test keeps on the timing deltas.
pub struct StatsModel {
    /// Deltas that were not zero.
    pub nonzero: nat,
    /// Deltas that differed from the previous one (the first counts).
    pub variations: nat,
    /// Second differences that differed from the previous one (the first counts).
    pub var_of_var: nat,
    pub last_delta: Option<u64>,
    pub last_delta2_abs: Option<u64>,
    /// The greatest common divisor of the nonzero deltas (0 if none).
    pub gcd: u64,
}

impl StatsModel {
    pub open spec fn empty() -> StatsModel {
        StatsModel {
            nonzero: 0,
            variations: 0,
            var_of_var: 0,
            last_delta: None,
            last_delta2_abs: None,
            gcd: 0,
        }
    }

    /// The statistics after one more delta.
    pub open spec fn record(self, delta: u64) -> StatsModel {
        let (var_of_var, last_delta2_abs) = match self.last_delta {
            None => (self.var_of_var, self.last_delta2_abs),
            Some(ld) => {
                let d2 = spec_abs_diff(ld, delta);
                (
                    if self.last_delta2_abs != Some(d2) {
                        self.var_of_var + 1
                    } else {
                        self.var_of_var
                    },
                    Some(d2),
                )
            },
        };
        StatsModel {
            nonzero: if delta != 0 {
                self.nonzero + 1
            } else {
                self.nonzero
            },
            variations: if self.last_delta != Some(delta) {
                self.variations + 1
            } else {
                self.variations
            },
            var_of_var,
            last_delta: Some(delta),
            last_delta2_abs,
            gcd: if delta != 0 {
                spec_gcd(self.gcd as nat, delta as nat) as u64
            } else {
                self.gcd
            },
        }
    }

    /// The verdict of the startup test on these statistics.
    pub open spec fn verdict(self) -> Result<(), InitError> {
        if self.nonzero == 0 {
            Err(InitError::TimerTooCoarse)
        } else if self.gcd > 1 && self.variations <= 2 {
            Err(InitError::Gcd)
        } else if self.variations < 2 {
            Err(InitError::MinimalVariation)
        } else if self.var_of_var == 0 {
            Err(InitError::VariationOfVariationMissing)
        } else if self.var_of_var < 2 {
            Err(InitError::MinimalVariationOfVariation)
        } else {
            Ok(())
        }
    }
}

/// The statistics of a sequence of deltas.
pub open spec fn stats_of(deltas: Seq<u64>) -> StatsModel
    decreases deltas.len(),
{
    if deltas.len() == 0 {
        StatsModel::empty()
    } else {
        stats_of(deltas.drop_last()).record(deltas.last())
    }
}

/// Statistics of the startup deltas.
pub struct StartupStats {
    nonzero: usize,
    variations: usize,
    var_of_var: usize,
    last_delta: Option<u64>,
    last_delta2_abs: Option<u64>,
    gcd: u64,
}

impl View for StartupStats {
    type V = StatsModel;

    closed spec fn view(&self) -> StatsModel {
        StatsModel {
            nonzero: self.nonzero as nat,
            variations: self.variations as nat,
            var_of_var: self.var_of_var as nat,
            last_delta: self.last_delta,
            last_delta2_abs: self.last_delta2_abs,
            gcd: self.gcd,
        }
    }
}

impl StartupStats {
    pub fn new() -> (r: StartupStats)
        ensures
            r@ == StatsModel::empty(),
    {
        StartupStats {
            nonzero: 0,
            variations: 0,
            var_of_var: 0,
            last_delta: None,
            last_delta2_abs: None,
            gcd: 0,
        }
    }

    /// Records one timing delta.
    pub fn record(&mut self, delta: u64)
        requires
            old(self)@.nonzero < usize::MAX,
            old(self)@.variations < usize::MAX,
            old(self)@.var_of_var < usize::MAX,
        ensures
            final(self)@ == old(self)@.record(delta),
    {
        if delta != 0 {
            self.nonzero = self.nonzero + 1;
            self.gcd = gcd_u64(self.gcd, delta);
            proof {
                lemma_gcd_bounded(old(self).gcd as nat, delta as nat);
            }
        }
        let same = match self.last_delta {
            Some(ld) => ld == delta,
            None => false,
        };
        if !same {
            self.variations = self.variations + 1;
        }
        match self.last_delta {
            Some(ld) => {
                let d2 = if ld >= delta {
                    ld - delta
                } else {
                    delta - ld
                };
                let same2 = match self.last_delta2_abs {
                    Some(x) => x == d2,
                    None => false,
                };
                if !same2 {
                    self.var_of_var = self.var_of_var + 1;
                }
                self.last_delta2_abs = Some(d2);
            },
            None => {},
        }
        self.last_delta = Some(delta);
    }

    /// The verdict of the startup test on the deltas recorded so far.
    pub fn verdict(&self) -> (r: Result<(), InitError>)
        ensures
            r == self@.verdict(),
    {
        if self.nonzero == 0 {
            return Err(InitError::TimerTooCoarse);
        }
        if self.gcd > 1 && self.variations <= 2 {
            return Err(InitError::Gcd);
        }
        if self.variations < 2 {
            return Err(InitError::MinimalVariation);
        }
        if self.var_of_var == 0 {
            return Err(InitError::VariationOfVariationMissing);
        }
        if self.var_of_var < 2 {
            return Err(InitError::MinimalVariationOfVariation);
        }
        Ok(())
    }
}

proof fn lemma_gcd_bounded(a: nat, b: nat)
    requires
        b > 0,
    ensures
        spec_gcd(a, b) <= b,
        spec_gcd(a, b) > 0,
    decreases b,
{
    lemma_gcd_is_greatest_common_divisor(a, b, 0);
    let g = spec_gcd(a, b);
    let k = choose|k: nat| b == #[trigger] (g * k);
    assert(g <= b && g > 0) by (nonlinear_arith)
        requires
            b == g * k,
            b > 0,
    ;
}

/// A timer that never advances fails the startup test as too coarse.
pub proof fn lemma_frozen_timer_rejected(deltas: Seq<u64>)
    requires
        forall|i: int| 0 <= i < deltas.len() ==> deltas[i] == 0,
    ensures
        stats_of(deltas).nonzero == 0,
        stats_of(deltas).verdict() == Err::<(), InitError>(InitError::TimerTooCoarse),
    decreases deltas.len(),
{
    if deltas.len() > 0 {
        lemma_frozen_timer_rejected(deltas.drop_last());
    }
}

proof fn lemma_constant_step_stats(d: u64, n: nat)
    requires
        d > 0,
        n >= 1,
    ensures
        ({
            let st = stats_of(Seq::new(n, |i: int| d));
            &&& st.nonzero == n
            &&& st.variations == 1
            &&& st.gcd == d
            &&& st.last_delta == Some(d)
            &&& st.var_of_var <= 1
            &&& n >= 2 ==> st.last_delta2_abs == Some(0u64)
            &&& n == 1 ==> st.last_delta2_abs is None && st.var_of_var == 0
        }),
    decreases n,
{
    let s = Seq::new(n, |i: int| d);
    assert(s.drop_last() =~= Seq::new((n - 1) as nat, |i: int| d));
    if n == 1 {
        assert(s.drop_last() =~= Seq::<u64>::empty());
        assert(spec_gcd(0, d as nat) == spec_gcd(d as nat, 0));
    } else {
        lemma_constant_step_stats(d, (n - 1) as nat);
        assert(spec_gcd(d as nat, d as nat) == spec_gcd(d as nat, 0)) by {
            assert((d as nat) % (d as nat) == 0) by (nonlinear_arith)
                requires
                    d > 0,
            ;
        }
    }
}

/// A timer that advances by the same step every time fails the startup
/// test: on the greatest common divisor when the step is above 1, for lack
/// of variation when it is 1.
pub proof fn lemma_constant_step_rejected(d: u64, n: nat)
    requires
        d > 0,
        n >= 1,
    ensures
        stats_of(Seq::new(n, |i: int| d)).verdict() == if d > 1 {
            Err::<(), InitError>(InitError::Gcd)
        } else {
            Err::<(), InitError>(InitError::MinimalVariation)
        },
{
    lemma_constant_step_stats(d, n);
}

/// What the statistics keep between deltas: no variation before the first
/// delta, at most one before the first second difference, and at least one
/// variation of variation after it.
pub open spec fn stats_consistent(s: StatsModel) -> bool {
    &&& s.last_delta is None ==> s.variations == 0 && s.last_delta2_abs is None
    &&& s.last_delta2_abs is None ==> s.variations <= 1
    &&& s.last_delta2_abs is Some ==> s.var_of_var >= 1
}

pub proof fn lemma_record_consistent(s: StatsModel, delta: u64)
    requires
        stats_consistent(s),
    ensures
        stats_consistent(s.record(delta)),
{
}

/// Consistent statistics never give the verdict that the variation of
/// variation is missing: the first second difference always counts.
pub proof fn lemma_consistent_verdict(s: StatsModel)
    requires
        stats_consistent(s),
    ensures
        s.verdict() != Err::<(), InitError>(InitError::VariationOfVariationMissing),
{
}

/// The statistics of any sequence of deltas are consistent, so the startup
/// verdict is never that the variation of variation is missing.
pub proof fn lemma_variation_of_variation_never_missing(deltas: Seq<u64>)
    ensures
        stats_consistent(stats_of(deltas)),
        stats_of(deltas).verdict() != Err::<(), InitError>(InitError::VariationOfVariationMissing),
    decreases deltas.len(),
{
    if deltas.len() > 0 {
        lemma_variation_of_variation_never_missing(deltas.drop_last());
        lemma_record_consistent(stats_of(deltas.drop_last()), deltas.last());
    }
    lemma_consistent_verdict(stats_of(deltas));
}

/// A timer whose deltas vary enough passes the startup test, whatever
/// factor its deltas share: with some nonzero delta, more than two
/// variations and at least two variations of variation, the verdict is
/// `Ok`.
pub proof fn lemma_varied_timer_passes(s: StatsModel)
    requires
        s.nonzero > 0,
        s.variations > 2,
        s.var_of_var >= 2,
    ensures
        s.verdict() == Ok::<(), InitError>(()),
{
}

/// The startup test refuses a timer for the common factor of its deltas
/// only where they share a factor above 1 and vary at most twice.
pub proof fn lemma_gcd_refusal_needs_little_variation(s: StatsModel)
    ensures
        s.verdict() == Err::<(), InitError>(InitError::Gcd) ==> s.gcd > 1 && s.variations <= 2
            && s.nonzero > 0,
{
}

/// The startup verdict passes exactly the timers with some nonzero delta,
/// at least two variations of variation, and at least two variations, or
/// more than two where the deltas share a factor above 1.
pub proof fn lemma_verdict_passes_exactly(s: StatsModel)
    ensures
        (s.verdict() is Ok) == (s.nonzero > 0 && s.var_of_var >= 2 && s.variations >= 2 && (
        s.gcd <= 1 || s.variations > 2)),
        (s.verdict() == Err::<(), InitError>(InitError::TimerTooCoarse)) == (s.nonzero == 0),
{
}

} // verus!

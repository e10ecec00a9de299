//! Timer abstraction used by the collector.

use vstd::prelude::*;

verus! {

/// High-resolution timer abstraction used by the collector.
///
/// The timer is intentionally stateful: embedded platforms may need to keep
/// MMIO state, calibration state, or callback state behind the timer object.
/// `None` means that no timestamp can be had.
pub trait Timer {
    /// The timer gives a timestamp on every call. Nothing is assumed of a
    /// timer that does not say so.
    open spec fn always_reads(&self) -> bool {
        false
    }

    /// The timer keeps a log of what its calls returned. Nothing is assumed
    /// of a timer that does not say so.
    open spec fn keeps_log(&self) -> bool {
        false
    }

    /// What the calls of `now` returned, in order, for a timer that keeps a
    /// log.
    open spec fn log(&self) -> Seq<Option<u64>> {
        Seq::empty()
    }

    fn now(&mut self) -> (r: Option<u64>)
        ensures
            old(self).always_reads() ==> r is Some && final(self).always_reads(),
            old(self).keeps_log() ==> final(self).keeps_log() && final(self).log() == old(
                self,
            ).log().push(r),
    ;
}

/// Every entry is a timestamp.
pub open spec fn all_some(s: Seq<Option<u64>>) -> bool {
    forall|i: int| 0 <= i < s.len() ==> #[trigger] s[i] is Some
}

/// The timer went from `t0` to `t1` through calls that returned `calls`:
/// all timestamps where it always reads, and appended to its log where it
/// keeps one.
pub open spec fn timer_advanced<T: Timer>(t0: T, t1: T, calls: Seq<Option<u64>>) -> bool {
    &&& t0.always_reads() ==> t1.always_reads() && all_some(calls)
    &&& t0.keeps_log() ==> t1.keeps_log() && t1.log() == t0.log() + calls
}

pub proof fn lemma_advanced_none<T: Timer>(t: T)
    ensures
        timer_advanced(t, t, Seq::empty()),
{
    assert(t.log() + Seq::<Option<u64>>::empty() =~= t.log());
}

pub proof fn lemma_advanced_call<T: Timer>(t0: T, t1: T, r: Option<u64>)
    requires
        t0.always_reads() ==> r is Some && t1.always_reads(),
        t0.keeps_log() ==> t1.keeps_log() && t1.log() == t0.log().push(r),
    ensures
        timer_advanced(t0, t1, seq![r]),
{
    assert(t0.log().push(r) =~= t0.log() + seq![r]);
}

pub proof fn lemma_advanced_trans<T: Timer>(t0: T, t1: T, t2: T, a: Seq<Option<u64>>, b: Seq<Option<u64>>)
    requires
        timer_advanced(t0, t1, a),
        timer_advanced(t1, t2, b),
    ensures
        timer_advanced(t0, t2, a + b),
{
    assert(t0.log() + a + b =~= t0.log() + (a + b));
    if t0.always_reads() {
        assert forall|i: int| 0 <= i < (a + b).len() implies #[trigger] (a + b)[i] is Some by {
            if i < a.len() {
                assert(a[i] is Some);
            } else {
                assert(b[i - a.len()] is Some);
            }
        }
    }
}

/// The platform's own clock.
#[derive(Clone, Debug, Default)]
pub struct PlatformTimer;

impl Timer for PlatformTimer {
    open spec fn always_reads(&self) -> bool {
        true
    }

    /// Always a timestamp: the platform clock's reading.
    fn now(&mut self) -> (r: Option<u64>)
        ensures
            r is Some,
    {
        platform_now()
    }
}

/// Reads the platform clock through `SystemTime::elapsed` on the Unix epoch:
/// the nanoseconds since the epoch, truncated to 64 bits, and 0 where the
/// clock reads before the epoch. The contract states that a reading is
/// always returned; nothing is stated of its value: it is the time.
#[verifier::external_body]
pub fn platform_now() -> (r: Option<u64>)
    ensures
        r is Some,
{
    match std::time::UNIX_EPOCH.elapsed() {
        Ok(d) => Some(d.as_nanos() as u64),
        Err(_) => Some(0),
    }
}

/// A timer whose timestamps come from a caller-supplied closure.
#[derive(Clone, Copy)]
pub struct CallbackTimer<F: FnMut() -> u64> {
    f: F,
    calls: Ghost<Seq<Option<u64>>>,
}

impl<F: FnMut() -> u64> CallbackTimer<F> {
    /// The closure that this timer calls.
    pub closed spec fn callback(self) -> F {
        self.f
    }

    pub fn new(f: F) -> (r: Self)
        ensures
            r.callback() == f,
            r.keeps_log(),
            r.log() == Seq::<Option<u64>>::empty(),
    {
        CallbackTimer { f, calls: Ghost(Seq::empty()) }
    }
}

/// Calls the caller's timestamp closure. Nothing is stated of what it
/// returns: it is the caller's code.
#[verifier::external_body]
fn invoke_callback<F: FnMut() -> u64>(f: &mut F) -> u64 {
    f()
}

impl<F: FnMut() -> u64> Timer for CallbackTimer<F> {
    open spec fn always_reads(&self) -> bool {
        true
    }

    open spec fn keeps_log(&self) -> bool {
        true
    }

    closed spec fn log(&self) -> Seq<Option<u64>> {
        self.calls@
    }

    /// Always a timestamp: the one the closure returns.
    fn now(&mut self) -> (r: Option<u64>)
        ensures
            r is Some,
    {
        let r = Some(invoke_callback(&mut self.f));
        self.calls = Ghost(self.calls@.push(r));
        r
    }
}

} // verus!

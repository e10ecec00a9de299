use vstd::prelude::*;

verus! {

/// A high-resolution timer. Nothing is assumed of the values it returns
/// beyond what `may_read` says.
pub trait HighResTimer {
    /// `t` is a value that a call of `now` may return. Nothing is assumed
    /// of a timer that does not say so.
    open spec fn may_read(&self, t: u64) -> bool {
        true
    }

    fn now(&self) -> (r: u64)
        ensures
            self.may_read(r),
    ;
}

/// A timer whose timestamps come from a caller-supplied closure.
pub struct CallbackTimer<F> where F: Fn() -> u64 {
    f: F,
}

impl<F> CallbackTimer<F> where F: Fn() -> u64 {
    /// The closure that this timer calls.
    pub closed spec fn callback(self) -> F {
        self.f
    }

    /// The closure may be called with no arguments at any time.
    #[verifier::type_invariant]
    spec fn callable(self) -> bool {
        call_requires(self.f, ())
    }

    pub fn new(f: F) -> (r: Self)
        requires
            call_requires(f, ()),
        ensures
            r.callback() == f,
    {
        CallbackTimer { f }
    }
}

impl<F> HighResTimer for CallbackTimer<F> where F: Fn() -> u64 {
    open spec fn may_read(&self, t: u64) -> bool {
        call_ensures(self.callback(), (), t)
    }

    /// What one call of the closure returns.
    fn now(&self) -> (r: u64)
        ensures
            call_ensures(self.callback(), (), r),
    {
        proof {
            use_type_invariant(self);
        }
        (self.f)()
    }
}

} // verus!

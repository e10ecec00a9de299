# jitterentropy

A CPU timing-jitter entropy collector whose logic is verified with Verus.

The collector times small units of work with a timer, folds the timing
differences into samples, runs health tests on them (repetition count,
adaptive proportion and lag tests), stirs a memory buffer, and conditions the
samples with SHAKE256 into 64-byte output blocks. Before a collector is handed
out, a startup test checks the timer on 1024 deltas.

Every operation is stated over an abstract model (`src/model.rs`) as a
function of the timer readings it consumed, with SHAKE256 named as an
uninterpreted function of the absorbed bytes. The readings are tied to the
timer through its contract: a timer that always reads (the platform clock, a
callback) gives only timestamps, and a timer that keeps a log (a callback
timer) has exactly the consumed readings appended to it, in order. Where the
timer promises neither, the readings are whatever its calls returned, which
the contracts do not pin down.

Layout:

- `src/flags.rs`, `src/health.rs`, `src/startup.rs`, `src/memory.rs`: the
  flags word, the health tests, the startup statistics and the memory noise
  source, each with its model and laws.
- `src/model.rs`: the abstract collector and the laws over reads.
- `src/collector.rs`: the collector and its builder.
- `src/conditioner.rs`, `src/sponge.rs`, `src/barrier.rs`: the SHA-3 and
  zeroization calls, behind trusted wrappers.
- `src/jent_core*`, `src/jent_platform.rs`, `src/jent_ffi.rs`: the smaller
  `no_std`-style variant with a stuck test and pluggable conditioners.
- `app/`: the C interface (raw pointers), which stays unverified.

The output is not certified entropy: conditioning cannot add entropy that the
timer does not provide.

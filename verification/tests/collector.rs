use jitterentropy::{EntropyCollector, Flags, Timer};

#[derive(Clone)]
struct CounterTimer {
    t: u64,
    state: u64,
}

impl CounterTimer {
    fn new() -> Self {
        Self {
            t: 0,
            state: 0x1234_5678_9abc_def0,
        }
    }
}

impl Timer for CounterTimer {
    fn now(&mut self) -> Option<u64> {
        self.state ^= self.state << 13;
        self.state ^= self.state >> 7;
        self.state ^= self.state << 17;
        self.t = self.t.wrapping_add(37 + (self.state & 0x1f));
        Some(self.t)
    }
}

#[test]
fn collector_builds_with_counter_timer() {
    let mut ec = EntropyCollector::with_timer(
        1,
        Flags(Flags::DISABLE_MEMORY_ACCESS),
        None,
        CounterTimer::new(),
    )
    .unwrap();
    let mut out = [0u8; 32];
    ec.fill_bytes(&mut out).unwrap();
    assert!(out.iter().any(|&b| b != 0));
}

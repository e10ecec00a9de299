use jitterentropy::ffi::{c_string_for_buffer, safe_read_result, safe_read_retries};
use jitterentropy::{EntropyCollector, Flags, Timer};

#[derive(Clone)]
struct JitterTimer {
    t: u64,
    state: u64,
}

impl Timer for JitterTimer {
    fn now(&mut self) -> Option<u64> {
        self.state ^= self.state << 13;
        self.state ^= self.state >> 7;
        self.state ^= self.state << 17;
        self.t = self.t.wrapping_add(37 + (self.state & 0x1f));
        Some(self.t)
    }
}

#[test]
fn status_to_json_is_exact() {
    let ec = EntropyCollector::with_timer(
        4,
        Flags(Flags::DISABLE_MEMORY_ACCESS | Flags::FORCE_FIPS | (1 << Flags::HASHLOOP_SHIFT)),
        None,
        JitterTimer { t: 0, state: 0x1234_5678_9abc_def0 },
    )
    .unwrap();
    let s = ec.status();
    assert_eq!(s.version, 3_070_100);
    assert_eq!(ec.version(), 3_070_100);
    assert_eq!(
        s.to_json(),
        format!(
            "{{\"version\":3070100,\"osr\":4,\"flags\":{},\"fips_enabled\":true,\"ntg1_enabled\":false,\"memory_access_enabled\":false,\"memory_size\":0,\"hash_loop_count\":2,\"last_health_failure\":{}}}",
            0x0100_0024u32, s.last_health_failure
        )
    );
}

#[test]
fn c_string_is_cut_to_the_buffer() {
    assert_eq!(c_string_for_buffer(b"hello", 10), b"hello\0".to_vec());
    assert_eq!(c_string_for_buffer(b"hello", 4), b"hel\0".to_vec());
    assert_eq!(c_string_for_buffer(b"hello", 1), b"\0".to_vec());
    assert_eq!(c_string_for_buffer(b"hello", 6), b"hello\0".to_vec());
}

#[test]
fn safe_read_retries_only_after_an_error() {
    assert!(!safe_read_retries(0));
    assert!(!safe_read_retries(32));
    assert!(safe_read_retries(-2));
    assert_eq!(safe_read_result(32, Some(-1)), 32);
    assert_eq!(safe_read_result(-3, Some(16)), 16);
    assert_eq!(safe_read_result(-3, None), -3);
}

use std::cell::Cell;
use std::rc::Rc;
use jitterentropy::{EntropyCollectorBuilder, Flags};

#[test]
fn callback_timer_can_drive_collector() {
    let mut t = 0u64;
    let mut state = 0x6a09_e667_f3bc_c909u64;

    let mut ec = EntropyCollectorBuilder::new()
        .flags(Flags(Flags::DISABLE_MEMORY_ACCESS))
        .build_with_callback(move || {
            state ^= state << 13;
            state ^= state >> 7;
            state ^= state << 17;
            t = t.wrapping_add(37 + (state & 0x3f));
            t
        })
        .unwrap();

    let mut out = [0u8; 64];
    ec.fill_bytes(&mut out).unwrap();
    assert!(out.iter().any(|&b| b != 0));
}

#[test]
fn reads_cost_two_timer_calls_per_sample() {
    let calls = Rc::new(Cell::new(0u64));
    let seen = calls.clone();
    let mut t = 0u64;
    let mut state = 0x6a09_e667_f3bc_c909u64;
    let mut ec = EntropyCollectorBuilder::new()
        .osr(3)
        .flags(Flags(Flags::DISABLE_MEMORY_ACCESS))
        .build_with_callback(move || {
            seen.set(seen.get() + 1);
            state ^= state << 13;
            state ^= state >> 7;
            state ^= state << 17;
            t = t.wrapping_add(37 + (state & 0x3f));
            t
        })
        .unwrap();
    // the first reading, then the startup test's 1025
    assert_eq!(calls.get(), 1026);
    let mut out = [0u8; 130];
    ec.fill_bytes(&mut out).unwrap();
    assert_eq!(calls.get(), 1026 + 2 * 3 * 3);
    let mut empty = [0u8; 0];
    ec.fill_bytes(&mut empty).unwrap();
    assert_eq!(calls.get(), 1026 + 2 * 3 * 3);
}

use jitterentropy::bits::{rotl64, rotl8, rotr64, u32_to_le_bytes, u64_to_le_bytes};
use jitterentropy::memory::MemoryNoise;

#[test]
fn memory_noise_sizes() {
    assert!(MemoryNoise::new(0).is_none());
    assert!(MemoryNoise::new(3).is_none());
    assert!(MemoryNoise::new(4097).is_none());
    let m = MemoryNoise::new(4096).unwrap();
    assert_eq!(m.len(), 4096);
    assert_eq!(MemoryNoise::new(1).unwrap().len(), 1);
}

#[test]
fn memory_noise_trace() {
    let mut m = MemoryNoise::new(16).unwrap();
    let t = m.disturb(5, 3);
    assert_eq!(t.len(), 24);
    // first visit: cell 5, old 0, new 0 + rotl8(5, 1) + 1 = 11
    assert_eq!(&t[..8], &[0, 11, 5, 0, 0, 0, 0, 0]);
    // next cell: (5 * 1103515245 + 12345) & 15
    let next = (5usize.wrapping_mul(1_103_515_245).wrapping_add(12_345)) & 15;
    assert_eq!(t[10] as usize, next);
}

#[test]
fn bit_helpers() {
    assert_eq!(rotl64(0x8000_0000_0000_0001, 1), 3);
    assert_eq!(rotr64(3, 1), 0x8000_0000_0000_0001);
    assert_eq!(rotl8(0x81, 1), 0x03);
    assert_eq!(u64_to_le_bytes(0x0102_0304_0506_0708), [8, 7, 6, 5, 4, 3, 2, 1]);
    assert_eq!(u32_to_le_bytes(0x0102_0304), [4, 3, 2, 1]);
}

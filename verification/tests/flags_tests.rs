use jitterentropy::{Flags, HashLoop, MemoryLimit};

#[test]
fn flags_contains_is_subset_test() {
    let f = Flags(Flags::FORCE_FIPS) | Flags(Flags::NTG1);
    assert!(f.contains(Flags(Flags::FORCE_FIPS)));
    assert!(f.contains(Flags(Flags::NTG1)));
    assert!(f.contains(Flags(Flags::FORCE_FIPS | Flags::NTG1)));
    assert!(!f.contains(Flags(Flags::FORCE_FIPS | Flags::CACHE_ALL)));
    assert!(f.contains(Flags::empty()));
    assert_eq!(f.bits(), 0x60);
}

#[test]
fn flags_bitor_assign_sets_bits() {
    let mut f = Flags::empty();
    f |= Flags(Flags::DISABLE_STIR);
    f |= Flags(Flags::CACHE_ALL);
    assert_eq!(f.bits(), 0x81);
}

#[test]
fn hash_loop_decodes_three_bits() {
    assert_eq!(Flags(0).hash_loop(), HashLoop::X1);
    assert_eq!(Flags(3 << Flags::HASHLOOP_SHIFT).hash_loop(), HashLoop::X8);
    assert_eq!(Flags(Flags::HASHLOOP_MASK).hash_loop(), HashLoop::X128);
    assert_eq!(Flags(Flags::HASHLOOP_MASK).hash_loop().count(), 128);
    assert_eq!(HashLoop::X1.count(), 1);
    assert_eq!(HashLoop::X16.count(), 16);
    assert_eq!(HashLoop::X64.count(), 64);
}

#[test]
fn memory_limit_decodes_and_clamps() {
    assert_eq!(Flags(0).memory_limit(), MemoryLimit::Auto);
    assert_eq!(Flags(1 << Flags::MEMSIZE_SHIFT).memory_limit(), MemoryLimit::KiB(1024));
    assert_eq!(MemoryLimit::from_raw(0), MemoryLimit::Auto);
    assert_eq!(MemoryLimit::from_raw(1), MemoryLimit::KiB(1 << 10));
    assert_eq!(MemoryLimit::from_raw(21), MemoryLimit::KiB(1 << 30));
    assert_eq!(MemoryLimit::from_raw(22), MemoryLimit::KiB(1 << 30));
    assert_eq!(MemoryLimit::from_raw(u32::MAX), MemoryLimit::KiB(1 << 30));
    assert_eq!(Flags(Flags::MEMSIZE_MASK).memory_limit(), MemoryLimit::KiB(1 << 30));
}

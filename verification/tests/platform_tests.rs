use jitterentropy::timer::platform_now;
use jitterentropy::{EntropyCollector, EntropyCollectorBuilder, Flags};

#[test]
fn platform_clock_reads() {
    let a = platform_now().unwrap();
    let b = platform_now().unwrap();
    assert!(b >= a);
}

#[test]
fn platform_collector_reads() {
    let mut ec = EntropyCollectorBuilder::new().osr(1).flags(Flags::empty()).build().unwrap();
    let mut bytes = [0u8; 32];
    ec.fill_bytes(&mut bytes).unwrap();
    assert!(bytes.iter().any(|&b| b != 0));
    let ec2 = EntropyCollector::new(1, Flags(Flags::DISABLE_MEMORY_ACCESS)).unwrap();
    assert_eq!(ec2.status().memory_size, 0);
}

use jitterentropy::{InitError, ReadError};

#[test]
fn read_error_codes_match_c_interface() {
    let all = [
        (ReadError::NullCollector, -1),
        (ReadError::Rct, -2),
        (ReadError::Apt, -3),
        (ReadError::TimerUnavailable, -4),
        (ReadError::Lag, -5),
        (ReadError::RctPermanent, -6),
        (ReadError::AptPermanent, -7),
        (ReadError::LagPermanent, -8),
        (ReadError::RctMemory, -9),
        (ReadError::RctMemoryPermanent, -10),
        (ReadError::OutputTooLarge, -11),
    ];
    for (e, c) in all {
        assert_eq!(e.c_code(), c);
    }
}

#[test]
fn init_error_codes_match_c_interface() {
    let all = [
        (InitError::TimerUnavailable, 1),
        (InitError::TimerTooCoarse, 2),
        (InitError::TimerNotMonotonic, 3),
        (InitError::MinimalVariation, 4),
        (InitError::VariationOfVariationMissing, 5),
        (InitError::MinimalVariationOfVariation, 6),
        (InitError::ProgrammingError, 7),
        (InitError::Stuck, 8),
        (InitError::Health, 9),
        (InitError::Rct, 10),
        (InitError::Hash, 11),
        (InitError::Memory, 12),
        (InitError::Gcd, 13),
    ];
    for (e, c) in all {
        assert_eq!(e.c_code(), c);
    }
}

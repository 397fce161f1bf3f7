use worldgen::world::power::{level_is_finite, level_is_number, level_rank, INFINITY_BITS, SIGN_BIT};

const SAMPLES: [f64; 15] = [
    f64::NEG_INFINITY,
    f64::MIN,
    -1.0e10,
    -2.5,
    -1.0,
    -f64::MIN_POSITIVE,
    -5e-324,
    0.0,
    5e-324,
    f64::MIN_POSITIVE,
    0.9,
    1.0,
    1.1,
    f64::MAX,
    f64::INFINITY,
];

#[test]
fn rank_orders_levels_as_numbers_are_ordered() {
    for a in SAMPLES.iter() {
        for b in SAMPLES.iter() {
            let ranks = (level_rank(a.to_bits()), level_rank(b.to_bits()));
            assert_eq!(ranks.0 < ranks.1, a < b, "{} against {}", a, b);
            assert_eq!(ranks.0 == ranks.1, a == b, "{} against {}", a, b);
        }
    }
}

#[test]
fn both_zeros_have_rank_zero() {
    assert_eq!(level_rank(0.0f64.to_bits()), 0);
    assert_eq!(level_rank((-0.0f64).to_bits()), 0);
}

#[test]
fn rank_of_one_is_its_bit_pattern() {
    assert_eq!(level_rank(1.0f64.to_bits()), 0x3FF0_0000_0000_0000);
    assert_eq!(level_rank((-1.0f64).to_bits()), -0x3FF0_0000_0000_0000);
}

#[test]
fn finite_levels_are_recognised() {
    for a in SAMPLES.iter() {
        assert_eq!(level_is_finite(a.to_bits()), a.is_finite(), "{}", a);
        assert!(level_is_number(a.to_bits()), "{}", a);
    }
    assert!(!level_is_finite(f64::NAN.to_bits()));
    assert!(!level_is_number(f64::NAN.to_bits()));
    assert!(!level_is_finite(INFINITY_BITS));
    assert!(level_is_number(INFINITY_BITS));
    assert!(!level_is_number(INFINITY_BITS + 1));
    assert!(!level_is_number(SIGN_BIT + INFINITY_BITS + 1));
    assert!(level_is_finite(INFINITY_BITS - 1));
}

//! Arithmetic in the field of 65536 elements.

use pesto::par2::gf16::{input_logbases, Gf16, MAX_INPUT_BLOCKS};

#[test]
fn table_sizes_and_first_powers_of_two() {
    let gf = Gf16::new();
    assert_eq!(gf.antilog().len(), 65_535);
    assert_eq!(gf.log().len(), 65_536);
    assert_eq!(gf.antilog()[0], 1);
    assert_eq!(gf.antilog()[1], 2);
    assert_eq!(gf.antilog()[2], 4);
    // 2^16 wraps via the polynomial: 0x10000 ^ 0x1100B == 0x100B.
    assert_eq!(gf.antilog()[16], 0x100B);
}

#[test]
fn log_and_antilog_are_inverses() {
    let gf = Gf16::new();
    for exponent in 0..65_535u32 {
        let value = gf.antilog()[exponent as usize];
        assert_eq!(gf.log()[value as usize] as u32, exponent);
    }
    for value in 1..=65_535u32 {
        let exponent = gf.log()[value as usize];
        assert_eq!(gf.antilog()[exponent as usize] as u32, value);
    }
}

#[test]
fn multiplication_basics_and_log_homomorphism() {
    let gf = Gf16::new();
    assert_eq!(gf.mul(0, 1234), 0);
    assert_eq!(gf.mul(1, 1234), 1234);
    assert_eq!(gf.mul(2, 2), 4);
    // mul(2^i, 2^j) == 2^((i + j) mod 65535)
    for &(i, j) in &[(3u32, 5u32), (100, 200), (60_000, 60_000)] {
        let product = gf.mul(gf.antilog()[i as usize], gf.antilog()[j as usize]);
        assert_eq!(product, gf.antilog()[((i + j) % 65_535) as usize]);
    }
}

#[test]
fn pow_matches_repeated_multiplication() {
    let gf = Gf16::new();
    assert_eq!(gf.pow(7, 0), 1);
    assert_eq!(gf.pow(7, 1), 7);
    for base in [2u16, 7, 12_345, 60_000] {
        let mut acc = 1u16;
        for exponent in 0..20u32 {
            assert_eq!(gf.pow(base, exponent), acc);
            acc = gf.mul(acc, base);
        }
    }
}

#[test]
fn input_logbases_skip_factors_of_65535() {
    // 65535 = 3 * 5 * 17 * 257.
    let logbases = input_logbases(64);
    assert_eq!(&logbases[..4], &[1, 2, 4, 7]);
    for &logbase in &logbases {
        assert_ne!(logbase % 3, 0);
        assert_ne!(logbase % 5, 0);
        assert_ne!(logbase % 17, 0);
        assert_ne!(logbase % 257, 0);
    }
    // The sequence is strictly increasing.
    assert!(logbases.windows(2).all(|w| w[0] < w[1]));
}

#[test]
fn input_bases_are_antilogs_of_the_logbases() {
    let gf = Gf16::new();
    // logbases 1, 2, 4, 7 -> antilog 2, 4, 16, 128.
    assert_eq!(gf.input_bases(4), vec![2, 4, 16, 128]);
}

#[test]
fn recovery_coefficient_exponent_zero_is_one() {
    let gf = Gf16::new();
    for input_index in [0usize, 1, 5, 100] {
        assert_eq!(gf.recovery_coefficient(input_index, 0), 1);
    }
    // Exponent 1 yields the input block's own base constant.
    assert_eq!(gf.recovery_coefficient(0, 1), 2);
    assert_eq!(gf.recovery_coefficient(1, 1), 4);
    // base_0 = 2, so exponent 2 gives 2^2 = 4.
    assert_eq!(gf.recovery_coefficient(0, 2), 4);
}

#[test]
fn full_multiplicative_group_is_covered() {
    // Every non-zero value appears exactly once in the antilog table.
    let gf = Gf16::new();
    let mut seen = vec![false; 65_536];
    for &value in gf.antilog() {
        assert!(!seen[value as usize], "duplicate value {value}");
        assert_ne!(value, 0);
        seen[value as usize] = true;
    }
}

#[test]
fn multiplication_obeys_the_field_laws() {
    let gf = Gf16::new();
    let samples = [0u16, 1, 2, 3, 0x1234, 0x8000, 0xABCD, 0xFFFF];
    for &a in &samples {
        for &b in &samples {
            assert_eq!(gf.mul(a, b), gf.mul(b, a));
            for &c in &samples {
                assert_eq!(gf.mul(gf.mul(a, b), c), gf.mul(a, gf.mul(b, c)));
                assert_eq!(gf.mul(a, b ^ c), gf.mul(a, b) ^ gf.mul(a, c));
            }
        }
    }
}

#[test]
fn logarithms_undo_powers() {
    let gf = Gf16::default();
    assert_eq!(gf.discrete_log(1), 0);
    assert_eq!(gf.discrete_log(2), 1);
    for value in [1u16, 5, 0x100B, 0xFFFF] {
        assert_eq!(gf.exp(gf.discrete_log(value) as u32), value);
    }
    assert_eq!(gf.exp(65_535), 1);
    assert_eq!(gf.clone().exp(65_536 + 15), gf.exp(16));
}

#[test]
fn all_input_bases_are_distinct() {
    let gf = Gf16::new();
    let mut bases = gf.input_bases(MAX_INPUT_BLOCKS);
    assert_eq!(bases.len(), 32_768);
    bases.sort();
    bases.dedup();
    assert_eq!(bases.len(), 32_768);
}

#[test]
fn copies_hold_the_same_tables() {
    let gf = Gf16::new();
    let copy = gf.clone();
    let default = Gf16::default();
    assert_eq!(copy.antilog(), gf.antilog());
    assert_eq!(copy.log(), gf.log());
    assert_eq!(default.antilog(), gf.antilog());
    assert_eq!(default.log(), gf.log());
}

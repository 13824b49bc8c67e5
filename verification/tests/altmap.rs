//! The ALTMAP bit-plane layout.

use pesto::par2::altmap::{
    altmap_size, from_altmap, from_altmap_scalar, to_altmap, to_altmap_scalar,
};

fn round_trip(words: &[u16]) {
    let n = words.len();
    let mut altmap = vec![0u8; altmap_size(n)];
    let mut recovered = vec![0u16; n];
    to_altmap(words, &mut altmap);
    from_altmap(&altmap, &mut recovered);
    assert_eq!(recovered, words, "round-trip failed for {} words", n);
}

#[test]
fn round_trip_all_zeros() {
    round_trip(&[0u16; 16]);
    round_trip(&[0u16; 64]);
}

#[test]
fn round_trip_all_ones() {
    round_trip(&[0xFFFF_u16; 16]);
    round_trip(&[0xFFFF_u16; 256]);
}

#[test]
fn round_trip_single_bit_words() {
    // Each word is a single set bit at position i (mod 16).
    let words: Vec<u16> = (0..64).map(|i| 1u16 << (i % 16)).collect();
    round_trip(&words);
}

#[test]
fn round_trip_incrementing() {
    // words[i] = i as u16
    let words: Vec<u16> = (0..256).map(|i| i as u16).collect();
    round_trip(&words);
}

#[test]
fn round_trip_random_512_words() {
    // Use a simple LCG to avoid pulling in `rand`.
    let mut lcg: u64 = 0xDEAD_BEEF_1234_5678;
    let words: Vec<u16> = (0..512)
        .map(|_| {
            lcg = lcg
                .wrapping_mul(6364136223846793005)
                .wrapping_add(1442695040888963407);
            (lcg >> 48) as u16
        })
        .collect();
    round_trip(&words);
}

#[test]
fn scalar_and_simd_produce_identical_output() {
    let mut lcg: u64 = 0xCAFEBABE_DEADBEEF;
    let words: Vec<u16> = (0..256)
        .map(|_| {
            lcg = lcg
                .wrapping_mul(6364136223846793005)
                .wrapping_add(1442695040888963407);
            (lcg >> 48) as u16
        })
        .collect();

    let mut out_scalar = vec![0u8; altmap_size(words.len())];
    let mut out_simd = vec![0u8; altmap_size(words.len())];

    to_altmap_scalar(&words, &mut out_scalar);
    to_altmap(&words, &mut out_simd); 

    assert_eq!(out_scalar, out_simd, "scalar and SIMD outputs differ");
}

#[test]
fn plane_layout_is_correct() {
    // 16 words where word i has only bit i set (i < 16).
    // In plane k, only word k has bit k set, so the 16-bit value for group 0
    // should be (1 << k).
    let words: Vec<u16> = (0..16).map(|i| 1u16 << i).collect();
    let mut altmap = vec![0u8; altmap_size(words.len())];
    to_altmap(&words, &mut altmap);

    let plane_bytes = words.len() / 8; // = 2 for 16 words
    for k in 0..16usize {
        let off = k * plane_bytes;
        let bits = u16::from_le_bytes([altmap[off], altmap[off + 1]]);
        assert_eq!(
            bits,
            1 << k,
            "plane {k}: expected {:#06x}, got {:#06x}",
            1u16 << k,
            bits
        );
    }
}

#[test]
fn different_words_have_different_planes() {
    let mut words: Vec<u16> = (0..32).map(|i| i as u16 * 37).collect();
    let mut first = vec![0u8; altmap_size(words.len())];
    to_altmap(&words, &mut first);
    words[17] ^= 0x0400;
    let mut second = vec![0u8; altmap_size(words.len())];
    to_altmap(&words, &mut second);
    assert_ne!(first, second);
    let mut recovered = vec![0u16; words.len()];
    from_altmap_scalar(&second, &mut recovered);
    assert_eq!(recovered, words);
}

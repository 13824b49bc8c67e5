//! The Shuffle2x byte layout.

use pesto::par2::shuffle2x::{
    from_shuffle2x, from_shuffle2x_scalar, shuffle2x_buffer_size, to_shuffle2x, to_shuffle2x_scalar,
};

fn roundtrip(bytes: &[u8]) {
    assert!(bytes.len() % 32 == 0);
    let mut s2x = vec![0u8; bytes.len()];
    let mut recovered = vec![0u8; bytes.len()];
    to_shuffle2x(bytes, &mut s2x);
    from_shuffle2x(&s2x, &mut recovered);
    assert_eq!(
        recovered,
        bytes,
        "round-trip failed for {} bytes",
        bytes.len()
    );
}

#[test]
fn roundtrip_zeros() {
    roundtrip(&[0u8; 32]);
    roundtrip(&[0u8; 128]);
}

#[test]
fn roundtrip_all_ones() {
    roundtrip(&[0xFFu8; 32]);
    roundtrip(&[0xFFu8; 256]);
}

#[test]
fn roundtrip_incrementing() {
    let bytes: Vec<u8> = (0..256u16).flat_map(|i| i.to_le_bytes()).collect();
    roundtrip(&bytes);
}

#[test]
fn roundtrip_random() {
    let mut lcg: u64 = 0xDEAD_BEEF_1234_5678;
    let bytes: Vec<u8> = (0..512)
        .map(|_| {
            lcg = lcg
                .wrapping_mul(6364136223846793005)
                .wrapping_add(1442695040888963407);
            (lcg >> 56) as u8
        })
        .collect();
    roundtrip(&bytes);
}

#[test]
fn layout_correct_lo_hi_separation() {
    // 32 bytes = 16 u16 words; word i = (i, i+16) as (lo, hi)
    let bytes: Vec<u8> = (0u8..32).collect();
    let mut s2x = vec![0u8; 32];
    to_shuffle2x(&bytes, &mut s2x);

    // In Shuffle2x: lane0 = lo bytes of words 0-15 = [0,2,4,6,8,10,12,14,16,18,20,22,24,26,28,30]
    //               lane1 = hi bytes of words 0-15 = [1,3,5,7,9,11,13,15,17,19,21,23,25,27,29,31]
    for i in 0..16usize {
        assert_eq!(
            s2x[i],
            (i * 2) as u8,
            "lane0[{i}] should be lo byte of word {i}"
        );
        assert_eq!(
            s2x[16 + i],
            (i * 2 + 1) as u8,
            "lane1[{i}] should be hi byte of word {i}"
        );
    }
}

#[test]
fn scalar_and_simd_agree() {
    let mut lcg: u64 = 0xCAFE_BABE_1234;
    let bytes: Vec<u8> = (0..256)
        .map(|_| {
            lcg = lcg
                .wrapping_mul(6364136223846793005)
                .wrapping_add(1442695040888963407);
            (lcg >> 56) as u8
        })
        .collect();

    let mut out_scalar = vec![0u8; 256];
    let mut out_simd = vec![0u8; 256];
    to_shuffle2x_scalar(&bytes, &mut out_scalar);
    to_shuffle2x(&bytes, &mut out_simd);
    assert_eq!(out_scalar, out_simd, "to_shuffle2x: scalar vs SIMD differ");

    let mut inv_scalar = vec![0u8; 256];
    let mut inv_simd = vec![0u8; 256];
    from_shuffle2x_scalar(&out_scalar, &mut inv_scalar);
    from_shuffle2x(&out_simd, &mut inv_simd);
    assert_eq!(
        inv_scalar, inv_simd,
        "from_shuffle2x: scalar vs SIMD differ"
    );
}

#[test]
fn shuffled_buffers_are_as_large_as_plain_ones() {
    assert_eq!(shuffle2x_buffer_size(16), 32);
    assert_eq!(shuffle2x_buffer_size(384_000), 768_000);
}

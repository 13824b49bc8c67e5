//! Reed-Solomon recovery blocks, slice checksums and file hashes.

use pesto::par2::encoder::{
    altmap_buffer_size, slice_checksum, BenchPath, FileHasher, RecoveryEncoder, HEAD_LEN,
};
use pesto::par2::gf16::{input_logbases, Gf16};
use pesto::par2::kernel::xor_dep_matrix;
use pesto::par2::packet::md5;
use pesto::yenc::crc32;

#[test]
fn recovery_exponent_zero_is_the_xor_of_all_inputs() {
    let a = [0x10u8, 0x20, 0x30, 0x40];
    let b = [0x01u8, 0x02, 0x03, 0x04];
    let mut encoder = RecoveryEncoder::new(4, 2, 0, 1);
    encoder.add_slice(a.to_vec());
    encoder.add_slice(b.to_vec());
    let (recovery, _) = encoder.finish();

    let expected: Vec<u8> = a.iter().zip(&b).map(|(x, y)| x ^ y).collect();
    assert_eq!(recovery[0].exponent, 0);
    assert_eq!(recovery[0].data, expected);
}

#[test]
fn recovery_exponent_one_scales_a_single_input_by_its_base() {
    let gf = Gf16::new();
    let slice = [0x34u8, 0x12, 0x78, 0x56]; // words 0x1234, 0x5678
    let mut encoder = RecoveryEncoder::new(4, 1, 0, 2);
    encoder.add_slice(slice.to_vec());
    let (recovery, _) = encoder.finish();

    // base of input block 0 is 2; exponent 1 -> each word multiplied by 2.
    let w0 = gf.mul(0x1234, 2);
    let w1 = gf.mul(0x5678, 2);
    let mut expected = Vec::new();
    expected.extend_from_slice(&w0.to_le_bytes());
    expected.extend_from_slice(&w1.to_le_bytes());
    assert_eq!(recovery[1].data, expected);
}

// Compares what a flush computes against the plain form of the same work.
#[test]
fn simd_recovery_matches_scalar_for_larger_slices() {
    let slice_size = 32;
    let total_slices = 3;
    let recovery_count = 4;

    // Build a deterministic non-trivial input.
    let slices: Vec<Vec<u8>> = (0..total_slices)
        .map(|s| {
            (0..slice_size)
                .map(|i| ((s * 37 + i * 13 + 7) & 0xFF) as u8)
                .collect()
        })
        .collect();

    let mut enc = RecoveryEncoder::new(slice_size, total_slices, 0, recovery_count);
    for s in &slices {
        enc.add_slice(s.clone());
    }
    let (simd_recovery, _) = enc.finish();

    let gf = Gf16::new();
    let logbases = input_logbases(total_slices);
    let mut scalar_buffers = vec![vec![0u16; slice_size / 2]; recovery_count];
    RecoveryEncoder::flush_scalar_work(&mut scalar_buffers, &slices, 0, &logbases, 0, &gf);
    let scalar_recovery: Vec<Vec<u8>> = scalar_buffers
        .into_iter()
        .map(|buf| buf.into_iter().flat_map(|w| w.to_le_bytes()).collect())
        .collect();

    for (i, (simd, scalar)) in simd_recovery.iter().zip(&scalar_recovery).enumerate() {
        assert_eq!(
            simd.data, *scalar,
            "SIMD and scalar disagree on recovery block {i}"
        );
    }
}

#[test]
fn file_hasher_16k_equals_full_for_small_files() {
    let mut hasher = FileHasher::new();
    hasher.update(b"hello ");
    hasher.update(b"world");
    let hashes = hasher.finish();
    assert_eq!(hashes.length, 11);
    assert_eq!(hashes.md5_full, md5(b"hello world"));
    assert_eq!(hashes.md5_16k, md5(b"hello world"));
}

#[test]
fn file_hasher_16k_covers_only_the_first_16k() {
    let data = vec![0x5Au8; HEAD_LEN + 5000];
    let mut hasher = FileHasher::new();
    hasher.update(&data[..10_000]);
    hasher.update(&data[10_000..]);
    let hashes = hasher.finish();
    assert_eq!(hashes.length as usize, data.len());
    assert_eq!(hashes.md5_full, md5(&data));
    assert_eq!(hashes.md5_16k, md5(&data[..HEAD_LEN]));
}

#[test]
fn slice_checksum_matches_md5_and_crc32() {
    let slice = [1u8, 2, 3, 4, 5, 6, 7, 8];
    let checksum = slice_checksum(&slice);
    assert_eq!(checksum.md5, md5(&slice));
    assert_eq!(checksum.crc32, crc32(&slice));
}

#[test]
fn new_altmap_produces_correct_recovery_data() {
    // Verify that new_altmap() produces byte-identical recovery data to new().

    // slice_size must be a multiple of 32 bytes (16 u16 words) for ALTMAP.
    let slice_size = 64usize; // 32 u16 words
    let total_slices = 4;
    let recovery_count = 3;

    let slices: Vec<Vec<u8>> = (0..total_slices)
        .map(|s| {
            (0..slice_size)
                .map(|i| ((s * 17 + i * 5 + 3) & 0xFF) as u8)
                .collect()
        })
        .collect();

    // Normal encoder.
    let mut enc_normal = RecoveryEncoder::new(slice_size, total_slices, 0, recovery_count);
    for s in &slices {
        enc_normal.add_slice(s.clone());
    }
    let (normal_recovery, _) = enc_normal.finish();

    // ALTMAP encoder.
    let mut enc_altmap =
        RecoveryEncoder::new_altmap(slice_size, total_slices, 0, recovery_count);
    for s in &slices {
        enc_altmap.add_slice(s.clone());
    }
    let (altmap_recovery, _) = enc_altmap.finish();

    assert_eq!(
        altmap_recovery.len(),
        normal_recovery.len(),
        "slice count mismatch"
    );
    for (i, (a, n)) in altmap_recovery
        .iter()
        .zip(normal_recovery.iter())
        .enumerate()
    {
        assert_eq!(
            a.data, n.data,
            "ALTMAP recovery slice {i} differs from normal encoder output"
        );
    }
}

#[test]
fn altmap_buffer_size_matches_normal() {
    // ALTMAP buffers must have the same byte footprint as normal Vec<u16> buffers.
    for slice_words in [16, 32, 256, 1024, 384_000] {
        let normal_bytes = slice_words * 2;
        let altmap_bytes = altmap_buffer_size(slice_words);
        assert_eq!(
            altmap_bytes, normal_bytes,
            "size mismatch at slice_words={slice_words}"
        );
    }
}

#[test]
fn new_shuffle2x_produces_correct_recovery_data() {
    // Verify that new_shuffle2x() produces byte-identical recovery data to new().

    // slice_size must be a multiple of 32 bytes (16 u16 words) for Shuffle2x.
    let slice_size = 64usize;
    let total_slices = 5;
    let recovery_count = 4;

    let slices: Vec<Vec<u8>> = (0..total_slices)
        .map(|s| {
            (0..slice_size)
                .map(|i| ((s * 19 + i * 7 + 11) & 0xFF) as u8)
                .collect()
        })
        .collect();

    // Normal encoder.
    let mut enc_normal = RecoveryEncoder::new(slice_size, total_slices, 0, recovery_count);
    for s in &slices {
        enc_normal.add_slice(s.clone());
    }
    let (normal_recovery, _) = enc_normal.finish();

    // Shuffle2x encoder.
    let mut enc_s2x =
        RecoveryEncoder::new_shuffle2x(slice_size, total_slices, 0, recovery_count);
    for s in &slices {
        enc_s2x.add_slice(s.clone());
    }
    let (s2x_recovery, _) = enc_s2x.finish();

    assert_eq!(
        s2x_recovery.len(),
        normal_recovery.len(),
        "slice count mismatch"
    );
    for (i, (s2x, normal)) in s2x_recovery.iter().zip(normal_recovery.iter()).enumerate() {
        assert_eq!(
            s2x.data, normal.data,
            "Shuffle2x recovery slice {i} differs from normal encoder output"
        );
    }
}

#[test]
fn new_shuffle2x_exponent_start_offset() {
    // Verify that exponent_start != 0 works correctly with Shuffle2x.

    let slice_size = 32usize;
    let total_slices = 3;
    let recovery_count = 2;
    let exponent_start = 5u32;

    let slices: Vec<Vec<u8>> = (0..total_slices)
        .map(|s| {
            (0..slice_size)
                .map(|i| ((s * 11 + i * 3) & 0xFF) as u8)
                .collect()
        })
        .collect();

    let mut enc_normal =
        RecoveryEncoder::new(slice_size, total_slices, exponent_start, recovery_count);
    for s in &slices {
        enc_normal.add_slice(s.clone());
    }
    let (normal_recovery, _) = enc_normal.finish();

    let mut enc_s2x = RecoveryEncoder::new_shuffle2x(
        slice_size,
        total_slices,
        exponent_start,
        recovery_count,
    );
    for s in &slices {
        enc_s2x.add_slice(s.clone());
    }
    let (s2x_recovery, _) = enc_s2x.finish();

    for (i, (s2x, normal)) in s2x_recovery.iter().zip(normal_recovery.iter()).enumerate() {
        assert_eq!(
            s2x.exponent, normal.exponent,
            "exponent mismatch at block {i}"
        );
        assert_eq!(
            s2x.data, normal.data,
            "Shuffle2x recovery slice {i} differs from normal encoder output (exponent_start={exponent_start})"
        );
    }
}

#[test]
fn gfni_recovery_matches_scalar() {
    let slice_size = 96; // 64 + 32 — one full block + a remainder
    let total_slices = 5;
    let recovery_count = 6;

    let slices: Vec<Vec<u8>> = (0..total_slices)
        .map(|s| {
            (0..slice_size)
                .map(|i| ((s * 53 + i * 17 + 3) & 0xFF) as u8)
                .collect()
        })
        .collect();

    let mut enc = RecoveryEncoder::new(slice_size, total_slices, 0, recovery_count)
        .with_forced_path(BenchPath::Avx512Gfni);
    for s in &slices {
        enc.add_slice(s.clone());
    }
    let (gfni_recovery, _) = enc.finish();

    let gf = Gf16::new();
    let logbases = input_logbases(total_slices);
    let mut scalar_buffers = vec![vec![0u16; slice_size / 2]; recovery_count];
    RecoveryEncoder::flush_scalar_work(&mut scalar_buffers, &slices, 0, &logbases, 0, &gf);
    let scalar_recovery: Vec<Vec<u8>> = scalar_buffers
        .into_iter()
        .map(|buf| buf.into_iter().flat_map(|w| w.to_le_bytes()).collect())
        .collect();

    for (i, (gfni, scalar)) in gfni_recovery.iter().zip(&scalar_recovery).enumerate() {
        assert_eq!(
            gfni.data, *scalar,
            "GFNI and scalar disagree on recovery block {i}"
        );
    }
}

#[test]
fn dep_tables_correctness_and_timing() {
    let t0 = std::time::Instant::now();
    let tables = RecoveryEncoder::build_dep_tables();
    let elapsed = t0.elapsed();
    assert_eq!(tables.len(), 65_536);

    // index 0 must be all-zero (multiply by 0 always yields 0).
    assert_eq!(tables[0], [0u16; 16]);

    // index 1 must be the identity (multiply by 1 is a no-op).
    let identity: [u16; 16] = std::array::from_fn(|k| 1 << k);
    assert_eq!(tables[1], identity);

    // Spot-check: table[n] must equal xor_dep_matrix(n) for representative n.
    for &n in &[2u16, 3, 7, 256, 1000, 0x1234, 0xABCD, 65534] {
        assert_eq!(
            tables[n as usize],
            xor_dep_matrix(n),
            "dep_tables mismatch at n={n}"
        );
    }

    let limit_ms = 5_000;
    assert!(
        elapsed.as_millis() < limit_ms,
        "dep_tables construction took {}ms, expected < {limit_ms}ms",
        elapsed.as_millis()
    );
}

fn sample_slices(count: usize, size: usize) -> Vec<Vec<u8>> {
    (0..count)
        .map(|s| (0..size).map(|i| ((s * 29 + i * 31 + 5) & 0xFF) as u8).collect())
        .collect()
}

#[test]
fn every_way_of_multiplying_gives_the_same_blocks() {
    let slices = sample_slices(6, 96);
    let mut plain = RecoveryEncoder::new(96, 6, 3, 4);
    for s in &slices {
        plain.add_slice(s.clone());
    }
    let (expected, _) = plain.finish();
    for path in [
        BenchPath::Scalar,
        BenchPath::Ssse3,
        BenchPath::Avx2,
        BenchPath::Avx2Gfni,
        BenchPath::Avx512Gfni,
    ] {
        let mut enc = RecoveryEncoder::new(96, 6, 3, 4).with_forced_path(path);
        for s in &slices {
            enc.add_slice(s.clone());
        }
        let (got, _) = enc.finish();
        for (g, e) in got.iter().zip(&expected) {
            assert_eq!(g.exponent, e.exponent);
            assert_eq!(g.data, e.data);
        }
    }
}

#[test]
fn flushing_early_changes_nothing() {
    let slices = sample_slices(9, 32);
    let mut late = RecoveryEncoder::new(32, 9, 0, 3);
    let mut early = RecoveryEncoder::new(32, 9, 0, 3).with_flush_limit(64);
    for s in &slices {
        late.add_slice(s.clone());
        early.add_slice(s.clone());
    }
    assert_eq!(early.inputs_len(), 9);
    let (a, _) = late.finish();
    let (b, _) = early.finish();
    for (x, y) in a.iter().zip(&b) {
        assert_eq!(x.data, y.data);
    }
}

#[test]
fn checksums_come_in_slice_order() {
    let slices = sample_slices(5, 32);
    let mut enc = RecoveryEncoder::new(32, 5, 0, 1)
        .with_flush_limit(64)
        .with_checksums();
    for s in &slices {
        enc.add_slice(s.clone());
    }
    let early = enc.drain_checksums();
    let (_, late) = enc.finish();
    let all: Vec<_> = early.iter().chain(&late).collect();
    assert_eq!(all.len(), 5);
    for (c, s) in all.iter().zip(&slices) {
        assert_eq!(c.md5, md5(s));
        assert_eq!(c.crc32, crc32(s));
    }
}

#[test]
fn flushed_buffers_are_recycled() {
    let mut enc = RecoveryEncoder::new(32, 4, 0, 1).with_flush_limit(64);
    for s in sample_slices(4, 32) {
        enc.add_slice(s);
    }
    let first = enc.take_buffer();
    assert!(first.is_empty() && first.capacity() >= 32);
    assert_eq!(enc.drain_free_buffers().len(), 3);
    assert!(enc.drain_free_buffers().is_empty());
}

#[test]
fn one_block_recovers_one_lost_slice() {
    let slices = sample_slices(4, 32);
    let mut enc = RecoveryEncoder::new(32, 4, 0, 1);
    for s in &slices {
        enc.add_slice(s.clone());
    }
    let (recovery, _) = enc.finish();
    // Exponent zero is the sum of all slices: the others take it back to the lost one.
    let mut lost = recovery[0].data.clone();
    for s in [&slices[0], &slices[1], &slices[3]] {
        for (x, y) in lost.iter_mut().zip(s) {
            *x ^= y;
        }
    }
    assert_eq!(lost, slices[2]);
}

#[test]
fn recovery_is_linear() {
    let a = sample_slices(3, 32);
    let b: Vec<Vec<u8>> = a.iter().map(|s| s.iter().rev().copied().collect()).collect();
    let blocks = |slices: &[Vec<u8>]| -> Vec<Vec<u8>> {
        let mut enc = RecoveryEncoder::new(32, 3, 2, 2);
        for s in slices {
            enc.add_slice(s.clone());
        }
        enc.finish().0.into_iter().map(|r| r.data).collect()
    };
    let sum: Vec<Vec<u8>> = a
        .iter()
        .zip(&b)
        .map(|(x, y)| x.iter().zip(y).map(|(p, q)| p ^ q).collect())
        .collect();
    for ((x, y), z) in blocks(&a).iter().zip(&blocks(&b)).zip(&blocks(&sum)) {
        let both: Vec<u8> = x.iter().zip(y).map(|(p, q)| p ^ q).collect();
        assert_eq!(&both, z);
    }
}

#[test]
fn md5_of_known_texts() {
    let hex: String = md5(b"abc").iter().map(|b| format!("{b:02x}")).collect();
    assert_eq!(hex, "900150983cd24fb0d6963f7d28e17f72");
    let hex: String = FileHasher::default()
        .finish()
        .md5_full
        .iter()
        .map(|b| format!("{b:02x}"))
        .collect();
    assert_eq!(hex, "d41d8cd98f00b204e9800998ecf8427e");
}

#[test]
fn two_blocks_recover_two_lost_slices() {
    let gf = Gf16::new();
    let slices = sample_slices(5, 32);
    let mut enc = RecoveryEncoder::new(32, 5, 0, 2);
    for s in &slices {
        enc.add_slice(s.clone());
    }
    let (blocks, _) = enc.finish();
    let word = |s: &[u8], k: usize| u16::from_le_bytes([s[2 * k], s[2 * k + 1]]);
    let (i, j) = (1, 3);
    let (ci, cj) = (gf.recovery_coefficient(i, 1), gf.recovery_coefficient(j, 1));
    let inverse = gf.exp(65_535 - gf.discrete_log(ci ^ cj) as u32);
    for k in 0..16 {
        // Take the slices that are left out of both blocks.
        let (mut s0, mut s1) = (word(&blocks[0].data, k), word(&blocks[1].data, k));
        for x in [0, 2, 4] {
            s0 ^= word(&slices[x], k);
            s1 ^= gf.mul(gf.recovery_coefficient(x, 1), word(&slices[x], k));
        }
        let first = gf.mul(s1 ^ gf.mul(cj, s0), inverse);
        assert_eq!(first, word(&slices[i], k));
        assert_eq!(s0 ^ first, word(&slices[j], k));
    }
}

//! ALTMAP bit-plane layout for GF(2^16) Reed-Solomon data.
//!
//! **Normal layout:** N consecutive `u16` words.
//!
//! **ALTMAP layout:** 16 contiguous bit-plane sections, each of `N/8` bytes.
//! Plane `k` (0 ≤ k < 16) stores bit `k` of every word: bit `j % 8`
//! (LSB-first) of the byte at offset `j / 8` inside plane `k` equals bit `k`
//! of word `j`.
//!
//! The total ALTMAP size is `16 × (N/8)` = `2N` bytes, as in the normal
//! layout. `N` must be a multiple of 16.

use vstd::prelude::*;

use super::bits;

verus! {

/// The bit that the ALTMAP buffer `bytes` holds for bit `k` of word `j`.
pub open spec fn plane_bit(bytes: Seq<u8>, k: int, j: int) -> bool {
    bits::byte_bit(bytes[k * (bytes.len() as int / 16) + j / 8], j % 8)
}

/// `bytes` holds `words` in ALTMAP layout.
pub open spec fn is_altmap(bytes: Seq<u8>, words: Seq<u16>) -> bool {
    &&& words.len() % 16 == 0
    &&& bytes.len() == 2 * words.len()
    &&& forall|k: int, j: int|
        0 <= k < 16 && 0 <= j < words.len() ==> #[trigger] plane_bit(bytes, k, j) == bits::word_bit(
            words[j],
            k,
        )
}

/// Sections of equal size do not overlap.
pub(crate) proof fn lemma_sections(k: int, k2: int, plane: int)
    by (nonlinear_arith)
    requires
        0 <= k2 < k,
        0 <= plane,
    ensures
        0 <= k2 * plane,
        k2 * plane + plane <= k * plane,
{
}

/// Zero bytes hold zero words.
pub(crate) proof fn lemma_zeros(bytes: Seq<u8>, words: Seq<u16>)
    requires
        words.len() % 16 == 0,
        bytes.len() == 2 * words.len(),
        forall|i: int| 0 <= i < bytes.len() ==> bytes[i] == 0,
        forall|j: int| 0 <= j < words.len() ==> words[j] == 0,
    ensures
        is_altmap(bytes, words),
{
    let plane = bytes.len() as int / 16;
    assert forall|k: int, j: int| 0 <= k < 16 && 0 <= j < words.len() implies #[trigger] plane_bit(
        bytes,
        k,
        j,
    ) == bits::word_bit(words[j], k) by {
        lemma_sections(16, k, plane);
        assert(j / 8 < plane);
        bits::lemma_byte_bit_of_xor(0, 0, j % 8);
        bits::lemma_word_bit_of_xor(0, 0, k);
    }
}

/// An ALTMAP buffer determines the words that it holds.
pub proof fn law_altmap_determines_words(bytes: Seq<u8>, a: Seq<u16>, b: Seq<u16>)
    requires
        is_altmap(bytes, a),
        is_altmap(bytes, b),
    ensures
        a == b,
{
    assert forall|j: int| 0 <= j < a.len() implies a[j] == b[j] by {
        assert forall|k: int| 0 <= k < 16 implies #[trigger] bits::word_bit(a[j], k) == bits::word_bit(
            b[j],
            k,
        ) by {
            assert(plane_bit(bytes, k, j) == bits::word_bit(a[j], k));
        }
        bits::lemma_same_word_bits(a[j], b[j]);
    }
    assert(a =~= b);
}

/// Words have one ALTMAP form.
pub proof fn law_words_determine_altmap(words: Seq<u16>, a: Seq<u8>, b: Seq<u8>)
    requires
        is_altmap(a, words),
        is_altmap(b, words),
    ensures
        a == b,
{
    let plane = words.len() as int / 8;
    assert(a.len() as int / 16 == plane && b.len() as int / 16 == plane);
    assert forall|p: int| 0 <= p < a.len() implies a[p] == b[p] by {
        let k = p / plane;
        let c = p % plane;
        assert(p == k * plane + c && 0 <= k < 16 && 0 <= c < plane) by (nonlinear_arith)
            requires
                0 <= p < 16 * plane,
                k == p / plane,
                c == p % plane,
        ;
        assert forall|t: int| 0 <= t < 8 implies #[trigger] bits::byte_bit(a[p], t) == bits::byte_bit(
            b[p],
            t,
        ) by {
            let j = 8 * c + t;
            assert(j / 8 == c && j % 8 == t);
            assert(plane_bit(a, k, j) == bits::word_bit(words[j], k));
            assert(plane_bit(b, k, j) == bits::word_bit(words[j], k));
        }
        bits::lemma_same_byte_bits(a[p], b[p]);
    }
    assert(a =~= b);
}

/// Returns the number of bytes needed to hold `words` u16 values in ALTMAP
/// format. Equal to `words * 2` (same as the normal layout).
pub fn altmap_size(words: usize) -> (size: usize)
    requires
        words % 16 == 0,
        words * 2 <= usize::MAX,
    ensures
        size == words * 2,
{
    words * 2
}

/// Convert `src` (N u16 words, normal layout) into ALTMAP bit-plane format,
/// writing `2N` bytes into `dst`.
pub fn to_altmap(src: &[u16], dst: &mut [u8])
    requires
        src@.len() % 16 == 0,
        old(dst)@.len() == src@.len() * 2,
    ensures
        is_altmap(final(dst)@, src@),
{
    to_altmap_scalar(src, dst)
}

/// Convert `src` (ALTMAP format, `2N` bytes) back to normal u16 layout,
/// writing N words into `dst`.
pub fn from_altmap(src: &[u8], dst: &mut [u16])
    requires
        old(dst)@.len() % 16 == 0,
        src@.len() == old(dst)@.len() * 2,
    ensures
        is_altmap(src@, final(dst)@),
{
    from_altmap_scalar(src, dst)
}

/// One byte of plane `k`: bit `k` of eight consecutive words.
fn plane_byte(src: &[u16], k: u16, first: usize) -> (byte: u8)
    requires
        k < 16,
        first + 8 <= src@.len(),
    ensures
        forall|t: int|
            0 <= t < 8 ==> #[trigger] bits::byte_bit(byte, t) == bits::word_bit(src@[first + t], k as int),
{
    let n: usize = src.len();
    let mut byte: u8 = 0;
    let mut i: u8 = 0;
    proof {
        assert forall|t: int| 0 <= t < 8 implies !#[trigger] bits::byte_bit(byte, t) by {
            bits::lemma_set_byte_bit(0, 0, t as u8);
        }
    }
    while i < 8
        invariant
            k < 16,
            i <= 8,
            n == src@.len(),
            first + 8 <= n,
            forall|t: int|
                0 <= t < 8 ==> #[trigger] bits::byte_bit(byte, t) == (t < i && bits::word_bit(
                    src@[first + t],
                    k as int,
                )),
        decreases 8 - i,
    {
        let ghost before = byte;
        if (src[first + i as usize] >> k) & 1 == 1 {
            byte = byte | (1u8 << i);
            proof {
                assert forall|t: int| 0 <= t < 8 implies #[trigger] bits::byte_bit(byte, t) == (t == i
                    || bits::byte_bit(before, t)) by {
                    bits::lemma_set_byte_bit(before, i, t as u8);
                }
            }
        }
        i = i + 1;
    }
    byte
}

/// Portable form of [`to_altmap`].
pub fn to_altmap_scalar(src: &[u16], dst: &mut [u8])
    requires
        src@.len() % 16 == 0,
        old(dst)@.len() == src@.len() * 2,
    ensures
        is_altmap(final(dst)@, src@),
{
    let n: usize = src.len();
    let size: usize = dst.len();
    let plane: usize = n / 8;
    let mut k: u16 = 0;
    let mut base: usize = 0;
    while k < 16
        invariant
            k <= 16,
            n == src@.len(),
            n % 16 == 0,
            plane == n / 8,
            dst@.len() == size,
            size == n * 2,
            base == k * plane,
            forall|q: int, j: int|
                0 <= q < k && 0 <= j < n ==> #[trigger] plane_bit(dst@, q, j) == bits::word_bit(
                    src@[j],
                    q,
                ),
        decreases 16 - k,
    {
        let mut b: usize = 0;
        assert(k * plane + plane <= 16 * plane) by (nonlinear_arith)
            requires
                k < 16,
                0 <= plane,
        ;
        while b < plane
            invariant
                k < 16,
                b <= plane,
                n == src@.len(),
                n % 16 == 0,
                plane == n / 8,
                dst@.len() == size,
                size == n * 2,
                base == k * plane,
                base + plane <= size,
                forall|q: int, j: int|
                    0 <= q < k && 0 <= j < n ==> #[trigger] plane_bit(dst@, q, j) == bits::word_bit(
                        src@[j],
                        q,
                    ),
                forall|j: int|
                    0 <= j < 8 * b ==> #[trigger] plane_bit(dst@, k as int, j) == bits::word_bit(
                        src@[j],
                        k as int,
                    ),
            decreases plane - b,
        {
            let byte: u8 = plane_byte(src, k, b * 8);
            let ghost before = dst@;
            dst[base + b] = byte;
            proof {
                assert forall|q: int, j: int| 0 <= q < k && 0 <= j < n implies #[trigger] plane_bit(
                    dst@,
                    q,
                    j,
                ) == bits::word_bit(src@[j], q) by {
                    lemma_sections(k as int, q, plane as int);
                    assert(dst@.len() as int / 16 == plane);
                    assert(j / 8 < plane);
                    assert(plane_bit(before, q, j) == bits::word_bit(src@[j], q));
                }
                assert forall|j: int| 0 <= j < 8 * (b + 1) implies #[trigger] plane_bit(
                    dst@,
                    k as int,
                    j,
                ) == bits::word_bit(src@[j], k as int) by {
                    assert(dst@.len() as int / 16 == plane);
                    if j < 8 * b {
                        assert(plane_bit(before, k as int, j) == bits::word_bit(src@[j], k as int));
                    } else {
                        assert(j / 8 == b);
                        assert(bits::byte_bit(byte, j % 8) == bits::word_bit(src@[b * 8 + j % 8], k as int));
                    }
                }
            }
            b = b + 1;
        }
        proof {
            assert(8 * plane == n);
            assert forall|q: int, j: int|
                0 <= q < k + 1 && 0 <= j < n implies #[trigger] plane_bit(dst@, q, j)
                == bits::word_bit(src@[j], q) by {
                if q == k {
                    assert(plane_bit(dst@, k as int, j) == bits::word_bit(src@[j], k as int));
                }
            }
            assert((k + 1) * plane == k * plane + plane) by (nonlinear_arith);
        }
        k = k + 1;
        base = base + plane;
    }
}

/// Portable form of [`from_altmap`].
pub fn from_altmap_scalar(src: &[u8], dst: &mut [u16])
    requires
        old(dst)@.len() % 16 == 0,
        src@.len() == old(dst)@.len() * 2,
    ensures
        is_altmap(src@, final(dst)@),
{
    let n: usize = dst.len();
    let size: usize = src.len();
    let plane: usize = n / 8;
    let mut j: usize = 0;
    while j < n
        invariant
            j <= n,
            n == dst@.len(),
            n % 16 == 0,
            plane == n / 8,
            src@.len() == size,
            size == n * 2,
            forall|k: int, q: int|
                0 <= k < 16 && 0 <= q < j ==> #[trigger] plane_bit(src@, k, q) == bits::word_bit(
                    dst@[q],
                    k,
                ),
        decreases n - j,
    {
        let mut word: u16 = 0;
        let mut k: u16 = 0;
        let mut at: usize = j / 8;
        let t: u8 = (j % 8) as u8;
        proof {
            assert forall|q: int| 0 <= q < 16 implies !#[trigger] bits::word_bit(word, q) by {
                bits::lemma_set_word_bit(0, 0, q as u16);
            }
        }
        while k < 16
            invariant
                k <= 16,
                j < n,
                n == dst@.len(),
                n % 16 == 0,
                plane == n / 8,
                src@.len() == size,
                size == n * 2,
                t == j % 8,
                k < 16 ==> at == k * plane + j / 8,
                forall|q: int|
                    0 <= q < 16 ==> #[trigger] bits::word_bit(word, q) == (q < k && plane_bit(
                        src@,
                        q,
                        j as int,
                    )),
            decreases 16 - k,
        {
            assert(k * plane + plane <= 16 * plane) by (nonlinear_arith)
                requires
                    k < 16,
                    0 <= plane,
            ;
            let ghost before = word;
            if (src[at] >> t) & 1 == 1 {
                word = word | (1u16 << k);
                proof {
                    assert forall|q: int| 0 <= q < 16 implies #[trigger] bits::word_bit(word, q) == (q
                        == k || bits::word_bit(before, q)) by {
                        bits::lemma_set_word_bit(before, k, q as u16);
                    }
                }
            }
            proof {
                assert(src@.len() as int / 16 == plane);
                assert(k as int * (src@.len() as int / 16) + j as int / 8 == at);
                assert(t as int == j as int % 8);
            }
            assert(bits::byte_bit(src@[at as int], t as int) == plane_bit(src@, k as int, j as int));
            assert((k + 1) * plane == k * plane + plane) by (nonlinear_arith);
            k = k + 1;
            if k < 16 {
                assert(k * plane + plane <= 16 * plane) by (nonlinear_arith)
                    requires
                        k < 16,
                        0 <= plane,
                ;
                at = at + plane;
            }
        }
        let ghost before = dst@;
        dst[j] = word;
        proof {
            assert forall|k: int, q: int| 0 <= k < 16 && 0 <= q < j + 1 implies #[trigger] plane_bit(
                src@,
                k,
                q,
            ) == bits::word_bit(dst@[q], k) by {
                if q == j {
                    assert(bits::word_bit(word, k) == plane_bit(src@, k, j as int));
                } else {
                    assert(dst@[q] == before[q]);
                }
            }
        }
        j = j + 1;
    }
}

} // verus!

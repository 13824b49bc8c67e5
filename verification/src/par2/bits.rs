//! Single bits of words and bytes, and the bytes of little-endian words.

use vstd::prelude::*;

verus! {

/// Bit `k` of a word.
pub open spec fn word_bit(w: u16, k: int) -> bool {
    (w >> (k as u16)) & 1u16 == 1u16
}

/// Bit `t` of a byte.
pub open spec fn byte_bit(b: u8, t: int) -> bool {
    (b >> (t as u8)) & 1u8 == 1u8
}

/// Setting a bit of a word changes that bit and no other.
pub proof fn lemma_set_word_bit(w: u16, i: u16, k: u16)
    by (bit_vector)
    requires
        i < 16,
        k < 16,
    ensures
        ((w | (1u16 << i)) >> k) & 1u16 == (if k == i {
            1u16
        } else {
            (w >> k) & 1u16
        }),
        (0u16 >> k) & 1u16 == 0,
{
}

/// Setting a bit of a byte changes that bit and no other.
pub proof fn lemma_set_byte_bit(w: u8, i: u8, k: u8)
    by (bit_vector)
    requires
        i < 8,
        k < 8,
    ensures
        ((w | (1u8 << i)) >> k) & 1u8 == (if k == i {
            1u8
        } else {
            (w >> k) & 1u8
        }),
        (0u8 >> k) & 1u8 == 0,
{
}

proof fn lemma_same_word_bits_raw(a: u16, b: u16)
    by (bit_vector)
    requires
        (a >> 0u16) & 1 == (b >> 0u16) & 1,
        (a >> 1u16) & 1 == (b >> 1u16) & 1,
        (a >> 2u16) & 1 == (b >> 2u16) & 1,
        (a >> 3u16) & 1 == (b >> 3u16) & 1,
        (a >> 4u16) & 1 == (b >> 4u16) & 1,
        (a >> 5u16) & 1 == (b >> 5u16) & 1,
        (a >> 6u16) & 1 == (b >> 6u16) & 1,
        (a >> 7u16) & 1 == (b >> 7u16) & 1,
        (a >> 8u16) & 1 == (b >> 8u16) & 1,
        (a >> 9u16) & 1 == (b >> 9u16) & 1,
        (a >> 10u16) & 1 == (b >> 10u16) & 1,
        (a >> 11u16) & 1 == (b >> 11u16) & 1,
        (a >> 12u16) & 1 == (b >> 12u16) & 1,
        (a >> 13u16) & 1 == (b >> 13u16) & 1,
        (a >> 14u16) & 1 == (b >> 14u16) & 1,
        (a >> 15u16) & 1 == (b >> 15u16) & 1,
    ensures
        a == b,
{
}

proof fn lemma_bit_is_binary(a: u16, k: u16)
    by (bit_vector)
    ensures
        (a >> k) & 1u16 == 0 || (a >> k) & 1u16 == 1,
{
}

/// Words with the same sixteen bits are equal.
pub proof fn lemma_same_word_bits(a: u16, b: u16)
    requires
        forall|k: int| 0 <= k < 16 ==> #[trigger] word_bit(a, k) == word_bit(b, k),
    ensures
        a == b,
{
    assert forall|k: u16| k < 16 implies #[trigger] (a >> k) & 1u16 == (b >> k) & 1u16 by {
        lemma_bit_is_binary(a, k);
        lemma_bit_is_binary(b, k);
        assert(word_bit(a, k as int) == word_bit(b, k as int));
    }
    lemma_same_word_bits_raw(a, b);
}

proof fn lemma_same_byte_bits_raw(a: u8, b: u8)
    by (bit_vector)
    requires
        (a >> 0u8) & 1 == (b >> 0u8) & 1,
        (a >> 1u8) & 1 == (b >> 1u8) & 1,
        (a >> 2u8) & 1 == (b >> 2u8) & 1,
        (a >> 3u8) & 1 == (b >> 3u8) & 1,
        (a >> 4u8) & 1 == (b >> 4u8) & 1,
        (a >> 5u8) & 1 == (b >> 5u8) & 1,
        (a >> 6u8) & 1 == (b >> 6u8) & 1,
        (a >> 7u8) & 1 == (b >> 7u8) & 1,
    ensures
        a == b,
{
}

proof fn lemma_byte_bit_is_binary(a: u8, k: u8)
    by (bit_vector)
    ensures
        (a >> k) & 1u8 == 0 || (a >> k) & 1u8 == 1,
{
}

/// Bytes with the same eight bits are equal.
pub proof fn lemma_same_byte_bits(a: u8, b: u8)
    requires
        forall|t: int| 0 <= t < 8 ==> #[trigger] byte_bit(a, t) == byte_bit(b, t),
    ensures
        a == b,
{
    assert forall|t: u8| t < 8 implies #[trigger] (a >> t) & 1u8 == (b >> t) & 1u8 by {
        lemma_byte_bit_is_binary(a, t);
        lemma_byte_bit_is_binary(b, t);
        assert(byte_bit(a, t as int) == byte_bit(b, t as int));
    }
    lemma_same_byte_bits_raw(a, b);
}

/// Exclusive or acts on each bit of a word.
pub proof fn lemma_word_bit_of_xor(a: u16, b: u16, k: int)
    requires
        0 <= k < 16,
    ensures
        word_bit(a ^ b, k) == (word_bit(a, k) != word_bit(b, k)),
        !word_bit(0, k),
{
    let q = k as u16;
    assert(((a ^ b) >> q) & 1u16 == 1 <==> ((a >> q) & 1u16 == 1) != ((b >> q) & 1u16 == 1))
        by (bit_vector);
    assert((0u16 >> q) & 1u16 == 0) by (bit_vector);
}

/// Exclusive or acts on each bit of a byte.
pub proof fn lemma_byte_bit_of_xor(a: u8, b: u8, t: int)
    requires
        0 <= t < 8,
    ensures
        byte_bit(a ^ b, t) == (byte_bit(a, t) != byte_bit(b, t)),
        !byte_bit(0, t),
{
    let q = t as u8;
    assert(((a ^ b) >> q) & 1u8 == 1 <==> ((a >> q) & 1u8 == 1) != ((b >> q) & 1u8 == 1))
        by (bit_vector);
    assert((0u8 >> q) & 1u8 == 0) by (bit_vector);
}

/// A word with one bit set.
pub proof fn lemma_word_bit_of_single(p: int, k: int)
    requires
        0 <= p < 16,
        0 <= k < 16,
    ensures
        word_bit(1u16 << (p as u16), k) == (k == p),
{
    let p16 = p as u16;
    let k16 = k as u16;
    assert(((1u16 << p16) >> k16) & 1u16 == 1 <==> p16 == k16) by (bit_vector)
        requires
            p16 < 16,
            k16 < 16,
    ;
}

/// The sum of the words `1 << p` over the bits `p < n` of `w`.
pub open spec fn low_bits(w: u16, n: nat) -> u16
    decreases n,
{
    if n == 0 {
        0
    } else {
        low_bits(w, (n - 1) as nat) ^ (if word_bit(w, n - 1) {
            1u16 << ((n - 1) as u16)
        } else {
            0u16
        })
    }
}

proof fn lemma_bits_of_low_bits(w: u16, n: nat, k: int)
    requires
        n <= 16,
        0 <= k < 16,
    ensures
        word_bit(low_bits(w, n), k) == (k < n && word_bit(w, k)),
    decreases n,
{
    if n == 0 {
        lemma_word_bit_of_xor(0, 0, k);
    } else {
        lemma_bits_of_low_bits(w, (n - 1) as nat, k);
        lemma_word_bit_of_single(n - 1, k);
        lemma_word_bit_of_xor(low_bits(w, (n - 1) as nat), 1u16 << ((n - 1) as u16), k);
        lemma_word_bit_of_xor(low_bits(w, (n - 1) as nat), 0, k);
    }
}

/// A word is the sum of its bits.
pub proof fn lemma_word_is_sum_of_bits(w: u16)
    ensures
        low_bits(w, 16) == w,
{
    assert forall|k: int| 0 <= k < 16 implies #[trigger] word_bit(low_bits(w, 16), k)
        == word_bit(w, k) by {
        lemma_bits_of_low_bits(w, 16, k);
    }
    lemma_same_word_bits(low_bits(w, 16), w);
}

/// The word whose low byte is `lo` and whose high byte is `hi`.
pub open spec fn le_word(lo: u8, hi: u8) -> u16 {
    (lo as u16) ^ ((hi as u16) << 8u16)
}

/// Word `k` of a byte sequence, read as little-endian words.
pub open spec fn slice_word(bytes: Seq<u8>, k: int) -> u16 {
    le_word(bytes[2 * k], bytes[2 * k + 1])
}

/// The little-endian bytes of a sequence of words.
pub open spec fn word_bytes(words: Seq<u16>) -> Seq<u8> {
    Seq::new(
        2 * words.len(),
        |i: int|
            if i % 2 == 0 {
                (words[i / 2] & 0xFF) as u8
            } else {
                (words[i / 2] >> 8u16) as u8
            },
    )
}

/// A word is made of its two bytes and nothing else.
pub proof fn lemma_le_word(lo: u8, hi: u8, w: u16)
    by (bit_vector)
    ensures
        (le_word(lo, hi) & 0xFF) as u8 == lo,
        (le_word(lo, hi) >> 8u16) as u8 == hi,
        le_word((w & 0xFF) as u8, (w >> 8u16) as u8) == w,
{
}

/// The bytes of a sum of words are the sums of the bytes.
pub proof fn lemma_le_word_of_xor(lo: u8, hi: u8, w: u16)
    by (bit_vector)
    ensures
        le_word(lo ^ (w & 0xFF) as u8, hi ^ (w >> 8u16) as u8) == le_word(lo, hi) ^ w,
{
}

/// Reading the words of the bytes of some words gives the words back.
pub proof fn law_words_of_word_bytes(words: Seq<u16>, k: int)
    requires
        0 <= k < words.len(),
    ensures
        slice_word(word_bytes(words), k) == words[k],
{
    lemma_le_word(0, 0, words[k]);
}

} // verus!

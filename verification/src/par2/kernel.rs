//! Multiply-accumulate kernels: add a coefficient times an input slice to a
//! recovery buffer.
//!
//! The kernels differ in how they multiply: by byte tables, by nibble tables,
//! or by the bit-dependency matrix of the coefficient. They agree on the
//! result: every word of the buffer gains the product of the coefficient and
//! the matching word of the slice.

use vstd::prelude::*;

use super::altmap;
use super::bits;
use super::field;
use super::gf16::Gf16;
use super::shuffle2x;

verus! {

/// `mask` lists the bits that add up to bit `k` of a product with `c`: bit
/// `p` is set when bit `k` of `c * 2^p` is.
pub open spec fn is_dep_row(mask: u16, c: u16, k: int) -> bool {
    forall|p: int|
        0 <= p < 16 ==> #[trigger] bits::word_bit(mask, p) == bits::word_bit(
            field::gf_mul(c, 1u16 << (p as u16)),
            k,
        )
}

/// `rows` is the bit-dependency matrix of the coefficient `c`.
pub open spec fn is_dep_matrix(rows: Seq<u16>, c: u16) -> bool {
    &&& rows.len() == 16
    &&& forall|k: int| 0 <= k < 16 ==> #[trigger] is_dep_row(rows[k], c, k)
}

/// The parity of the bits of `w` below `n` that `mask` selects.
pub open spec fn dep_parity(mask: u16, w: u16, n: nat) -> bool
    decreases n,
{
    if n == 0 {
        false
    } else {
        dep_parity(mask, w, (n - 1) as nat) != (bits::word_bit(mask, n - 1) && bits::word_bit(
            w,
            n - 1,
        ))
    }
}

/// The selected bits of a dependency row add up to the bit of the product.
pub proof fn lemma_dep_row(mask: u16, c: u16, w: u16, k: int)
    requires
        0 <= k < 16,
        is_dep_row(mask, c, k),
    ensures
        bits::word_bit(field::gf_mul(c, w), k) == dep_parity(mask, w, 16),
{
    lemma_dep_row_below(mask, c, w, k, 16);
    bits::lemma_word_is_sum_of_bits(w);
}

proof fn lemma_dep_row_below(mask: u16, c: u16, w: u16, k: int, n: nat)
    requires
        0 <= k < 16,
        n <= 16,
        is_dep_row(mask, c, k),
    ensures
        bits::word_bit(field::gf_mul(c, bits::low_bits(w, n)), k) == dep_parity(mask, w, n),
    decreases n,
{
    if n == 0 {
        field::lemma_mul_unit(c);
        bits::lemma_word_bit_of_xor(0, 0, k);
    } else {
        let m = (n - 1) as nat;
        lemma_dep_row_below(mask, c, w, k, m);
        let low = bits::low_bits(w, m);
        let top: u16 = if bits::word_bit(w, n - 1) {
            1u16 << ((n - 1) as u16)
        } else {
            0u16
        };
        field::lemma_mul_distributes_right(c, low, top);
        field::lemma_mul_unit(c);
        bits::lemma_word_bit_of_xor(field::gf_mul(c, low), field::gf_mul(c, top), k);
        assert(bits::word_bit(mask, m as int) == bits::word_bit(
            field::gf_mul(c, 1u16 << (m as u16)),
            k,
        ));
    }
}

/// The double of a field element.
fn double(v: u16) -> (r: u16)
    ensures
        r == field::times_x(v),
{
    if v & 0x8000 != 0 {
        (v << 1) ^ 0x100B
    } else {
        v << 1
    }
}

proof fn lemma_next_single(p: u16)
    by (bit_vector)
    requires
        p < 15,
    ensures
        (1u16 << p) << 1u16 == 1u16 << ((p + 1) as u16),
        (1u16 << p) & 0x8000u16 == 0,
        1u16 << 0u16 == 1,
{
}

/// The bit-dependency matrix of the coefficient `n`: entry `k` is the bitmask
/// of input bits that add up to output bit `k` when multiplying by `n`.
pub fn xor_dep_matrix(n: u16) -> (rows: [u16; 16])
    ensures
        is_dep_matrix(rows@, n),
{
    let mut rows: [u16; 16] = [0u16; 16];
    let mut column: u16 = n;
    let mut p: u16 = 0;
    proof {
        assert(1u16 << 0u16 == 1) by {
            lemma_next_single(0);
        }
        field::lemma_mul_unit(n);
        assert forall|k: int, q: int| 0 <= k < 16 && 0 <= q < 16 implies !#[trigger] bits::word_bit(
            rows@[k],
            q,
        ) by {
            bits::lemma_word_bit_of_xor(0, 0, q);
        }
    }
    while p < 16
        invariant
            p <= 16,
            p < 16 ==> column == field::gf_mul(n, 1u16 << p),
            forall|k: int, q: int|
                0 <= k < 16 && 0 <= q < 16 ==> #[trigger] bits::word_bit(rows@[k], q) == (q < p
                    && bits::word_bit(field::gf_mul(n, 1u16 << (q as u16)), k)),
        decreases 16 - p,
    {
        let ghost done = rows@;
        let mut k: usize = 0;
        while k < 16
            invariant
                k <= 16,
                p < 16,
                column == field::gf_mul(n, 1u16 << p),
                done.len() == 16,
                forall|i: int, q: int|
                    0 <= i < 16 && 0 <= q < 16 ==> #[trigger] bits::word_bit(done[i], q) == (q < p
                        && bits::word_bit(field::gf_mul(n, 1u16 << (q as u16)), i)),
                forall|i: int| k <= i < 16 ==> rows@[i] == done[i],
                forall|i: int, q: int|
                    0 <= i < k && 0 <= q < 16 ==> #[trigger] bits::word_bit(rows@[i], q) == (q
                        < p + 1 && bits::word_bit(field::gf_mul(n, 1u16 << (q as u16)), i)),
            decreases 16 - k,
        {
            let row: u16 = rows[k];
            if (column >> (k as u16)) & 1 == 1 {
                rows[k] = row | (1u16 << p);
            }
            proof {
                assert forall|q: int| 0 <= q < 16 implies #[trigger] bits::word_bit(
                    rows@[k as int],
                    q,
                ) == (q < p + 1 && bits::word_bit(
                    field::gf_mul(n, 1u16 << (q as u16)),
                    k as int,
                )) by {
                    bits::lemma_set_word_bit(row, p, q as u16);
                    assert(bits::word_bit(done[k as int], q) == (q < p && bits::word_bit(
                        field::gf_mul(n, 1u16 << (q as u16)),
                        k as int,
                    )));
                    assert(bits::word_bit(column, k as int) == ((column >> (k as u16)) & 1u16 == 1));
                }
            }
            k = k + 1;
        }
        column = double(column);
        proof {
            if p < 15 {
                lemma_next_single(p);
                field::lemma_mul_doubled(n, 1u16 << p);
            }
        }
        p = p + 1;
    }
    proof {
        assert forall|k: int| 0 <= k < 16 implies #[trigger] is_dep_row(rows@[k], n, k) by {
            assert forall|q: int| 0 <= q < 16 implies #[trigger] bits::word_bit(rows@[k], q)
                == bits::word_bit(field::gf_mul(n, 1u16 << (q as u16)), k) by {}
        }
    }
    rows
}

/// Products of the coefficient with every low byte and every high byte.
pub struct ByteTables {
    low: [u16; 256],
    high: [u16; 256],
}

impl ByteTables {
    /// The tables hold the products with `c`.
    pub closed spec fn of(&self, c: u16) -> bool {
        forall|b: int|
            0 <= b < 256 ==> #[trigger] self.low@[b] == field::gf_mul(b as u16, c)
                && self.high@[b] == field::gf_mul((b as u16) << 8u16, c)
    }

    /// Build the tables of one coefficient.
    pub fn new(gf: &Gf16, c: u16) -> (tables: ByteTables)
        ensures
            tables.of(c),
    {
        let mut low: [u16; 256] = [0u16; 256];
        let mut high: [u16; 256] = [0u16; 256];
        let mut b: usize = 0;
        while b < 256
            invariant
                b <= 256,
                forall|i: int| 0 <= i < b ==> #[trigger] low@[i] == field::gf_mul(i as u16, c),
                forall|i: int|
                    0 <= i < b ==> #[trigger] high@[i] == field::gf_mul((i as u16) << 8u16, c),
            decreases 256 - b,
        {
            low[b] = gf.mul(b as u16, c);
            high[b] = gf.mul((b as u16) << 8, c);
            b = b + 1;
        }
        ByteTables { low, high }
    }

    /// The product of the coefficient and the word with the given bytes.
    fn product(&self, Ghost(c): Ghost<u16>, lo: u8, hi: u8) -> (w: u16)
        requires
            self.of(c),
        ensures
            w == field::gf_mul(c, bits::le_word(lo, hi)),
    {
        proof {
            let word = bits::le_word(lo, hi);
            field::lemma_mul_commutes(c, word);
            field::lemma_mul_distributes_left(lo as u16, (hi as u16) << 8u16, c);
            let l = lo as int;
            let h = hi as int;
            assert(l as u16 == lo as u16 && h as u16 == hi as u16);
            assert(self.low@[l] == field::gf_mul(l as u16, c));
            assert(self.low@[h] == field::gf_mul(h as u16, c));
        }
        self.low[lo as usize] ^ self.high[hi as usize]
    }
}

/// Products of the coefficient with the four nibbles of a word, each in its
/// place.
pub struct NibbleTables {
    n0: [u16; 16],
    n1: [u16; 16],
    n2: [u16; 16],
    n3: [u16; 16],
}

proof fn lemma_word_of_nibbles(lo: u8, hi: u8)
    by (bit_vector)
    ensures
        bits::le_word(lo, hi) == (((lo & 15) as u16) ^ (((lo >> 4u8) as u16) << 4u16)) ^ ((((hi
            & 15) as u16) << 8u16) ^ (((hi >> 4u8) as u16) << 12u16)),
        lo & 15 < 16,
        hi & 15 < 16,
        lo >> 4u8 < 16,
        hi >> 4u8 < 16,
{
}

impl NibbleTables {
    /// The tables hold the products with `c`.
    pub closed spec fn of(&self, c: u16) -> bool {
        forall|v: int|
            0 <= v < 16 ==> #[trigger] self.n0@[v] == field::gf_mul(v as u16, c) && self.n1@[v]
                == field::gf_mul((v as u16) << 4u16, c) && self.n2@[v] == field::gf_mul(
                (v as u16) << 8u16,
                c,
            ) && self.n3@[v] == field::gf_mul((v as u16) << 12u16, c)
    }

    /// Build the tables of one coefficient.
    pub fn new(gf: &Gf16, c: u16) -> (tables: NibbleTables)
        ensures
            tables.of(c),
    {
        let mut n0: [u16; 16] = [0u16; 16];
        let mut n1: [u16; 16] = [0u16; 16];
        let mut n2: [u16; 16] = [0u16; 16];
        let mut n3: [u16; 16] = [0u16; 16];
        let mut v: usize = 0;
        while v < 16
            invariant
                v <= 16,
                forall|i: int| 0 <= i < v ==> #[trigger] n0@[i] == field::gf_mul(i as u16, c),
                forall|i: int|
                    0 <= i < v ==> #[trigger] n1@[i] == field::gf_mul((i as u16) << 4u16, c),
                forall|i: int|
                    0 <= i < v ==> #[trigger] n2@[i] == field::gf_mul((i as u16) << 8u16, c),
                forall|i: int|
                    0 <= i < v ==> #[trigger] n3@[i] == field::gf_mul((i as u16) << 12u16, c),
            decreases 16 - v,
        {
            n0[v] = gf.mul(v as u16, c);
            n1[v] = gf.mul((v as u16) << 4, c);
            n2[v] = gf.mul((v as u16) << 8, c);
            n3[v] = gf.mul((v as u16) << 12, c);
            v = v + 1;
        }
        NibbleTables { n0, n1, n2, n3 }
    }

    /// The product of the coefficient and the word with the given bytes.
    fn product(&self, Ghost(c): Ghost<u16>, lo: u8, hi: u8) -> (w: u16)
        requires
            self.of(c),
        ensures
            w == field::gf_mul(c, bits::le_word(lo, hi)),
    {
        proof {
            lemma_word_of_nibbles(lo, hi);
            let a = (lo & 15) as u16;
            let b = ((lo >> 4u8) as u16) << 4u16;
            let d = ((hi & 15) as u16) << 8u16;
            let e = ((hi >> 4u8) as u16) << 12u16;
            field::lemma_mul_commutes(c, bits::le_word(lo, hi));
            field::lemma_mul_distributes_left(a ^ b, d ^ e, c);
            field::lemma_mul_distributes_left(a, b, c);
            field::lemma_mul_distributes_left(d, e, c);
            let i = (lo & 15) as int;
            let j = (lo >> 4u8) as int;
            let k = (hi & 15) as int;
            let l = (hi >> 4u8) as int;
            assert(i as u16 == (lo & 15) as u16 && j as u16 == (lo >> 4u8) as u16);
            assert(k as u16 == (hi & 15) as u16 && l as u16 == (hi >> 4u8) as u16);
            assert(self.n0@[i] == field::gf_mul(i as u16, c));
            assert(self.n0@[j] == field::gf_mul(j as u16, c));
            assert(self.n0@[k] == field::gf_mul(k as u16, c));
            assert(self.n0@[l] == field::gf_mul(l as u16, c));
        }
        (self.n0[(lo & 15) as usize] ^ self.n1[(lo >> 4) as usize]) ^ (self.n2[(hi & 15) as usize]
            ^ self.n3[(hi >> 4) as usize])
    }
}

/// The product of a coefficient and a word, by the coefficient's
/// bit-dependency matrix.
fn matrix_product(rows: &[u16; 16], Ghost(c): Ghost<u16>, word: u16) -> (w: u16)
    requires
        is_dep_matrix(rows@, c),
    ensures
        w == field::gf_mul(c, word),
{
    let mut w: u16 = 0;
    let mut k: u16 = 0;
    proof {
        assert forall|q: int| 0 <= q < 16 implies !#[trigger] bits::word_bit(w, q) by {
            bits::lemma_word_bit_of_xor(0, 0, q);
        }
    }
    while k < 16
        invariant
            k <= 16,
            is_dep_matrix(rows@, c),
            forall|q: int|
                0 <= q < 16 ==> #[trigger] bits::word_bit(w, q) == (q < k && bits::word_bit(
                    field::gf_mul(c, word),
                    q,
                )),
        decreases 16 - k,
    {
        let row: u16 = rows[k as usize];
        let mut parity: bool = false;
        let mut p: u16 = 0;
        while p < 16
            invariant
                p <= 16,
                parity == dep_parity(row, word, p as nat),
            decreases 16 - p,
        {
            if (row >> p) & 1 == 1 && (word >> p) & 1 == 1 {
                parity = !parity;
            }
            p = p + 1;
        }
        let ghost before = w;
        if parity {
            w = w | (1u16 << k);
        }
        proof {
            assert(is_dep_row(rows@[k as int], c, k as int));
            lemma_dep_row(row, c, word, k as int);
            assert forall|q: int| 0 <= q < 16 implies #[trigger] bits::word_bit(w, q) == (q < k + 1
                && bits::word_bit(field::gf_mul(c, word), q)) by {
                bits::lemma_set_word_bit(before, k, q as u16);
                assert(bits::word_bit(before, q) == (q < k && bits::word_bit(
                    field::gf_mul(c, word),
                    q,
                )));
            }
        }
        k = k + 1;
    }
    proof {
        assert forall|q: int| 0 <= q < 16 implies #[trigger] bits::word_bit(w, q)
            == bits::word_bit(field::gf_mul(c, word), q) by {}
        bits::lemma_same_word_bits(w, field::gf_mul(c, word));
    }
    w
}

/// Every word of `after` is the word of `before` plus `c` times the matching
/// word of `slice`.
pub open spec fn accumulates(before: Seq<u16>, after: Seq<u16>, c: u16, slice: Seq<u8>) -> bool {
    &&& after.len() == before.len()
    &&& forall|k: int|
        0 <= k < before.len() ==> #[trigger] after[k] == before[k] ^ field::gf_mul(
            c,
            bits::slice_word(slice, k),
        )
}

/// Accumulate with byte tables.
pub fn accumulate_bytes(buffer: &mut Vec<u16>, slice: &[u8], c: u16, gf: &Gf16)
    requires
        slice@.len() == 2 * old(buffer)@.len(),
    ensures
        accumulates(old(buffer)@, final(buffer)@, c, slice@),
{
    let tables: ByteTables = ByteTables::new(gf, c);
    let n: usize = buffer.len();
    let size: usize = slice.len();
    let ghost before = buffer@;
    let mut k: usize = 0;
    while k < n
        invariant
            k <= n,
            before.len() == n,
            buffer@.len() == n,
            slice@.len() == size,
            size == 2 * n,
            tables.of(c),
            forall|i: int| k <= i < n ==> buffer@[i] == before[i],
            forall|i: int|
                0 <= i < k ==> #[trigger] buffer@[i] == before[i] ^ field::gf_mul(
                    c,
                    bits::slice_word(slice@, i),
                ),
        decreases n - k,
    {
        let w: u16 = tables.product(Ghost(c), slice[2 * k], slice[2 * k + 1]);
        let v: u16 = buffer[k] ^ w;
        buffer[k] = v;
        k = k + 1;
    }
}

/// Accumulate with nibble tables.
pub fn accumulate_nibbles(buffer: &mut Vec<u16>, slice: &[u8], c: u16, gf: &Gf16)
    requires
        slice@.len() == 2 * old(buffer)@.len(),
    ensures
        accumulates(old(buffer)@, final(buffer)@, c, slice@),
{
    let tables: NibbleTables = NibbleTables::new(gf, c);
    let n: usize = buffer.len();
    let size: usize = slice.len();
    let ghost before = buffer@;
    let mut k: usize = 0;
    while k < n
        invariant
            k <= n,
            before.len() == n,
            buffer@.len() == n,
            slice@.len() == size,
            size == 2 * n,
            tables.of(c),
            forall|i: int| k <= i < n ==> buffer@[i] == before[i],
            forall|i: int|
                0 <= i < k ==> #[trigger] buffer@[i] == before[i] ^ field::gf_mul(
                    c,
                    bits::slice_word(slice@, i),
                ),
        decreases n - k,
    {
        let w: u16 = tables.product(Ghost(c), slice[2 * k], slice[2 * k + 1]);
        let v: u16 = buffer[k] ^ w;
        buffer[k] = v;
        k = k + 1;
    }
}

/// Accumulate with the bit-dependency matrix.
pub fn accumulate_matrix(buffer: &mut Vec<u16>, slice: &[u8], c: u16)
    requires
        slice@.len() == 2 * old(buffer)@.len(),
    ensures
        accumulates(old(buffer)@, final(buffer)@, c, slice@),
{
    let rows: [u16; 16] = xor_dep_matrix(c);
    let n: usize = buffer.len();
    let size: usize = slice.len();
    let ghost before = buffer@;
    let mut k: usize = 0;
    while k < n
        invariant
            k <= n,
            before.len() == n,
            buffer@.len() == n,
            slice@.len() == size,
            size == 2 * n,
            is_dep_matrix(rows@, c),
            forall|i: int| k <= i < n ==> buffer@[i] == before[i],
            forall|i: int|
                0 <= i < k ==> #[trigger] buffer@[i] == before[i] ^ field::gf_mul(
                    c,
                    bits::slice_word(slice@, i),
                ),
        decreases n - k,
    {
        let word: u16 = (slice[2 * k] as u16) ^ ((slice[2 * k + 1] as u16) << 8);
        let w: u16 = matrix_product(&rows, Ghost(c), word);
        let v: u16 = buffer[k] ^ w;
        buffer[k] = v;
        k = k + 1;
    }
}

/// Where the low byte of word `k` stands in a Shuffle2x buffer; the high byte
/// stands sixteen bytes on.
pub open spec fn shuffle2x_position(k: int) -> int {
    k / 16 * 32 + k % 16
}

/// The words that a buffer in Shuffle2x layout holds.
pub open spec fn shuffle2x_words(bytes: Seq<u8>) -> Seq<u16> {
    Seq::new(
        (bytes.len() / 2) as nat,
        |k: int|
            bits::le_word(bytes[shuffle2x_position(k)], bytes[shuffle2x_position(k) + 16]),
    )
}

/// Different words stand at different positions inside the buffer.
pub proof fn lemma_positions(i: int, k: int, n: int)
    requires
        0 <= i < n,
        0 <= k < n,
        n % 16 == 0,
    ensures
        0 <= shuffle2x_position(i),
        shuffle2x_position(i) + 16 < 2 * n,
        i != k ==> shuffle2x_position(i) != shuffle2x_position(k),
        shuffle2x_position(i) + 16 != shuffle2x_position(k),
{
}

/// Unshuffling a buffer gives the bytes of the words that it holds.
pub proof fn lemma_unshuffled_words(bytes: Seq<u8>)
    requires
        bytes.len() % 32 == 0,
    ensures
        shuffle2x::unshuffled(bytes) == bits::word_bytes(shuffle2x_words(bytes)),
{
    let words = shuffle2x_words(bytes);
    assert forall|i: int| 0 <= i < bytes.len() implies shuffle2x::unshuffled(bytes)[i]
        == bits::word_bytes(words)[i] by {
        let k = i / 2;
        let at = shuffle2x_position(k);
        assert(shuffle2x::shuffled_index(2 * k) == at);
        assert(shuffle2x::shuffled_index(2 * k + 1) == at + 16);
        bits::lemma_le_word(bytes[at], bytes[at + 16], 0);
    }
    assert(shuffle2x::unshuffled(bytes) =~= bits::word_bytes(words));
}

/// Accumulate into a buffer in Shuffle2x layout. The slice is in normal
/// layout.
pub fn accumulate_shuffle2x(buffer: &mut Vec<u8>, slice: &[u8], c: u16, gf: &Gf16)
    requires
        slice@.len() == old(buffer)@.len(),
        slice@.len() % 32 == 0,
    ensures
        final(buffer)@.len() == old(buffer)@.len(),
        accumulates(shuffle2x_words(old(buffer)@), shuffle2x_words(final(buffer)@), c, slice@),
{
    let tables: NibbleTables = NibbleTables::new(gf, c);
    let size: usize = slice.len();
    let n: usize = size / 2;
    let ghost words = shuffle2x_words(buffer@);
    let mut k: usize = 0;
    while k < n
        invariant
            k <= n,
            size == 2 * n,
            n % 16 == 0,
            buffer@.len() == size,
            slice@.len() == size,
            tables.of(c),
            words.len() == n,
            forall|i: int| k <= i < n ==> #[trigger] shuffle2x_words(buffer@)[i] == words[i],
            forall|i: int|
                0 <= i < k ==> #[trigger] shuffle2x_words(buffer@)[i] == words[i] ^ field::gf_mul(
                    c,
                    bits::slice_word(slice@, i),
                ),
        decreases n - k,
    {
        let at: usize = k / 16 * 32 + k % 16;
        let w: u16 = tables.product(Ghost(c), slice[2 * k], slice[2 * k + 1]);
        let ghost previous = buffer@;
        proof {
            lemma_positions(k as int, k as int, n as int);
        }
        let lo: u8 = buffer[at] ^ (w & 0xFF) as u8;
        let hi: u8 = buffer[at + 16] ^ (w >> 8) as u8;
        buffer[at] = lo;
        buffer[at + 16] = hi;
        proof {
            bits::lemma_le_word_of_xor(previous[at as int], previous[at + 16], w);
            assert(shuffle2x_words(previous)[k as int] == words[k as int]);
            assert(shuffle2x_words(buffer@)[k as int] == words[k as int] ^ w);
            assert forall|i: int| 0 <= i < n && i != k implies #[trigger] shuffle2x_words(
                buffer@,
            )[i] == shuffle2x_words(previous)[i] by {
                lemma_positions(i, k as int, n as int);
                lemma_positions(k as int, i, n as int);
            }
        }
        k = k + 1;
    }
}

/// Accumulate into a buffer in ALTMAP layout. The slice is in ALTMAP layout
/// too. Whatever words the two hold, the buffer ends up holding the sum.
pub(crate) fn accumulate_altmap(
    buffer: &mut Vec<u8>,
    slice: &[u8],
    rows: &[u16; 16],
    Ghost(c): Ghost<u16>,
    Ghost(words): Ghost<Seq<u16>>,
    Ghost(inputs): Ghost<Seq<u16>>,
)
    requires
        is_dep_matrix(rows@, c),
        altmap::is_altmap(old(buffer)@, words),
        altmap::is_altmap(slice@, inputs),
        words.len() == inputs.len(),
    ensures
        altmap::is_altmap(
            final(buffer)@,
            Seq::new(words.len(), |j: int| words[j] ^ field::gf_mul(c, inputs[j])),
        ),
{
    let size: usize = buffer.len();
    let plane: usize = size / 16;
    let ghost before = buffer@;
    let ghost sums = Seq::new(words.len(), |j: int| words[j] ^ field::gf_mul(c, inputs[j]));
    let mut k: usize = 0;
    let mut base: usize = 0;
    while k < 16
        invariant
            k <= 16,
            buffer@.len() == size,
            slice@.len() == size,
            plane == size / 16,
            size == 16 * plane,
            base == k * plane,
            size == 2 * words.len(),
            words.len() == inputs.len(),
            before.len() == size,
            is_dep_matrix(rows@, c),
            altmap::is_altmap(before, words),
            altmap::is_altmap(slice@, inputs),
            sums == Seq::new(words.len(), |j: int| words[j] ^ field::gf_mul(c, inputs[j])),
            forall|q: int, j: int|
                0 <= q < k && 0 <= j < sums.len() ==> #[trigger] altmap::plane_bit(buffer@, q, j)
                    == bits::word_bit(sums[j], q),
            forall|i: int| base <= i < size ==> #[trigger] buffer@[i] == before[i],
        decreases 16 - k,
    {
        let row: u16 = rows[k];
        assert(k * plane + plane <= 16 * plane) by (nonlinear_arith)
            requires
                k < 16,
                0 <= plane,
        ;
        let mut b: usize = 0;
        while b < plane
            invariant
                k < 16,
                b <= plane,
                row == rows@[k as int],
                buffer@.len() == size,
                slice@.len() == size,
                plane == size / 16,
                size == 16 * plane,
                base == k * plane,
                base + plane <= size,
                size == 2 * words.len(),
                words.len() == inputs.len(),
                before.len() == size,
                is_dep_matrix(rows@, c),
                altmap::is_altmap(before, words),
                altmap::is_altmap(slice@, inputs),
                sums == Seq::new(words.len(), |j: int| words[j] ^ field::gf_mul(c, inputs[j])),
                forall|q: int, j: int|
                    0 <= q < k && 0 <= j < sums.len() ==> #[trigger] altmap::plane_bit(
                        buffer@,
                        q,
                        j,
                    ) == bits::word_bit(sums[j], q),
                forall|j: int|
                    0 <= j < 8 * b ==> #[trigger] altmap::plane_bit(buffer@, k as int, j)
                        == bits::word_bit(sums[j], k as int),
                forall|i: int| base + b <= i < size ==> #[trigger] buffer@[i] == before[i],
            decreases plane - b,
        {
            let acc: u8 = selected_planes(slice, plane, b, row, Ghost(inputs));
            let ghost previous = buffer@;
            let v: u8 = buffer[base + b] ^ acc;
            buffer[base + b] = v;
            proof {
                assert forall|q: int, j: int|
                    0 <= q < k && 0 <= j < sums.len() implies #[trigger] altmap::plane_bit(
                    buffer@,
                    q,
                    j,
                ) == bits::word_bit(sums[j], q) by {
                    altmap::lemma_sections(k as int, q, plane as int);
                    assert(buffer@.len() as int / 16 == plane);
                    assert(j / 8 < plane);
                    assert(altmap::plane_bit(previous, q, j) == bits::word_bit(sums[j], q));
                }
                assert forall|j: int| 0 <= j < 8 * (b + 1) implies #[trigger] altmap::plane_bit(
                    buffer@,
                    k as int,
                    j,
                ) == bits::word_bit(sums[j], k as int) by {
                    assert(buffer@.len() as int / 16 == plane);
                    if j < 8 * b {
                        assert(altmap::plane_bit(previous, k as int, j) == bits::word_bit(
                            sums[j],
                            k as int,
                        ));
                    } else {
                        let t = j % 8;
                        assert(j / 8 == b && j == 8 * b + t);
                        assert(altmap::plane_bit(before, k as int, j) == bits::word_bit(
                            words[j],
                            k as int,
                        ));
                        assert(bits::byte_bit(acc, t) == dep_parity(row, inputs[8 * b + t], 16));
                        assert(is_dep_row(rows@[k as int], c, k as int));
                        lemma_dep_row(row, c, inputs[j], k as int);
                        bits::lemma_byte_bit_of_xor(before[base + b], acc, t);
                        bits::lemma_word_bit_of_xor(
                            words[j],
                            field::gf_mul(c, inputs[j]),
                            k as int,
                        );
                    }
                }
            }
            b = b + 1;
        }
        proof {
            assert(8 * plane == words.len());
            assert forall|q: int, j: int|
                0 <= q < k + 1 && 0 <= j < sums.len() implies #[trigger] altmap::plane_bit(
                buffer@,
                q,
                j,
            ) == bits::word_bit(sums[j], q) by {
                if q == k {
                    assert(altmap::plane_bit(buffer@, k as int, j) == bits::word_bit(
                        sums[j],
                        k as int,
                    ));
                }
            }
            assert((k + 1) * plane == k * plane + plane) by (nonlinear_arith);
        }
        k = k + 1;
        base = base + plane;
    }
}

/// The sum of the planes of `slice` that `row` selects, at byte `b` of each.
fn selected_planes(
    slice: &[u8],
    plane: usize,
    b: usize,
    row: u16,
    Ghost(inputs): Ghost<Seq<u16>>,
) -> (acc: u8)
    requires
        altmap::is_altmap(slice@, inputs),
        slice@.len() == 16 * plane,
        b < plane,
    ensures
        forall|t: int|
            0 <= t < 8 ==> #[trigger] bits::byte_bit(acc, t) == dep_parity(
                row,
                inputs[8 * b + t],
                16,
            ),
{
    let size: usize = slice.len();
    let mut acc: u8 = 0;
    let mut p: u16 = 0;
    let mut at: usize = b;
    proof {
        assert forall|t: int| 0 <= t < 8 implies !#[trigger] bits::byte_bit(acc, t) by {
            bits::lemma_byte_bit_of_xor(0, 0, t);
        }
    }
    while p < 16
        invariant
            p <= 16,
            b < plane,
            slice@.len() == size,
            size == 16 * plane,
            altmap::is_altmap(slice@, inputs),
            p < 16 ==> at == p * plane + b,
            forall|t: int|
                0 <= t < 8 ==> #[trigger] bits::byte_bit(acc, t) == dep_parity(
                    row,
                    inputs[8 * b + t],
                    p as nat,
                ),
        decreases 16 - p,
    {
        assert(p * plane + plane <= 16 * plane) by (nonlinear_arith)
            requires
                p < 16,
                0 <= plane,
        ;
        let ghost before = acc;
        if (row >> p) & 1 == 1 {
            acc = acc ^ slice[at];
        }
        proof {
            assert forall|t: int| 0 <= t < 8 implies #[trigger] bits::byte_bit(acc, t)
                == dep_parity(row, inputs[8 * b + t], (p + 1) as nat) by {
                let j = 8 * b + t;
                assert(j / 8 == b && j % 8 == t);
                assert(slice@.len() as int / 16 == plane);
                assert(altmap::plane_bit(slice@, p as int, j) == bits::word_bit(
                    inputs[j],
                    p as int,
                ));
                bits::lemma_byte_bit_of_xor(before, slice@[at as int], t);
                assert(bits::byte_bit(before, t) == dep_parity(row, inputs[8 * b + t], p as nat));
            }
            assert((p + 1) * plane == p * plane + plane) by (nonlinear_arith);
        }
        p = p + 1;
        if p < 16 {
            assert(p * plane + plane <= 16 * plane) by (nonlinear_arith)
                requires
                    p < 16,
                    0 <= plane,
            ;
            at = at + plane;
        }
    }
    acc
}

} // verus!

//! Shuffle2x data layout: within each 32-byte chunk the sixteen low bytes of
//! the words come first and the sixteen high bytes last.
//!
//! ```text
//! Normal  (32 bytes): w0_lo w0_hi  w1_lo w1_hi  … w15_lo w15_hi
//! Shuffle2x (32 B):  w0_lo w1_lo … w15_lo | w0_hi w1_hi … w15_hi
//! ```
//!
//! The total size is that of the normal layout: `N * 2` bytes for `N` words,
//! where `N` is a multiple of 16.

use vstd::prelude::*;

verus! {

/// Where byte `p` of a Shuffle2x buffer stands in the normal layout.
pub open spec fn normal_index(p: int) -> int {
    let r = p % 32;
    if r < 16 {
        p - r + 2 * r
    } else {
        p - r + 2 * (r - 16) + 1
    }
}

/// Where byte `q` of the normal layout stands in a Shuffle2x buffer.
pub open spec fn shuffled_index(q: int) -> int {
    let r = q % 32;
    if r % 2 == 0 {
        q - r + r / 2
    } else {
        q - r + 16 + r / 2
    }
}

/// The Shuffle2x form of a buffer in normal layout.
pub open spec fn shuffled(normal: Seq<u8>) -> Seq<u8> {
    Seq::new(normal.len(), |p: int| normal[normal_index(p)])
}

/// The normal form of a buffer in Shuffle2x layout.
pub open spec fn unshuffled(bytes: Seq<u8>) -> Seq<u8> {
    Seq::new(bytes.len(), |q: int| bytes[shuffled_index(q)])
}

/// The two index maps undo each other and stay inside the buffer.
pub proof fn lemma_indices_inverse(p: int, len: int)
    requires
        len % 32 == 0,
        0 <= p < len,
    ensures
        0 <= normal_index(p) < len,
        0 <= shuffled_index(p) < len,
        shuffled_index(normal_index(p)) == p,
        normal_index(shuffled_index(p)) == p,
{
}

/// Shuffling and then unshuffling gives the buffer back.
pub proof fn law_unshuffle_undoes_shuffle(normal: Seq<u8>)
    requires
        normal.len() % 32 == 0,
    ensures
        unshuffled(shuffled(normal)) == normal,
{
    assert forall|q: int| 0 <= q < normal.len() implies unshuffled(shuffled(normal))[q]
        == normal[q] by {
        lemma_indices_inverse(q, normal.len() as int);
    }
    assert(unshuffled(shuffled(normal)) =~= normal);
}

/// Unshuffling and then shuffling gives the buffer back.
pub proof fn law_shuffle_undoes_unshuffle(bytes: Seq<u8>)
    requires
        bytes.len() % 32 == 0,
    ensures
        shuffled(unshuffled(bytes)) == bytes,
{
    assert forall|p: int| 0 <= p < bytes.len() implies shuffled(unshuffled(bytes))[p]
        == bytes[p] by {
        lemma_indices_inverse(p, bytes.len() as int);
    }
    assert(shuffled(unshuffled(bytes)) =~= bytes);
}

/// Returns the byte size of one Shuffle2x buffer for `slice_words` u16 values.
/// Equal to `slice_words * 2` (same footprint as the normal layout).
pub fn shuffle2x_buffer_size(slice_words: usize) -> (size: usize)
    requires
        slice_words % 16 == 0,
        slice_words * 2 <= usize::MAX,
    ensures
        size == slice_words * 2,
{
    slice_words * 2
}

/// Convert `src` (bytes in normal u16 layout) into Shuffle2x layout, writing
/// into `dst`.
pub fn to_shuffle2x(src: &[u8], dst: &mut [u8])
    requires
        src@.len() % 32 == 0,
        old(dst)@.len() == src@.len(),
    ensures
        final(dst)@ == shuffled(src@),
{
    to_shuffle2x_scalar(src, dst)
}

/// Convert `src` (Shuffle2x layout) back to normal u16 layout, writing into
/// `dst`.
pub fn from_shuffle2x(src: &[u8], dst: &mut [u8])
    requires
        src@.len() % 32 == 0,
        old(dst)@.len() == src@.len(),
    ensures
        final(dst)@ == unshuffled(src@),
{
    from_shuffle2x_scalar(src, dst)
}

/// Portable form of [`to_shuffle2x`].
pub fn to_shuffle2x_scalar(src: &[u8], dst: &mut [u8])
    requires
        src@.len() % 32 == 0,
        old(dst)@.len() == src@.len(),
    ensures
        final(dst)@ == shuffled(src@),
{
    let n: usize = src.len();
    let mut p: usize = 0;
    while p < n
        invariant
            n == src@.len(),
            n % 32 == 0,
            p <= n,
            dst@.len() == n,
            forall|i: int| 0 <= i < p ==> #[trigger] dst@[i] == src@[normal_index(i)],
        decreases n - p,
    {
        proof {
            lemma_indices_inverse(p as int, n as int);
        }
        let r: usize = p % 32;
        let from: usize = if r < 16 {
            p - r + 2 * r
        } else {
            p - r + 2 * (r - 16) + 1
        };
        dst[p] = src[from];
        p = p + 1;
    }
    assert(dst@ =~= shuffled(src@));
}

/// Portable form of [`from_shuffle2x`].
pub fn from_shuffle2x_scalar(src: &[u8], dst: &mut [u8])
    requires
        src@.len() % 32 == 0,
        old(dst)@.len() == src@.len(),
    ensures
        final(dst)@ == unshuffled(src@),
{
    let n: usize = src.len();
    let mut q: usize = 0;
    while q < n
        invariant
            n == src@.len(),
            n % 32 == 0,
            q <= n,
            dst@.len() == n,
            forall|i: int| 0 <= i < q ==> #[trigger] dst@[i] == src@[shuffled_index(i)],
        decreases n - q,
    {
        proof {
            lemma_indices_inverse(q as int, n as int);
        }
        let r: usize = q % 32;
        let from: usize = if r % 2 == 0 {
            q - r + r / 2
        } else {
            q - r + 16 + r / 2
        };
        dst[q] = src[from];
        q = q + 1;
    }
    assert(dst@ =~= unshuffled(src@));
}

} // verus!

//! Streaming Reed-Solomon recovery encoder and file hashers.
//!
//! [`RecoveryEncoder`] accepts input slices one at a time and accumulates them
//! into every recovery buffer, so a file can be read a single time. After the
//! last slice the buffers hold the finished recovery data.
//!
//! Each slice is a sequence of little-endian 16-bit GF(2^16) words. Recovery
//! word `k` of the block with exponent `e` is the sum over the inputs `j` of
//! `coeff(j, e) * input_j[k]`, where `coeff(j, e) = 2^(logbase_j * e)`.

use vstd::prelude::*;

use crate::digests;

use super::altmap;
use super::bits;
use super::field;
use super::gf16;
use super::gf16::{input_logbases, Gf16, MAX_INPUT_BLOCKS};
use super::kernel;
use super::packet;
use super::packet::SliceChecksum;
use super::parallel;
use super::shuffle2x;

verus! {

/// Queued slices that trigger a flush whatever their size.
const QUEUE_LIMIT: usize = 128;

/// Bytes queued before a flush, unless a limit was set.
pub const DEFAULT_FLUSH_LIMIT: usize = 268_435_456;

/// Word `k` of the recovery block with exponent `e` over `inputs`.
pub open spec fn recovery_word(inputs: Seq<Seq<u8>>, e: nat, k: int) -> u16
    decreases inputs.len(),
{
    if inputs.len() == 0 {
        0
    } else {
        recovery_word(inputs.drop_last(), e, k) ^ field::gf_mul(
            gf16::coefficient(inputs.len() - 1, e),
            bits::slice_word(inputs.last(), k),
        )
    }
}

/// The words of the recovery block with exponent `e` over `inputs`.
pub open spec fn recovery_words(inputs: Seq<Seq<u8>>, e: nat, words: nat) -> Seq<u16> {
    Seq::new(words, |k: int| recovery_word(inputs, e, k))
}

/// The bytes of the recovery block with exponent `e` over `inputs`.
pub open spec fn recovery_block(inputs: Seq<Seq<u8>>, e: nat, slice_size: nat) -> Seq<u8> {
    bits::word_bytes(recovery_words(inputs, e, slice_size / 2))
}

/// The contents of a list of byte buffers.
pub open spec fn contents(buffers: Seq<Vec<u8>>) -> Seq<Seq<u8>> {
    Seq::new(buffers.len(), |i: int| buffers[i]@)
}

/// The word that `acc` becomes when the slices `queued` are added in, with
/// their logbases taken from `logs` starting at `start`.
pub open spec fn accumulated_word(
    acc: u16,
    queued: Seq<Seq<u8>>,
    logs: Seq<u32>,
    start: int,
    e: nat,
    k: int,
) -> u16
    decreases queued.len(),
{
    if queued.len() == 0 {
        acc
    } else {
        accumulated_word(acc, queued.drop_last(), logs, start, e, k) ^ field::gf_mul(
            field::gf_pow(2, logs[start + queued.len() - 1] as nat * e),
            bits::slice_word(queued.last(), k),
        )
    }
}

/// [`accumulated_word`] on every word of a block.
pub open spec fn accumulated_words(
    acc: Seq<u16>,
    queued: Seq<Seq<u8>>,
    logs: Seq<u32>,
    start: int,
    e: nat,
) -> Seq<u16> {
    Seq::new(acc.len(), |k: int| accumulated_word(acc[k], queued, logs, start, e, k))
}

/// One more slice in the queue adds one more product.
proof fn lemma_accumulate_one(
    acc: u16,
    queued: Seq<Seq<u8>>,
    n: int,
    logs: Seq<u32>,
    start: int,
    e: nat,
    k: int,
)
    requires
        0 <= n < queued.len(),
    ensures
        accumulated_word(acc, queued.take(n + 1), logs, start, e, k) == accumulated_word(
            acc,
            queued.take(n),
            logs,
            start,
            e,
            k,
        ) ^ field::gf_mul(
            field::gf_pow(2, logs[start + n] as nat * e),
            bits::slice_word(queued[n], k),
        ),
{
    assert(queued.take(n + 1).drop_last() =~= queued.take(n));
}

/// Adding the queue to the recovery data of the slices before it gives the
/// recovery data of all of them.
proof fn lemma_accumulated_is_recovery(
    processed: Seq<Seq<u8>>,
    queued: Seq<Seq<u8>>,
    logs: Seq<u32>,
    e: nat,
    k: int,
)
    requires
        processed.len() + queued.len() <= logs.len(),
        forall|i: int| 0 <= i < logs.len() ==> #[trigger] logs[i] as nat == gf16::logbase(i),
    ensures
        accumulated_word(
            recovery_word(processed, e, k),
            queued,
            logs,
            processed.len() as int,
            e,
            k,
        ) == recovery_word(processed + queued, e, k),
    decreases queued.len(),
{
    if queued.len() == 0 {
        assert(processed + queued =~= processed);
    } else {
        lemma_accumulated_is_recovery(processed, queued.drop_last(), logs, e, k);
        let all = processed + queued;
        assert(all.drop_last() =~= processed + queued.drop_last());
        assert(all.last() == queued.last());
        let last = all.len() - 1;
        gf16::lemma_coefficient_is_power_of_two(last, e);
        assert(logs[last] as nat == gf16::logbase(last));
    }
}

/// [`lemma_accumulated_is_recovery`] for a whole block.
proof fn lemma_block_sum(
    processed: Seq<Seq<u8>>,
    queued: Seq<Seq<u8>>,
    logs: Seq<u32>,
    e: nat,
    words: nat,
)
    requires
        processed.len() + queued.len() <= logs.len(),
        forall|i: int| 0 <= i < logs.len() ==> #[trigger] logs[i] as nat == gf16::logbase(i),
    ensures
        accumulated_words(
            recovery_words(processed, e, words),
            queued,
            logs,
            processed.len() as int,
            e,
        ) == recovery_words(processed + queued, e, words),
{
    let sums = accumulated_words(
        recovery_words(processed, e, words),
        queued,
        logs,
        processed.len() as int,
        e,
    );
    assert forall|k: int| 0 <= k < words implies sums[k] == recovery_words(
        processed + queued,
        e,
        words,
    )[k] by {
        lemma_accumulated_is_recovery(processed, queued, logs, e, k);
    }
    assert(sums =~= recovery_words(processed + queued, e, words));
}

/// The recovery block with exponent zero is the sum of the inputs.
pub open spec fn input_sum(inputs: Seq<Seq<u8>>, k: int) -> u16
    decreases inputs.len(),
{
    if inputs.len() == 0 {
        0
    } else {
        input_sum(inputs.drop_last(), k) ^ bits::slice_word(inputs.last(), k)
    }
}

/// The recovery block with exponent zero is the exclusive or of all inputs.
pub proof fn law_exponent_zero_is_the_sum(inputs: Seq<Seq<u8>>, k: int)
    ensures
        recovery_word(inputs, 0, k) == input_sum(inputs, k),
    decreases inputs.len(),
{
    if inputs.len() > 0 {
        law_exponent_zero_is_the_sum(inputs.drop_last(), k);
        gf16::law_exponent_zero_coefficient(inputs.len() - 1);
        field::lemma_mul_unit(bits::slice_word(inputs.last(), k));
    }
}

/// The recovery block of a single input is the input scaled by a power of its
/// base, which is two.
pub proof fn law_single_input_is_scaled(input: Seq<u8>, e: nat, k: int)
    ensures
        recovery_word(seq![input], e, k) == field::gf_mul(
            field::gf_pow(2, e),
            bits::slice_word(input, k),
        ),
{
    let inputs = seq![input];
    assert(inputs.drop_last() =~= Seq::<Seq<u8>>::empty());
    field::lemma_xor(
        field::gf_mul(gf16::coefficient(0, e), bits::slice_word(input, k)),
        0,
        0,
    );
    gf16::lemma_first_logbase();
    gf16::lemma_coefficient_is_power_of_two(0, e);
    assert(1nat * e == e);
    reveal_with_fuel(recovery_word, 2);
}

/// Encoding is linear: the recovery data of the word-wise sum of two inputs
/// sets is the sum of their recovery data.
pub proof fn law_recovery_is_linear(
    a: Seq<Seq<u8>>,
    b: Seq<Seq<u8>>,
    c: Seq<Seq<u8>>,
    e: nat,
    k: int,
)
    requires
        a.len() == b.len() == c.len(),
        forall|j: int|
            0 <= j < c.len() ==> #[trigger] bits::slice_word(c[j], k) == bits::slice_word(a[j], k)
                ^ bits::slice_word(b[j], k),
    ensures
        recovery_word(c, e, k) == recovery_word(a, e, k) ^ recovery_word(b, e, k),
    decreases a.len(),
{
    if a.len() == 0 {
        field::lemma_xor(0, 0, 0);
    } else {
        let n = a.len() - 1;
        assert forall|j: int| 0 <= j < n implies #[trigger] bits::slice_word(c.drop_last()[j], k)
            == bits::slice_word(a.drop_last()[j], k) ^ bits::slice_word(b.drop_last()[j], k) by {
            assert(bits::slice_word(c[j], k) == bits::slice_word(a[j], k) ^ bits::slice_word(
                b[j],
                k,
            ));
        }
        law_recovery_is_linear(a.drop_last(), b.drop_last(), c.drop_last(), e, k);
        let f = gf16::coefficient(n, e);
        assert(bits::slice_word(c[n], k) == bits::slice_word(a[n], k) ^ bits::slice_word(b[n], k));
        field::lemma_mul_distributes_right(
            f,
            bits::slice_word(a[n], k),
            bits::slice_word(b[n], k),
        );
        field::lemma_xor_exchange(
            recovery_word(a.drop_last(), e, k),
            recovery_word(b.drop_last(), e, k),
            field::gf_mul(f, bits::slice_word(a[n], k)),
            field::gf_mul(f, bits::slice_word(b[n], k)),
        );
    }
}

/// One recovery block makes up for one lost slice: two input sets that agree
/// on every slice but `lost` and have the same recovery block agree on the
/// lost slice too.
pub proof fn law_one_block_recovers_one_slice(
    a: Seq<Seq<u8>>,
    b: Seq<Seq<u8>>,
    lost: int,
    e: nat,
    k: int,
)
    requires
        a.len() == b.len(),
        0 <= lost < a.len(),
        forall|j: int| 0 <= j < a.len() && j != lost ==> #[trigger] a[j] == b[j],
        recovery_word(a, e, k) == recovery_word(b, e, k),
    ensures
        bits::slice_word(a[lost], k) == bits::slice_word(b[lost], k),
    decreases a.len(),
{
    let n = a.len() - 1;
    let f = gf16::coefficient(n, e);
    let ra = recovery_word(a.drop_last(), e, k);
    let rb = recovery_word(b.drop_last(), e, k);
    let wa = field::gf_mul(f, bits::slice_word(a.last(), k));
    let wb = field::gf_mul(f, bits::slice_word(b.last(), k));
    if lost == n {
        assert(a.drop_last() =~= b.drop_last());
        field::lemma_xor_cancels(ra, wa, wb);
        gf16::lemma_coefficient_is_power_of_two(n, e);
        field::lemma_mul_cancels(f, bits::slice_word(a.last(), k), bits::slice_word(b.last(), k));
    } else {
        assert(a[n] == b[n]);
        field::lemma_xor(ra, wa, 0);
        field::lemma_xor(rb, wa, 0);
        field::lemma_xor_cancels(wa, ra, rb);
        law_one_block_recovers_one_slice(a.drop_last(), b.drop_last(), lost, e, k);
    }
}

/// Returns the size in bytes of one ALTMAP recovery buffer for `slice_words`
/// GF(2^16) words. Equal to `slice_words * 2`.
pub fn altmap_buffer_size(slice_words: usize) -> (size: usize)
    requires
        slice_words % 16 == 0,
        slice_words * 2 <= usize::MAX,
    ensures
        size == slice_words * 2,
{
    altmap::altmap_size(slice_words)
}

/// Returns the size in bytes of one Shuffle2x recovery buffer for
/// `slice_words` GF(2^16) words. Equal to `slice_words * 2`.
pub fn shuffle2x_buffer_size(slice_words: usize) -> (size: usize)
    requires
        slice_words % 16 == 0,
        slice_words * 2 <= usize::MAX,
    ensures
        size == slice_words * 2,
{
    shuffle2x::shuffle2x_buffer_size(slice_words)
}

/// One finished recovery slice.
#[derive(Debug, Clone)]
pub struct RecoverySlice {
    /// Reed-Solomon exponent of this recovery block.
    pub exponent: u32,
    /// Recovery slice bytes (length equal to the slice size).
    pub data: Vec<u8>,
}

/// Selects how the encoder multiplies, in place of its own choice.
#[derive(Clone, Copy, PartialEq, Eq, Debug, Structural)]
pub enum BenchPath {
    Scalar,
    Ssse3,
    Avx2,
    Avx2Gfni,
    Avx512Gfni,
    Avx2Altmap,
    Avx2Shuffle2x,
}

/// How the recovery buffers of an encoder are laid out.
#[derive(Clone, Copy, PartialEq, Eq, Debug, Structural)]
pub enum BufferLayout {
    Normal,
    Altmap,
    Shuffle2x,
}

/// Storage for recovery accumulator buffers.
pub(crate) enum RecoveryBufferSet {
    /// One `Vec<u16>` per recovery block.
    Normal(Vec<Vec<u16>>),
    /// One `Vec<u8>` per recovery block, in ALTMAP bit-plane format.
    Altmap(Vec<Vec<u8>>),
    /// One `Vec<u8>` per recovery block, in Shuffle2x layout.
    Shuffle2x(Vec<Vec<u8>>),
}

impl RecoveryBufferSet {
    /// Number of recovery blocks.
    pub(crate) fn len(&self) -> (n: usize)
        ensures
            n == self.count(),
    {
        match self {
            RecoveryBufferSet::Normal(b) => b.len(),
            RecoveryBufferSet::Altmap(b) => b.len(),
            RecoveryBufferSet::Shuffle2x(b) => b.len(),
        }
    }

    /// Number of recovery blocks.
    pub(crate) closed spec fn count(&self) -> nat {
        match self {
            RecoveryBufferSet::Normal(b) => b@.len(),
            RecoveryBufferSet::Altmap(b) => b@.len(),
            RecoveryBufferSet::Shuffle2x(b) => b@.len(),
        }
    }

    /// The layout of the buffers.
    pub(crate) closed spec fn layout(&self) -> BufferLayout {
        match self {
            RecoveryBufferSet::Normal(_) => BufferLayout::Normal,
            RecoveryBufferSet::Altmap(_) => BufferLayout::Altmap,
            RecoveryBufferSet::Shuffle2x(_) => BufferLayout::Shuffle2x,
        }
    }

    /// The buffers hold the recovery data of `inputs`, the first of them with
    /// exponent `e0`.
    pub(crate) closed spec fn hold(&self, inputs: Seq<Seq<u8>>, e0: nat, words: nat) -> bool {
        match self {
            RecoveryBufferSet::Normal(b) => forall|i: int|
                0 <= i < b@.len() ==> #[trigger] b@[i]@ == recovery_words(
                    inputs,
                    (e0 + i) as nat,
                    words,
                ),
            RecoveryBufferSet::Altmap(b) => {
                &&& words % 16 == 0
                &&& forall|i: int|
                    0 <= i < b@.len() ==> altmap::is_altmap(
                        #[trigger] b@[i]@,
                        recovery_words(inputs, (e0 + i) as nat, words),
                    )
            },
            RecoveryBufferSet::Shuffle2x(b) => {
                &&& words % 16 == 0
                &&& forall|i: int|
                    0 <= i < b@.len() ==> (#[trigger] b@[i]@).len() == 2 * words
                        && kernel::shuffle2x_words(b@[i]@) == recovery_words(
                        inputs,
                        (e0 + i) as nat,
                        words,
                    )
            },
        }
    }
}

/// The slices of one flush and the coefficients that they are scaled by.
struct Batch<'a> {
    gf: &'a Gf16,
    queued: &'a Vec<Vec<u8>>,
    start: usize,
    logbases: &'a Vec<u32>,
    exponent_start: u32,
}

impl<'a> Batch<'a> {
    spec fn covers(&self, i: int, words: nat) -> bool {
        &&& self.start + self.queued@.len() <= self.logbases@.len()
        &&& 0 <= i
        &&& self.exponent_start + i <= u32::MAX
        &&& forall|q: int| 0 <= q < self.queued@.len() ==> (#[trigger] self.queued@[q])@.len() == 2
            * words
    }

    spec fn sum(&self, i: int, acc: Seq<u16>) -> Seq<u16> {
        accumulated_words(
            acc,
            contents(self.queued@),
            self.logbases@,
            self.start as int,
            (self.exponent_start + i) as nat,
        )
    }

    /// The state of a block of words after the first `n` slices.
    spec fn partial_sum(&self, i: int, acc: Seq<u16>, n: int) -> Seq<u16> {
        accumulated_words(
            acc,
            contents(self.queued@).take(n),
            self.logbases@,
            self.start as int,
            (self.exponent_start + i) as nat,
        )
    }

    proof fn lemma_partial_sums(&self, i: int, acc: Seq<u16>, n: int)
        requires
            0 <= n <= self.queued@.len(),
        ensures
            self.partial_sum(i, acc, 0) == acc,
            self.partial_sum(i, acc, self.queued@.len() as int) == self.sum(i, acc),
            n < self.queued@.len() ==> forall|k: int|
                0 <= k < acc.len() ==> #[trigger] self.partial_sum(i, acc, n + 1)[k]
                    == self.partial_sum(i, acc, n)[k] ^ field::gf_mul(
                    field::gf_pow(
                        2,
                        self.logbases@[self.start + n] as nat * ((self.exponent_start + i) as nat),
                    ),
                    bits::slice_word(self.queued@[n]@, k),
                ),
    {
        let all = contents(self.queued@);
        assert(all.take(0) =~= Seq::<Seq<u8>>::empty());
        assert(self.partial_sum(i, acc, 0) =~= acc);
        assert(all.take(all.len() as int) =~= all);
        if n < self.queued@.len() {
            assert forall|k: int| 0 <= k < acc.len() implies #[trigger] self.partial_sum(
                i,
                acc,
                n + 1,
            )[k] == self.partial_sum(i, acc, n)[k] ^ field::gf_mul(
                field::gf_pow(
                    2,
                    self.logbases@[self.start + n] as nat * ((self.exponent_start + i) as nat),
                ),
                bits::slice_word(self.queued@[n]@, k),
            ) by {
                lemma_accumulate_one(
                    acc[k],
                    all,
                    n,
                    self.logbases@,
                    self.start as int,
                    (self.exponent_start + i) as nat,
                    k,
                );
            }
        }
    }

    /// The coefficient of queued slice `q` in recovery block `i`.
    fn coefficient(&self, i: usize, q: usize) -> (c: u16)
        requires
            self.start + self.queued@.len() <= self.logbases@.len(),
            q < self.queued@.len(),
            self.exponent_start + i <= u32::MAX,
        ensures
            c == field::gf_pow(
                2,
                self.logbases@[self.start + q] as nat * ((self.exponent_start + i) as nat),
            ),
    {
        let _total: usize = self.logbases.len();
        self.gf.coefficient_of(self.logbases[self.start + q], self.exponent_start + i as u32)
    }
}

/// Adds a batch of slices to a block of words.
struct WordJob<'a> {
    batch: Batch<'a>,
    path: BenchPath,
}

impl<'a> parallel::BlockJob<Vec<u16>> for WordJob<'a> {
    closed spec fn ready(&self, i: int, before: Vec<u16>) -> bool {
        self.batch.covers(i, before@.len())
    }

    closed spec fn done(&self, i: int, before: Vec<u16>, after: Vec<u16>) -> bool {
        after@ == self.batch.sum(i, before@)
    }

    fn run(&self, i: usize, block: &mut Vec<u16>) {
        let ghost before = block@;
        let n: usize = self.batch.queued.len();
        let mut q: usize = 0;
        proof {
            self.batch.lemma_partial_sums(i as int, before, 0);
        }
        while q < n
            invariant
                q <= n,
                n == self.batch.queued@.len(),
                self.batch.covers(i as int, before.len()),
                block@.len() == before.len(),
                block@ == self.batch.partial_sum(i as int, before, q as int),
            decreases n - q,
        {
            let c: u16 = self.batch.coefficient(i, q);
            let slice: &Vec<u8> = &self.batch.queued[q];
            let ghost previous = block@;
            match self.path {
                BenchPath::Scalar => {
                    kernel::accumulate_bytes(block, slice.as_slice(), c, self.batch.gf);
                },
                BenchPath::Avx2Gfni | BenchPath::Avx512Gfni => {
                    kernel::accumulate_matrix(block, slice.as_slice(), c);
                },
                _ => {
                    kernel::accumulate_nibbles(block, slice.as_slice(), c, self.batch.gf);
                },
            }
            proof {
                self.batch.lemma_partial_sums(i as int, before, q as int);
                assert(block@ =~= self.batch.partial_sum(i as int, before, q + 1));
            }
            q = q + 1;
        }
        proof {
            self.batch.lemma_partial_sums(i as int, before, 0);
        }
    }
}

/// Adds a batch of slices to a block in Shuffle2x layout.
struct Shuffle2xJob<'a> {
    batch: Batch<'a>,
}

impl<'a> parallel::BlockJob<Vec<u8>> for Shuffle2xJob<'a> {
    closed spec fn ready(&self, i: int, before: Vec<u8>) -> bool {
        &&& before@.len() % 32 == 0
        &&& self.batch.covers(i, before@.len() / 2)
    }

    closed spec fn done(&self, i: int, before: Vec<u8>, after: Vec<u8>) -> bool {
        &&& after@.len() == before@.len()
        &&& kernel::shuffle2x_words(after@) == self.batch.sum(
            i,
            kernel::shuffle2x_words(before@),
        )
    }

    fn run(&self, i: usize, block: &mut Vec<u8>) {
        let ghost size = block@.len();
        let ghost before = kernel::shuffle2x_words(block@);
        let n: usize = self.batch.queued.len();
        let mut q: usize = 0;
        proof {
            self.batch.lemma_partial_sums(i as int, before, 0);
        }
        while q < n
            invariant
                q <= n,
                n == self.batch.queued@.len(),
                size % 32 == 0,
                block@.len() == size,
                before.len() == size / 2,
                self.batch.covers(i as int, before.len()),
                kernel::shuffle2x_words(block@) == self.batch.partial_sum(
                    i as int,
                    before,
                    q as int,
                ),
            decreases n - q,
        {
            let c: u16 = self.batch.coefficient(i, q);
            let slice: &Vec<u8> = &self.batch.queued[q];
            kernel::accumulate_shuffle2x(block, slice.as_slice(), c, self.batch.gf);
            proof {
                self.batch.lemma_partial_sums(i as int, before, q as int);
                assert(kernel::shuffle2x_words(block@) =~= self.batch.partial_sum(
                    i as int,
                    before,
                    q + 1,
                ));
            }
            q = q + 1;
        }
        proof {
            self.batch.lemma_partial_sums(i as int, before, 0);
        }
    }
}

/// The words of a byte sequence in normal layout.
pub open spec fn words_of(bytes: Seq<u8>) -> Seq<u16> {
    Seq::new((bytes.len() / 2) as nat, |k: int| bits::slice_word(bytes, k))
}

/// Adds a batch of slices to a block in ALTMAP layout. The slices have been
/// converted to ALTMAP layout beforehand.
struct AltmapJob<'a> {
    batch: Batch<'a>,
    slices: &'a Vec<Vec<u8>>,
    dep_tables: &'a Vec<[u16; 16]>,
}

impl<'a> AltmapJob<'a> {
    spec fn converted(&self) -> bool {
        &&& self.slices@.len() == self.batch.queued@.len()
        &&& forall|q: int|
            0 <= q < self.slices@.len() ==> altmap::is_altmap(
                (#[trigger] self.slices@[q])@,
                words_of(self.batch.queued@[q]@),
            )
        &&& are_dep_tables(self.dep_tables@)
    }
}

impl<'a> parallel::BlockJob<Vec<u8>> for AltmapJob<'a> {
    closed spec fn ready(&self, i: int, before: Vec<u8>) -> bool {
        &&& self.converted()
        &&& self.batch.covers(i, before@.len() / 2)
        &&& exists|words: Seq<u16>| #[trigger] altmap::is_altmap(before@, words)
    }

    closed spec fn done(&self, i: int, before: Vec<u8>, after: Vec<u8>) -> bool {
        forall|words: Seq<u16>| #[trigger]
            altmap::is_altmap(before@, words) ==> altmap::is_altmap(
                after@,
                self.batch.sum(i, words),
            )
    }

    fn run(&self, i: usize, block: &mut Vec<u8>) {
        let ghost start = block@;
        let ghost before = choose|words: Seq<u16>| #[trigger] altmap::is_altmap(block@, words);
        let n: usize = self.batch.queued.len();
        let mut q: usize = 0;
        proof {
            self.batch.lemma_partial_sums(i as int, before, 0);
        }
        while q < n
            invariant
                q <= n,
                n == self.batch.queued@.len(),
                self.converted(),
                self.batch.covers(i as int, before.len()),
                altmap::is_altmap(block@, self.batch.partial_sum(i as int, before, q as int)),
            decreases n - q,
        {
            let c: u16 = self.batch.coefficient(i, q);
            let ghost words = self.batch.partial_sum(i as int, before, q as int);
            let ghost inputs = words_of(self.batch.queued@[q as int]@);
            kernel::accumulate_altmap(
                block,
                self.slices[q].as_slice(),
                &self.dep_tables[c as usize],
                Ghost(c),
                Ghost(words),
                Ghost(inputs),
            );
            proof {
                self.batch.lemma_partial_sums(i as int, before, q as int);
                let sums = Seq::new(words.len(), |j: int| words[j] ^ field::gf_mul(c, inputs[j]));
                assert(sums =~= self.batch.partial_sum(i as int, before, q + 1));
            }
            q = q + 1;
        }
        proof {
            self.batch.lemma_partial_sums(i as int, before, 0);
            assert forall|words: Seq<u16>| #[trigger] altmap::is_altmap(
                start,
                words,
            ) implies altmap::is_altmap(block@, self.batch.sum(i as int, words)) by {
                altmap::law_altmap_determines_words(start, words, before);
            }
        }
    }
}

/// `tables` holds the bit-dependency matrix of every field element.
pub open spec fn are_dep_tables(tables: Seq<[u16; 16]>) -> bool {
    &&& tables.len() == 65536
    &&& forall|n: int|
        0 <= n < 65536 ==> kernel::is_dep_matrix((#[trigger] tables[n])@, n as u16)
}

/// Computes the checksums of a batch of slices.
struct ChecksumJob<'a> {
    queued: &'a Vec<Vec<u8>>,
}

impl<'a> parallel::BlockJob<SliceChecksum> for ChecksumJob<'a> {
    closed spec fn ready(&self, i: int, before: SliceChecksum) -> bool {
        0 <= i < self.queued@.len()
    }

    closed spec fn done(&self, i: int, before: SliceChecksum, after: SliceChecksum) -> bool {
        after@ == packet::checksum_of(self.queued@[i]@)
    }

    fn run(&self, i: usize, block: &mut SliceChecksum) {
        *block = slice_checksum(self.queued[i].as_slice());
    }
}

/// MD5 + CRC32 checksum of one zero-padded input slice.
pub fn slice_checksum(padded_slice: &[u8]) -> (checksum: SliceChecksum)
    ensures
        checksum@ == packet::checksum_of(padded_slice@),
{
    SliceChecksum { md5: packet::md5(padded_slice), crc32: crate::yenc::crc32(padded_slice) }
}

/// What is known of an encoder from outside.
pub struct EncoderState {
    /// Bytes per slice.
    pub slice_size: nat,
    /// Number of input slices announced at construction.
    pub total: nat,
    /// Exponent of the first recovery block.
    pub exponent_start: nat,
    /// Number of recovery blocks.
    pub recovery_count: nat,
    /// Layout of the recovery buffers.
    pub layout: BufferLayout,
    /// The slices that are part of the recovery buffers.
    pub processed: Seq<Seq<u8>>,
    /// The slices that wait for the next flush.
    pub queued: Seq<Seq<u8>>,
    /// Bytes queued before a flush.
    pub flush_limit: nat,
    /// Whether a flush computes the checksums of its slices.
    pub checksums: bool,
    /// Checksums computed and not yet handed out, in slice order.
    pub pending: Seq<(Seq<u8>, u32)>,
    /// Number of recycled buffers in the pool.
    pub free: nat,
    /// How to multiply whatever the layout suggests, where that is forced.
    pub forced: Option<BenchPath>,
}

impl EncoderState {
    /// A fresh encoder.
    pub open spec fn fresh(
        slice_size: nat,
        total: nat,
        exponent_start: nat,
        recovery_count: nat,
        layout: BufferLayout,
    ) -> EncoderState {
        EncoderState {
            slice_size,
            total,
            exponent_start,
            recovery_count,
            layout,
            processed: Seq::empty(),
            queued: Seq::empty(),
            flush_limit: DEFAULT_FLUSH_LIMIT as nat,
            checksums: false,
            pending: Seq::empty(),
            free: 0,
            forced: None,
        }
    }

    /// All slices fed so far, in order.
    pub open spec fn inputs(self) -> Seq<Seq<u8>> {
        self.processed + self.queued
    }

    /// The state after the queue has been processed.
    pub open spec fn flushed(self) -> EncoderState {
        EncoderState {
            processed: self.inputs(),
            queued: Seq::empty(),
            pending: if self.checksums {
                self.pending + checksums_of(self.queued)
            } else {
                self.pending
            },
            free: self.free + self.queued.len(),
            ..self
        }
    }

    /// The state after one more slice was fed: the queue is processed when it
    /// reaches the slice count or the byte limit.
    pub open spec fn fed(self, slice: Seq<u8>) -> EncoderState {
        let grown = EncoderState { queued: self.queued.push(slice), ..self };
        if grown.queued.len() >= 128 || grown.queued.len() * self.slice_size >= self.flush_limit {
            grown.flushed()
        } else {
            grown
        }
    }
}

/// The checksums of a list of slices.
pub open spec fn checksums_of(slices: Seq<Seq<u8>>) -> Seq<(Seq<u8>, u32)> {
    Seq::new(slices.len(), |i: int| packet::checksum_of(slices[i]))
}

/// The views of a list of checksums.
pub open spec fn checksum_views(checksums: Seq<SliceChecksum>) -> Seq<(Seq<u8>, u32)> {
    Seq::new(checksums.len(), |i: int| checksums[i]@)
}

/// Accumulates input slices into Reed-Solomon recovery buffers.
pub struct RecoveryEncoder {
    gf: Gf16,
    /// Number of 16-bit words per slice.
    slice_words: usize,
    /// `logbase` exponent of each input slice, by global slice index.
    logbases: Vec<u32>,
    /// The starting exponent for the first buffer.
    exponent_start: u32,
    /// One accumulator buffer per recovery block.
    buffers: RecoveryBufferSet,
    /// Number of input slices in the buffers.
    next_index: usize,
    /// The input slices in the buffers.
    processed: Ghost<Seq<Seq<u8>>>,
    /// Queue of input slices waiting to be processed.
    queued_slices: Vec<Vec<u8>>,
    /// Reusable buffers, all of them empty.
    free_buffers: Vec<Vec<u8>>,
    /// Maximum bytes to queue before flushing.
    flush_limit_bytes: usize,
    /// Whether each flush also computes per-slice checksums.
    compute_checksums: bool,
    pending_checksums: Vec<SliceChecksum>,
    /// Multiply this way whatever the layout suggests.
    forced_path: Option<BenchPath>,
    /// Bit-dependency matrices of all field elements, for ALTMAP buffers.
    dep_tables: Option<Vec<[u16; 16]>>,
}

impl View for RecoveryEncoder {
    type V = EncoderState;

    closed spec fn view(&self) -> EncoderState {
        EncoderState {
            slice_size: 2 * self.slice_words as nat,
            total: self.logbases@.len(),
            exponent_start: self.exponent_start as nat,
            recovery_count: self.buffers.count(),
            layout: self.buffers.layout(),
            processed: self.processed@,
            queued: contents(self.queued_slices@),
            flush_limit: self.flush_limit_bytes as nat,
            checksums: self.compute_checksums,
            pending: checksum_views(self.pending_checksums@),
            free: self.free_buffers@.len(),
            forced: self.forced_path,
        }
    }
}

impl RecoveryEncoder {
    /// The buffers hold the recovery data of the processed slices, and every
    /// slice has the slice size.
    pub closed spec fn wf(&self) -> bool {
        &&& 0 < self.slice_words
        &&& 2 * self.slice_words <= usize::MAX
        &&& self.exponent_start + self.buffers.count() <= 0x1_0000_0000
        &&& self.next_index == self.processed@.len()
        &&& self.next_index + self.queued_slices@.len() <= self.logbases@.len()
        &&& self.logbases@.len() <= MAX_INPUT_BLOCKS
        &&& forall|i: int|
            0 <= i < self.logbases@.len() ==> #[trigger] self.logbases@[i] as nat == gf16::logbase(
                i,
            )
        &&& self.buffers.hold(
            self.processed@,
            self.exponent_start as nat,
            self.slice_words as nat,
        )
        &&& forall|q: int|
            0 <= q < self.queued_slices@.len() ==> (#[trigger] self.queued_slices@[q])@.len() == 2
                * self.slice_words
        &&& forall|q: int|
            0 <= q < self.free_buffers@.len() ==> (#[trigger] self.free_buffers@[q])@.len() == 0
        &&& self.buffers.layout() == BufferLayout::Altmap ==> self.dep_tables.is_some()
        &&& self.dep_tables.is_some() ==> are_dep_tables(self.dep_tables.unwrap()@)
    }

    /// Create an encoder for `total_input_slices` input slices of `slice_size`
    /// bytes each, producing `recovery_count` recovery blocks (exponents
    /// `exponent_start..exponent_start + recovery_count`).
    pub fn new(
        slice_size: usize,
        total_input_slices: usize,
        exponent_start: u32,
        recovery_count: usize,
    ) -> (encoder: Self)
        requires
            slice_size > 0,
            slice_size % 4 == 0,
            total_input_slices <= MAX_INPUT_BLOCKS,
            exponent_start + recovery_count <= 0x1_0000_0000,
        ensures
            encoder.wf(),
            encoder@ == EncoderState::fresh(
                slice_size as nat,
                total_input_slices as nat,
                exponent_start as nat,
                recovery_count as nat,
                BufferLayout::Normal,
            ),
    {
        let slice_words: usize = slice_size / 2;
        assert(2 * slice_words == slice_size);
        let mut buffers: Vec<Vec<u16>> = Vec::with_capacity(recovery_count);
        let mut i: usize = 0;
        while i < recovery_count
            invariant
                i <= recovery_count,
                buffers@.len() == i,
                forall|j: int|
                    0 <= j < i ==> #[trigger] buffers@[j]@ == recovery_words(
                        Seq::empty(),
                        (exponent_start + j) as nat,
                        slice_words as nat,
                    ),
            decreases recovery_count - i,
        {
            let zeros: Vec<u16> = vec![0u16; slice_words];
            assert(zeros@ =~= recovery_words(
                Seq::empty(),
                (exponent_start + i) as nat,
                slice_words as nat,
            ));
            buffers.push(zeros);
            i = i + 1;
        }
        Self::with_buffers(
            slice_words,
            total_input_slices,
            exponent_start,
            RecoveryBufferSet::Normal(buffers),
            None,
        )
    }

    /// An encoder around fresh buffers.
    fn with_buffers(
        slice_words: usize,
        total_input_slices: usize,
        exponent_start: u32,
        buffers: RecoveryBufferSet,
        dep_tables: Option<Vec<[u16; 16]>>,
    ) -> (encoder: Self)
        requires
            0 < slice_words,
            2 * slice_words <= usize::MAX,
            total_input_slices <= MAX_INPUT_BLOCKS,
            exponent_start + buffers.count() <= 0x1_0000_0000,
            buffers.hold(Seq::empty(), exponent_start as nat, slice_words as nat),
            buffers.layout() == BufferLayout::Altmap ==> dep_tables.is_some(),
            dep_tables.is_some() ==> are_dep_tables(dep_tables.unwrap()@),
        ensures
            encoder.wf(),
            encoder@ == EncoderState::fresh(
                2 * slice_words as nat,
                total_input_slices as nat,
                exponent_start as nat,
                buffers.count(),
                buffers.layout(),
            ),
    {
        let encoder = RecoveryEncoder {
            gf: Gf16::new(),
            slice_words,
            logbases: input_logbases(total_input_slices),
            exponent_start,
            buffers,
            next_index: 0,
            processed: Ghost(Seq::empty()),
            queued_slices: Vec::with_capacity(64),
            free_buffers: Vec::new(),
            flush_limit_bytes: DEFAULT_FLUSH_LIMIT,
            compute_checksums: false,
            pending_checksums: Vec::new(),
            forced_path: None,
            dep_tables,
        };
        assert(encoder@.queued =~= Seq::empty());
        assert(encoder@.pending =~= Seq::empty());
        encoder
    }

    /// Build the bit-dependency matrix of every field element.
    pub fn build_dep_tables() -> (tables: Vec<[u16; 16]>)
        ensures
            are_dep_tables(tables@),
    {
        let mut tables: Vec<[u16; 16]> = Vec::with_capacity(65536);
        let mut n: u32 = 0;
        while n < 65536
            invariant
                n <= 65536,
                tables@.len() == n,
                forall|i: int|
                    0 <= i < n ==> kernel::is_dep_matrix((#[trigger] tables@[i])@, i as u16),
            decreases 65536 - n,
        {
            tables.push(kernel::xor_dep_matrix(n as u16));
            n = n + 1;
        }
        tables
    }

    /// Create an encoder that stores recovery buffers in ALTMAP bit-plane
    /// format. Otherwise as [`RecoveryEncoder::new`].
    pub fn new_altmap(
        slice_size: usize,
        total_input_slices: usize,
        exponent_start: u32,
        recovery_count: usize,
    ) -> (encoder: Self)
        requires
            slice_size > 0,
            slice_size % 32 == 0,
            total_input_slices <= MAX_INPUT_BLOCKS,
            exponent_start + recovery_count <= 0x1_0000_0000,
        ensures
            encoder.wf(),
            encoder@ == EncoderState::fresh(
                slice_size as nat,
                total_input_slices as nat,
                exponent_start as nat,
                recovery_count as nat,
                BufferLayout::Altmap,
            ),
    {
        let slice_words: usize = slice_size / 2;
        assert(2 * slice_words == slice_size);
        let buf_bytes: usize = altmap_buffer_size(slice_words);
        let mut buffers: Vec<Vec<u8>> = Vec::with_capacity(recovery_count);
        let mut i: usize = 0;
        while i < recovery_count
            invariant
                i <= recovery_count,
                buf_bytes == 2 * slice_words,
                slice_words % 16 == 0,
                buffers@.len() == i,
                forall|j: int|
                    0 <= j < i ==> altmap::is_altmap(
                        #[trigger] buffers@[j]@,
                        recovery_words(
                            Seq::empty(),
                            (exponent_start + j) as nat,
                            slice_words as nat,
                        ),
                    ),
            decreases recovery_count - i,
        {
            let zeros: Vec<u8> = vec![0u8; buf_bytes];
            proof {
                altmap::lemma_zeros(
                    zeros@,
                    recovery_words(
                        Seq::empty(),
                        (exponent_start + i) as nat,
                        slice_words as nat,
                    ),
                );
            }
            buffers.push(zeros);
            i = i + 1;
        }
        Self::with_buffers(
            slice_words,
            total_input_slices,
            exponent_start,
            RecoveryBufferSet::Altmap(buffers),
            Some(Self::build_dep_tables()),
        )
    }

    /// Create an encoder that stores recovery buffers in Shuffle2x layout.
    /// Otherwise as [`RecoveryEncoder::new`].
    pub fn new_shuffle2x(
        slice_size: usize,
        total_input_slices: usize,
        exponent_start: u32,
        recovery_count: usize,
    ) -> (encoder: Self)
        requires
            slice_size > 0,
            slice_size % 32 == 0,
            total_input_slices <= MAX_INPUT_BLOCKS,
            exponent_start + recovery_count <= 0x1_0000_0000,
        ensures
            encoder.wf(),
            encoder@ == EncoderState::fresh(
                slice_size as nat,
                total_input_slices as nat,
                exponent_start as nat,
                recovery_count as nat,
                BufferLayout::Shuffle2x,
            ),
    {
        let slice_words: usize = slice_size / 2;
        assert(2 * slice_words == slice_size);
        let buf_bytes: usize = shuffle2x_buffer_size(slice_words);
        let mut buffers: Vec<Vec<u8>> = Vec::with_capacity(recovery_count);
        let mut i: usize = 0;
        while i < recovery_count
            invariant
                i <= recovery_count,
                buf_bytes == 2 * slice_words,
                slice_words % 16 == 0,
                buffers@.len() == i,
                forall|j: int|
                    0 <= j < i ==> (#[trigger] buffers@[j]@).len() == 2 * slice_words
                        && kernel::shuffle2x_words(buffers@[j]@) == recovery_words(
                        Seq::empty(),
                        (exponent_start + j) as nat,
                        slice_words as nat,
                    ),
            decreases recovery_count - i,
        {
            let zeros: Vec<u8> = vec![0u8; buf_bytes];
            proof {
                bits::lemma_le_word(0, 0, 0);
                assert forall|k: int| 0 <= k < slice_words implies #[trigger] kernel::shuffle2x_words(
                    zeros@,
                )[k] == 0 by {
                    kernel::lemma_positions(k, k, slice_words as int);
                    assert(bits::le_word(0, 0) == 0) by (bit_vector);
                }
                assert(kernel::shuffle2x_words(zeros@) =~= recovery_words(
                    Seq::empty(),
                    (exponent_start + i) as nat,
                    slice_words as nat,
                ));
            }
            buffers.push(zeros);
            i = i + 1;
        }
        Self::with_buffers(
            slice_words,
            total_input_slices,
            exponent_start,
            RecoveryBufferSet::Shuffle2x(buffers),
            None,
        )
    }

    /// Set the maximum bytes to queue before flushing.
    pub fn with_flush_limit(self, bytes: usize) -> (encoder: Self)
        requires
            self.wf(),
        ensures
            encoder.wf(),
            encoder@ == (EncoderState { flush_limit: bytes as nat, ..self@ }),
    {
        let mut encoder = self;
        encoder.flush_limit_bytes = bytes;
        encoder
    }

    /// Force a way of multiplying. The ALTMAP and Shuffle2x ways need buffers
    /// of that layout.
    pub fn with_forced_path(self, path: BenchPath) -> (encoder: Self)
        requires
            self.wf(),
            path == BenchPath::Avx2Altmap ==> self@.layout != BufferLayout::Normal,
            path == BenchPath::Avx2Shuffle2x ==> self@.layout != BufferLayout::Normal,
        ensures
            encoder.wf(),
            encoder@ == (EncoderState { forced: Some(path), ..self@ }),
    {
        let mut encoder = self;
        encoder.forced_path = Some(path);
        encoder
    }

    /// Enable per-slice checksum computation. Each flush then computes the
    /// checksums of its slices; [`RecoveryEncoder::drain_checksums`] and
    /// [`RecoveryEncoder::finish`] hand them out in slice order.
    pub fn with_checksums(self) -> (encoder: Self)
        requires
            self.wf(),
        ensures
            encoder.wf(),
            encoder@ == (EncoderState { checksums: true, ..self@ }),
    {
        let mut encoder = self;
        encoder.compute_checksums = true;
        encoder
    }

    /// Return and clear all checksums accumulated so far (in input-slice order).
    pub fn drain_checksums(&mut self) -> (checksums: Vec<SliceChecksum>)
        requires
            old(self).wf(),
        ensures
            final(self).wf(),
            checksum_views(checksums@) == old(self)@.pending,
            final(self)@ == (EncoderState { pending: Seq::empty(), ..old(self)@ }),
    {
        let mut checksums: Vec<SliceChecksum> = Vec::new();
        std::mem::swap(&mut self.pending_checksums, &mut checksums);
        assert(self@.pending =~= Seq::empty());
        checksums
    }

    /// Hand the producer an empty buffer with room for one slice: one recycled
    /// from a previous flush, or a fresh one.
    pub fn take_buffer(&mut self) -> (buffer: Vec<u8>)
        requires
            old(self).wf(),
        ensures
            final(self).wf(),
            buffer@.len() == 0,
            final(self)@ == (EncoderState {
                free: (if old(self)@.free > 0 {
                    (old(self)@.free - 1) as nat
                } else {
                    0
                }),
                ..old(self)@
            }),
    {
        let slice_size: usize = self.slice_words * 2;
        match self.free_buffers.pop() {
            Some(buffer) => {
                let mut buffer = buffer;
                buffer.clear();
                buffer.reserve(slice_size);
                buffer
            },
            None => Vec::with_capacity(slice_size),
        }
    }

    /// Remove all pooled buffers and return them to the caller.
    pub fn drain_free_buffers(&mut self) -> (buffers: Vec<Vec<u8>>)
        requires
            old(self).wf(),
        ensures
            final(self).wf(),
            buffers@.len() == old(self)@.free,
            forall|i: int| 0 <= i < buffers@.len() ==> (#[trigger] buffers@[i])@.len() == 0,
            final(self)@ == (EncoderState { free: 0, ..old(self)@ }),
    {
        let mut buffers: Vec<Vec<u8>> = Vec::new();
        std::mem::swap(&mut self.free_buffers, &mut buffers);
        buffers
    }

    /// The number of slices fed so far.
    pub fn inputs_len(&self) -> (n: usize)
        requires
            self.wf(),
        ensures
            n == self@.inputs().len(),
    {
        self.next_index + self.queued_slices.len()
    }

    /// Feed one input slice, already zero-padded to the slice size.
    ///
    /// Ownership of `slice` is taken so the encoder can queue it for batched
    /// processing without an extra copy.
    pub fn add_slice(&mut self, slice: Vec<u8>)
        requires
            old(self).wf(),
            slice@.len() == old(self)@.slice_size,
            old(self)@.inputs().len() < old(self)@.total,
        ensures
            final(self).wf(),
            final(self)@ == old(self)@.fed(slice@),
    {
        let ghost before = self@;
        self.queued_slices.push(slice);
        assert(self@.queued =~= before.queued.push(slice@));
        let count: usize = self.queued_slices.len();
        let slice_size: usize = self.slice_words * 2;
        let full: bool = match count.checked_mul(slice_size) {
            Some(bytes) => bytes >= self.flush_limit_bytes,
            None => true,
        };
        if count >= QUEUE_LIMIT || full {
            self.flush();
        }
    }

    /// Process the queue.
    fn flush(&mut self)
        requires
            old(self).wf(),
        ensures
            final(self).wf(),
            final(self)@ == old(self)@.flushed(),
    {
        let ghost before = self@;
        if self.queued_slices.len() == 0 {
            assert(self@.processed =~= before.flushed().processed);
            assert(self@.queued =~= before.flushed().queued);
            assert(self@.pending =~= before.flushed().pending);
            return;
        }
        let mut queued: Vec<Vec<u8>> = Vec::new();
        std::mem::swap(&mut self.queued_slices, &mut queued);
        let ghost slices = contents(queued@);
        let start: usize = self.next_index;
        let _total: usize = self.logbases.len();
        if self.compute_checksums {
            let mut checksums: Vec<SliceChecksum> = checksums_in_order(&queued);
            proof {
                assert(checksum_views(self.pending_checksums@ + checksums@) =~= checksum_views(
                    self.pending_checksums@,
                ) + checksum_views(checksums@));
            }
            self.pending_checksums.append(&mut checksums);
        }
        let ghost processed = self.processed@;
        let path: BenchPath = match self.forced_path {
            Some(path) => path,
            None => BenchPath::Avx2,
        };
        let ghost all = processed + slices;
        let ghost logs = self.logbases@;
        let ghost words = self.slice_words as nat;
        let ghost e0 = self.exponent_start as nat;
        match &mut self.buffers {
            RecoveryBufferSet::Normal(buffers) => {
                let ghost held = buffers@;
                let job = WordJob {
                    batch: Batch {
                        gf: &self.gf,
                        queued: &queued,
                        start,
                        logbases: &self.logbases,
                        exponent_start: self.exponent_start,
                    },
                    path,
                };
                parallel::for_each_block(buffers, &job);
                proof {
                    assert forall|i: int| 0 <= i < buffers@.len() implies #[trigger] buffers@[i]@
                        == recovery_words(all, (e0 + i) as nat, words) by {
                        assert(parallel::BlockJob::done(&job, i, held[i], buffers@[i]));
                        lemma_block_sum(processed, slices, logs, (e0 + i) as nat, words);
                    }
                }
            },
            RecoveryBufferSet::Altmap(buffers) => {
                let ghost held = buffers@;
                let converted: Vec<Vec<u8>> = altmap_slices(&queued, self.slice_words);
                if let Some(dep_tables) = &self.dep_tables {
                    let job = AltmapJob {
                        batch: Batch {
                            gf: &self.gf,
                            queued: &queued,
                            start,
                            logbases: &self.logbases,
                            exponent_start: self.exponent_start,
                        },
                        slices: &converted,
                        dep_tables,
                    };
                    proof {
                        assert(job.converted());
                        assert forall|i: int| 0 <= i < held.len() implies #[trigger]
                            parallel::BlockJob::ready(&job, i, held[i]) by {
                            assert(altmap::is_altmap(
                                held[i]@,
                                recovery_words(processed, (e0 + i) as nat, words),
                            ));
                            assert(held[i]@.len() / 2 == words);
                            assert(job.batch.covers(i, words));
                        }
                    }
                    parallel::for_each_block(buffers, &job);
                    proof {
                        assert forall|i: int| 0 <= i < buffers@.len() implies altmap::is_altmap(
                            #[trigger] buffers@[i]@,
                            recovery_words(all, (e0 + i) as nat, words),
                        ) by {
                            assert(parallel::BlockJob::done(&job, i, held[i], buffers@[i]));
                            assert(altmap::is_altmap(
                                held[i]@,
                                recovery_words(processed, (e0 + i) as nat, words),
                            ));
                            lemma_block_sum(processed, slices, logs, (e0 + i) as nat, words);
                        }
                    }
                }
            },
            RecoveryBufferSet::Shuffle2x(buffers) => {
                let ghost held = buffers@;
                let job = Shuffle2xJob {
                    batch: Batch {
                        gf: &self.gf,
                        queued: &queued,
                        start,
                        logbases: &self.logbases,
                        exponent_start: self.exponent_start,
                    },
                };
                parallel::for_each_block(buffers, &job);
                proof {
                    assert forall|i: int| 0 <= i < buffers@.len() implies (
                    #[trigger] buffers@[i]@).len() == 2 * words && kernel::shuffle2x_words(
                        buffers@[i]@,
                    ) == recovery_words(all, (e0 + i) as nat, words) by {
                        assert(parallel::BlockJob::done(&job, i, held[i], buffers@[i]));
                        assert(held[i]@.len() == 2 * words);
                        lemma_block_sum(processed, slices, logs, (e0 + i) as nat, words);
                    }
                }
            },
        }
        assert(self.buffers.hold(all, e0, words));
        assert(self.buffers.count() == before.recovery_count);
        assert(self.buffers.layout() == before.layout);
        self.next_index = start + queued.len();
        self.processed = Ghost(processed + slices);
        assert(self@.queued =~= Seq::empty());
        assert(self@.pending =~= before.flushed().pending);
        assert(slices =~= before.queued);
        self.recycle_queue(queued);
    }

    /// Add a batch of slices to recovery buffers of words, with byte tables:
    /// the plain form of what a flush does. `logbases` gives the logbase of
    /// each input slice, of which the first in `queued` is number
    /// `start_index`; the first buffer has the exponent `exponent_start`.
    pub fn flush_scalar_work(
        buffers: &mut Vec<Vec<u16>>,
        queued: &Vec<Vec<u8>>,
        start_index: usize,
        logbases: &Vec<u32>,
        exponent_start: u32,
        gf: &Gf16,
    )
        requires
            start_index + queued@.len() <= logbases@.len(),
            exponent_start + old(buffers)@.len() <= 0x1_0000_0000,
            forall|i: int, q: int|
                0 <= i < old(buffers)@.len() && 0 <= q < queued@.len() ==> (
                #[trigger] queued@[q])@.len() == 2 * (#[trigger] old(buffers)@[i])@.len(),
        ensures
            final(buffers)@.len() == old(buffers)@.len(),
            forall|i: int|
                0 <= i < old(buffers)@.len() ==> (#[trigger] final(buffers)@[i])@
                    == accumulated_words(
                    old(buffers)@[i]@,
                    contents(queued@),
                    logbases@,
                    start_index as int,
                    (exponent_start + i) as nat,
                ),
    {
        let ghost held = buffers@;
        let job = WordJob {
            batch: Batch { gf, queued, start: start_index, logbases, exponent_start },
            path: BenchPath::Scalar,
        };
        parallel::for_each_block(buffers, &job);
        assert forall|i: int| 0 <= i < held.len() implies (#[trigger] buffers@[i])@
            == accumulated_words(
            held[i]@,
            contents(queued@),
            logbases@,
            start_index as int,
            (exponent_start + i) as nat,
        ) by {
            assert(parallel::BlockJob::done(&job, i, held[i], buffers@[i]));
        }
    }

    /// Consume the encoder and return the finished recovery slices together
    /// with the checksums not yet handed out (none when checksums were not
    /// enabled with [`RecoveryEncoder::with_checksums`]).
    pub fn finish(self) -> (finished: (Vec<RecoverySlice>, Vec<SliceChecksum>))
        requires
            self.wf(),
        ensures
            finished.0@.len() == self@.recovery_count,
            forall|i: int|
                0 <= i < self@.recovery_count ==> (#[trigger] finished.0@[i]).exponent
                    == self@.exponent_start + i && finished.0@[i].data@ == recovery_block(
                    self@.inputs(),
                    (self@.exponent_start + i) as nat,
                    self@.slice_size,
                ),
            checksum_views(finished.1@) == self@.flushed().pending,
    {
        let mut encoder = self;
        encoder.flush();
        let checksums: Vec<SliceChecksum> = encoder.drain_checksums();
        let n: usize = encoder.buffers.len();
        let ghost words = encoder.slice_words as nat;
        let ghost inputs = self@.inputs();
        let ghost e0 = encoder.exponent_start as nat;
        let mut slices: Vec<RecoverySlice> = Vec::with_capacity(n);
        let mut i: usize = 0;
        while i < n
            invariant
                i <= n,
                n == encoder.buffers.count(),
                encoder.wf(),
                encoder.processed@ == inputs,
                words == encoder.slice_words,
                e0 == encoder.exponent_start,
                slices@.len() == i,
                forall|j: int|
                    0 <= j < i ==> (#[trigger] slices@[j]).exponent == e0 + j
                        && slices@[j].data@ == recovery_block(
                        inputs,
                        (e0 + j) as nat,
                        2 * words,
                    ),
            decreases n - i,
        {
            let data: Vec<u8> = encoder.block_bytes(i);
            slices.push(RecoverySlice { exponent: encoder.exponent_start + i as u32, data });
            i = i + 1;
        }
        (slices, checksums)
    }

    /// The bytes of one recovery block, in normal layout.
    fn block_bytes(&self, i: usize) -> (data: Vec<u8>)
        requires
            self.wf(),
            i < self.buffers.count(),
        ensures
            data@ == recovery_block(
                self.processed@,
                (self.exponent_start + i) as nat,
                2 * self.slice_words as nat,
            ),
    {
        match &self.buffers {
            RecoveryBufferSet::Normal(buffers) => bytes_of_words(&buffers[i]),
            RecoveryBufferSet::Altmap(buffers) => {
                let mut words: Vec<u16> = vec![0u16; self.slice_words];
                altmap::from_altmap(buffers[i].as_slice(), words.as_mut_slice());
                proof {
                    altmap::law_altmap_determines_words(
                        buffers@[i as int]@,
                        words@,
                        recovery_words(
                            self.processed@,
                            (self.exponent_start + i) as nat,
                            self.slice_words as nat,
                        ),
                    );
                }
                bytes_of_words(&words)
            },
            RecoveryBufferSet::Shuffle2x(buffers) => {
                let mut normal: Vec<u8> = vec![0u8; buffers[i].len()];
                shuffle2x::from_shuffle2x(buffers[i].as_slice(), normal.as_mut_slice());
                proof {
                    kernel::lemma_unshuffled_words(buffers@[i as int]@);
                }
                normal
            },
        }
    }

    /// Move consumed buffers, emptied, into the pool.
    fn recycle_queue(&mut self, queued: Vec<Vec<u8>>)
        requires
            old(self).wf(),
            old(self)@.queued.len() == 0,
        ensures
            final(self).wf(),
            final(self)@ == (EncoderState {
                free: old(self)@.free + queued@.len(),
                ..old(self)@
            }),
    {
        let mut rest: Vec<Vec<u8>> = queued;
        let ghost before = self@;
        let ghost n = rest@.len();
        while rest.len() > 0
            invariant
                self.wf(),
                before.queued.len() == 0,
                self@ == (EncoderState { free: (before.free + n - rest@.len()) as nat, ..before }),
                rest@.len() <= n,
            decreases rest@.len(),
        {
            if let Some(buffer) = rest.pop() {
                let mut buffer = buffer;
                buffer.clear();
                self.free_buffers.push(buffer);
            }
        }
    }
}

/// The checksums of some slices, in order.
fn checksums_in_order(queued: &Vec<Vec<u8>>) -> (checksums: Vec<SliceChecksum>)
    ensures
        checksum_views(checksums@) == checksums_of(contents(queued@)),
{
    let n: usize = queued.len();
    let mut checksums: Vec<SliceChecksum> = Vec::with_capacity(n);
    let mut i: usize = 0;
    while i < n
        invariant
            i <= n,
            checksums@.len() == i,
        decreases n - i,
    {
        checksums.push(SliceChecksum { md5: [0u8; 16], crc32: 0 });
        i = i + 1;
    }
    let job = ChecksumJob { queued };
    let ghost zeroed = checksums@;
    parallel::for_each_block(&mut checksums, &job);
    assert forall|k: int| 0 <= k < n implies #[trigger] checksums@[k]@ == packet::checksum_of(
        queued@[k]@,
    ) by {
        assert(parallel::BlockJob::done(&job, k, zeroed[k], checksums@[k]));
    }
    assert(checksum_views(checksums@) =~= checksums_of(contents(queued@)));
    checksums
}

/// The words of a slice.
fn slice_words(slice: &[u8]) -> (words: Vec<u16>)
    ensures
        words@ == words_of(slice@),
{
    let n: usize = slice.len() / 2;
    let mut words: Vec<u16> = Vec::with_capacity(n);
    let mut k: usize = 0;
    while k < n
        invariant
            k <= n,
            n == slice@.len() / 2,
            2 * n <= usize::MAX,
            words@.len() == k,
            forall|i: int| 0 <= i < k ==> #[trigger] words@[i] == bits::slice_word(slice@, i),
        decreases n - k,
    {
        words.push((slice[2 * k] as u16) ^ ((slice[2 * k + 1] as u16) << 8));
        k = k + 1;
    }
    assert(words@ =~= words_of(slice@));
    words
}

/// The little-endian bytes of some words.
fn bytes_of_words(words: &Vec<u16>) -> (data: Vec<u8>)
    ensures
        data@ == bits::word_bytes(words@),
{
    let n: usize = words.len();
    let mut data: Vec<u8> = Vec::new();
    let mut k: usize = 0;
    while k < n
        invariant
            k <= n,
            n == words@.len(),
            data@.len() == 2 * k,
            forall|i: int| 0 <= i < 2 * k ==> #[trigger] data@[i] == bits::word_bytes(words@)[i],
        decreases n - k,
    {
        let word: u16 = words[k];
        data.push((word & 0xFF) as u8);
        data.push((word >> 8) as u8);
        k = k + 1;
    }
    assert(data@ =~= bits::word_bytes(words@));
    data
}

/// Some slices, converted to ALTMAP layout.
fn altmap_slices(queued: &Vec<Vec<u8>>, slice_words_count: usize) -> (slices: Vec<Vec<u8>>)
    requires
        slice_words_count % 16 == 0,
        2 * slice_words_count <= usize::MAX,
        forall|q: int|
            0 <= q < queued@.len() ==> (#[trigger] queued@[q])@.len() == 2 * slice_words_count,
    ensures
        slices@.len() == queued@.len(),
        forall|q: int|
            0 <= q < slices@.len() ==> altmap::is_altmap(
                (#[trigger] slices@[q])@,
                words_of(queued@[q]@),
            ),
{
    let n: usize = queued.len();
    let mut slices: Vec<Vec<u8>> = Vec::with_capacity(n);
    let mut q: usize = 0;
    while q < n
        invariant
            q <= n,
            n == queued@.len(),
            slice_words_count % 16 == 0,
            2 * slice_words_count <= usize::MAX,
            forall|i: int|
                0 <= i < queued@.len() ==> (#[trigger] queued@[i])@.len() == 2
                    * slice_words_count,
            slices@.len() == q,
            forall|i: int|
                0 <= i < q ==> altmap::is_altmap(
                    (#[trigger] slices@[i])@,
                    words_of(queued@[i]@),
                ),
        decreases n - q,
    {
        let words: Vec<u16> = slice_words(queued[q].as_slice());
        let mut converted: Vec<u8> = vec![0u8; altmap_buffer_size(slice_words_count)];
        altmap::to_altmap(words.as_slice(), converted.as_mut_slice());
        slices.push(converted);
        q = q + 1;
    }
    slices
}

/// Bytes covered by the per-file 16k hash.
pub const HEAD_LEN: usize = 16_384;

/// MD5 and length of a whole file, plus the MD5 of its first 16 KiB.
#[derive(Debug, Clone)]
pub struct FileHashes {
    pub md5_full: [u8; 16],
    pub md5_16k: [u8; 16],
    pub length: u64,
}

/// The first 16 KiB of a file, or all of it when it is shorter.
pub open spec fn file_head(data: Seq<u8>) -> Seq<u8> {
    if data.len() <= HEAD_LEN {
        data
    } else {
        data.take(HEAD_LEN as int)
    }
}

/// The hashes are those of a file with this content.
pub open spec fn are_hashes_of(hashes: FileHashes, content: Seq<u8>) -> bool {
    &&& hashes.md5_full@ == digests::md5_digest(content)
    &&& hashes.md5_16k@ == digests::md5_digest(file_head(content))
    &&& hashes.length == content.len()
}

/// Computes [`FileHashes`] from a file's real bytes, fed incrementally.
pub struct FileHasher {
    full: md5::Md5,
    head: md5::Md5,
    head_consumed: usize,
    length: u64,
}

impl View for FileHasher {
    type V = Seq<u8>;

    /// The bytes fed so far.
    closed spec fn view(&self) -> Seq<u8> {
        digests::md5_fed(self.full)
    }
}

impl FileHasher {
    /// The head hasher has the head of what the full hasher has.
    pub closed spec fn wf(&self) -> bool {
        &&& self.length == self@.len()
        &&& digests::md5_fed(self.head) == file_head(self@)
        &&& self.head_consumed == file_head(self@).len()
    }

    /// Start hashing a new file.
    pub fn new() -> (hasher: Self)
        ensures
            hasher.wf(),
            hasher@ == Seq::<u8>::empty(),
    {
        FileHasher {
            full: digests::md5_new(),
            head: digests::md5_new(),
            head_consumed: 0,
            length: 0,
        }
    }

    /// Feed more of the file's real (unpadded) bytes.
    pub fn update(&mut self, data: &[u8])
        requires
            old(self).wf(),
            old(self)@.len() + data@.len() <= u64::MAX,
        ensures
            final(self).wf(),
            final(self)@ == old(self)@ + data@,
    {
        let ghost before = self@;
        digests::md5_update(&mut self.full, data);
        self.length = self.length + data.len() as u64;
        let room: usize = HEAD_LEN - self.head_consumed;
        if room > 0 {
            let take: usize = if room < data.len() {
                room
            } else {
                data.len()
            };
            digests::md5_update(&mut self.head, vstd::slice::slice_subrange(data, 0, take));
            self.head_consumed = self.head_consumed + take;
        }
        assert(digests::md5_fed(self.head) =~= file_head(before + data@));
    }

    /// Finish and return the hashes.
    pub fn finish(self) -> (hashes: FileHashes)
        requires
            self.wf(),
        ensures
            hashes.md5_full@ == digests::md5_digest(self@),
            hashes.md5_16k@ == digests::md5_digest(file_head(self@)),
            hashes.length == self@.len(),
            are_hashes_of(hashes, self@),
    {
        FileHashes {
            md5_full: digests::md5_finalize(self.full),
            md5_16k: digests::md5_finalize(self.head),
            length: self.length,
        }
    }
}

impl Default for FileHasher {
    fn default() -> (hasher: Self)
        ensures
            hasher.wf(),
            hasher@ == Seq::<u8>::empty(),
    {
        FileHasher::new()
    }
}

} // verus!

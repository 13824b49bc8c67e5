//! Cutting the articles of a run into PAR2 slices.
//!
//! Articles are gathered until they make up a slice. A slice holds bytes of
//! one file only: what is left at the end of a file is filled up with zeros.

use vstd::arithmetic::div_mod::*;
use vstd::arithmetic::mul::*;
use vstd::prelude::*;

use crate::par2::encoder;
use crate::par2::encoder::{EncoderState, RecoveryEncoder, RecoverySlice};
use crate::par2::packet::SliceChecksum;
use crate::sizes;
use crate::text;
use crate::yenc;

use super::geometry;

verus! {

/// `bytes` cut or filled up with zeros to `size`.
pub open spec fn resized(bytes: Seq<u8>, size: nat) -> Seq<u8> {
    Seq::new(
        size,
        |i: int|
            if i < bytes.len() {
                bytes[i]
            } else {
                0
            },
    )
}

/// The slices that are complete, and the bytes that wait for more.
pub struct Assembly {
    pub slices: Seq<Seq<u8>>,
    pub waiting: Seq<u8>,
}

impl Assembly {
    /// One more article of the same file.
    pub open spec fn with_article(self, article: Seq<u8>, size: nat) -> Assembly {
        let bytes = self.waiting + article;
        if bytes.len() >= size {
            Assembly { slices: self.slices.push(resized(bytes, size)), waiting: Seq::empty() }
        } else {
            Assembly { slices: self.slices, waiting: bytes }
        }
    }

    /// The end of a file.
    pub open spec fn with_file_end(self, size: nat) -> Assembly {
        if self.waiting.len() > 0 {
            Assembly {
                slices: self.slices.push(resized(self.waiting, size)),
                waiting: Seq::empty(),
            }
        } else {
            self
        }
    }

    /// The first `n` articles of a file.
    pub open spec fn with_articles(
        self,
        data: Seq<u8>,
        article_size: nat,
        n: nat,
        size: nat,
    ) -> Assembly
        decreases n,
    {
        if n == 0 {
            self
        } else {
            self.with_articles(data, article_size, (n - 1) as nat, size).with_article(
                article_of(data, article_size, n - 1),
                size,
            )
        }
    }

    /// A whole file, article by article.
    pub open spec fn with_file(self, data: Seq<u8>, article_size: nat, size: nat) -> Assembly {
        self.with_articles(
            data,
            article_size,
            yenc::segment_count(data.len(), article_size),
            size,
        ).with_file_end(size)
    }

    /// Several files, one after the other.
    pub open spec fn with_files(self, files: Seq<Seq<u8>>, article_size: nat, size: nat) -> Assembly
        decreases files.len(),
    {
        if files.len() == 0 {
            self
        } else {
            self.with_files(files.drop_last(), article_size, size).with_file(
                files.last(),
                article_size,
                size,
            )
        }
    }
}

/// Article `i` of a file.
pub open spec fn article_of(data: Seq<u8>, article_size: nat, i: int) -> Seq<u8> {
    let (offset, len) = yenc::segment(data.len(), article_size, i);
    data.subrange(offset, offset + len)
}

/// Slice `i` of a file.
pub open spec fn slice_of(data: Seq<u8>, size: nat, i: int) -> Seq<u8> {
    Seq::new(
        size,
        |j: int|
            if i * size + j < data.len() {
                data[i * size + j]
            } else {
                0
            },
    )
}

/// A file cut into slices, the last one filled up with zeros.
pub open spec fn slices_of(data: Seq<u8>, size: nat) -> Seq<Seq<u8>> {
    Seq::new(geometry::groups_of(data.len(), size), |i: int| slice_of(data, size, i))
}

/// The slices of several files, in their order.
pub open spec fn slices_of_files(files: Seq<Seq<u8>>, size: nat) -> Seq<Seq<u8>>
    decreases files.len(),
{
    if files.len() == 0 {
        Seq::empty()
    } else {
        slices_of_files(files.drop_last(), size) + slices_of(files.last(), size)
    }
}

proof fn lemma_articles(base: Assembly, data: Seq<u8>, m: nat, k: nat, n: nat)
    requires
        m > 0,
        k > 0,
        data.len() > 0,
        base.waiting.len() == 0,
        n <= yenc::segment_count(data.len(), m),
    ensures
        ({
            let size = k * m;
            let p = if n * m < data.len() {
                (n * m) as int
            } else {
                data.len() as int
            };
            let full = p / size as int;
            let state = base.with_articles(data, m, n, size);
            &&& size > 0
            &&& 0 <= full * size <= p < (full + 1) * size
            &&& state.slices == base.slices + Seq::new(
                full as nat,
                |i: int| slice_of(data, size, i),
            )
            &&& state.waiting == data.subrange(full * size, p)
        }),
    decreases n,
{
    let size = k * m;
    assert(size > 0) by (nonlinear_arith)
        requires
            size == k * m,
            k > 0,
            m > 0,
    ;
    let p = if n * m < data.len() {
        (n * m) as int
    } else {
        data.len() as int
    };
    let full = p / size as int;
    lemma_fundamental_div_mod(p, size as int);
    assert(full * size <= p < (full + 1) * size) by (nonlinear_arith)
        requires
            p == size * full + p % size as int,
            0 <= p % (size as int) < size,
    ;
    assert(full >= 0) by {
        lemma_div_pos_is_pos(p, size as int);
    }
    assert(full * size >= 0) by (nonlinear_arith)
        requires
            full >= 0,
            size > 0,
    ;
    let state = base.with_articles(data, m, n, size);
    if n == 0 {
        assert(0 * m == 0);
        assert(p == 0);
        assert(full == 0) by {
            lemma_basic_div(0, size as int);
        }
        assert(state.slices =~= base.slices + Seq::new(
            full as nat,
            |i: int| slice_of(data, size, i),
        ));
        assert(state.waiting =~= data.subrange(full * size, p));
    } else {
        let before = base.with_articles(data, m, (n - 1) as nat, size);
        lemma_articles(base, data, m, k, (n - 1) as nat);
        let q = (n - 1) * m;
        lemma_fundamental_div_mod(data.len() - 1, m as int);
        assert(q < data.len()) by (nonlinear_arith)
            requires
                q == (n - 1) * m,
                n - 1 <= (data.len() - 1) / m as int,
                data.len() - 1 == m * ((data.len() - 1) / m as int) + (data.len() - 1) % m as int,
                (data.len() - 1) % m as int >= 0,
                m > 0,
        ;
        let done = q / size as int;
        assert(q < (done + 1) * size);
        assert(n - 1 < (done + 1) * k) by (nonlinear_arith)
            requires
                (n - 1) * m < (done + 1) * size,
                size == k * m,
                m > 0,
        ;
        assert(n * m <= (done + 1) * size) by (nonlinear_arith)
            requires
                n <= (done + 1) * k,
                size == k * m,
                m > 0,
        ;
        assert(n * m == q + m) by (nonlinear_arith)
            requires
                q == (n - 1) * m,
        ;
        let article = article_of(data, m, n - 1);
        assert(article =~= data.subrange(q, p));
        let bytes = before.waiting + article;
        assert(bytes =~= data.subrange(done * size, p));
        assert((done + 1) * size == done * size + size) by (nonlinear_arith);
        if bytes.len() >= size {
            assert(p == (done + 1) * size);
            assert(full == done + 1) by {
                lemma_div_multiples_vanish(done + 1, size as int);
                assert(size * (done + 1) == (done + 1) * size) by (nonlinear_arith);
            }
            assert(resized(bytes, size) =~= slice_of(data, size, done)) by {
                assert forall|j: int| 0 <= j < size implies resized(bytes, size)[j] == slice_of(
                    data,
                    size,
                    done,
                )[j] by {
                    assert(bytes[j] == data[done * size + j]);
                }
            }
            assert(state.slices =~= base.slices + Seq::new(
                full as nat,
                |i: int| slice_of(data, size, i),
            ));
            assert(state.waiting =~= data.subrange(full * size, p));
        } else {
            assert(full == done) by {
                lemma_fundamental_div_mod_converse(p, size as int, done, p - done * size);
            }
            assert(state.slices =~= base.slices + Seq::new(
                full as nat,
                |i: int| slice_of(data, size, i),
            ));
            assert(state.waiting =~= data.subrange(full * size, p));
        }
    }
}

proof fn lemma_full_file(base: Assembly, data: Seq<u8>, m: nat, k: nat)
    requires
        m > 0,
        k > 0,
        data.len() > 0,
        base.waiting.len() == 0,
    ensures
        base.with_file(data, m, k * m) == (Assembly {
            slices: base.slices + slices_of(data, k * m),
            waiting: Seq::empty(),
        }),
{
    let size = k * m;
    let n = yenc::segment_count(data.len(), m);
    let len = data.len() as int;
    lemma_articles(base, data, m, k, n);
    lemma_fundamental_div_mod(len - 1, m as int);
    assert(n * m >= len) by (nonlinear_arith)
        requires
            n == (len - 1) / m as int + 1,
            len - 1 == m * ((len - 1) / m as int) + (len - 1) % m as int,
            ((len - 1) % m as int) < m,
    ;
    let full = len / size as int;
    let state = base.with_articles(data, m, n, size);
    let end = state.with_file_end(size);
    lemma_fundamental_div_mod(len - 1, size as int);
    let groups = (len - 1) / size as int + 1;
    assert((full + 1) * size == full * size + size) by (nonlinear_arith);
    assert(full >= 0) by {
        lemma_div_pos_is_pos(len, size as int);
    }
    if state.waiting.len() > 0 {
        lemma_fundamental_div_mod_converse(len - 1, size as int, full, len - 1 - full * size);
        assert(resized(state.waiting, size) =~= slice_of(data, size, full)) by {
            assert forall|j: int| 0 <= j < size implies resized(state.waiting, size)[j] == slice_of(
                data,
                size,
                full,
            )[j] by {
                if j < state.waiting.len() {
                    assert(state.waiting[j] == data[full * size + j]);
                }
            }
        }
        assert(end.slices =~= base.slices + slices_of(data, size));
    } else {
        assert(len == full * size);
        assert(full > 0) by (nonlinear_arith)
            requires
                len == full * size,
                len > 0,
                size > 0,
        ;
        assert((full - 1) * size == full * size - size) by (nonlinear_arith);
        lemma_fundamental_div_mod_converse(len - 1, size as int, full - 1, (size - 1) as int);
        assert(end.slices =~= base.slices + slices_of(data, size));
    }
    assert(end.waiting =~= Seq::empty());
}

/// Article by article, a file is cut into its slices, when a slice is a whole
/// number of articles. An empty file has none.
pub proof fn law_articles_make_up_the_slices(base: Assembly, data: Seq<u8>, m: nat, k: nat)
    requires
        m > 0,
        k > 0,
        base.waiting.len() == 0,
    ensures
        base.with_file(data, m, k * m) == (Assembly {
            slices: base.slices + slices_of(data, k * m),
            waiting: Seq::empty(),
        }),
{
    let size = k * m;
    if data.len() > 0 {
        lemma_full_file(base, data, m, k);
    } else {
        assert(size > 0) by (nonlinear_arith)
            requires
                size == k * m,
                k > 0,
                m > 0,
        ;
        assert(0 * m == 0);
        assert(base.with_articles(data, m, 0, size) == base);
        assert(base.waiting + article_of(data, m, 0) =~= Seq::empty());
        assert(base.with_file(data, m, size).slices =~= base.slices + slices_of(data, size));
    }
}

/// A run feeds the slices of all files, in order.
pub proof fn law_runs_feed_all_slices(files: Seq<Seq<u8>>, m: nat, k: nat)
    requires
        m > 0,
        k > 0,
    ensures
        (Assembly { slices: Seq::empty(), waiting: Seq::empty() }).with_files(files, m, k * m) == (
        Assembly { slices: slices_of_files(files, k * m), waiting: Seq::empty() }),
    decreases files.len(),
{
    let empty = Assembly { slices: Seq::<Seq<u8>>::empty(), waiting: Seq::<u8>::empty() };
    if files.len() > 0 {
        let rest = files.drop_last();
        law_runs_feed_all_slices(rest, m, k);
        law_articles_make_up_the_slices(empty.with_files(rest, m, k * m), files.last(), m, k);
    }
}

/// The number of articles of each file.
pub open spec fn article_counts(files: Seq<Seq<u8>>, m: nat) -> Seq<usize> {
    Seq::new(files.len(), |i: int| yenc::segment_count(files[i].len(), m) as usize)
}

/// The articles of each file can be counted.
pub open spec fn counts_fit(files: Seq<Seq<u8>>, m: nat) -> bool {
    forall|i: int|
        0 <= i < files.len() ==> yenc::segment_count((#[trigger] files[i]).len(), m) <= usize::MAX
}

/// The number of empty files.
pub open spec fn empty_of(files: Seq<Seq<u8>>) -> nat
    decreases files.len(),
{
    if files.len() == 0 {
        0
    } else {
        empty_of(files.drop_last()) + (if files.last().len() == 0 {
            1nat
        } else {
            0nat
        })
    }
}

/// The geometry counts on the slices that are fed, and on one more for each
/// empty file: it has an article of its own, but no bytes to feed.
pub proof fn law_slices_match_the_geometry(files: Seq<Seq<u8>>, m: nat, k: nat)
    requires
        m > 0,
        k > 0,
        counts_fit(files, m),
    ensures
        geometry::slices_for(article_counts(files, m), k) == slices_of_files(files, k * m).len()
            + empty_of(files),
    decreases files.len(),
{
    let counts = article_counts(files, m);
    if files.len() > 0 {
        let rest = files.drop_last();
        let last = files[files.len() - 1];
        assert forall|i: int| 0 <= i < rest.len() implies yenc::segment_count(
            (#[trigger] rest[i]).len(),
            m,
        ) <= usize::MAX by {
            assert(rest[i] == files[i]);
        }
        law_slices_match_the_geometry(rest, m, k);
        assert(article_counts(rest, m) =~= counts.drop_last());
        let len = last.len();
        if len > 0 {
            lemma_div_denominator(len - 1, m as int, k as int);
            assert(m * k == k * m) by (nonlinear_arith);
            lemma_div_pos_is_pos(len - 1, m as int);
        } else {
            lemma_basic_div(0, k as int);
        }
    } else {
        assert(counts.len() == 0);
    }
}

/// Cut or fill up a buffer with zeros.
pub(crate) fn resize(buffer: &mut Vec<u8>, size: usize)
    ensures
        final(buffer)@ == resized(old(buffer)@, size as nat),
{
    let ghost before = buffer@;
    if buffer.len() > size {
        buffer.truncate(size);
    }
    let mut n: usize = buffer.len();
    while n < size
        invariant
            n <= size,
            n == buffer@.len(),
            before.len() <= n || n == size,
            forall|i: int|
                0 <= i < n ==> #[trigger] buffer@[i] == (if i < before.len() {
                    before[i]
                } else {
                    0
                }),
        decreases size - n,
    {
        buffer.push(0);
        n = n + 1;
    }
    assert(buffer@ =~= resized(before, size as nat));
}

/// Pad the accumulated real bytes to the full PAR2 slice size and hand the
/// slice to the recovery encoder. Leaves `accum` empty for the next slice.
pub fn feed_par2_slice(accum: &mut Vec<u8>, par2_slice_size: usize, enc: &mut RecoveryEncoder)
    requires
        old(enc).wf(),
        old(enc)@.slice_size == par2_slice_size,
        old(enc)@.inputs().len() < old(enc)@.total,
    ensures
        final(enc).wf(),
        final(accum)@.len() == 0,
        final(enc)@ == (EncoderState {
            free: if old(enc)@.free > 0 {
                (old(enc)@.free - 1) as nat
            } else {
                0
            },
            ..old(enc)@
        }).fed(resized(old(accum)@, par2_slice_size as nat)),
{
    let mut padded: Vec<u8> = enc.take_buffer();
    std::mem::swap(accum, &mut padded);
    resize(&mut padded, par2_slice_size);
    enc.add_slice(padded);
}

/// One pass over the files of a run: gathers their articles into slices and
/// feeds them to the recovery encoder.
pub struct Pass {
    encoder: RecoveryEncoder,
    accum: Vec<u8>,
    slice_size: usize,
}

/// What is known of a pass.
pub struct PassState {
    pub assembly: Assembly,
    pub slice_size: nat,
    /// The number of slices that the encoder takes.
    pub total: nat,
    pub exponent_start: nat,
    pub recovery_count: nat,
    pub checksums: bool,
}

impl View for Pass {
    type V = PassState;

    closed spec fn view(&self) -> PassState {
        PassState {
            assembly: Assembly { slices: self.encoder@.inputs(), waiting: self.accum@ },
            slice_size: self.slice_size as nat,
            total: self.encoder@.total,
            exponent_start: self.encoder@.exponent_start,
            recovery_count: self.encoder@.recovery_count,
            checksums: self.encoder@.checksums,
        }
    }
}

proof fn lemma_fed(e: EncoderState, slice: Seq<u8>)
    requires
        e.checksums ==> e.pending == encoder::checksums_of(e.processed),
        !e.checksums ==> e.pending.len() == 0,
    ensures
        e.fed(slice).inputs() == e.inputs().push(slice),
        e.fed(slice).slice_size == e.slice_size,
        e.fed(slice).total == e.total,
        e.fed(slice).exponent_start == e.exponent_start,
        e.fed(slice).recovery_count == e.recovery_count,
        e.fed(slice).checksums == e.checksums,
        e.checksums ==> e.fed(slice).pending == encoder::checksums_of(e.fed(slice).processed),
        !e.checksums ==> e.fed(slice).pending.len() == 0,
{
    let grown = EncoderState { queued: e.queued.push(slice), ..e };
    assert(grown.inputs() =~= e.inputs().push(slice));
    assert(grown.flushed().inputs() =~= e.inputs().push(slice));
    if e.checksums {
        assert(e.pending + encoder::checksums_of(grown.queued) =~= encoder::checksums_of(
            grown.inputs(),
        ));
    }
}

impl Pass {
    /// The encoder is in order, and its checksums are those of its slices, where
    /// any are asked for.
    pub closed spec fn wf(&self) -> bool {
        &&& self.encoder.wf()
        &&& self.encoder@.slice_size == self.slice_size
        &&& self.slice_size > 0
        &&& self.encoder@.checksums ==> self.encoder@.pending == encoder::checksums_of(
            self.encoder@.processed,
        )
        &&& !self.encoder@.checksums ==> self.encoder@.pending.len() == 0
    }

    /// Start a pass that computes `recovery_count` recovery blocks from
    /// exponent `exponent_start` on, and on the first pass the checksums of all
    /// slices.
    pub fn new(
        slice_size: usize,
        total_slices: usize,
        exponent_start: u32,
        recovery_count: usize,
        flush_limit: usize,
        first: bool,
    ) -> (pass: Pass)
        requires
            slice_size > 0,
            slice_size % 4 == 0,
            total_slices <= 32768,
            exponent_start + recovery_count <= 0x1_0000_0000,
        ensures
            pass.wf(),
            pass@ == (PassState {
                assembly: Assembly { slices: Seq::empty(), waiting: Seq::empty() },
                slice_size: slice_size as nat,
                total: total_slices as nat,
                exponent_start: exponent_start as nat,
                recovery_count: recovery_count as nat,
                checksums: first,
            }),
    {
        let plain: RecoveryEncoder = RecoveryEncoder::new(
            slice_size,
            total_slices,
            exponent_start,
            recovery_count,
        ).with_flush_limit(flush_limit);
        let encoder: RecoveryEncoder = if first {
            plain.with_checksums()
        } else {
            plain
        };
        let pass: Pass = Pass { encoder, accum: Vec::new(), slice_size };
        proof {
            assert(pass@.assembly.slices =~= Seq::empty());
            assert(pass@.assembly.waiting =~= Seq::empty());
            assert(encoder::checksums_of(Seq::empty()) =~= Seq::empty());
        }
        pass
    }

    fn feed(&mut self)
        requires
            old(self).wf(),
            old(self)@.assembly.slices.len() < old(self)@.total,
        ensures
            final(self).wf(),
            final(self)@ == (PassState {
                assembly: Assembly {
                    slices: old(self)@.assembly.slices.push(
                        resized(old(self)@.assembly.waiting, old(self)@.slice_size),
                    ),
                    waiting: Seq::empty(),
                },
                ..old(self)@
            }),
    {
        let ghost before = self.encoder@;
        let ghost bytes = resized(self.accum@, self.slice_size as nat);
        proof {
            let taken = EncoderState {
                free: if before.free > 0 {
                    (before.free - 1) as nat
                } else {
                    0
                },
                ..before
            };
            lemma_fed(taken, bytes);
        }
        feed_par2_slice(&mut self.accum, self.slice_size, &mut self.encoder);
        assert(self@.assembly.waiting =~= Seq::empty());
    }

    /// Take one more article of the current file. Tells whether a slice was
    /// completed.
    pub fn article(&mut self, data: &[u8]) -> (completed: bool)
        requires
            old(self).wf(),
            old(self)@.assembly.waiting.len() + data@.len() <= usize::MAX,
            old(self)@.assembly.waiting.len() + data@.len() >= old(self)@.slice_size ==> old(
                self,
            )@.assembly.slices.len() < old(self)@.total,
        ensures
            final(self).wf(),
            final(self)@ == (PassState {
                assembly: old(self)@.assembly.with_article(data@, old(self)@.slice_size),
                ..old(self)@
            }),
            completed == (old(self)@.assembly.waiting.len() + data@.len() >= old(
                self,
            )@.slice_size),
    {
        text::push_bytes(&mut self.accum, data);
        if self.accum.len() >= self.slice_size {
            self.feed();
            true
        } else {
            false
        }
    }

    /// Close the current file: what is left of it becomes a slice of its own.
    pub fn end_file(&mut self)
        requires
            old(self).wf(),
            old(self)@.assembly.waiting.len() > 0 ==> old(self)@.assembly.slices.len() < old(
                self,
            )@.total,
        ensures
            final(self).wf(),
            final(self)@ == (PassState {
                assembly: old(self)@.assembly.with_file_end(old(self)@.slice_size),
                ..old(self)@
            }),
    {
        if self.accum.len() > 0 {
            self.feed();
        }
    }

    /// The number of slices fed so far.
    pub fn slices_fed(&self) -> (n: usize)
        requires
            self.wf(),
        ensures
            n == self@.assembly.slices.len(),
    {
        self.encoder.inputs_len()
    }

    /// Finish the pass: its recovery blocks in order of their exponents, and on
    /// the first pass the checksums of all slices. A later pass has none.
    pub fn finish(self) -> (finished: (Vec<RecoverySlice>, Vec<SliceChecksum>))
        requires
            self.wf(),
        ensures
            finished.0@.len() == self@.recovery_count,
            forall|i: int|
                0 <= i < self@.recovery_count ==> (#[trigger] finished.0@[i]).exponent
                    == self@.exponent_start + i && finished.0@[i].data@ == encoder::recovery_block(
                    self@.assembly.slices,
                    (self@.exponent_start + i) as nat,
                    self@.slice_size,
                ),
            self@.checksums ==> encoder::checksum_views(finished.1@) == encoder::checksums_of(
                self@.assembly.slices,
            ),
            !self@.checksums ==> finished.1@.len() == 0,
    {
        proof {
            let e = self.encoder@;
            if e.checksums {
                assert(e.pending + encoder::checksums_of(e.queued) =~= encoder::checksums_of(
                    e.inputs(),
                ));
            }
        }
        let ghost asked = self.encoder@;
        let finished = self.encoder.finish();
        assert(encoder::checksum_views(finished.1@).len() == finished.1@.len());
        assert(!asked.checksums ==> asked.flushed().pending == asked.pending);
        finished
    }
}

/// Where the checksums of file `i` start.
pub open spec fn first_slice_of(counts: Seq<usize>, per_slice: nat, i: int) -> nat {
    geometry::slices_for(counts.take(i), per_slice)
}

/// Distribute the checksums of all slices back to the files: each file gets as
/// many as it has slices, as long as there are any.
pub fn distribute_checksums(
    checksums: &[SliceChecksum],
    per_file_articles: &[usize],
    articles_per_slice: usize,
) -> (files: Vec<Vec<SliceChecksum>>)
    requires
        articles_per_slice > 0,
    ensures
        files@.len() == per_file_articles@.len(),
        forall|i: int|
            0 <= i < files@.len() ==> (#[trigger] files@[i])@ == checksums@.subrange(
                sizes::at_most(
                    first_slice_of(per_file_articles@, articles_per_slice as nat, i),
                    checksums@.len(),
                ) as int,
                sizes::at_most(
                    first_slice_of(per_file_articles@, articles_per_slice as nat, i + 1),
                    checksums@.len(),
                ) as int,
            ),
{
    let n: usize = per_file_articles.len();
    let total: usize = checksums.len();
    let mut files: Vec<Vec<SliceChecksum>> = Vec::new();
    let mut from: usize = 0;
    let mut i: usize = 0;
    assert(per_file_articles@.take(0) =~= Seq::empty());
    while i < n
        invariant
            i <= n,
            n == per_file_articles@.len(),
            total == checksums@.len(),
            articles_per_slice > 0,
            files@.len() == i,
            from == sizes::at_most(
                first_slice_of(per_file_articles@, articles_per_slice as nat, i as int),
                checksums@.len(),
            ),
            forall|k: int|
                0 <= k < i ==> (#[trigger] files@[k])@ == checksums@.subrange(
                    sizes::at_most(
                        first_slice_of(per_file_articles@, articles_per_slice as nat, k),
                        checksums@.len(),
                    ) as int,
                    sizes::at_most(
                        first_slice_of(per_file_articles@, articles_per_slice as nat, k + 1),
                        checksums@.len(),
                    ) as int,
                ),
        decreases n - i,
    {
        let articles: usize = per_file_articles[i];
        let wanted: usize = if articles == 0 {
            0
        } else {
            (articles - 1) / articles_per_slice + 1
        };
        proof {
            let counts = per_file_articles@;
            assert(counts.take(i + 1).drop_last() =~= counts.take(i as int));
            assert(wanted == geometry::groups_of(articles as nat, articles_per_slice as nat));
        }
        let to: usize = if wanted < total - from {
            from + wanted
        } else {
            total
        };
        let mut own: Vec<SliceChecksum> = Vec::new();
        let mut j: usize = from;
        while j < to
            invariant
                from <= j <= to,
                to <= total,
                total == checksums@.len(),
                own@ == checksums@.subrange(from as int, j as int),
            decreases to - j,
        {
            own.push(checksums[j]);
            assert(own@ =~= checksums@.subrange(from as int, j + 1));
            j = j + 1;
        }
        files.push(own);
        from = to;
        i = i + 1;
    }
    files
}

proof fn lemma_no_empty_files(files: Seq<Seq<u8>>)
    requires
        forall|j: int| 0 <= j < files.len() ==> (#[trigger] files[j]).len() > 0,
    ensures
        empty_of(files) == 0,
    decreases files.len(),
{
    if files.len() > 0 {
        let rest = files.drop_last();
        assert forall|j: int| 0 <= j < rest.len() implies (#[trigger] rest[j]).len() > 0 by {
            assert(rest[j] == files[j]);
        }
        lemma_no_empty_files(rest);
        assert(files[files.len() - 1].len() > 0);
    }
}

/// The slices of the files up to `i` come first.
proof fn lemma_slices_of_first_files(files: Seq<Seq<u8>>, size: nat, i: int)
    requires
        0 <= i <= files.len(),
    ensures
        slices_of_files(files.take(i), size).len() <= slices_of_files(files, size).len(),
        slices_of_files(files, size).take(slices_of_files(files.take(i), size).len() as int)
            == slices_of_files(files.take(i), size),
        (forall|j: int| i <= j < files.len() ==> (#[trigger] files[j]).len() == 0)
            ==> slices_of_files(files, size).len() == slices_of_files(files.take(i), size).len(),
    decreases files.len(),
{
    let all = slices_of_files(files, size);
    if i < files.len() {
        let rest = files.drop_last();
        lemma_slices_of_first_files(rest, size, i);
        assert(rest.take(i) =~= files.take(i));
        let first = slices_of_files(files.take(i), size);
        assert(all.take(first.len() as int) =~= slices_of_files(rest, size).take(
            first.len() as int,
        ));
        if forall|j: int| i <= j < files.len() ==> (#[trigger] files[j]).len() == 0 {
            assert(files[files.len() - 1].len() == 0);
            assert forall|j: int| i <= j < rest.len() implies (#[trigger] rest[j]).len() == 0 by {
                assert(rest[j] == files[j]);
            }
        }
    } else {
        assert(files.take(i) =~= files);
        assert(all.take(all.len() as int) =~= all);
    }
}

/// Each file gets the checksums of its own slices, out of those of the slices
/// that a run over the files feeds. This holds of a file with no empty one before
/// it, and of an empty file with only empty ones after it: an empty file counts as
/// one slice, and takes a checksum of the next file where there is one.
pub proof fn law_each_file_gets_its_own_checksums(
    files: Seq<Seq<u8>>,
    m: nat,
    k: nat,
    checksums: Seq<SliceChecksum>,
    i: int,
)
    requires
        m > 0,
        k > 0,
        counts_fit(files, m),
        encoder::checksum_views(checksums) == encoder::checksums_of(slices_of_files(files, k * m)),
        0 <= i < files.len(),
        files[i].len() > 0 ==> forall|j: int| 0 <= j < i ==> (#[trigger] files[j]).len() > 0,
        files[i].len() == 0 ==> forall|j: int|
            i < j < files.len() ==> (#[trigger] files[j]).len() == 0,
    ensures
        ({
            let counts = article_counts(files, m);
            let own = checksums.subrange(
                sizes::at_most(first_slice_of(counts, k, i), checksums.len()) as int,
                sizes::at_most(first_slice_of(counts, k, i + 1), checksums.len()) as int,
            );
            encoder::checksum_views(own) == encoder::checksums_of(slices_of(files[i], k * m))
        }),
{
    let size = k * m;
    let all = slices_of_files(files, size);
    let counts = article_counts(files, m);
    let before = files.take(i);
    let with = files.take(i + 1);
    assert(with.drop_last() =~= before);
    assert(counts.take(i) =~= article_counts(before, m));
    assert(counts.take(i + 1) =~= article_counts(with, m));
    assert(counts_fit(before, m)) by {
        assert forall|j: int| 0 <= j < before.len() implies yenc::segment_count(
            (#[trigger] before[j]).len(),
            m,
        ) <= usize::MAX by {
            assert(before[j] == files[j]);
        }
    }
    assert(counts_fit(with, m)) by {
        assert forall|j: int| 0 <= j < with.len() implies yenc::segment_count(
            (#[trigger] with[j]).len(),
            m,
        ) <= usize::MAX by {
            assert(with[j] == files[j]);
        }
    }
    law_slices_match_the_geometry(before, m, k);
    law_slices_match_the_geometry(with, m, k);
    lemma_slices_of_first_files(files, size, i);
    lemma_slices_of_first_files(files, size, i + 1);
    assert(encoder::checksum_views(checksums).len() == encoder::checksums_of(all).len());
    let from = sizes::at_most(first_slice_of(counts, k, i), checksums.len()) as int;
    let to = sizes::at_most(first_slice_of(counts, k, i + 1), checksums.len()) as int;
    let own = checksums.subrange(from, to);
    let slices = slices_of(files[i], size);
    if files[i].len() > 0 {
        assert forall|j: int| 0 <= j < with.len() implies (#[trigger] with[j]).len() > 0 by {
            assert(with[j] == files[j]);
        }
        assert forall|j: int| 0 <= j < before.len() implies (#[trigger] before[j]).len() > 0 by {
            assert(before[j] == files[j]);
        }
        lemma_no_empty_files(before);
        lemma_no_empty_files(with);
        assert forall|j: int| 0 <= j < to - from implies (#[trigger] own[j])@
            == encoder::checksums_of(slices)[j] by {
            let first = slices_of_files(with, size);
            assert(all.take(first.len() as int)[from + j] == all[from + j]);
            assert(first[from + j] == slices[j]);
            assert(encoder::checksum_views(checksums)[from + j] == encoder::checksums_of(all)[from
                + j]);
        }
        assert(slices.len() == to - from);
    } else {
        assert(from == checksums.len() && to == checksums.len());
        assert(slices.len() == 0);
    }
    assert(encoder::checksum_views(own) =~= encoder::checksums_of(slices));
}

} // verus!

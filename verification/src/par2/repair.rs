//! What recovery blocks are good for: as many consecutive blocks as slices are
//! lost determine the lost slices.

use vstd::prelude::*;

use super::bits;
use super::encoder;
use super::field;
use super::gf16;

verus! {

/// The sum of some terms, each scaled by the `i`-th power of its base.
pub open spec fn power_sum(bases: Seq<u16>, terms: Seq<u16>, i: nat) -> u16
    decreases terms.len(),
{
    if terms.len() == 0 {
        0
    } else {
        power_sum(bases.drop_last(), terms.drop_last(), i) ^ field::gf_mul(
            field::gf_pow(bases.last(), i),
            terms.last(),
        )
    }
}

/// The number of terms that are not zero.
pub open spec fn nonzero_count(terms: Seq<u16>) -> nat
    decreases terms.len(),
{
    if terms.len() == 0 {
        0
    } else {
        nonzero_count(terms.drop_last()) + if terms.last() != 0 {
            1nat
        } else {
            0
        }
    }
}

/// Each term scaled by the distance of its base from `b`.
spec fn moved(bases: Seq<u16>, terms: Seq<u16>, b: u16) -> Seq<u16> {
    Seq::new(terms.len(), |t: int| field::gf_mul(b ^ bases[t], terms[t]))
}

proof fn lemma_moved_term(b: u16, base: u16, term: u16, i: nat)
    ensures
        field::gf_mul(field::gf_pow(base, i), field::gf_mul(b ^ base, term)) == field::gf_mul(
            b,
            field::gf_mul(field::gf_pow(base, i), term),
        ) ^ field::gf_mul(field::gf_pow(base, i + 1), term),
{
    let p = field::gf_pow(base, i);
    field::lemma_mul_distributes_left(b, base, term);
    field::lemma_mul_distributes_right(p, field::gf_mul(b, term), field::gf_mul(base, term));
    field::lemma_mul_associates(p, b, term);
    field::lemma_mul_commutes(p, b);
    field::lemma_mul_associates(b, p, term);
    field::lemma_mul_associates(p, base, term);
    field::lemma_mul_commutes(p, base);
    assert(field::gf_pow(base, i + 1) == field::gf_mul(base, p));
}

proof fn lemma_moved_sum(bases: Seq<u16>, terms: Seq<u16>, b: u16, i: nat)
    requires
        bases.len() == terms.len(),
    ensures
        power_sum(bases, moved(bases, terms, b), i) == field::gf_mul(
            b,
            power_sum(bases, terms, i),
        ) ^ power_sum(bases, terms, i + 1),
    decreases terms.len(),
{
    if terms.len() == 0 {
        field::lemma_mul_unit(b);
        field::lemma_xor(0, 0, 0);
    } else {
        let front_bases = bases.drop_last();
        let front = terms.drop_last();
        lemma_moved_sum(front_bases, front, b, i);
        assert(moved(bases, terms, b).drop_last() =~= moved(front_bases, front, b));
        let base = bases.last();
        let term = terms.last();
        lemma_moved_term(b, base, term, i);
        let s = power_sum(front_bases, front, i);
        let r = power_sum(front_bases, front, i + 1);
        let x = field::gf_mul(field::gf_pow(base, i), term);
        let y = field::gf_mul(field::gf_pow(base, i + 1), term);
        field::lemma_mul_distributes_right(b, s, x);
        field::lemma_xor_exchange(field::gf_mul(b, s), r, field::gf_mul(b, x), y);
    }
}

proof fn lemma_no_nonzero(terms: Seq<u16>)
    requires
        nonzero_count(terms) == 0,
    ensures
        forall|t: int| 0 <= t < terms.len() ==> #[trigger] terms[t] == 0,
    decreases terms.len(),
{
    if terms.len() > 0 {
        lemma_no_nonzero(terms.drop_last());
        assert forall|t: int| 0 <= t < terms.len() implies #[trigger] terms[t] == 0 by {
            if t < terms.len() - 1 {
                assert(terms.drop_last()[t] == terms[t]);
            }
        }
    }
}

proof fn lemma_some_nonzero(terms: Seq<u16>) -> (t: int)
    requires
        nonzero_count(terms) > 0,
    ensures
        0 <= t < terms.len(),
        terms[t] != 0,
    decreases terms.len(),
{
    if terms.last() != 0 {
        terms.len() - 1
    } else {
        lemma_some_nonzero(terms.drop_last())
    }
}

proof fn lemma_one_less(terms: Seq<u16>, fewer: Seq<u16>, at: int)
    requires
        terms.len() == fewer.len(),
        forall|t: int|
            0 <= t < terms.len() && t != at ==> (#[trigger] terms[t] == 0 <==> fewer[t] == 0),
        0 <= at < terms.len() ==> terms[at] != 0 && fewer[at] == 0,
    ensures
        nonzero_count(terms) == nonzero_count(fewer) + if 0 <= at < terms.len() {
            1nat
        } else {
            0
        },
    decreases terms.len(),
{
    if terms.len() > 0 {
        let a = terms.drop_last();
        let b = fewer.drop_last();
        assert forall|t: int| 0 <= t < a.len() && t != at implies (#[trigger] a[t] == 0 <==> b[t]
            == 0) by {
            assert(a[t] == terms[t] && b[t] == fewer[t]);
        }
        let last = terms.len() - 1;
        assert(terms[last] == terms.last() && fewer[last] == fewer.last());
        lemma_one_less(a, b, at);
    }
}

proof fn lemma_single_term(bases: Seq<u16>, terms: Seq<u16>, at: int)
    requires
        bases.len() == terms.len(),
        forall|t: int| 0 <= t < terms.len() && t != at ==> #[trigger] terms[t] == 0,
    ensures
        power_sum(bases, terms, 0) == if 0 <= at < terms.len() {
            terms[at]
        } else {
            0
        },
    decreases terms.len(),
{
    if terms.len() > 0 {
        let front = terms.drop_last();
        assert forall|t: int| 0 <= t < front.len() && t != at implies #[trigger] front[t] == 0 by {
            assert(front[t] == terms[t]);
        }
        lemma_single_term(bases.drop_last(), front, at);
        let last = terms.len() - 1;
        assert(terms[last] == terms.last());
        field::lemma_mul_unit(terms.last());
        field::lemma_xor(
            power_sum(bases.drop_last(), front, 0),
            terms.last(),
            0,
        );
        field::lemma_xor(terms.last(), 0, 0);
    }
}

/// Power sums determine their terms: when the bases differ, no more terms than
/// consecutive sums are other than zero, and all these sums are zero, then
/// every term is zero.
pub proof fn lemma_power_sums_determine_terms(bases: Seq<u16>, terms: Seq<u16>, sums: nat)
    requires
        bases.len() == terms.len(),
        forall|s: int, t: int|
            0 <= s < t < bases.len() ==> #[trigger] bases[s] != #[trigger] bases[t],
        nonzero_count(terms) <= sums,
        forall|i: nat| i < sums ==> #[trigger] power_sum(bases, terms, i) == 0,
    ensures
        forall|t: int| 0 <= t < terms.len() ==> #[trigger] terms[t] == 0,
    decreases nonzero_count(terms),
{
    if nonzero_count(terms) == 0 {
        lemma_no_nonzero(terms);
    } else {
        let at = lemma_some_nonzero(terms);
        let b = bases[at];
        let fewer = moved(bases, terms, b);
        field::lemma_xor(b, 0, 0);
        field::lemma_mul_unit(terms[at]);
        assert(fewer[at] == 0);
        assert forall|t: int| 0 <= t < terms.len() && t != at implies (#[trigger] terms[t] == 0
            <==> fewer[t] == 0) by {
            let d = b ^ bases[t];
            assert(bases[t] != b) by {
                if t < at {
                    assert(bases[t] != bases[at]);
                } else {
                    assert(bases[at] != bases[t]);
                }
            }
            assert(d != 0) by {
                field::lemma_xor(b, 0, 0);
                field::lemma_xor_cancels(b, bases[t], b);
            }
            field::lemma_mul_unit(d);
            if fewer[t] == 0 {
                field::lemma_mul_cancels(d, terms[t], 0);
            }
        }
        lemma_one_less(terms, fewer, at);
        let one_less = (sums - 1) as nat;
        assert forall|i: nat| i < one_less implies #[trigger] power_sum(bases, fewer, i) == 0 by {
            lemma_moved_sum(bases, terms, b, i);
            assert(power_sum(bases, terms, i) == 0);
            assert(power_sum(bases, terms, i + 1) == 0);
            field::lemma_mul_unit(b);
            field::lemma_xor(0, 0, 0);
        }
        lemma_power_sums_determine_terms(bases, fewer, one_less);
        assert forall|t: int| 0 <= t < terms.len() && t != at implies #[trigger] terms[t] == 0 by {
            assert(fewer[t] == 0);
        }
        lemma_single_term(bases, terms, at);
        assert(power_sum(bases, terms, 0) == 0);
    }
}

/// The number of slices in which two inputs differ.
pub open spec fn difference_count(a: Seq<Seq<u8>>, b: Seq<Seq<u8>>) -> nat
    decreases a.len(),
{
    if a.len() == 0 {
        0
    } else {
        difference_count(a.drop_last(), b.drop_last()) + if a.last() != b.last() {
            1nat
        } else {
            0
        }
    }
}

/// The bases of the first `n` slices.
spec fn bases_of(n: nat) -> Seq<u16> {
    Seq::new(n, |j: int| field::gf_pow(2, gf16::logbase(j)))
}

/// The differences of two inputs in word `k`, scaled as in the block of
/// exponent `e`.
spec fn differences(a: Seq<Seq<u8>>, b: Seq<Seq<u8>>, e: nat, k: int) -> Seq<u16> {
    Seq::new(
        a.len(),
        |j: int|
            field::gf_mul(
                gf16::coefficient(j, e),
                bits::slice_word(a[j], k) ^ bits::slice_word(b[j], k),
            ),
    )
}

proof fn lemma_pow_adds(base: u16, m: nat, n: nat)
    ensures
        field::gf_pow(base, m + n) == field::gf_mul(
            field::gf_pow(base, n),
            field::gf_pow(base, m),
        ),
    decreases n,
{
    if n == 0 {
        field::lemma_mul_unit(field::gf_pow(base, m));
    } else {
        lemma_pow_adds(base, m, (n - 1) as nat);
        field::lemma_mul_associates(
            base,
            field::gf_pow(base, (n - 1) as nat),
            field::gf_pow(base, m),
        );
    }
}

proof fn lemma_blocks_are_power_sums(
    a: Seq<Seq<u8>>,
    b: Seq<Seq<u8>>,
    e: nat,
    i: nat,
    k: int,
)
    requires
        a.len() == b.len(),
    ensures
        encoder::recovery_word(a, e + i, k) ^ encoder::recovery_word(b, e + i, k) == power_sum(
            bases_of(a.len()),
            differences(a, b, e, k),
            i,
        ),
    decreases a.len(),
{
    if a.len() == 0 {
        field::lemma_xor(0, 0, 0);
    } else {
        let n = (a.len() - 1) as nat;
        let fa = a.drop_last();
        let fb = b.drop_last();
        lemma_blocks_are_power_sums(fa, fb, e, i, k);
        assert(bases_of(a.len()).drop_last() =~= bases_of(n));
        assert(differences(a, b, e, k).drop_last() =~= differences(fa, fb, e, k));
        let wa = bits::slice_word(a.last(), k);
        let wb = bits::slice_word(b.last(), k);
        let c = gf16::coefficient(n as int, e + i);
        let base = field::gf_pow(2, gf16::logbase(n as int));
        lemma_pow_adds(base, e, i);
        field::lemma_mul_associates(
            field::gf_pow(base, i),
            gf16::coefficient(n as int, e),
            wa ^ wb,
        );
        field::lemma_mul_distributes_right(c, wa, wb);
        field::lemma_xor_exchange(
            encoder::recovery_word(fa, e + i, k),
            field::gf_mul(c, wa),
            encoder::recovery_word(fb, e + i, k),
            field::gf_mul(c, wb),
        );
    }
}

proof fn lemma_differences_bounded(a: Seq<Seq<u8>>, b: Seq<Seq<u8>>, e: nat, k: int)
    requires
        a.len() == b.len(),
    ensures
        nonzero_count(differences(a, b, e, k)) <= difference_count(a, b),
    decreases a.len(),
{
    if a.len() > 0 {
        let fa = a.drop_last();
        let fb = b.drop_last();
        lemma_differences_bounded(fa, fb, e, k);
        assert(differences(a, b, e, k).drop_last() =~= differences(fa, fb, e, k));
        let n = a.len() - 1;
        if a.last() == b.last() {
            field::lemma_xor(bits::slice_word(a.last(), k), 0, 0);
            field::lemma_mul_unit(gf16::coefficient(n, e));
        }
    }
}

proof fn lemma_bases_differ(n: nat, s: int, t: int)
    requires
        n <= gf16::MAX_INPUT_BLOCKS,
        0 <= s < t < n,
    ensures
        bases_of(n)[s] != bases_of(n)[t],
{
    if bases_of(n)[s] == bases_of(n)[t] {
        gf16::law_bases_are_distinct(s, t);
    }
}

/// As many consecutive recovery blocks as slices are lost determine the lost
/// slices, word for word: two inputs that differ in no more slices than there
/// are blocks, and have the same blocks, do not differ.
pub proof fn law_blocks_recover_as_many_words(
    a: Seq<Seq<u8>>,
    b: Seq<Seq<u8>>,
    first: nat,
    blocks: nat,
    k: int,
)
    requires
        a.len() == b.len() <= gf16::MAX_INPUT_BLOCKS,
        difference_count(a, b) <= blocks,
        forall|i: nat|
            i < blocks ==> encoder::recovery_word(a, #[trigger] (first + i), k)
                == encoder::recovery_word(b, first + i, k),
    ensures
        forall|j: int|
            0 <= j < a.len() ==> bits::slice_word(#[trigger] a[j], k) == bits::slice_word(b[j], k),
{
    let bases = bases_of(a.len());
    let terms = differences(a, b, first, k);
    assert forall|s: int, t: int| 0 <= s < t < bases.len() implies #[trigger] bases[s]
        != #[trigger] bases[t] by {
        lemma_bases_differ(a.len(), s, t);
    }
    lemma_differences_bounded(a, b, first, k);
    assert forall|i: nat| i < blocks implies #[trigger] power_sum(bases, terms, i) == 0 by {
        lemma_blocks_are_power_sums(a, b, first, i, k);
        assert(encoder::recovery_word(a, first + i, k) == encoder::recovery_word(b, first + i, k));
        field::lemma_xor(encoder::recovery_word(a, first + i, k), 0, 0);
    }
    lemma_power_sums_determine_terms(bases, terms, blocks);
    assert forall|j: int| 0 <= j < a.len() implies bits::slice_word(#[trigger] a[j], k)
        == bits::slice_word(b[j], k) by {
        let c = gf16::coefficient(j, first);
        let wa = bits::slice_word(a[j], k);
        let wb = bits::slice_word(b[j], k);
        assert(terms[j] == 0);
        gf16::lemma_coefficient_is_power_of_two(j, first);
        field::lemma_mul_unit(c);
        field::lemma_mul_cancels(c, wa ^ wb, 0);
        field::lemma_xor(wa, wb, 0);
        field::lemma_xor(wa, wa, 0);
        field::lemma_xor_cancels(wa, wa, wb);
    }
}

/// As many consecutive recovery blocks as slices are lost determine the lost
/// slices: two inputs of slices of one size that differ in no more slices than
/// there are blocks, and have the same blocks, are equal.
pub proof fn law_blocks_recover_as_many_slices(
    a: Seq<Seq<u8>>,
    b: Seq<Seq<u8>>,
    first: nat,
    blocks: nat,
    slice_size: nat,
)
    requires
        a.len() == b.len() <= gf16::MAX_INPUT_BLOCKS,
        slice_size % 2 == 0,
        forall|j: int| 0 <= j < a.len() ==> (#[trigger] a[j]).len() == slice_size,
        forall|j: int| 0 <= j < b.len() ==> (#[trigger] b[j]).len() == slice_size,
        difference_count(a, b) <= blocks,
        forall|i: nat|
            i < blocks ==> encoder::recovery_block(a, #[trigger] (first + i), slice_size)
                == encoder::recovery_block(b, first + i, slice_size),
    ensures
        a == b,
{
    let words = slice_size / 2;
    assert forall|j: int, k: int| 0 <= j < a.len() && 0 <= k < words implies bits::slice_word(
        #[trigger] a[j],
        k,
    ) == #[trigger] bits::slice_word(b[j], k) by {
        assert forall|i: nat| i < blocks implies encoder::recovery_word(
            a,
            #[trigger] (first + i),
            k,
        ) == encoder::recovery_word(b, first + i, k) by {
            let ra = encoder::recovery_words(a, first + i, words);
            let rb = encoder::recovery_words(b, first + i, words);
            assert(encoder::recovery_block(a, first + i, slice_size) == encoder::recovery_block(
                b,
                first + i,
                slice_size,
            ));
            bits::law_words_of_word_bytes(ra, k);
            bits::law_words_of_word_bytes(rb, k);
            assert(ra[k] == rb[k]);
        }
        law_blocks_recover_as_many_words(a, b, first, blocks, k);
    }
    assert forall|j: int| 0 <= j < a.len() implies #[trigger] a[j] == b[j] by {
        assert forall|p: int| 0 <= p < slice_size implies a[j][p] == b[j][p] by {
            let k = p / 2;
            assert(bits::slice_word(a[j], k) == bits::slice_word(b[j], k));
            bits::lemma_le_word(a[j][2 * k], a[j][2 * k + 1], 0);
            bits::lemma_le_word(b[j][2 * k], b[j][2 * k + 1], 0);
            assert(p == 2 * k || p == 2 * k + 1);
        }
        assert(a[j] =~= b[j]);
    }
    assert(a =~= b);
}

} // verus!

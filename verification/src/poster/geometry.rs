//! PAR2 geometry: how many articles make a slice, how many recovery blocks
//! there are and in how many passes they are computed.

use vstd::arithmetic::div_mod::*;
use vstd::prelude::*;

verus! {

/// Target number of PAR2 input slices. Reed-Solomon encoding cost grows with
/// `file_size² / par2_slice_size`, so several articles are grouped into one
/// PAR2 slice to keep the input-block count near this target.
pub const TARGET_PAR2_SLICES: usize = 1000;

/// Largest number of input blocks of a PAR2 set.
pub const INPUT_SLICE_LIMIT: usize = 32768;

/// Largest number of recovery blocks of a PAR2 set.
pub const RECOVERY_SLICE_LIMIT: usize = 65535;

/// The sum of a list of counts.
pub open spec fn total_of(counts: Seq<usize>) -> nat
    decreases counts.len(),
{
    if counts.len() == 0 {
        0
    } else {
        total_of(counts.drop_last()) + counts.last() as nat
    }
}

/// How many groups of `a` it takes to hold `n`: the quotient, rounded up.
pub open spec fn groups_of(n: nat, a: nat) -> nat {
    if n == 0 {
        0
    } else {
        ((n - 1) / a as int + 1) as nat
    }
}

/// How many slices there are when `a` articles make a slice and no slice spans
/// two files.
pub open spec fn slices_for(counts: Seq<usize>, a: nat) -> nat
    decreases counts.len(),
{
    if counts.len() == 0 {
        0
    } else {
        slices_for(counts.drop_last(), a) + groups_of(counts.last() as nat, a)
    }
}

/// The number of files that are not empty.
pub open spec fn nonempty_of(counts: Seq<usize>) -> nat
    decreases counts.len(),
{
    if counts.len() == 0 {
        0
    } else {
        nonempty_of(counts.drop_last()) + (if counts.last() > 0 {
            1nat
        } else {
            0nat
        })
    }
}

/// The most input slices that keep both the input blocks and, at the given
/// redundancy, the recovery blocks within their limits.
pub open spec fn input_slice_limit(redundancy_pct: u8) -> nat {
    if redundancy_pct == 0 {
        32768
    } else {
        let limit = 6553500nat / redundancy_pct as nat;
        if limit < 32768 {
            limit
        } else {
            32768
        }
    }
}

/// The number of slices to aim for: a fortieth of the articles, within 1000
/// and 2000, and within the limit.
pub open spec fn target_slices(total: nat, limit: nat) -> nat {
    let wanted: nat = if total / 40 < 1000 {
        1000
    } else if total / 40 > 2000 {
        2000
    } else {
        total / 40
    };
    if wanted < limit {
        wanted
    } else {
        limit
    }
}

/// `a` is the least number of articles per slice, from the one that meets the
/// target up, for which the slices are within the limit.
pub open spec fn is_best_grouping(counts: Seq<usize>, limit: nat, a: nat) -> bool {
    let first = groups_of(total_of(counts), target_slices(total_of(counts), limit));
    &&& first <= a
    &&& slices_for(counts, a) <= limit
    &&& forall|b: nat| first <= b < a ==> #[trigger] slices_for(counts, b) > limit
}

/// `a` articles make a slice: the best grouping or, where there are more
/// non-empty files than slices allowed, all of them.
pub open spec fn is_grouping(counts: Seq<usize>, redundancy_pct: u8, a: nat) -> bool {
    if total_of(counts) == 0 {
        a == 1
    } else if nonempty_of(counts) > input_slice_limit(redundancy_pct) {
        a == total_of(counts)
    } else {
        is_best_grouping(counts, input_slice_limit(redundancy_pct), a)
    }
}

/// Larger groups are never more.
proof fn lemma_groups_monotone(n: nat, a: nat, b: nat)
    requires
        0 < a <= b,
    ensures
        groups_of(n, b) <= groups_of(n, a),
        groups_of(n, a) <= n,
        n > 0 ==> groups_of(n, a) >= 1,
        n <= a && n > 0 ==> groups_of(n, a) == 1,
{
    if n > 0 {
        let m = n - 1;
        let q = m / a as int;
        let r = m / b as int;
        let x = m % (a as int);
        let y = m % (b as int);
        lemma_fundamental_div_mod(m, a as int);
        lemma_fundamental_div_mod(m, b as int);
        assert(r <= q) by (nonlinear_arith)
            requires
                0 < a <= b,
                m == a * q + x,
                m == b * r + y,
                0 <= x < a,
                0 <= y,
                m >= 0,
        ;
        assert(q >= 0 && q <= m) by (nonlinear_arith)
            requires
                0 < a,
                m >= 0,
                q == m / a as int,
        ;
        if n <= a {
            lemma_small_mod(m as nat, a);
            assert(q == 0) by (nonlinear_arith)
                requires
                    0 <= m < a,
                    q == m / a as int,
            ;
        }
    }
}

proof fn lemma_slices_monotone(counts: Seq<usize>, a: nat, b: nat)
    requires
        0 < a <= b,
    ensures
        slices_for(counts, b) <= slices_for(counts, a),
        slices_for(counts, a) <= total_of(counts),
        slices_for(counts, a) >= nonempty_of(counts),
    decreases counts.len(),
{
    if counts.len() > 0 {
        lemma_slices_monotone(counts.drop_last(), a, b);
        lemma_groups_monotone(counts.last() as nat, a, b);
    }
}

proof fn lemma_total_bounds(counts: Seq<usize>, i: int)
    requires
        0 <= i < counts.len(),
    ensures
        counts[i] <= total_of(counts),
        total_of(counts.take(i)) <= total_of(counts),
        total_of(counts.take(i + 1)) == total_of(counts.take(i)) + counts[i],
        total_of(counts.take(i + 1)) <= total_of(counts),
    decreases counts.len(),
{
    assert(counts.take(i + 1).drop_last() =~= counts.take(i));
    if i < counts.len() - 1 {
        lemma_total_bounds(counts.drop_last(), i);
        assert(counts.drop_last().take(i) =~= counts.take(i));
        assert(counts.drop_last().take(i + 1) =~= counts.take(i + 1));
    } else {
        assert(counts.take(i) =~= counts.drop_last());
        assert(counts.take(i + 1) =~= counts);
    }
}

/// When a group holds any file whole, there is one slice per non-empty file.
proof fn lemma_whole_files(counts: Seq<usize>, a: nat)
    requires
        0 < a,
        forall|i: int| 0 <= i < counts.len() ==> #[trigger] counts[i] <= a,
    ensures
        slices_for(counts, a) == nonempty_of(counts),
    decreases counts.len(),
{
    if counts.len() > 0 {
        assert(counts.last() <= a);
        assert forall|i: int| 0 <= i < counts.drop_last().len() implies #[trigger] counts.drop_last()[i]
            <= a by {
            assert(counts[i] <= a);
        }
        lemma_whole_files(counts.drop_last(), a);
        lemma_groups_monotone(counts.last() as nat, a, a);
    }
}

/// The quotient of two numbers, rounded up.
fn div_ceil(n: usize, a: usize) -> (q: usize)
    requires
        a > 0,
    ensures
        q == groups_of(n as nat, a as nat),
{
    if n == 0 {
        0
    } else {
        proof {
            lemma_groups_monotone(n as nat, a as nat, a as nat);
        }
        (n - 1) / a + 1
    }
}

fn count_slices(counts: &[usize], a: usize) -> (n: usize)
    requires
        a > 0,
        total_of(counts@) <= usize::MAX,
    ensures
        n == slices_for(counts@, a as nat),
{
    let len: usize = counts.len();
    let mut n: usize = 0;
    let mut i: usize = 0;
    while i < len
        invariant
            i <= len,
            len == counts@.len(),
            a > 0,
            total_of(counts@) <= usize::MAX,
            n == slices_for(counts@.take(i as int), a as nat),
        decreases len - i,
    {
        proof {
            assert(counts@.take(i + 1).drop_last() =~= counts@.take(i as int));
            lemma_slices_monotone(counts@.take(i + 1), a as nat, a as nat);
            lemma_total_bounds(counts@, i as int);
        }
        n = n + div_ceil(counts[i], a);
        i = i + 1;
    }
    assert(counts@.take(len as int) =~= counts@);
    n
}

fn sum_counts(counts: &[usize]) -> (n: usize)
    requires
        total_of(counts@) <= usize::MAX,
    ensures
        n == total_of(counts@),
{
    let len: usize = counts.len();
    let mut n: usize = 0;
    let mut i: usize = 0;
    while i < len
        invariant
            i <= len,
            len == counts@.len(),
            total_of(counts@) <= usize::MAX,
            n == total_of(counts@.take(i as int)),
        decreases len - i,
    {
        proof {
            lemma_total_bounds(counts@, i as int);
        }
        n = n + counts[i];
        i = i + 1;
    }
    assert(counts@.take(len as int) =~= counts@);
    n
}

fn count_nonempty(counts: &[usize]) -> (n: usize)
    ensures
        n == nonempty_of(counts@),
        n <= counts@.len(),
{
    let len: usize = counts.len();
    let mut n: usize = 0;
    let mut i: usize = 0;
    while i < len
        invariant
            i <= len,
            len == counts@.len(),
            n <= i,
            n == nonempty_of(counts@.take(i as int)),
        decreases len - i,
    {
        assert(counts@.take(i + 1).drop_last() =~= counts@.take(i as int));
        if counts[i] > 0 {
            n = n + 1;
        }
        i = i + 1;
    }
    assert(counts@.take(len as int) =~= counts@);
    n
}

/// When all articles make a slice, there is one slice per non-empty file.
proof fn lemma_total_covers(counts: Seq<usize>)
    requires
        total_of(counts) > 0,
    ensures
        slices_for(counts, total_of(counts)) == nonempty_of(counts),
{
    assert forall|i: int| 0 <= i < counts.len() implies #[trigger] counts[i] <= total_of(counts) by {
        lemma_total_bounds(counts, i);
    }
    lemma_whole_files(counts, total_of(counts));
}

/// Returns `(articles_per_slice, total_input_slices)`.
///
/// Finds the smallest `articles_per_slice` multiplier that satisfies both
/// PAR2 limits:
///   - total input blocks ≤ 32 768
///   - recovery blocks = floor(input_blocks × redundancy_pct / 100) ≤ 65 535
///
/// starting from the one that meets a performance target of
/// [`TARGET_PAR2_SLICES`] or more. When there are more non-empty files than
/// the limits allow, all articles make one slice per file.
pub fn par2_grouping(per_file_articles: &[usize], redundancy_pct: u8) -> (grouping: (usize, usize))
    requires
        total_of(per_file_articles@) <= usize::MAX,
    ensures
        is_grouping(per_file_articles@, redundancy_pct, grouping.0 as nat),
        grouping.1 == slices_for(per_file_articles@, grouping.0 as nat),
{
    let ghost counts = per_file_articles@;
    let total: usize = sum_counts(per_file_articles);
    if total == 0 {
        proof {
            lemma_slices_monotone(counts, 1, 1);
        }
        return (1, 0);
    }
    let limit: usize = if redundancy_pct > 0 {
        let by_recovery: usize = 6553500 / redundancy_pct as usize;
        if by_recovery < INPUT_SLICE_LIMIT {
            by_recovery
        } else {
            INPUT_SLICE_LIMIT
        }
    } else {
        INPUT_SLICE_LIMIT
    };
    assert(limit == input_slice_limit(redundancy_pct));
    assert(limit > 0) by {
        if redundancy_pct > 0 {
            assert(6553500nat / redundancy_pct as nat >= 25700) by (nonlinear_arith)
                requires
                    0 < redundancy_pct <= 255,
            ;
        }
    }
    let min_slices: usize = count_nonempty(per_file_articles);
    if min_slices > limit {
        proof {
            lemma_total_covers(counts);
        }
        return (total, min_slices);
    }
    let scaled: usize = total / 40;
    let wanted: usize = if scaled < TARGET_PAR2_SLICES {
        TARGET_PAR2_SLICES
    } else if scaled > 2000 {
        2000
    } else {
        scaled
    };
    let target: usize = if wanted < limit {
        wanted
    } else {
        limit
    };
    let first: usize = div_ceil(total, target);
    proof {
        lemma_groups_monotone(total as nat, target as nat, target as nat);
    }
    let slices: usize = count_slices(per_file_articles, first);
    if slices <= limit {
        assert(is_best_grouping(counts, limit as nat, first as nat));
        return (first, slices);
    }
    let mut lo: usize = first;
    let mut hi: usize = total;
    proof {
        lemma_total_covers(counts);
        if first >= total {
            lemma_slices_monotone(counts, total as nat, first as nat);
        }
    }
    while lo + 1 < hi
        invariant
            0 < first <= lo < hi <= total,
            counts == per_file_articles@,
            total == total_of(counts),
            total_of(counts) <= usize::MAX,
            slices_for(counts, lo as nat) > limit,
            slices_for(counts, hi as nat) <= limit,
        decreases hi - lo,
    {
        let mid: usize = lo + (hi - lo) / 2;
        if count_slices(per_file_articles, mid) <= limit {
            hi = mid;
        } else {
            lo = mid;
        }
    }
    proof {
        assert forall|b: nat| first <= b < hi implies #[trigger] slices_for(counts, b) > limit by {
            lemma_slices_monotone(counts, b, lo as nat);
        }
        assert(is_best_grouping(counts, limit as nat, hi as nat));
    }
    (hi, count_slices(per_file_articles, hi))
}

/// Returns `(slice_size_bytes, total_input_slices)`, with as many articles in a
/// slice as [`par2_grouping`] says.
pub fn optimal_par2_slice_size(
    per_file_articles: &[usize],
    article_size: usize,
    redundancy_pct: u8,
) -> (geometry: (usize, usize))
    requires
        total_of(per_file_articles@) <= usize::MAX,
        forall|a: nat| #[trigger]
            is_grouping(per_file_articles@, redundancy_pct, a) ==> a * article_size <= usize::MAX,
    ensures
        total_of(per_file_articles@) == 0 ==> geometry == (article_size, 0usize),
        total_of(per_file_articles@) > 0 && nonempty_of(per_file_articles@) > input_slice_limit(
            redundancy_pct,
        ) ==> geometry.0 == total_of(per_file_articles@) * article_size && geometry.1
            == nonempty_of(per_file_articles@),
        total_of(per_file_articles@) > 0 && nonempty_of(per_file_articles@) <= input_slice_limit(
            redundancy_pct,
        ) ==> exists|a: nat| #[trigger]
            is_best_grouping(per_file_articles@, input_slice_limit(redundancy_pct), a)
                && geometry.0 == a * article_size && geometry.1 == slices_for(
                per_file_articles@,
                a,
            ),
{
    let (articles, slices): (usize, usize) = par2_grouping(per_file_articles, redundancy_pct);
    proof {
        let counts = per_file_articles@;
        if total_of(counts) == 0 {
            lemma_slices_monotone(counts, 1, 1);
        } else if nonempty_of(counts) > input_slice_limit(redundancy_pct) {
            lemma_total_covers(counts);
        } else {
            assert(is_best_grouping(counts, input_slice_limit(redundancy_pct), articles as nat));
        }
    }
    (articles * article_size, slices)
}

/// Whatever the files, as long as there are no more non-empty ones than the
/// limit allows, the chosen grouping keeps within 32 768 input blocks and
/// 65 535 recovery blocks.
pub proof fn law_geometry_is_within_limits(counts: Seq<usize>, redundancy_pct: u8, a: nat)
    requires
        is_best_grouping(counts, input_slice_limit(redundancy_pct), a),
    ensures
        slices_for(counts, a) <= 32768,
        recovery_count_of(slices_for(counts, a), redundancy_pct) <= 65535,
{
    let slices = slices_for(counts, a);
    if redundancy_pct > 0 {
        let p = redundancy_pct as nat;
        let limit = 6553500nat / p;
        assert(slices * p <= 6553500) by (nonlinear_arith)
            requires
                slices <= limit,
                limit == 6553500nat / p,
                p > 0,
        ;
    }
}

/// The number of recovery blocks for a number of input slices.
pub open spec fn recovery_count_of(slices: nat, redundancy_pct: u8) -> nat {
    slices * redundancy_pct as nat / 100
}

/// Number of recovery blocks: the redundancy percentage of the input slices,
/// rounded down.
pub fn recovery_count(total_slices: usize, redundancy_pct: u8) -> (n: usize)
    requires
        total_slices * redundancy_pct <= usize::MAX,
    ensures
        n == recovery_count_of(total_slices as nat, redundancy_pct),
{
    (total_slices * redundancy_pct as usize) / 100
}

/// The recovery blocks are the given share of the slices, and no block more would
/// be.
pub proof fn law_recovery_is_the_given_share(slices: nat, redundancy_pct: u8)
    ensures
        recovery_count_of(slices, redundancy_pct) * 100 <= slices * redundancy_pct,
        slices * redundancy_pct < (recovery_count_of(slices, redundancy_pct) + 1) * 100,
        redundancy_pct == 100 ==> recovery_count_of(slices, redundancy_pct) == slices,
        redundancy_pct == 0 ==> recovery_count_of(slices, redundancy_pct) == 0,
{
    let product = slices * redundancy_pct as nat;
    assert(redundancy_pct == 100 ==> product == slices * 100);
    assert(redundancy_pct == 0 ==> product == 0) by (nonlinear_arith)
        requires
            product == slices * redundancy_pct as nat,
    ;
}

/// How many recovery blocks fit in memory at once: at least one.
pub open spec fn blocks_per_pass(memory_limit: nat, slice_size: nat) -> nat {
    if memory_limit / slice_size == 0 {
        1
    } else {
        memory_limit / slice_size
    }
}

/// The first block of a pass and the number of blocks in it.
pub open spec fn pass_of(recovery_count: nat, per_pass: nat, i: int) -> (int, int) {
    let start = i * per_pass;
    let rest = recovery_count - start;
    (
        start,
        if rest < per_pass {
            rest
        } else {
            per_pass as int
        },
    )
}

/// Split the recovery blocks into passes that fit in memory, as pairs of the
/// first exponent and the number of blocks. Without recovery blocks there is
/// one empty pass, in which the files are still read.
pub fn plan_passes(recovery_count: usize, memory_limit: usize, par2_slice_size: usize) -> (passes:
    Vec<(u32, usize)>)
    requires
        par2_slice_size > 0,
        recovery_count <= u32::MAX,
    ensures
        recovery_count == 0 ==> passes@ == seq![(0u32, 0usize)],
        recovery_count > 0 ==> passes@.len() == groups_of(
            recovery_count as nat,
            blocks_per_pass(memory_limit as nat, par2_slice_size as nat),
        ),
        recovery_count > 0 ==> forall|i: int|
            0 <= i < passes@.len() ==> (#[trigger] passes@[i]).0 == pass_of(
                recovery_count as nat,
                blocks_per_pass(memory_limit as nat, par2_slice_size as nat),
                i,
            ).0 && passes@[i].1 == pass_of(
                recovery_count as nat,
                blocks_per_pass(memory_limit as nat, par2_slice_size as nat),
                i,
            ).1,
{
    let fitting: usize = memory_limit / par2_slice_size;
    let per_pass: usize = if fitting == 0 {
        1
    } else {
        fitting
    };
    let mut passes: Vec<(u32, usize)> = Vec::new();
    if recovery_count == 0 {
        passes.push((0, 0));
        assert(passes@ =~= seq![(0u32, 0usize)]);
        return passes;
    }
    let mut start: usize = 0;
    assert(0 * per_pass == 0);
    while start < recovery_count
        invariant
            start <= recovery_count,
            0 < recovery_count <= u32::MAX,
            per_pass > 0,
            start < recovery_count ==> start == passes@.len() * per_pass,
            start == recovery_count ==> passes@.len() == groups_of(
                recovery_count as nat,
                per_pass as nat,
            ),
            forall|i: int|
                0 <= i < passes@.len() ==> (#[trigger] passes@[i]).0 == pass_of(
                    recovery_count as nat,
                    per_pass as nat,
                    i,
                ).0 && passes@[i].1 == pass_of(recovery_count as nat, per_pass as nat, i).1,
        decreases recovery_count - start,
    {
        let rest: usize = recovery_count - start;
        let count: usize = if rest < per_pass {
            rest
        } else {
            per_pass
        };
        proof {
            let n = passes@.len() as int;
            assert((n + 1) * per_pass == n * per_pass + per_pass) by (nonlinear_arith);
            if count == rest {
                lemma_fundamental_div_mod_converse(
                    recovery_count - 1,
                    per_pass as int,
                    n,
                    recovery_count - 1 - n * per_pass,
                );
            }
        }
        passes.push((start as u32, count));
        start = start + count;
    }
    passes
}

/// The passes cover every recovery exponent once: each starts where the one
/// before ends, none is empty, and the last ends at the number of blocks.
pub proof fn law_passes_cover_all_blocks(recovery_count: nat, per_pass: nat, i: int)
    requires
        recovery_count > 0,
        per_pass > 0,
        0 <= i < groups_of(recovery_count, per_pass),
    ensures
        pass_of(recovery_count, per_pass, 0).0 == 0,
        0 < pass_of(recovery_count, per_pass, i).1 <= per_pass,
        i + 1 < groups_of(recovery_count, per_pass) ==> pass_of(
            recovery_count,
            per_pass,
            i + 1,
        ).0 == pass_of(recovery_count, per_pass, i).0 + pass_of(recovery_count, per_pass, i).1,
        i + 1 == groups_of(recovery_count, per_pass) ==> pass_of(recovery_count, per_pass, i).0
            + pass_of(recovery_count, per_pass, i).1 == recovery_count,
{
    let a = per_pass as int;
    let q = (recovery_count - 1) / a;
    lemma_fundamental_div_mod(recovery_count - 1, a);
    assert(i <= q);
    assert((i + 1) * a == i * a + a && 0 * a == 0) by (nonlinear_arith);
    assert(i * a <= q * a) by (nonlinear_arith)
        requires
            i <= q,
            a > 0,
    ;
    assert(a * q == q * a) by (nonlinear_arith);
    if i < q {
        assert((i + 1) * a <= q * a) by (nonlinear_arith)
            requires
                i + 1 <= q,
                a > 0,
        ;
    }
}

/// Bytes the encoder may queue before a flush: a quarter of the memory limit,
/// within 256 MiB and 2 GiB.
pub fn queue_limit(memory_limit: u64) -> (limit: u64)
    ensures
        limit == (if memory_limit / 4 < 268_435_456 {
            268_435_456
        } else if memory_limit / 4 > 2_147_483_648 {
            2_147_483_648
        } else {
            memory_limit / 4
        }),
{
    let quarter: u64 = memory_limit / 4;
    if quarter < 268_435_456 {
        268_435_456
    } else if quarter > 2_147_483_648 {
        2_147_483_648
    } else {
        quarter
    }
}

} // verus!

//! Reading text: lines, words and numbers.

use vstd::prelude::*;

use crate::chars;

verus! {

/// The value of a row of decimal digits.
pub open spec fn digits_value(s: Seq<char>) -> nat
    decreases s.len(),
{
    if s.len() == 0 {
        0
    } else {
        digits_value(s.drop_last()) * 10 + (s.last() as nat - '0' as nat) as nat
    }
}

/// Every character is a decimal digit.
pub open spec fn all_digits(s: Seq<char>) -> bool {
    forall|i: int| 0 <= i < s.len() ==> chars::is_digit(#[trigger] s[i])
}

/// A number as written: without the plus sign that may stand in front.
pub open spec fn unsigned_part(s: Seq<char>) -> Seq<char> {
    if s.len() > 0 && s[0] == '+' {
        s.skip(1)
    } else {
        s
    }
}

/// The number that a text writes in decimal, where it writes one that is at
/// most `max`.
pub open spec fn number_in(s: Seq<char>, max: nat) -> Option<nat> {
    let digits = unsigned_part(s);
    if digits.len() > 0 && all_digits(digits) && digits_value(digits) <= max {
        Some(digits_value(digits))
    } else {
        None
    }
}

/// The words of a text: what stands between white space.
pub open spec fn words_of(s: Seq<char>) -> Seq<Seq<char>>
    decreases s.len(),
{
    if s.len() == 0 {
        Seq::empty()
    } else if chars::is_space(s.last()) {
        words_of(s.drop_last())
    } else {
        proof {
            lemma_word_start(s);
        }
        words_of(s.take(word_start(s))).push(s.skip(word_start(s)))
    }
}

/// Where the word at the end of a text starts.
pub open spec fn word_start(s: Seq<char>) -> int
    decreases s.len(),
{
    if s.len() == 0 || chars::is_space(s.last()) {
        s.len() as int
    } else {
        word_start(s.drop_last())
    }
}

/// The lines of a text: what stands before each line feed, and behind the last
/// one unless nothing does.
pub open spec fn lines_of(s: Seq<char>) -> Seq<Seq<char>>
    decreases s.len(),
{
    if s.len() == 0 {
        Seq::empty()
    } else {
        let k = chars::first_index(s, '\n');
        if 0 <= k < s.len() {
            seq![s.take(k)] + lines_of(s.skip(k + 1))
        } else {
            seq![s]
        }
    }
}

/// `s` starts with `prefix`.
pub open spec fn starts_with(s: Seq<char>, prefix: Seq<char>) -> bool {
    chars::occurs_at(s, prefix, 0)
}

proof fn lemma_digits_grow(s: Seq<char>, i: int)
    requires
        0 <= i <= s.len(),
    ensures
        digits_value(s.take(i)) <= digits_value(s),
    decreases s.len(),
{
    if i < s.len() {
        lemma_digits_grow(s.drop_last(), i);
        assert(s.drop_last().take(i) =~= s.take(i));
    } else {
        assert(s.take(i) =~= s);
    }
}

/// Read a decimal number that is at most `max`.
pub fn parse_number(s: &[char], max: u64) -> (r: Option<u64>)
    ensures
        match r {
            Some(v) => number_in(s@, max as nat) == Some(v as nat),
            None => number_in(s@, max as nat) is None,
        },
{
    let n: usize = s.len();
    let from: usize = if n > 0 && s[0] == '+' {
        1
    } else {
        0
    };
    let digits: &[char] = chars::part(s, from, n);
    assert(digits@ =~= unsigned_part(s@));
    let len: usize = n - from;
    if len == 0 {
        return None;
    }
    let mut value: u64 = 0;
    let mut i: usize = 0;
    while i < len
        invariant
            i <= len,
            len == digits@.len(),
            len > 0,
            digits@ == unsigned_part(s@),
            forall|k: int| 0 <= k < i ==> chars::is_digit(#[trigger] digits@[k]),
            value == digits_value(digits@.take(i as int)),
            value <= max,
        decreases len - i,
    {
        let c: char = digits[i];
        if !chars::digit(c) {
            assert(!all_digits(digits@));
            return None;
        }
        let d: u64 = (c as u32 - 48) as u64;
        proof {
            assert(digits@.take(i + 1).drop_last() =~= digits@.take(i as int));
            assert(digits_value(digits@.take(i + 1)) == value * 10 + d);
            lemma_digits_grow(digits@, i + 1);
        }
        if value > max / 10 {
            assert(value * 10 + d > max) by (nonlinear_arith)
                requires
                    value > max / 10,
            ;
            return None;
        }
        let ten: u64 = value * 10;
        if d > max - ten {
            return None;
        }
        value = ten + d;
        i = i + 1;
    }
    assert(digits@.take(len as int) =~= digits@);
    Some(value)
}

fn find_word_start(s: &[char], end: usize) -> (k: usize)
    requires
        end <= s@.len(),
    ensures
        k == word_start(s@.take(end as int)),
        k <= end,
{
    let mut n: usize = end;
    while n > 0 && !chars::space(s[n - 1])
        invariant
            n <= end <= s@.len(),
            word_start(s@.take(end as int)) == word_start(s@.take(n as int)),
        decreases n,
    {
        assert(s@.take(n as int).drop_last() =~= s@.take(n - 1));
        n = n - 1;
    }
    n
}

/// The words of a text.
pub fn words(s: &[char]) -> (words: Vec<Vec<char>>)
    ensures
        words@.len() == words_of(s@).len(),
        forall|i: int| 0 <= i < words@.len() ==> #[trigger] words@[i]@ == words_of(s@)[i],
{
    let mut reversed: Vec<Vec<char>> = Vec::new();
    let mut n: usize = s.len();
    assert(s@.take(n as int) =~= s@);
    while n > 0
        invariant
            n <= s@.len(),
            words_of(s@).len() == words_of(s@.take(n as int)).len() + reversed@.len(),
            forall|i: int|
                0 <= i < words_of(s@.take(n as int)).len() ==> #[trigger] words_of(
                    s@.take(n as int),
                )[i] == words_of(s@)[i],
            forall|i: int|
                0 <= i < reversed@.len() ==> #[trigger] reversed@[i]@ == words_of(
                    s@,
                )[words_of(s@).len() - 1 - i],
        decreases n,
    {
        let ghost t = s@.take(n as int);
        if chars::space(s[n - 1]) {
            assert(t.drop_last() =~= s@.take(n - 1));
            n = n - 1;
        } else {
            let k: usize = find_word_start(s, n);
            proof {
                lemma_word_start(t);
                assert(t.take(k as int) =~= s@.take(k as int));
                assert(words_of(t) == words_of(s@.take(k as int)).push(t.skip(k as int)));
                let last = words_of(t).len() - 1;
                assert(words_of(t)[last] == words_of(s@)[last]);
                assert forall|i: int| 0 <= i < last implies #[trigger] words_of(
                    s@.take(k as int),
                )[i] == words_of(s@)[i] by {
                    assert(words_of(t)[i] == words_of(s@)[i]);
                }
            }
            let mut word: Vec<char> = Vec::new();
            let mut j: usize = k;
            while j < n
                invariant
                    k <= j <= n,
                    n <= s@.len(),
                    word@ == s@.subrange(k as int, j as int),
                decreases n - j,
            {
                word.push(s[j]);
                assert(word@ =~= s@.subrange(k as int, j + 1));
                j = j + 1;
            }
            assert(word@ =~= t.skip(k as int));
            reversed.push(word);
            n = k;
        }
    }
    let mut words: Vec<Vec<char>> = Vec::new();
    let total: usize = reversed.len();
    let ghost all = reversed@;
    let mut i: usize = 0;
    while i < total
        invariant
            i <= total,
            total == all.len(),
            total == words_of(s@).len(),
            reversed@ == all.take(total - i),
            words@.len() == i,
            forall|j: int| 0 <= j < all.len() ==> #[trigger] all[j]@ == words_of(s@)[total - 1 - j],
            forall|j: int| 0 <= j < i ==> #[trigger] words@[j]@ == words_of(s@)[j],
        decreases total - i,
    {
        match reversed.pop() {
            Some(word) => {
                assert(word@ == all[total - i - 1]@);
                words.push(word);
            },
            None => {},
        }
        assert(reversed@ =~= all.take(total - i - 1));
        i = i + 1;
    }
    words
}

/// A word at the end of a text starts before its end.
pub proof fn lemma_word_start(s: Seq<char>)
    ensures
        0 <= word_start(s) <= s.len(),
        s.len() > 0 && !chars::is_space(s.last()) ==> word_start(s) < s.len(),
    decreases s.len(),
{
    if s.len() > 0 && !chars::is_space(s.last()) {
        lemma_word_start(s.drop_last());
    }
}

/// The lines of a text.
pub fn lines(s: &[char]) -> (lines: Vec<&[char]>)
    ensures
        lines@.len() == lines_of(s@).len(),
        forall|i: int| 0 <= i < lines@.len() ==> #[trigger] lines@[i]@ == lines_of(s@)[i],
{
    let mut lines: Vec<&[char]> = Vec::new();
    let n: usize = s.len();
    let mut from: usize = 0;
    assert(s@.skip(0) =~= s@);
    while from < n
        invariant
            from <= n,
            n == s@.len(),
            lines_of(s@).len() == lines@.len() + lines_of(s@.skip(from as int)).len(),
            forall|i: int| 0 <= i < lines@.len() ==> #[trigger] lines@[i]@ == lines_of(s@)[i],
            forall|i: int|
                0 <= i < lines_of(s@.skip(from as int)).len() ==> #[trigger] lines_of(
                    s@.skip(from as int),
                )[i] == lines_of(s@)[lines@.len() + i],
        decreases n - from,
    {
        let ghost before = lines@;
        let rest: &[char] = chars::part(s, from, n);
        assert(rest@ =~= s@.skip(from as int));
        let k: usize = chars::find(rest, '\n');
        proof {
            chars::lemma_first_index(rest@, '\n');
            assert(lines_of(rest@)[0] == lines_of(s@)[lines@.len() as int]);
        }
        if k < n - from {
            let line: &[char] = chars::part(rest, 0, k);
            assert(line@ =~= rest@.take(k as int));
            assert(rest@.skip(k + 1) =~= s@.skip(from + k + 1));
            proof {
                let tail = lines_of(s@.skip(from + k + 1));
                assert forall|i: int| 0 <= i < tail.len() implies #[trigger] tail[i] == lines_of(
                    s@,
                )[before.len() + 1 + i] by {
                    assert(lines_of(rest@)[i + 1] == lines_of(s@)[before.len() + (i + 1)]);
                }
            }
            lines.push(line);
            from = from + k + 1;
        } else {
            lines.push(rest);
            from = n;
            assert(s@.skip(n as int) =~= Seq::empty());
        }
    }
    lines
}

/// Whether `s` starts with `prefix`.
pub fn begins_with(s: &[char], prefix: &[char]) -> (r: bool)
    ensures
        r == starts_with(s@, prefix@),
{
    chars::stands_at(s, prefix, 0)
}

/// Whether every character is a decimal digit.
pub fn only_digits(s: &[char]) -> (r: bool)
    ensures
        r == all_digits(s@),
{
    let n: usize = s.len();
    let mut i: usize = 0;
    while i < n
        invariant
            i <= n,
            n == s@.len(),
            forall|k: int| 0 <= k < i ==> chars::is_digit(#[trigger] s@[k]),
        decreases n - i,
    {
        if !chars::digit(s[i]) {
            return false;
        }
        i = i + 1;
    }
    true
}

} // verus!

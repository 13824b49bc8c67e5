//! Upload rates as written in configuration files and on the command line.
//!
//! A number with a fraction is read as a double-precision number is: rounded
//! to 53 significant bits, to the nearest value and to the even one of two
//! equally near. The rate is then scaled by its unit and cut to whole bytes.

use vstd::arithmetic::div_mod::*;
use vstd::arithmetic::power2::*;
use vstd::prelude::*;
use vstd::string::*;

use crate::chars;
use crate::reading;
use crate::scan;
use crate::sizes;
use crate::text;

verus! {

/// 2 to the power of 52.
pub const LOW: u64 = 4503599627370496;

/// 2 to the power of 53.
pub const HIGH: u64 = 9007199254740992;

/// 10 to the power of `n`.
pub open spec fn pow10(n: nat) -> nat
    decreases n,
{
    if n == 0 {
        1
    } else {
        10 * pow10((n - 1) as nat)
    }
}

/// A non-negative integer, or 0 for a negative one.
pub open spec fn positive(e: int) -> nat {
    if e > 0 {
        e as nat
    } else {
        0
    }
}

/// `num / den` has 53 significant bits above `2^e`.
pub open spec fn has_exponent(num: nat, den: nat, e: int) -> bool {
    LOW * (den * pow2(positive(e))) <= num * pow2(positive(-e)) < HIGH * (den * pow2(positive(e)))
}

/// `num / den` rounded to a multiple of `2^e`, in units of `2^e`.
pub open spec fn significand(num: nat, den: nat, e: int) -> nat {
    sizes::rounded(num * pow2(positive(-e)), den * pow2(positive(e)))
}

/// `m * 2^e` cut to an integer.
pub open spec fn cut(m: nat, e: int) -> nat {
    m * pow2(positive(e)) / pow2(positive(-e))
}

/// `rate` is `num / den` rounded to 53 significant bits, scaled by `2^k` and
/// cut to an integer; rates beyond the largest 64-bit number become that.
pub open spec fn is_scaled(num: nat, den: nat, k: nat, rate: u64) -> bool {
    if num == 0 {
        rate == 0
    } else {
        exists|e: int| #[trigger]
            has_exponent(num, den, e) && rate == sizes::at_most(
                cut(significand(num, den, e), e + k),
                u64::MAX as nat,
            )
    }
}

/// A rate without the white space around it and without a `/s` or `ps` at its
/// end, in upper or lower case.
pub open spec fn rate_body(s: Seq<char>) -> Seq<char> {
    let t = chars::trimmed(s);
    if ends_with(chars::lowered(t), "/s"@) || ends_with(chars::lowered(t), "ps"@) {
        chars::trimmed(t.take(t.len() - 2))
    } else {
        chars::trimmed(t)
    }
}

/// `s` ends with `tail`.
pub open spec fn ends_with(s: Seq<char>, tail: Seq<char>) -> bool {
    chars::occurs_at(s, tail, s.len() - tail.len())
}

/// How many digits and dots stand at the start.
pub open spec fn number_len(s: Seq<char>) -> int
    decreases s.len(),
{
    if s.len() > 0 && (chars::is_digit(s[0]) || s[0] == '.') {
        1 + number_len(s.drop_first())
    } else {
        0
    }
}

/// The digits of a number before its first dot.
pub open spec fn whole_digits(number: Seq<char>) -> Seq<char> {
    number.take(chars::first_index(number, '.'))
}

/// The digits of a number behind its first dot.
pub open spec fn fraction_digits(number: Seq<char>) -> Seq<char> {
    let k = chars::first_index(number, '.');
    if k < number.len() {
        number.skip(k + 1)
    } else {
        Seq::empty()
    }
}

/// A number is written with at least one digit and at most one dot.
pub open spec fn is_number(number: Seq<char>) -> bool {
    &&& scan::all_digits(whole_digits(number))
    &&& scan::all_digits(fraction_digits(number))
    &&& whole_digits(number).len() + fraction_digits(number).len() > 0
}

/// The power of two that a unit stands for.
pub open spec fn unit_power(unit: Seq<char>) -> Option<nat> {
    if unit == ""@ || unit == "b"@ {
        Some(0)
    } else if unit == "k"@ || unit == "kb"@ || unit == "kib"@ {
        Some(10)
    } else if unit == "m"@ || unit == "mb"@ || unit == "mib"@ {
        Some(20)
    } else if unit == "g"@ || unit == "gb"@ || unit == "gib"@ {
        Some(30)
    } else {
        None
    }
}

/// The number in front of a rate.
pub open spec fn number_of(s: Seq<char>) -> Seq<char> {
    rate_body(s).take(number_len(rate_body(s)))
}

/// The unit behind the number of a rate, in lower case.
pub open spec fn unit_of(s: Seq<char>) -> Seq<char> {
    chars::lowered(chars::trimmed(rate_body(s).skip(number_len(rate_body(s)))))
}

/// `rate` is the number of bytes per second that the text stands for.
pub open spec fn is_rate(s: Seq<char>, rate: u64) -> bool {
    let whole = whole_digits(number_of(s));
    let fraction = fraction_digits(number_of(s));
    is_scaled(
        scan::digits_value(whole) * pow10(fraction.len()) + scan::digits_value(fraction),
        pow10(fraction.len()),
        unit_power(unit_of(s))->0,
        rate,
    )
}

/// Why a rate could not be read.
#[derive(Debug)]
pub enum RateError {
    /// The rate does not start with a number.
    InvalidNumber { rate: String },
    /// The unit behind the number is unknown.
    UnknownUnit { unit: String, rate: String },
}

/// A text that stands for a rate: a number with a known unit.
pub open spec fn is_valid(s: Seq<char>) -> bool {
    is_number(number_of(s)) && unit_power(unit_of(s)) is Some
}

/// `e` says why the text stands for no rate: the number comes first.
pub open spec fn is_error(s: Seq<char>, e: RateError) -> bool {
    match e {
        RateError::InvalidNumber { rate } => {
            &&& !is_number(number_of(s))
            &&& rate@ == rate_body(s)
        },
        RateError::UnknownUnit { unit, rate } => {
            &&& is_number(number_of(s))
            &&& unit_power(unit_of(s)) is None
            &&& unit@ == unit_of(s)
            &&& rate@ == rate_body(s)
        },
    }
}

impl RateError {
    /// What went wrong, in words.
    pub open spec fn shown(&self) -> Seq<char> {
        match *self {
            RateError::InvalidNumber { rate } => "invalid upload rate `"@ + rate@ + "`"@,
            RateError::UnknownUnit { unit, rate } => "unknown rate unit `"@ + unit@ + "` in `"@
                + rate@ + "`"@,
        }
    }

    /// What went wrong, in words.
    pub fn message(&self) -> (message: String)
        ensures
            message@ == self.shown(),
    {
        match self {
            RateError::InvalidNumber { rate } => {
                let mut message: String = String::from_str("invalid upload rate `");
                message.append(rate.as_str());
                message.append("`");
                message
            },
            RateError::UnknownUnit { unit, rate } => {
                let mut message: String = String::from_str("unknown rate unit `");
                message.append(unit.as_str());
                message.append("` in `");
                message.append(rate.as_str());
                message.append("`");
                message
            },
        }
    }
}

/// The value of a row of digits, the first one weighing most.
spec fn row_value(row: Seq<u8>) -> nat
    decreases row.len(),
{
    if row.len() == 0 {
        0
    } else {
        row[0] as nat * pow10((row.len() - 1) as nat) + row_value(row.drop_first())
    }
}

spec fn is_row(row: Seq<u8>) -> bool {
    forall|i: int| 0 <= i < row.len() ==> #[trigger] row[i] < 10
}

proof fn lemma_row_bound(row: Seq<u8>)
    requires
        is_row(row),
    ensures
        row_value(row) < pow10(row.len()),
        pow10(row.len()) > 0,
    decreases row.len(),
{
    if row.len() > 0 {
        assert(is_row(row.drop_first())) by {
            assert forall|i: int| 0 <= i < row.len() - 1 implies #[trigger] row.drop_first()[i]
                < 10 by {
                assert(row.drop_first()[i] == row[i + 1]);
            }
        }
        lemma_row_bound(row.drop_first());
        let p = pow10((row.len() - 1) as nat);
        assert(row[0] as nat * p <= 9 * p) by (nonlinear_arith)
            requires
                row[0] < 10,
        ;
    }
}

proof fn lemma_row_of_digits(digits: Seq<char>, row: Seq<u8>)
    requires
        digits.len() == row.len(),
        forall|i: int| 0 <= i < row.len() ==> #[trigger] row[i] as nat == digits[i] as nat - 48,
    ensures
        row_value(row) == scan::digits_value(digits),
    decreases row.len(),
{
    if row.len() > 0 {
        let d = digits.drop_last();
        let r = row.drop_last();
        lemma_row_of_digits(d, r);
        lemma_row_snoc(row);
    }
}

proof fn lemma_row_snoc(row: Seq<u8>)
    requires
        row.len() > 0,
    ensures
        row_value(row) == row_value(row.drop_last()) * 10 + row.last() as nat,
    decreases row.len(),
{
    if row.len() == 1 {
        assert(row.drop_first() =~= Seq::empty());
        assert(row.drop_last() =~= Seq::empty());
        assert(row_value(row.drop_first()) == 0);
        assert(row_value(row.drop_last()) == 0);
        assert(pow10(0) == 1);
    } else {
        let tail = row.drop_first();
        lemma_row_snoc(tail);
        assert(tail.drop_last() =~= row.drop_last().drop_first());
        let p = pow10((row.len() - 2) as nat);
        assert(pow10((row.len() - 1) as nat) == 10 * p);
        assert(row[0] as nat * (10 * p) == (row[0] as nat * p) * 10) by (nonlinear_arith);
        assert((row[0] as nat * p + row_value(tail.drop_last())) * 10 == (row[0] as nat * p) * 10
            + row_value(tail.drop_last()) * 10) by (nonlinear_arith);
    }
}

/// Double a row of digits and hand out the carry.
fn double_row(row: &mut Vec<u8>) -> (carry: u64)
    requires
        is_row(old(row)@),
    ensures
        is_row(final(row)@),
        final(row)@.len() == old(row)@.len(),
        carry <= 1,
        row_value(final(row)@) + carry * pow10(final(row)@.len()) == 2 * row_value(old(row)@),
{
    let ghost before = row@;
    let n: usize = row.len();
    let mut carry: u8 = 0;
    let mut i: usize = n;
    assert(row@.skip(n as int) =~= Seq::empty());
    assert(before.skip(n as int) =~= Seq::empty());
    while i > 0
        invariant
            i <= n,
            n == row@.len(),
            n == before.len(),
            is_row(before),
            is_row(row@),
            carry <= 1,
            forall|k: int| 0 <= k < i ==> #[trigger] row@[k] == before[k],
            row_value(row@.skip(i as int)) + carry * pow10((n - i) as nat) == 2 * row_value(
                before.skip(i as int),
            ),
        decreases i,
    {
        let ghost tail = row@.skip(i as int);
        let ghost c = carry;
        i = i - 1;
        assert(row@[i as int] < 10);
        let twice: u8 = 2 * row[i] + carry;
        if twice >= 10 {
            row.set(i, twice - 10);
            carry = 1;
        } else {
            row.set(i, twice);
            carry = 0;
        }
        proof {
            assert(row@.skip(i as int).drop_first() =~= tail);
            assert(before.skip(i as int).drop_first() =~= before.skip(i + 1));
            let p = pow10((n - i - 1) as nat);
            let d = row@[i as int] as nat;
            let b = before[i as int] as nat;
            assert(d + carry as nat * 10 == 2 * b + c as nat);
            assert(d * p + carry as nat * (10 * p) == 2 * (b * p) + c as nat * p)
                by (nonlinear_arith)
                requires
                    d + carry as nat * 10 == 2 * b + c as nat,
            ;
        }
    }
    assert(row@.skip(0) =~= row@);
    assert(before.skip(0) =~= before);
    carry as u64
}

fn row_is_zero(row: &[u8]) -> (r: bool)
    requires
        is_row(row@),
    ensures
        r == (row_value(row@) == 0),
{
    let n: usize = row.len();
    let mut i: usize = 0;
    assert(row@.skip(0) =~= row@);
    while i < n
        invariant
            i <= n,
            n == row@.len(),
            row_value(row@) == row_value(row@.skip(i as int)),
        decreases n - i,
    {
        proof {
            let rest = row@.skip(i as int);
            assert(rest.drop_first() =~= row@.skip(i + 1));
            let p = pow10((rest.len() - 1) as nat);
            lemma_pow10_positive((rest.len() - 1) as nat);
            assert(rest[0] as nat * p > 0 || rest[0] == 0) by (nonlinear_arith)
                requires
                    p > 0,
            ;
            assert(rest[0] == 0 ==> rest[0] as nat * p == 0) by (nonlinear_arith);
            assert(row_value(rest) == rest[0] as nat * p + row_value(rest.drop_first()));
        }
        if row[i] != 0 {
            return false;
        }
        i = i + 1;
    }
    true
}

proof fn lemma_pow10_positive(n: nat)
    ensures
        pow10(n) > 0,
    decreases n,
{
    if n > 0 {
        lemma_pow10_positive((n - 1) as nat);
    }
}

proof fn lemma_exponent_up(num: nat, den: nat, j: nat)
    requires
        den > 0,
        LOW * (den * pow2(j)) <= num,
    ensures
        exists|e: int| #[trigger] has_exponent(num, den, e),
    decreases num - den * pow2(j),
{
    lemma_pow2_pos(j);
    lemma_pow2_unfold(j + 1);
    let d = den * pow2(j);
    assert(den * pow2(j + 1) == 2 * d) by (nonlinear_arith)
        requires
            pow2(j + 1) == 2 * pow2(j),
            d == den * pow2(j),
    ;
    assert(d > 0) by (nonlinear_arith)
        requires
            d == den * pow2(j),
            den > 0,
            pow2(j) > 0,
    ;
    if num < HIGH * d {
        assert(pow2(0) == 1) by {
            lemma2_to64();
        }
        assert(num * 1 == num);
        assert(has_exponent(num, den, j as int));
    } else {
        lemma_exponent_up(num, den, j + 1);
    }
}

proof fn lemma_exponent_down(num: nat, den: nat, j: nat)
    requires
        den > 0,
        num > 0,
        num * pow2(j) < HIGH * den,
    ensures
        exists|e: int| #[trigger] has_exponent(num, den, e),
    decreases HIGH * den - num * pow2(j),
{
    lemma_pow2_pos(j);
    lemma_pow2_unfold(j + 1);
    let n = num * pow2(j);
    assert(num * pow2(j + 1) == 2 * n) by (nonlinear_arith)
        requires
            pow2(j + 1) == 2 * pow2(j),
            n == num * pow2(j),
    ;
    assert(n > 0) by (nonlinear_arith)
        requires
            n == num * pow2(j),
            num > 0,
            pow2(j) > 0,
    ;
    if n >= LOW * den {
        assert(pow2(0) == 1) by {
            lemma2_to64();
        }
        assert(den * 1 == den);
        assert(has_exponent(num, den, -(j as int)));
    } else {
        lemma_exponent_down(num, den, j + 1);
    }
}

/// Every positive number has 53 significant bits above some power of two.
pub proof fn lemma_exponent_exists(num: nat, den: nat)
    requires
        num > 0,
        den > 0,
    ensures
        exists|e: int| #[trigger] has_exponent(num, den, e),
{
    assert(pow2(0) == 1) by {
        lemma2_to64();
    }
    assert(den * 1 == den);
    assert(num * 1 == num);
    if num >= HIGH * den {
        lemma_exponent_up(num, den, 0);
    } else {
        lemma_exponent_down(num, den, 0);
    }
}

proof fn lemma_significand_bounds(num: nat, den: nat, e: int)
    requires
        den > 0,
        has_exponent(num, den, e),
    ensures
        LOW <= significand(num, den, e) <= HIGH,
{
    let n = num * pow2(positive(-e));
    let d = den * pow2(positive(e));
    lemma_pow2_pos(positive(e));
    assert(d > 0) by (nonlinear_arith)
        requires
            d == den * pow2(positive(e)),
            den > 0,
            pow2(positive(e)) > 0,
    ;
    lemma_fundamental_div_mod(n as int, d as int);
    let q = n as int / d as int;
    assert(q >= LOW) by (nonlinear_arith)
        requires
            n == d * q + n as int % d as int,
            0 <= n as int % d as int,
            (n as int % d as int) < d,
            LOW * d <= n,
            d > 0,
    ;
    assert(q < HIGH) by (nonlinear_arith)
        requires
            n == d * q + n as int % d as int,
            0 <= n as int % d as int,
            n < HIGH * d,
            d > 0,
    ;
}

proof fn lemma_tiny(num: nat, den: nat, k: nat)
    requires
        den > 0,
        k <= 30,
        num * pow2(84) < LOW * den,
    ensures
        is_scaled(num, den, k, 0),
{
    if num > 0 {
        lemma_exponent_exists(num, den);
        let e = choose|e: int| #[trigger] has_exponent(num, den, e);
        let up = positive(e);
        let down = positive(-e);
        lemma_pow2_pos(up);
        lemma_pow2_pos(down);
        lemma_pow2_pos(84);
        if e >= -84 {
            if down < 84 {
                lemma_pow2_strictly_increases(down, 84);
            }
            assert(num * pow2(down) <= num * pow2(84)) by (nonlinear_arith)
                requires
                    pow2(down) <= pow2(84),
            ;
            assert(den * pow2(up) >= den) by (nonlinear_arith)
                requires
                    pow2(up) > 0,
            ;
            assert(false);
        }
        let m = significand(num, den, e);
        lemma_significand_bounds(num, den, e);
        let s = positive(-(e + k));
        assert(positive(e + k) == 0);
        assert(pow2(0) == 1) by {
            lemma2_to64();
        }
        assert(m * 1 == m);
        assert(pow2(54) == 0x40000000000000) by {
            lemma2_to64_rest();
        }
        lemma_pow2_strictly_increases(54, s);
        assert(m < pow2(s));
        assert(m as int / pow2(s) as int == 0) by {
            lemma_basic_div(m as int, pow2(s) as int);
        }
    }
}

proof fn lemma_huge(num: nat, den: nat, k: nat)
    requires
        den > 0,
        num >= 0x1_0000_0000_0000_0000 * den,
    ensures
        is_scaled(num, den, k, u64::MAX),
{
    lemma_exponent_exists(num, den);
    let e = choose|e: int| #[trigger] has_exponent(num, den, e);
    let up = positive(e);
    let down = positive(-e);
    lemma_pow2_pos(up);
    lemma_pow2_pos(down);
    assert(pow2(0) == 1 && pow2(11) == 2048 && pow2(12) == 4096) by {
        lemma2_to64();
    }
    assert(e >= 12) by {
        if e < 12 {
            assert(pow2(up) <= 2048) by {
                if up < 11 {
                    lemma_pow2_strictly_increases(up, 11);
                }
            }
            assert(num * pow2(down) >= num) by (nonlinear_arith)
                requires
                    pow2(down) > 0,
            ;
            assert(den * pow2(up) <= den * 2048) by (nonlinear_arith)
                requires
                    pow2(up) <= 2048,
            ;
        }
    }
    let m = significand(num, den, e);
    lemma_significand_bounds(num, den, e);
    let s = positive(e + k);
    assert(pow2(s) >= 4096) by {
        if s > 12 {
            lemma_pow2_strictly_increases(12, s);
        }
    }
    assert(m * pow2(s) >= 0x1_0000_0000_0000_0000) by (nonlinear_arith)
        requires
            m >= LOW,
            pow2(s) >= 4096,
    ;
    assert(positive(-(e + k)) == 0);
    assert((m * pow2(s)) as int / 1 == m * pow2(s));
}

/// `m * 2^(k - t)`, cut to an integer and to 64 bits.
fn cut_rate(m: u64, k: u32, t: u32) -> (rate: u64)
    requires
        m <= HIGH,
        k <= 41,
        t <= 84,
    ensures
        rate == sizes::at_most(cut(m as nat, k - t), u64::MAX as nat),
{
    proof {
        lemma2_to64();
        assert(pow2(0) == 1);
    }
    if k >= t {
        let mut v: u128 = m as u128;
        let mut i: u32 = 0;
        assert(m * 1 == m);
        while i < k - t
            invariant
                t <= k <= 41,
                i <= k - t,
                m <= HIGH,
                v == m * pow2(i as nat),
                v <= HIGH * pow2(i as nat),
                pow2(i as nat) <= 0x200_0000_0000,
            decreases k - t - i,
        {
            proof {
                lemma_pow2_unfold((i + 1) as nat);
                assert(m * pow2((i + 1) as nat) == 2 * (m * pow2(i as nat))) by (nonlinear_arith)
                    requires
                        pow2((i + 1) as nat) == 2 * pow2(i as nat),
                ;
                assert(HIGH * pow2((i + 1) as nat) == 2 * (HIGH * pow2(i as nat)))
                    by (nonlinear_arith)
                    requires
                        pow2((i + 1) as nat) == 2 * pow2(i as nat),
                ;
                assert(HIGH * pow2(i as nat) <= HIGH * 0x200_0000_0000) by (nonlinear_arith)
                    requires
                        pow2(i as nat) <= 0x200_0000_0000,
                ;
                lemma2_to64_rest();
                assert(pow2(41) == 0x200_0000_0000);
                if i + 1 < 41 {
                    lemma_pow2_strictly_increases((i + 1) as nat, 41);
                }
            }
            v = v * 2;
            i = i + 1;
        }
        proof {
            assert(positive(k - t) == i as nat);
            assert((m * pow2(i as nat)) as int / 1 == m * pow2(i as nat));
        }
        if v < u64::MAX as u128 {
            v as u64
        } else {
            u64::MAX
        }
    } else {
        let mut v: u64 = m;
        let mut i: u32 = 0;
        assert(m as int / 1 == m);
        while i < t - k
            invariant
                k < t <= 84,
                i <= t - k,
                v as int == m as int / pow2(i as nat) as int,
            decreases t - k - i,
        {
            proof {
                lemma_pow2_unfold((i + 1) as nat);
                lemma_pow2_pos(i as nat);
                lemma_div_denominator(m as int, pow2(i as nat) as int, 2);
                assert(pow2(i as nat) * 2 == pow2((i + 1) as nat));
            }
            v = v / 2;
            i = i + 1;
        }
        proof {
            assert(positive(-(k - t)) == i as nat);
            assert(m * 1 == m);
            lemma_pow2_pos(i as nat);
            assert(m as int / pow2(i as nat) as int <= m) by {
                lemma_div_is_ordered_by_denominator(m as int, 1, pow2(i as nat) as int);
            }
        }
        v
    }
}

/// Round and scale a number whose whole part has at most 53 bits: `row` holds
/// the digits of its fraction.
fn scale_small(whole: u64, row: Vec<u8>, k: u32) -> (rate: u64)
    requires
        whole < HIGH,
        is_row(row@),
        k <= 30,
    ensures
        is_scaled(
            whole as nat * pow10(row@.len()) + row_value(row@),
            pow10(row@.len()),
            k as nat,
            rate,
        ),
{
    let ghost q = pow10(row@.len());
    let ghost num = whole as nat * q + row_value(row@);
    let mut rest: Vec<u8> = row;
    let mut a: u64 = whole;
    let mut t: u32 = 0;
    proof {
        lemma2_to64();
        lemma_row_bound(rest@);
        assert(num * 1 == num);
    }
    while a < LOW && t < 84
        invariant
            t <= 84,
            a < HIGH,
            is_row(rest@),
            q == pow10(rest@.len()),
            q > 0,
            row_value(rest@) < q,
            num * pow2(t as nat) == a * q + row_value(rest@),
        decreases 84 - t,
    {
        let ghost r = row_value(rest@);
        let c: u64 = double_row(&mut rest);
        proof {
            lemma_row_bound(rest@);
            lemma_pow2_unfold((t + 1) as nat);
            let r2 = row_value(rest@);
            assert(num * pow2((t + 1) as nat) == 2 * (num * pow2(t as nat))) by (nonlinear_arith)
                requires
                    pow2((t + 1) as nat) == 2 * pow2(t as nat),
            ;
            assert((2 * a + c) * q + r2 == 2 * (a * q + r)) by (nonlinear_arith)
                requires
                    r2 + c * q == 2 * r,
            ;
        }
        a = 2 * a + c;
        t = t + 1;
    }
    let ghost r = row_value(rest@);
    let ghost n = num * pow2(t as nat);
    proof {
        assert(a * q + r < (a + 1) * q) by (nonlinear_arith)
            requires
                r < q,
        ;
    }
    if a < LOW {
        proof {
            assert((a + 1) * q <= LOW * q) by (nonlinear_arith)
                requires
                    a < LOW,
            ;
            lemma_tiny(num, q, k as nat);
        }
        return 0;
    }
    let ghost e = -(t as int);
    proof {
        lemma2_to64();
        assert(q * 1 == q);
        assert((a + 1) * q <= HIGH * q) by (nonlinear_arith)
            requires
                a < HIGH,
        ;
        assert(a * q >= LOW * q) by (nonlinear_arith)
            requires
                a >= LOW,
        ;
        assert(has_exponent(num, q, e));
        assert(q * a == a * q) by (nonlinear_arith);
        lemma_fundamental_div_mod_converse(n as int, q as int, a as int, r as int);
    }
    let c: u64 = double_row(&mut rest);
    proof {
        lemma_row_bound(rest@);
        assert(c * q == 0 || c * q == q) by (nonlinear_arith)
            requires
                c <= 1,
        ;
        assert(c == 0 ==> c * q == 0) by (nonlinear_arith);
        assert(c == 1 ==> c * q == q) by (nonlinear_arith);
    }
    let up: bool = c == 1 && (!row_is_zero(rest.as_slice()) || a % 2 == 1);
    let m: u64 = if up {
        a + 1
    } else {
        a
    };
    assert(m == significand(num, q, e));
    proof {
        lemma_significand_bounds(num, q, e);
        assert(num > 0) by {
            if num == 0 {
                assert(0 * pow2(t as nat) == 0);
                assert(LOW * q > 0);
            }
        }
    }
    let rate: u64 = cut_rate(m, k, t);
    assert(e + k as nat == k - t);
    rate
}

/// Round and scale a number whose whole part has more than 53 bits: `row` holds
/// the digits of its fraction.
fn scale_large(whole: u64, row: Vec<u8>, k: u32) -> (rate: u64)
    requires
        whole >= HIGH,
        is_row(row@),
        k <= 30,
    ensures
        is_scaled(
            whole as nat * pow10(row@.len()) + row_value(row@),
            pow10(row@.len()),
            k as nat,
            rate,
        ),
{
    let ghost q = pow10(row@.len());
    let ghost f = row_value(row@);
    let ghost num = whole as nat * q + f;
    let mut a: u64 = whole;
    let mut e: u32 = 0;
    let mut unit: u64 = 1;
    proof {
        lemma2_to64();
        lemma_row_bound(row@);
    }
    while a >= HIGH
        invariant
            e <= 11,
            unit == pow2(e as nat),
            1 <= unit <= 2048,
            a >= LOW,
            a * unit <= whole < (a + 1) * unit,
        decreases a,
    {
        proof {
            lemma_pow2_unfold((e + 1) as nat);
            lemma2_to64();
            assert(e < 11) by {
                if e == 11 {
                    assert(a * unit >= HIGH * 2048) by (nonlinear_arith)
                        requires
                            a >= HIGH,
                            unit == 2048,
                    ;
                }
            }
            if e < 10 {
                lemma_pow2_strictly_increases(e as nat, 10);
            }
            let h = a as int / 2;
            assert(h * (2 * unit) <= a * unit) by (nonlinear_arith)
                requires
                    2 * h <= a,
            ;
            assert((h + 1) * (2 * unit) >= (a + 1) * unit) by (nonlinear_arith)
                requires
                    2 * h >= a - 1,
            ;
        }
        a = a / 2;
        unit = unit * 2;
        e = e + 1;
    }
    let rem: u64 = whole - a * unit;
    proof {
        assert((a + 1) * unit == a * unit + unit) by (nonlinear_arith);
        lemma2_to64();
        if e == 0 {
            assert(a * 1 == a);
            assert(false);
        }
        lemma_pow2_unfold(e as nat);
    }
    let half: u64 = unit / 2;
    let up: bool = rem > half || (rem == half && (!row_is_zero(row.as_slice()) || a % 2 == 1));
    let ghost d = q * unit;
    let ghost r = rem * q + f;
    proof {
        assert(d == q * pow2(positive(e as int)));
        assert(num * 1 == num);
        assert(num == a * d + r) by (nonlinear_arith)
            requires
                num == whole * q + f,
                whole == a * unit + rem,
                d == q * unit,
                r == rem * q + f,
        ;
        assert(r < d) by (nonlinear_arith)
            requires
                r == rem * q + f,
                f < q,
                d == q * unit,
                rem + 1 <= unit,
        ;
        assert(a * d >= LOW * d) by (nonlinear_arith)
            requires
                a >= LOW,
                d >= 0,
        ;
        assert((a + 1) * d <= HIGH * d) by (nonlinear_arith)
            requires
                a < HIGH,
                d >= 0,
        ;
        assert((a + 1) * d == a * d + d) by (nonlinear_arith);
        assert(d > 0);
        assert(has_exponent(num, q, e as int));
        assert(d * a == a * d) by (nonlinear_arith);
        lemma_fundamental_div_mod_converse(num as int, d as int, a as int, r as int);
        assert(unit == 2 * half);
        assert(2 * r == 2 * (rem * q) + 2 * f);
        if rem > half {
            assert(2 * r > d) by (nonlinear_arith)
                requires
                    r == rem * q + f,
                    d == q * unit,
                    unit == 2 * half,
                    rem >= half + 1,
                    q > 0,
                    f >= 0,
            ;
        } else if rem == half {
            assert(2 * r == d + 2 * f) by (nonlinear_arith)
                requires
                    r == rem * q + f,
                    d == q * unit,
                    unit == 2 * half,
                    rem == half,
            ;
        } else {
            assert(2 * r < d) by (nonlinear_arith)
                requires
                    r == rem * q + f,
                    d == q * unit,
                    unit == 2 * half,
                    rem + 1 <= half,
                    f < q,
            ;
        }
    }
    let m: u64 = if up {
        a + 1
    } else {
        a
    };
    assert(m == significand(num, q, e as int));
    proof {
        lemma_significand_bounds(num, q, e as int);
    }
    cut_rate(m, k + e, 0)
}

fn row_of(digits: &[char]) -> (row: Vec<u8>)
    requires
        scan::all_digits(digits@),
    ensures
        is_row(row@),
        row@.len() == digits@.len(),
        row_value(row@) == scan::digits_value(digits@),
{
    let n: usize = digits.len();
    let mut row: Vec<u8> = Vec::new();
    let mut i: usize = 0;
    while i < n
        invariant
            i <= n,
            n == digits@.len(),
            scan::all_digits(digits@),
            row@.len() == i,
            forall|k: int|
                0 <= k < i ==> (#[trigger] row@[k]) as nat == digits@[k] as nat - 48 && row@[k]
                    < 10,
        decreases n - i,
    {
        let c: char = digits[i];
        assert(chars::is_digit(digits@[i as int]));
        row.push((c as u32 - 48) as u8);
        i = i + 1;
    }
    proof {
        lemma_row_of_digits(digits@, row@);
    }
    row
}

/// Round and scale the number that two rows of digits write.
fn scale(whole: &[char], fraction: &[char], k: u32) -> (rate: u64)
    requires
        scan::all_digits(whole@),
        scan::all_digits(fraction@),
        k <= 30,
    ensures
        is_scaled(
            scan::digits_value(whole@) * pow10(fraction@.len()) + scan::digits_value(fraction@),
            pow10(fraction@.len()),
            k as nat,
            rate,
        ),
{
    let row: Vec<u8> = row_of(fraction);
    let value: Option<u64> = if whole.len() == 0 {
        Some(0)
    } else {
        proof {
            assert(chars::is_digit(whole@[0]));
            assert(scan::unsigned_part(whole@) == whole@);
        }
        scan::parse_number(whole, u64::MAX)
    };
    match value {
        Some(w) => {
            if w < HIGH {
                scale_small(w, row, k)
            } else {
                scale_large(w, row, k)
            }
        },
        None => {
            proof {
                let w = scan::digits_value(whole@);
                let q = pow10(fraction@.len());
                lemma_pow10_positive(fraction@.len());
                assert(w * q >= 0x1_0000_0000_0000_0000 * q) by (nonlinear_arith)
                    requires
                        w >= 0x1_0000_0000_0000_0000,
                ;
                lemma_huge((w * q + scan::digits_value(fraction@)) as nat, q, k as nat);
            }
            u64::MAX
        },
    }
}

fn find_number_end(s: &[char]) -> (k: usize)
    ensures
        k == number_len(s@),
        k <= s@.len(),
{
    let n: usize = s.len();
    let mut k: usize = 0;
    assert(s@.skip(0) =~= s@);
    while k < n && (chars::digit(s[k]) || s[k] == '.')
        invariant
            k <= n,
            n == s@.len(),
            number_len(s@) == k + number_len(s@.skip(k as int)),
        decreases n - k,
    {
        assert(s@.skip(k as int).drop_first() =~= s@.skip(k + 1));
        k = k + 1;
    }
    k
}

fn is_one_of(unit: &[char], a: &str, b: &str, c: &str) -> (r: bool)
    ensures
        r == (unit@ == a@ || unit@ == b@ || unit@ == c@),
{
    chars::equal(unit, text::chars_of(a).as_slice()) || chars::equal(
        unit,
        text::chars_of(b).as_slice(),
    ) || chars::equal(unit, text::chars_of(c).as_slice())
}

fn find_unit_power(unit: &[char]) -> (k: Option<u32>)
    ensures
        match k {
            Some(p) => unit_power(unit@) == Some(p as nat) && p <= 30,
            None => unit_power(unit@) is None,
        },
{
    if is_one_of(unit, "", "b", "b") {
        Some(0)
    } else if is_one_of(unit, "k", "kb", "kib") {
        Some(10)
    } else if is_one_of(unit, "m", "mb", "mib") {
        Some(20)
    } else if is_one_of(unit, "g", "gb", "gib") {
        Some(30)
    } else {
        None
    }
}

fn find_body(s: &[char]) -> (body: &[char])
    ensures
        body@ == rate_body(s@),
{
    let t: &[char] = chars::trim(s);
    let n: usize = t.len();
    let per_second: Vec<char> = text::chars_of("/s");
    let suffix: Vec<char> = text::chars_of("ps");
    proof {
        reveal_strlit("/s");
        reveal_strlit("ps");
    }
    let lower: Vec<char> = chars::to_lowered(t);
    let low: &[char] = lower.as_slice();
    if n >= 2 && (chars::stands_at(low, per_second.as_slice(), n - 2) || chars::stands_at(
        low,
        suffix.as_slice(),
        n - 2,
    )) {
        let front: &[char] = chars::part(t, 0, n - 2);
        assert(front@ =~= t@.take(t@.len() - 2));
        chars::trim(front)
    } else {
        chars::trim(t)
    }
}

/// Parse a human-readable upload rate string into bytes per second.
///
/// Accepted formats: `"50 MiB/s"`, `"10 MB/s"`, `"1024 KiB/s"`,
/// `"100 KB/s"`, `"500"` (bare number = bytes/sec).
/// Unit matching is case-insensitive.
pub fn parse_upload_rate(s: &str) -> (r: Result<u64, RateError>)
    ensures
        match r {
            Ok(rate) => is_valid(s@) && is_rate(s@, rate),
            Err(e) => is_error(s@, e),
        },
{
    let all: Vec<char> = text::chars_of(s);
    let body: &[char] = find_body(all.as_slice());
    let n: usize = body.len();
    let k: usize = find_number_end(body);
    let number: &[char] = chars::part(body, 0, k);
    assert(number@ =~= number_of(s@));
    let rest: &[char] = chars::part(body, k, n);
    assert(rest@ =~= body@.skip(k as int));
    let dot: usize = chars::find(number, '.');
    let whole: &[char] = chars::part(number, 0, dot);
    assert(whole@ =~= whole_digits(number@));
    let fraction: &[char] = if dot < k {
        chars::part(number, dot + 1, k)
    } else {
        chars::part(number, k, k)
    };
    assert(fraction@ =~= fraction_digits(number@));
    if !scan::only_digits(whole) || !scan::only_digits(fraction) || (whole.len() == 0 && fraction.len() == 0) {
        return Err(RateError::InvalidNumber { rate: text::string_of(body) });
    }
    let unit: Vec<char> = chars::to_lowered(chars::trim(rest));
    match find_unit_power(unit.as_slice()) {
        Some(power) => Ok(scale(whole, fraction, power)),
        None => Err(
            RateError::UnknownUnit {
                unit: text::string_of(unit.as_slice()),
                rate: text::string_of(body),
            },
        ),
    }
}

proof fn lemma_exponents_differ(num: nat, den: nat, low: int, high: int)
    requires
        den > 0,
        low < high,
        has_exponent(num, den, low),
    ensures
        !has_exponent(num, den, high),
{
    let p1 = pow2(positive(low));
    let m1 = pow2(positive(-low));
    let p2 = pow2(positive(high));
    let m2 = pow2(positive(-high));
    lemma_pow2_pos(positive(low));
    lemma_pow2_pos(positive(-low));
    lemma_pow2_pos(positive(high));
    lemma_pow2_pos(positive(-high));
    assert(pow2(0) == 1) by {
        lemma2_to64();
    }
    if low >= 0 {
        lemma_pow2_adds(low as nat, (high - low) as nat);
        lemma_pow2_unfold((high - low) as nat);
        lemma_pow2_pos((high - low - 1) as nat);
        assert(p2 >= 2 * p1) by (nonlinear_arith)
            requires
                p2 == p1 * (2 * pow2((high - low - 1) as nat)),
                pow2((high - low - 1) as nat) > 0,
        ;
    } else if high <= 0 {
        lemma_pow2_adds((-high) as nat, (high - low) as nat);
        lemma_pow2_unfold((high - low) as nat);
        lemma_pow2_pos((high - low - 1) as nat);
        assert(m1 >= 2 * m2) by (nonlinear_arith)
            requires
                m1 == m2 * (2 * pow2((high - low - 1) as nat)),
                pow2((high - low - 1) as nat) > 0,
        ;
    } else {
        lemma_pow2_unfold((-low) as nat);
        lemma_pow2_pos((-low - 1) as nat);
    }
    assert(p2 * m1 >= 2 * (p1 * m2)) by (nonlinear_arith)
        requires
            (p2 >= 2 * p1 && m1 == 1 && m2 == 1) || (m1 >= 2 * m2 && p1 == 1 && p2 == 1) || (m1 >= 2
                && p2 >= 1 && p1 == 1 && m2 == 1),
    ;
    if has_exponent(num, den, high) {
        let a = num * m1;
        let b = num * m2;
        assert(a * m2 == b * m1) by (nonlinear_arith)
            requires
                a == num * m1,
                b == num * m2,
        ;
        assert(a * m2 < (HIGH * (den * p1)) * m2) by (nonlinear_arith)
            requires
                a < HIGH * (den * p1),
                m2 > 0,
        ;
        assert(b * m1 >= (LOW * (den * p2)) * m1) by (nonlinear_arith)
            requires
                b >= LOW * (den * p2),
                m1 > 0,
        ;
        let c = LOW * den;
        assert((HIGH * (den * p1)) * m2 == c * (2 * (p1 * m2))) by (nonlinear_arith)
            requires
                c == LOW * den,
                HIGH == 2 * LOW,
        ;
        assert((LOW * (den * p2)) * m1 == c * (p2 * m1)) by (nonlinear_arith)
            requires
                c == LOW * den,
        ;
        assert(c * (p2 * m1) >= c * (2 * (p1 * m2))) by (nonlinear_arith)
            requires
                p2 * m1 >= 2 * (p1 * m2),
                c >= 0,
        ;
    }
}

/// A number and a unit determine the rate.
pub proof fn law_rate_is_determined(num: nat, den: nat, k: nat, a: u64, b: u64)
    requires
        den > 0,
        is_scaled(num, den, k, a),
        is_scaled(num, den, k, b),
    ensures
        a == b,
{
    if num > 0 {
        let e = choose|e: int| #[trigger]
            has_exponent(num, den, e) && a == sizes::at_most(
                cut(significand(num, den, e), e + k),
                u64::MAX as nat,
            );
        let f = choose|f: int| #[trigger]
            has_exponent(num, den, f) && b == sizes::at_most(
                cut(significand(num, den, f), f + k),
                u64::MAX as nat,
            );
        if e < f {
            lemma_exponents_differ(num, den, e, f);
        }
        if f < e {
            lemma_exponents_differ(num, den, f, e);
        }
    }
}

/// A whole number of up to 53 bits is scaled exactly, as far as 64 bits hold
/// the result.
pub proof fn law_whole_rates_are_exact(n: nat, k: nat)
    requires
        n < HIGH,
    ensures
        is_scaled(n, 1, k, sizes::at_most(n * pow2(k), u64::MAX as nat) as u64),
{
    if n == 0 {
        assert(0 * pow2(k) == 0);
    } else {
        lemma_whole_rate(n, k);
    }
}

proof fn lemma_whole_rate(n: nat, k: nat)
    requires
        0 < n < HIGH,
    ensures
        is_scaled(n, 1, k, sizes::at_most(n * pow2(k), u64::MAX as nat) as u64),
{
    lemma_exponent_exists(n, 1);
    let e = choose|e: int| #[trigger] has_exponent(n, 1, e);
    assert(pow2(0) == 1) by {
        lemma2_to64();
    }
    if e > 0 {
        lemma_pow2_unfold(e as nat);
        lemma_pow2_pos((e - 1) as nat);
        assert(n * 1 == n);
        assert(1 * pow2(e as nat) == pow2(e as nat));
        assert(false);
    }
    let down = (-e) as nat;
    let m = n * pow2(down);
    assert(1 * pow2(0) == 1);
    assert(m as int / 1 == m && m as int % 1 == 0);
    assert(significand(n, 1, e) == m);
    if e + k >= 0 {
        let s = (e + k) as nat;
        lemma_pow2_adds(down, s);
        assert(m * pow2(s) == n * pow2(k)) by (nonlinear_arith)
            requires
                m == n * pow2(down),
                pow2(k) == pow2(down) * pow2(s),
        ;
        assert((m * pow2(s)) as int / 1 == m * pow2(s));
    } else {
        let s = (-(e + k)) as nat;
        lemma_pow2_adds(k, s);
        lemma_pow2_pos(s);
        assert(m == (n * pow2(k)) * pow2(s)) by (nonlinear_arith)
            requires
                m == n * pow2(down),
                pow2(down) == pow2(k) * pow2(s),
        ;
        assert(m * 1 == m);
        lemma_div_multiples_vanish((n * pow2(k)) as int, pow2(s) as int);
        assert(pow2(s) * (n * pow2(k)) == m) by (nonlinear_arith)
            requires
                m == (n * pow2(k)) * pow2(s),
        ;
    }
}

/// The units are those of 1024: a letter, the letter and a `b`, or the letter and
/// `ib`.
pub proof fn law_units_are_binary(unit: Seq<char>)
    ensures
        unit_power(unit) == Some(0nat) <==> unit == ""@ || unit == "b"@,
        unit_power(unit) == Some(10nat) <==> unit == "k"@ || unit == "kb"@ || unit == "kib"@,
        unit_power(unit) == Some(20nat) <==> unit == "m"@ || unit == "mb"@ || unit == "mib"@,
        unit_power(unit) == Some(30nat) <==> unit == "g"@ || unit == "gb"@ || unit == "gib"@,
        unit_power(unit) matches Some(p) ==> p == 0 || p == 10 || p == 20 || p == 30,
{
    reveal_strlit("");
    reveal_strlit("b");
    reveal_strlit("k");
    reveal_strlit("kb");
    reveal_strlit("kib");
    reveal_strlit("m");
    reveal_strlit("mb");
    reveal_strlit("mib");
    reveal_strlit("g");
    reveal_strlit("gb");
    reveal_strlit("gib");
    assert(""@.len() == 0 && "b"@.len() == 1 && "b"@[0] == 'b');
    assert("k"@.len() == 1 && "kb"@.len() == 2 && "kib"@.len() == 3);
    assert("k"@[0] == 'k' && "kb"@[0] == 'k' && "kib"@[0] == 'k');
    assert("m"@.len() == 1 && "mb"@.len() == 2 && "mib"@.len() == 3);
    assert("m"@[0] == 'm' && "mb"@[0] == 'm' && "mib"@[0] == 'm');
    assert("g"@.len() == 1 && "gb"@.len() == 2 && "gib"@.len() == 3);
    assert("g"@[0] == 'g' && "gb"@[0] == 'g' && "gib"@[0] == 'g');
}

/// A unit of letters.
pub open spec fn is_word(unit: Seq<char>) -> bool {
    unit.len() > 0 && forall|i: int|
        0 <= i < unit.len() ==> ('a' <= #[trigger] unit[i] <= 'z' || 'A' <= unit[i] <= 'Z')
}

proof fn lemma_untrimmed(s: Seq<char>)
    requires
        s.len() > 0,
        !chars::is_space(s[0]),
        !chars::is_space(s.last()),
    ensures
        chars::trimmed(s) == s,
{
    assert(chars::trimmed_start(s) == s);
    assert(chars::trimmed_end(s) == s);
}

proof fn lemma_number_len(digits: Seq<char>, rest: Seq<char>)
    requires
        scan::all_digits(digits),
        rest.len() > 0 ==> !chars::is_digit(rest[0]) && rest[0] != '.',
    ensures
        number_len(digits + rest) == digits.len(),
    decreases digits.len(),
{
    let s = digits + rest;
    if digits.len() > 0 {
        let d = digits.drop_first();
        assert forall|i: int| 0 <= i < d.len() implies chars::is_digit(#[trigger] d[i]) by {
            assert(d[i] == digits[i + 1]);
        }
        lemma_number_len(d, rest);
        assert(s.drop_first() =~= d + rest);
        assert(s[0] == digits[0] && chars::is_digit(digits[0]));
    } else {
        assert(s =~= rest);
    }
}

/// A rate that is written as a whole number, a space, a unit and `/s` is that number
/// of units: of bytes, or of 1024, 1024² or 1024³ bytes, as far as 64 bits hold them.
pub proof fn law_rates_read_back(n: nat, unit: Seq<char>)
    requires
        n < HIGH,
        is_word(unit),
        unit_power(chars::lowered(unit)) is Some,
    ensures
        ({
            let s = text::decimal(n) + seq![' '] + unit + seq!['/', 's'];
            let power = unit_power(chars::lowered(unit))->0;
            &&& is_valid(s)
            &&& is_rate(s, sizes::at_most(n * pow2(power), u64::MAX as nat) as u64)
        }),
{
    let d = text::decimal(n);
    let body = d + seq![' '] + unit;
    let s = body + seq!['/', 's'];
    reading::law_decimals_read_back(n);
    assert(chars::is_digit(d[0]));
    assert(s[0] == d[0] && body[0] == d[0]);
    assert(s.last() == 's');
    lemma_untrimmed(s);
    reveal_strlit("/s");
    let low = chars::lowered(s);
    assert(low.subrange(low.len() - 2, low.len() as int) =~= "/s"@);
    assert(s.take(s.len() - 2) =~= body);
    let last = unit[unit.len() - 1];
    assert(body.last() == last);
    assert('a' <= last <= 'z' || 'A' <= last <= 'Z');
    lemma_untrimmed(body);
    assert(rate_body(s) == body);
    let rest = seq![' '] + unit;
    assert(body =~= d + rest);
    lemma_number_len(d, rest);
    assert(body.take(d.len() as int) =~= d);
    assert(body.skip(d.len() as int) =~= rest);
    assert(number_of(s) == d);
    assert(chars::trimmed(rest) == unit) by {
        assert(rest.drop_first() =~= unit);
        assert('a' <= unit[0] <= 'z' || 'A' <= unit[0] <= 'Z');
        assert(chars::trimmed_start(unit) == unit);
        assert(chars::trimmed_start(rest) == chars::trimmed_start(rest.drop_first()));
        assert(chars::trimmed_end(unit) == unit);
    }
    assert(unit_of(s) == chars::lowered(unit));
    chars::lemma_first_index(d, '.');
    let k = chars::first_index(d, '.');
    if k < d.len() {
        assert(d[k] == '.');
        assert(chars::is_digit(d[k]));
    }
    assert(whole_digits(d) =~= d);
    assert(fraction_digits(d) =~= Seq::empty());
    assert(scan::digits_value(Seq::<char>::empty()) == 0);
    assert(pow10(0) == 1);
    assert(n * 1 + 0 == n);
    law_whole_rates_are_exact(n, unit_power(chars::lowered(unit))->0);
}

} // verus!

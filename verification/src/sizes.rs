//! Byte sizes as text.
//!
//! Sizes are divided as double-precision numbers are: the size is first
//! rounded to 53 significant bits, which changes only sizes from 2^53 bytes
//! up, and the quotient is then rounded to the shown decimals. Both roundings
//! go to the nearest value, and to the even one of two equally near.

use vstd::arithmetic::div_mod::*;
use vstd::prelude::*;
use vstd::string::*;

use crate::chars;
use crate::reading;
use crate::scan;
use crate::text;

verus! {

/// The smaller of two numbers.
pub open spec fn at_most(n: nat, max: nat) -> nat {
    if n < max {
        n
    } else {
        max
    }
}

/// `num / den` rounded to the nearest integer, and to the even one of two
/// equally near.
pub open spec fn rounded(num: nat, den: nat) -> nat {
    let q = num / den;
    let r = num % den;
    if 2 * r < den || (2 * r == den && q % 2 == 0) {
        q
    } else {
        q + 1
    }
}

/// The weight of the last of the 53 significant bits of a number.
pub open spec fn last_bit(n: nat) -> nat
    decreases n,
{
    if n < 9007199254740992 {
        1
    } else {
        2 * last_bit(n / 2)
    }
}

/// A number rounded to 53 significant bits.
pub open spec fn significant(n: nat) -> nat {
    rounded(n, last_bit(n)) * last_bit(n)
}

/// How many of `1 / scale` of a unit a size makes, rounded.
pub open spec fn scaled_size(bytes: nat, unit: nat, scale: nat) -> nat {
    rounded(significant(bytes) * scale, unit)
}

fn round_div(num: u128, den: u128) -> (q: u128)
    requires
        0 < den <= 0x1_0000_0000_0000_0000,
        num < 0x1000_0000_0000_0000_0000_0000_0000_0000,
    ensures
        q == rounded(num as nat, den as nat),
        q <= num + 1,
{
    let q: u128 = num / den;
    let r: u128 = num % den;
    proof {
        assert(q <= num) by (nonlinear_arith)
            requires
                q == num / den,
                den > 0,
        ;
    }
    if 2 * r < den || (2 * r == den && q % 2 == 0) {
        q
    } else {
        q + 1
    }
}

proof fn lemma_last_bit(n: nat)
    requires
        n <= u64::MAX,
    ensures
        1 <= last_bit(n) <= 2048,
{
    reveal_with_fuel(last_bit, 13);
}

/// A number rounded to 53 significant bits.
fn to_significant(n: u64) -> (s: u128)
    ensures
        s == significant(n as nat),
        s <= 0x1_0000_0000_0000_0800,
{
    let mut rest: u64 = n;
    let mut bit: u128 = 1;
    proof {
        lemma_last_bit(n as nat);
    }
    while rest >= 9007199254740992
        invariant
            bit * last_bit(rest as nat) == last_bit(n as nat),
            1 <= bit <= 2048,
            last_bit(n as nat) <= 2048,
        decreases rest,
    {
        proof {
            let half = last_bit(rest as nat / 2);
            assert(last_bit(rest as nat) == 2 * half);
            lemma_last_bit(rest as nat / 2);
            assert((bit * 2) * half == bit * (2 * half)) by (nonlinear_arith);
            assert(bit * 2 <= bit * (2 * half)) by (nonlinear_arith)
                requires
                    half >= 1,
                    bit >= 1,
            ;
        }
        rest = rest / 2;
        bit = bit * 2;
    }
    assert(bit * 1 == bit);
    let q: u128 = round_div(n as u128, bit);
    proof {
        lemma_fundamental_div_mod(n as int, bit as int);
        let f = n as int / bit as int;
        assert(q * bit <= (f + 1) * bit) by (nonlinear_arith)
            requires
                q <= f + 1,
                bit > 0,
        ;
        assert((f + 1) * bit == bit * f + bit) by (nonlinear_arith);
    }
    q * bit
}

fn scale_size(bytes: u64, unit: u64, scale: u64) -> (n: u64)
    requires
        1024 <= unit,
        0 < scale <= 100,
    ensures
        n == scaled_size(bytes as nat, unit as nat, scale as nat),
{
    let s: u128 = to_significant(bytes);
    proof {
        assert(s * scale <= 0x1_0000_0000_0000_0800 * 100) by (nonlinear_arith)
            requires
                s <= 0x1_0000_0000_0000_0800,
                scale <= 100,
        ;
        let num = (s * scale) as int;
        assert(num / unit as int <= num / 1024) by (nonlinear_arith)
            requires
                1024 <= unit,
                num >= 0,
        ;
    }
    let q: u128 = round_div(s * scale as u128, unit as u128);
    q as u64
}

/// A size with a number of decimals and a unit.
pub open spec fn sized_text(scaled: nat, scale: nat, digits: nat, unit: Seq<char>) -> Seq<char> {
    text::decimal(scaled / scale) + "."@ + text::zero_padded(scaled % scale, digits) + unit
}

fn sized_string(scaled: u64, scale: u64, digits: usize, unit: &str) -> (s: String)
    requires
        scale > 0,
    ensures
        s@ == sized_text(scaled as nat, scale as nat, digits as nat, unit@),
{
    let mut s: String = text::decimal_string(scaled / scale);
    s.append(".");
    text::push_zero_padded(&mut s, scaled % scale, digits);
    s.append(unit);
    s
}

/// A size in bytes, or with one decimal in the largest binary unit up to GiB
/// that it reaches.
pub open spec fn size_text(bytes: nat) -> Seq<char> {
    if bytes < 1024 {
        text::decimal(bytes) + " B"@
    } else if bytes < 1048576 {
        sized_text(scaled_size(bytes, 1024, 10), 10, 1, " KiB"@)
    } else if bytes < 1073741824 {
        sized_text(scaled_size(bytes, 1048576, 10), 10, 1, " MiB"@)
    } else {
        sized_text(scaled_size(bytes, 1073741824, 10), 10, 1, " GiB"@)
    }
}

/// Human-readable byte size with binary (IEC) units and one decimal.
pub fn format_size(bytes: u64) -> (s: String)
    ensures
        s@ == size_text(bytes as nat),
{
    if bytes < 1024 {
        let mut s: String = text::decimal_string(bytes);
        s.append(" B");
        s
    } else if bytes < 1048576 {
        sized_string(scale_size(bytes, 1024, 10), 10, 1, " KiB")
    } else if bytes < 1073741824 {
        sized_string(scale_size(bytes, 1048576, 10), 10, 1, " MiB")
    } else {
        sized_string(scale_size(bytes, 1073741824, 10), 10, 1, " GiB")
    }
}

/// A size in bytes, or with two decimals in the largest binary unit up to GiB
/// that it reaches.
pub open spec fn precise_size_text(bytes: nat) -> Seq<char> {
    if bytes < 1024 {
        text::decimal(bytes) + " B"@
    } else if bytes < 1048576 {
        sized_text(scaled_size(bytes, 1024, 100), 100, 2, " KiB"@)
    } else if bytes < 1073741824 {
        sized_text(scaled_size(bytes, 1048576, 100), 100, 2, " MiB"@)
    } else {
        sized_text(scaled_size(bytes, 1073741824, 100), 100, 2, " GiB"@)
    }
}

/// Human-readable byte size with binary (IEC) units and two decimals.
pub fn format_size_precise(bytes: u64) -> (s: String)
    ensures
        s@ == precise_size_text(bytes as nat),
{
    if bytes < 1024 {
        let mut s: String = text::decimal_string(bytes);
        s.append(" B");
        s
    } else if bytes < 1048576 {
        sized_string(scale_size(bytes, 1024, 100), 100, 2, " KiB")
    } else if bytes < 1073741824 {
        sized_string(scale_size(bytes, 1048576, 100), 100, 2, " MiB")
    } else {
        sized_string(scale_size(bytes, 1073741824, 100), 100, 2, " GiB")
    }
}

/// A size in units of 2^30 bytes, with two decimals.
pub open spec fn gigabytes_text(bytes: nat) -> Seq<char> {
    sized_text(scaled_size(bytes, 1073741824, 100), 100, 2, " GB"@)
}

/// A size in units of 2^30 bytes, with two decimals.
pub fn format_gigabytes(bytes: u64) -> (s: String)
    ensures
        s@ == gigabytes_text(bytes as nat),
{
    sized_string(scale_size(bytes, 1073741824, 100), 100, 2, " GB")
}

/// Rounding goes to the nearest, and to the even one of two equally near.
pub proof fn law_rounding_is_nearest(num: nat, den: nat)
    requires
        den > 0,
    ensures
        2 * num - den <= 2 * (rounded(num, den) * den) <= 2 * num + den,
        2 * (rounded(num, den) * den) == 2 * num - den || 2 * (rounded(num, den) * den) == 2 * num
            + den ==> rounded(num, den) % 2 == 0,
{
    let q = (num / den) as int;
    let r = (num % den) as int;
    lemma_fundamental_div_mod(num as int, den as int);
    assert((q + 1) * den == q * den + den) by (nonlinear_arith);
    assert(den * q == q * den) by (nonlinear_arith);
}

/// The number that a size shows, in parts of its last decimal, and its unit.
pub open spec fn read_size(s: Seq<char>, scale: nat) -> (nat, Seq<char>) {
    let figure = reading::head(s, ' ');
    (
        scan::digits_value(reading::head(figure, '.')) * scale + scan::digits_value(
            reading::tail(figure, '.'),
        ),
        reading::tail(s, ' '),
    )
}

/// A size shows `shown` of the `1 / scale` parts of a unit, the nearest to what the
/// size is.
pub open spec fn is_nearest(shown: nat, bytes: nat, unit: nat, scale: nat) -> bool {
    2 * (bytes * scale) - unit <= 2 * (shown * unit) <= 2 * (bytes * scale) + unit
}

proof fn lemma_nearest(bytes: nat, unit: nat, scale: nat)
    requires
        bytes < 9007199254740992,
        unit > 0,
    ensures
        is_nearest(scaled_size(bytes, unit, scale), bytes, unit, scale),
{
    assert(last_bit(bytes) == 1);
    law_rounding_is_nearest(bytes, 1);
    assert(rounded(bytes, 1) * 1 == bytes);
    assert(significant(bytes) == bytes);
    law_rounding_is_nearest(bytes * scale, unit);
}

proof fn lemma_sized_text(scaled: nat, scale: nat, digits: nat, unit: Seq<char>)
    requires
        scale > 0,
    ensures
        read_size(sized_text(scaled, scale, digits, seq![' '] + unit), scale) == (scaled, unit),
{
    reveal_strlit(".");
    let whole = text::decimal(scaled / scale);
    let part = text::zero_padded(scaled % scale, digits);
    let figure = whole + seq!['.'] + part;
    let s = sized_text(scaled, scale, digits, seq![' '] + unit);
    reading::law_decimals_read_back(scaled / scale);
    reading::law_padded_decimals_read_back(scaled % scale, digits);
    assert(s =~= figure + seq![' '] + unit);
    assert forall|i: int| 0 <= i < whole.len() implies #[trigger] whole[i] != '.' by {
        assert(chars::is_digit(whole[i]));
    }
    assert forall|i: int| 0 <= i < figure.len() implies #[trigger] figure[i] != ' ' by {
        if i < whole.len() {
            assert(figure[i] == whole[i]);
            assert(chars::is_digit(whole[i]));
        } else if i > whole.len() {
            assert(figure[i] == part[i - whole.len() - 1]);
            assert(chars::is_digit(part[i - whole.len() - 1]));
        }
    }
    reading::lemma_parts(whole, '.', part);
    reading::lemma_parts(figure, ' ', unit);
    lemma_fundamental_div_mod(scaled as int, scale as int);
    assert(scaled / scale * scale == scale * (scaled / scale)) by (nonlinear_arith);
}

proof fn lemma_units()
    ensures
        " B"@ == seq![' '] + "B"@,
        " KiB"@ == seq![' '] + "KiB"@,
        " MiB"@ == seq![' '] + "MiB"@,
        " GiB"@ == seq![' '] + "GiB"@,
        " GB"@ == seq![' '] + "GB"@,
{
    reveal_strlit(" B");
    reveal_strlit(" KiB");
    reveal_strlit(" MiB");
    reveal_strlit(" GiB");
    reveal_strlit(" GB");
    reveal_strlit("B");
    reveal_strlit("KiB");
    reveal_strlit("MiB");
    reveal_strlit("GiB");
    reveal_strlit("GB");
    assert(" B"@ =~= seq![' '] + "B"@);
    assert(" KiB"@ =~= seq![' '] + "KiB"@);
    assert(" MiB"@ =~= seq![' '] + "MiB"@);
    assert(" GiB"@ =~= seq![' '] + "GiB"@);
    assert(" GB"@ =~= seq![' '] + "GB"@);
}

/// What a reader finds in a size: below 1024 the bytes themselves, and from there on
/// the nearest number of tenths or hundredths of the largest of KiB, MiB and GiB that
/// the size reaches.
pub open spec fn shows_size(s: Seq<char>, bytes: nat, scale: nat) -> bool {
    let (shown, unit) = read_size(s, scale);
    if bytes < 1024 {
        reading::head(s, ' ') == text::decimal(bytes) && unit == "B"@
    } else if bytes < 1024 * 1024 {
        unit == "KiB"@ && is_nearest(shown, bytes, 1024, scale)
    } else if bytes < 1024 * 1024 * 1024 {
        unit == "MiB"@ && is_nearest(shown, bytes, 1024 * 1024, scale)
    } else {
        unit == "GiB"@ && is_nearest(shown, bytes, 1024 * 1024 * 1024, scale)
    }
}

/// A reader of a size finds the size, to the nearest of the decimals shown.
pub proof fn law_sizes_read_back(bytes: nat)
    requires
        bytes < 9007199254740992,
    ensures
        shows_size(size_text(bytes), bytes, 10),
        shows_size(precise_size_text(bytes), bytes, 100),
        read_size(gigabytes_text(bytes), 100).1 == "GB"@,
        is_nearest(
            read_size(gigabytes_text(bytes), 100).0,
            bytes,
            1024 * 1024 * 1024,
            100,
        ),
{
    lemma_units();
    lemma_nearest(bytes, 1024, 10);
    lemma_nearest(bytes, 1048576, 10);
    lemma_nearest(bytes, 1073741824, 10);
    lemma_nearest(bytes, 1024, 100);
    lemma_nearest(bytes, 1048576, 100);
    lemma_nearest(bytes, 1073741824, 100);
    lemma_sized_text(scaled_size(bytes, 1024, 10), 10, 1, "KiB"@);
    lemma_sized_text(scaled_size(bytes, 1048576, 10), 10, 1, "MiB"@);
    lemma_sized_text(scaled_size(bytes, 1073741824, 10), 10, 1, "GiB"@);
    lemma_sized_text(scaled_size(bytes, 1024, 100), 100, 2, "KiB"@);
    lemma_sized_text(scaled_size(bytes, 1048576, 100), 100, 2, "MiB"@);
    lemma_sized_text(scaled_size(bytes, 1073741824, 100), 100, 2, "GiB"@);
    lemma_sized_text(scaled_size(bytes, 1073741824, 100), 100, 2, "GB"@);
    if bytes < 1024 {
        let d = text::decimal(bytes);
        reading::lemma_decimal_has_no_space(bytes);
        reading::lemma_parts(d, ' ', "B"@);
        assert(d + " B"@ =~= d + seq![' '] + "B"@);
    }
}

} // verus!

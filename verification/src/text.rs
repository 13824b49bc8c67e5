//! Numbers as text, and strings built piece by piece.

use vstd::prelude::*;
use vstd::string::*;

verus! {

/// `String::push` appends one character.
pub assume_specification[ String::push ](s: &mut String, ch: char)
    ensures
        final(s)@ == old(s)@.push(ch),
;

/// The character of a decimal digit.
pub open spec fn digit_char(d: int) -> char {
    (48 + d) as char
}

/// The decimal digits of a number, without leading zeros.
pub open spec fn decimal(n: nat) -> Seq<char>
    decreases n,
{
    if n < 10 {
        seq![digit_char(n as int)]
    } else {
        decimal(n / 10).push(digit_char((n % 10) as int))
    }
}

/// The character of a hexadecimal digit, lower case.
pub open spec fn hex_char(d: int) -> char {
    if d < 10 {
        (48 + d) as char
    } else {
        (87 + d) as char
    }
}

/// The hexadecimal digits of a number, lower case, without leading zeros.
pub open spec fn hex(n: nat) -> Seq<char>
    decreases n,
{
    if n < 16 {
        seq![hex_char(n as int)]
    } else {
        hex(n / 16).push(hex_char((n % 16) as int))
    }
}

/// The low `width` hexadecimal digits of a number, lower case, with leading
/// zeros.
pub open spec fn hex_fixed(n: nat, width: nat) -> Seq<char>
    decreases width,
{
    if width == 0 {
        Seq::empty()
    } else {
        hex_fixed(n / 16, (width - 1) as nat).push(hex_char((n % 16) as int))
    }
}

/// `count` copies of a character.
pub open spec fn repeated(ch: char, count: nat) -> Seq<char> {
    Seq::new(count, |i: int| ch)
}

/// `text` with `fill` in front, to at least `width` characters.
pub open spec fn left_filled(text: Seq<char>, fill: char, width: nat) -> Seq<char> {
    if text.len() >= width {
        text
    } else {
        repeated(fill, (width - text.len()) as nat) + text
    }
}

/// `text` with spaces behind, to at least `width` characters.
pub open spec fn right_padded(text: Seq<char>, width: nat) -> Seq<char> {
    if text.len() >= width {
        text
    } else {
        text + repeated(' ', (width - text.len()) as nat)
    }
}

/// The decimal digits of a number with leading zeros, to at least `width`.
pub open spec fn zero_padded(n: nat, width: nat) -> Seq<char> {
    left_filled(decimal(n), '0', width)
}

/// Append the decimal digits of a number.
pub fn push_decimal(out: &mut String, n: u64)
    ensures
        final(out)@ == old(out)@ + decimal(n as nat),
    decreases n,
{
    let ghost before = out@;
    if n >= 10 {
        push_decimal(out, n / 10);
    }
    out.push((48 + (n % 10) as u8) as char);
    assert(out@ =~= before + decimal(n as nat));
}

fn hex_digit(d: u8) -> (ch: char)
    requires
        d < 16,
    ensures
        ch == hex_char(d as int),
{
    if d < 10 {
        (48 + d) as char
    } else {
        (87 + d) as char
    }
}

/// Append the hexadecimal digits of a number.
pub fn push_hex(out: &mut String, n: u128)
    ensures
        final(out)@ == old(out)@ + hex(n as nat),
    decreases n,
{
    let ghost before = out@;
    if n >= 16 {
        push_hex(out, n / 16);
    }
    out.push(hex_digit((n % 16) as u8));
    assert(out@ =~= before + hex(n as nat));
}

/// Append the low `width` hexadecimal digits of a number.
pub fn push_hex_fixed(out: &mut String, n: u64, width: usize)
    ensures
        final(out)@ == old(out)@ + hex_fixed(n as nat, width as nat),
    decreases width,
{
    let ghost before = out@;
    if width > 0 {
        push_hex_fixed(out, n / 16, width - 1);
        out.push(hex_digit((n % 16) as u8));
    }
    assert(out@ =~= before + hex_fixed(n as nat, width as nat));
}

/// Append `count` copies of a character.
pub fn push_repeated(out: &mut String, ch: char, count: usize)
    ensures
        final(out)@ == old(out)@ + repeated(ch, count as nat),
{
    let ghost before = out@;
    let mut i: usize = 0;
    assert(before =~= before + repeated(ch, 0));
    while i < count
        invariant
            i <= count,
            out@ == before + repeated(ch, i as nat),
        decreases count - i,
    {
        out.push(ch);
        assert(out@ =~= before + repeated(ch, (i + 1) as nat));
        i = i + 1;
    }
}

/// The decimal digits of a number, as a string.
pub fn decimal_string(n: u64) -> (s: String)
    ensures
        s@ == decimal(n as nat),
{
    let mut s: String = String::new();
    push_decimal(&mut s, n);
    assert(s@ =~= decimal(n as nat));
    s
}

/// Append the decimal digits of a number, with leading zeros to at least
/// `width`.
pub fn push_zero_padded(out: &mut String, n: u64, width: usize)
    ensures
        final(out)@ == old(out)@ + zero_padded(n as nat, width as nat),
{
    push_left_filled(out, decimal_string(n).as_str(), '0', width);
}

/// Append a text with `fill` in front, to at least `width` characters.
pub fn push_left_filled(out: &mut String, s: &str, fill: char, width: usize)
    ensures
        final(out)@ == old(out)@ + left_filled(s@, fill, width as nat),
{
    let ghost before = out@;
    let len: usize = s.unicode_len();
    if len < width {
        push_repeated(out, fill, width - len);
    }
    out.append(s);
    assert(out@ =~= before + left_filled(s@, fill, width as nat));
}

/// Append a text with spaces behind, to at least `width` characters.
pub fn push_right_padded(out: &mut String, s: &str, width: usize)
    ensures
        final(out)@ == old(out)@ + right_padded(s@, width as nat),
{
    let ghost before = out@;
    let len: usize = s.unicode_len();
    out.append(s);
    if len < width {
        push_repeated(out, ' ', width - len);
    }
    assert(out@ =~= before + right_padded(s@, width as nat));
}

/// The quoted form of a string, with special characters escaped.
pub uninterp spec fn quoted(s: Seq<char>) -> Seq<char>;

/// Formats a string with `std`'s `Debug`: in double quotes, with control and
/// special characters escaped as that format prescribes.
#[verifier::external_body]
pub(crate) fn quote(s: &str) -> (q: String)
    ensures
        q@ == quoted(s@),
{
    format!("{s:?}")
}

/// The characters of a string.
pub fn chars_of(s: &str) -> (chars: Vec<char>)
    ensures
        chars@ == s@,
{
    let mut chars: Vec<char> = Vec::new();
    for ch in it: s.chars()
        invariant
            chars@ == s@.take(it.index() as int),
            it.seq() == s@,
    {
        chars.push(ch);
        assert(chars@ =~= s@.take(it.index() + 1));
    }
    assert(s@.take(s@.len() as int) =~= s@);
    chars
}

/// The string of some characters.
pub fn string_of(chars: &[char]) -> (s: String)
    ensures
        s@ == chars@,
{
    let mut s: String = String::new();
    push_chars(&mut s, chars);
    assert(s@ =~= chars@);
    s
}

/// Append characters to a string.
pub fn push_chars(out: &mut String, chars: &[char])
    ensures
        final(out)@ == old(out)@ + chars@,
{
    let ghost before = out@;
    let n: usize = chars.len();
    let mut i: usize = 0;
    assert(before =~= before + chars@.take(0));
    while i < n
        invariant
            i <= n,
            n == chars@.len(),
            out@ == before + chars@.take(i as int),
        decreases n - i,
    {
        out.push(chars[i]);
        assert(out@ =~= before + chars@.take(i + 1));
        i = i + 1;
    }
    assert(chars@.take(n as int) =~= chars@);
}

/// The strings of a list, with a separator between them.
pub open spec fn joined(parts: Seq<String>, separator: Seq<char>) -> Seq<char>
    decreases parts.len(),
{
    if parts.len() == 0 {
        Seq::empty()
    } else if parts.len() == 1 {
        parts[0]@
    } else {
        joined(parts.drop_last(), separator) + separator + parts.last()@
    }
}

/// Join the strings of a list, with a separator between them.
pub fn join(parts: &[String], separator: &str) -> (s: String)
    ensures
        s@ == joined(parts@, separator@),
{
    let n: usize = parts.len();
    let mut s: String = String::new();
    let mut i: usize = 0;
    assert(s@ =~= joined(parts@.take(0), separator@));
    while i < n
        invariant
            i <= n,
            n == parts@.len(),
            s@ == joined(parts@.take(i as int), separator@),
        decreases n - i,
    {
        assert(parts@.take(i + 1).drop_last() =~= parts@.take(i as int));
        if i > 0 {
            s.append(separator);
        }
        s.append(parts[i].as_str());
        assert(s@ =~= joined(parts@.take(i + 1), separator@));
        i = i + 1;
    }
    assert(parts@.take(n as int) =~= parts@);
    s
}

/// Append bytes to a byte vector.
pub fn push_bytes(out: &mut Vec<u8>, bytes: &[u8])
    ensures
        final(out)@ == old(out)@ + bytes@,
{
    let ghost before = out@;
    let n: usize = bytes.len();
    let mut i: usize = 0;
    assert(before =~= before + bytes@.take(0));
    while i < n
        invariant
            i <= n,
            n == bytes@.len(),
            out@ == before + bytes@.take(i as int),
        decreases n - i,
    {
        out.push(bytes[i]);
        assert(out@ =~= before + bytes@.take(i + 1));
        i = i + 1;
    }
    assert(bytes@.take(n as int) =~= bytes@);
}

/// The texts of a list of strings.
pub open spec fn texts(strings: Seq<String>) -> Seq<Seq<char>> {
    Seq::new(strings.len(), |i: int| strings[i]@)
}

} // verus!

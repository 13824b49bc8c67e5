//! JSON string literals.

use vstd::prelude::*;
use vstd::string::*;

use crate::text;

verus! {

/// The escaped form of one character inside a JSON string literal.
pub open spec fn escaped_char(c: char) -> Seq<char> {
    if c == '\\' {
        seq!['\\', '\\']
    } else if c == '"' {
        seq!['\\', '"']
    } else if c == '\n' {
        seq!['\\', 'n']
    } else if c == '\r' {
        seq!['\\', 'r']
    } else if c == '\t' {
        seq!['\\', 't']
    } else if c <= '\u{1f}' {
        seq!['\\', 'u'] + text::hex_fixed(c as nat, 4)
    } else {
        seq![c]
    }
}

/// The escaped form of a string inside a JSON string literal.
pub open spec fn json_escaped(s: Seq<char>) -> Seq<char>
    decreases s.len(),
{
    if s.len() == 0 {
        Seq::empty()
    } else {
        json_escaped(s.drop_last()) + escaped_char(s.last())
    }
}

/// A string as a JSON string literal.
pub open spec fn json_quoted(s: Seq<char>) -> Seq<char> {
    "\""@ + json_escaped(s) + "\""@
}

/// An optional string as a JSON value.
pub open spec fn json_value(v: Option<&str>) -> Seq<char> {
    match v {
        None => "null"@,
        Some(s) => json_quoted(s@),
    }
}

/// Append the escaped form of one character.
fn push_escaped(out: &mut String, c: char)
    ensures
        final(out)@ == old(out)@ + escaped_char(c),
{
    let ghost before = out@;
    if c == '\\' {
        out.push('\\');
        out.push('\\');
    } else if c == '"' {
        out.push('\\');
        out.push('"');
    } else if c == '\n' {
        out.push('\\');
        out.push('n');
    } else if c == '\r' {
        out.push('\\');
        out.push('r');
    } else if c == '\t' {
        out.push('\\');
        out.push('t');
    } else if c <= '\u{1f}' {
        out.push('\\');
        out.push('u');
        text::push_hex_fixed(out, (c as u32) as u64, 4);
    } else {
        out.push(c);
    }
    assert(out@ =~= before + escaped_char(c));
}

/// Escape a string for embedding inside a JSON string literal.
pub fn json_str(s: &str) -> (out: String)
    ensures
        out@ == json_escaped(s@),
{
    let chars: Vec<char> = text::chars_of(s);
    let n: usize = chars.len();
    let mut out: String = String::new();
    let mut i: usize = 0;
    assert(out@ =~= json_escaped(s@.take(0)));
    while i < n
        invariant
            i <= n,
            chars@ == s@,
            n == s@.len(),
            out@ == json_escaped(s@.take(i as int)),
        decreases n - i,
    {
        push_escaped(&mut out, chars[i]);
        assert(s@.take(i + 1).drop_last() =~= s@.take(i as int));
        assert(out@ =~= json_escaped(s@.take(i + 1)));
        i = i + 1;
    }
    assert(s@.take(n as int) =~= s@);
    out
}

/// Wrap a string as a JSON string literal with escaping.
pub fn json_string(s: &str) -> (out: String)
    ensures
        out@ == json_quoted(s@),
{
    let mut out: String = String::from_str("\"");
    out.append(json_str(s).as_str());
    out.append("\"");
    out
}

/// Render an optional string value as a JSON token (`null` or `"value"`).
pub fn json_opt(v: Option<&str>) -> (out: String)
    ensures
        out@ == json_value(v),
{
    match v {
        None => String::from_str("null"),
        Some(s) => json_string(s),
    }
}

/// `true` or `false`.
pub open spec fn bool_text(b: bool) -> Seq<char> {
    if b {
        "true"@
    } else {
        "false"@
    }
}

/// `true` or `false`.
pub(crate) fn bool_str(b: bool) -> (s: &'static str)
    ensures
        s@ == bool_text(b),
{
    if b {
        "true"
    } else {
        "false"
    }
}

/// What a reader of a string literal's inside expects next.
pub enum Reading {
    /// A character, or the start of an escape.
    Plain,
    /// What a backslash escapes.
    Escape,
    /// One more of four hexadecimal digits, `count` of which make up `value`.
    Hex { count: nat, value: nat },
}

/// The value of a hexadecimal digit.
pub open spec fn hex_value(c: char) -> nat {
    if 'a' <= c <= 'f' {
        (c as nat - 87) as nat
    } else if 'A' <= c <= 'F' {
        (c as nat - 55) as nat
    } else {
        (c as nat - 48) as nat
    }
}

/// The character that a short escape stands for.
pub open spec fn short_escape(c: char) -> char {
    if c == 'n' {
        '\n'
    } else if c == 'r' {
        '\r'
    } else if c == 't' {
        '\t'
    } else {
        c
    }
}

/// The state of a reader after one more character.
pub open spec fn read_one(state: (Seq<char>, Reading), c: char) -> (Seq<char>, Reading) {
    let (out, reading) = state;
    match reading {
        Reading::Plain => if c == '\\' {
            (out, Reading::Escape)
        } else {
            (out.push(c), Reading::Plain)
        },
        Reading::Escape => if c == 'u' {
            (out, Reading::Hex { count: 0, value: 0 })
        } else {
            (out.push(short_escape(c)), Reading::Plain)
        },
        Reading::Hex { count, value } => {
            let more = 16 * value + hex_value(c);
            if count < 3 {
                (out, Reading::Hex { count: count + 1, value: more })
            } else {
                (out.push((more as u32) as char), Reading::Plain)
            }
        },
    }
}

/// The state of a reader of a string literal's inside: the characters read, and
/// what it expects next.
pub open spec fn json_reader(s: Seq<char>) -> (Seq<char>, Reading)
    decreases s.len(),
{
    if s.len() == 0 {
        (Seq::empty(), Reading::Plain)
    } else {
        read_one(json_reader(s.drop_last()), s.last())
    }
}

proof fn lemma_read_push(s: Seq<char>, c: char)
    ensures
        json_reader(s.push(c)) == read_one(json_reader(s), c),
{
    assert(s.push(c).drop_last() =~= s);
}

/// The escape of a control character, digit by digit.
pub proof fn lemma_hex_escape(c: char)
    requires
        c <= '\u{1f}',
    ensures
        text::hex_fixed(c as nat, 4) == seq![
            '0',
            '0',
            text::hex_char((c as int) / 16),
            text::hex_char((c as int) % 16),
        ],
        hex_value(text::hex_char((c as int) / 16)) == c as nat / 16,
        hex_value(text::hex_char((c as int) % 16)) == c as nat % 16,
        0 <= c as int <= 31,
{
    reveal_with_fuel(text::hex_fixed, 5);
    assert(text::hex_fixed(c as nat, 4) =~= seq![
        '0',
        '0',
        text::hex_char((c as int) / 16),
        text::hex_char((c as int) % 16),
    ]);
}

/// A reader gets back exactly the string that was escaped.
pub proof fn law_json_reader_undoes_escaping(s: Seq<char>)
    ensures
        json_reader(json_escaped(s)) == (s, Reading::Plain),
    decreases s.len(),
{
    if s.len() > 0 {
        let before = s.drop_last();
        law_json_reader_undoes_escaping(before);
        let start = json_escaped(before);
        let c = s.last();
        let code = escaped_char(c);
        assert(before.push(c) =~= s);
        if code.len() == 1 {
            lemma_read_push(start, c);
            assert(start + code =~= start.push(c));
        } else if code.len() == 2 {
            lemma_read_push(start, '\\');
            lemma_read_push(start.push('\\'), code[1]);
            assert(start + code =~= start.push('\\').push(code[1]));
        } else {
            lemma_hex_escape(c);
            let high = text::hex_char((c as int) / 16);
            let low = text::hex_char((c as int) % 16);
            let a = start.push('\\');
            let b = a.push('u');
            let d = b.push('0');
            let e = d.push('0');
            let f = e.push(high);
            lemma_read_push(start, '\\');
            lemma_read_push(a, 'u');
            lemma_read_push(b, '0');
            lemma_read_push(d, '0');
            lemma_read_push(e, high);
            lemma_read_push(f, low);
            assert(start + code =~= f.push(low));
            assert(hex_value('0') == 0);
            assert(16 * (c as nat / 16) + c as nat % 16 == c as nat);
        }
    }
}

/// The escaped form holds no control character, line breaks among them, and
/// every double quote in it is escaped: the literal ends where its closing quote
/// is.
pub proof fn law_json_escaping_is_closed(s: Seq<char>, i: int)
    requires
        0 <= i < json_escaped(s).len(),
    ensures
        json_escaped(s)[i] >= ' ',
        json_escaped(s)[i] == '"' ==> json_reader(json_escaped(s).take(i)).1 is Escape,
    decreases s.len(),
{
    let start = json_escaped(s.drop_last());
    let c = s.last();
    let code = escaped_char(c);
    if i < start.len() {
        law_json_escaping_is_closed(s.drop_last(), i);
        assert(json_escaped(s).take(i) =~= start.take(i));
    } else {
        law_json_reader_undoes_escaping(s.drop_last());
        let at = i - start.len();
        assert(json_escaped(s)[i] == code[at]);
        if c <= '\u{1f}' && code.len() > 2 {
            lemma_hex_escape(c);
            assert(code =~= seq![
                '\\',
                'u',
                '0',
                '0',
                text::hex_char((c as int) / 16),
                text::hex_char((c as int) % 16),
            ]);
            assert(at == 0 || at == 1 || at == 2 || at == 3 || at == 4 || at == 5);
            assert('0' <= code[4] <= '9');
            assert('0' <= code[5] <= '9' || 'a' <= code[5] <= 'f');
        }
        if i == start.len() + 1 {
            assert(json_escaped(s).take(i) =~= start.push('\\'));
            lemma_read_push(start, '\\');
        }
    }
}

} // verus!

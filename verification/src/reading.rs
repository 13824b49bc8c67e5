//! Reading back what the library writes: numbers, lists of pieces, named fields
//! and lines of headers. Nothing here is executed: these are the readers that the
//! written texts are held against.

use vstd::arithmetic::div_mod::*;
use vstd::prelude::*;
use vstd::string::*;

use crate::chars;
use crate::scan;
use crate::text;

verus! {

/// A number written in decimal reads back as that number.
pub proof fn law_decimals_read_back(n: nat)
    ensures
        scan::digits_value(text::decimal(n)) == n,
        scan::all_digits(text::decimal(n)),
        text::decimal(n).len() > 0,
    decreases n,
{
    if n >= 10 {
        law_decimals_read_back(n / 10);
        let s = text::decimal(n);
        assert(s.drop_last() =~= text::decimal(n / 10));
        assert(s.last() == text::digit_char((n % 10) as int));
        lemma_fundamental_div_mod(n as int, 10);
    } else {
        let s = text::decimal(n);
        assert(s.drop_last() =~= Seq::empty());
        assert(scan::digits_value(s.drop_last()) == 0);
        assert(s.last() == text::digit_char(n as int));
    }
}

/// The value of a hexadecimal digit in lower case.
pub open spec fn hex_digit_value(c: char) -> nat {
    if chars::is_digit(c) {
        (c as nat - '0' as nat) as nat
    } else {
        (c as nat - 'a' as nat + 10) as nat
    }
}

/// The value of a row of hexadecimal digits.
pub open spec fn hex_value(s: Seq<char>) -> nat
    decreases s.len(),
{
    if s.len() == 0 {
        0
    } else {
        hex_value(s.drop_last()) * 16 + hex_digit_value(s.last())
    }
}

/// 16 to the power of `width`.
pub open spec fn hex_limit(width: nat) -> nat
    decreases width,
{
    if width == 0 {
        1
    } else {
        16 * hex_limit((width - 1) as nat)
    }
}

/// A number written in a fixed number of hexadecimal digits reads back as that
/// number, if it has room in them.
pub proof fn law_fixed_hex_reads_back(n: nat, width: nat)
    requires
        n < hex_limit(width),
    ensures
        hex_value(text::hex_fixed(n, width)) == n,
        text::hex_fixed(n, width).len() == width,
        forall|i: int|
            0 <= i < width ==> (#[trigger] text::hex_fixed(n, width)[i]) != ' ',
    decreases width,
{
    if width > 0 {
        let w = (width - 1) as nat;
        let m = hex_limit(w);
        lemma_fundamental_div_mod(n as int, 16);
        assert(n / 16 < m) by (nonlinear_arith)
            requires
                n < 16 * m,
        ;
        law_fixed_hex_reads_back(n / 16, w);
        let s = text::hex_fixed(n, width);
        assert(s.drop_last() =~= text::hex_fixed(n / 16, w));
        assert(s.last() == text::hex_char((n % 16) as int));
    }
}

/// Eight hexadecimal digits have room for 32 bits.
pub proof fn lemma_eight_digits()
    ensures
        hex_limit(8) == 0x1_0000_0000,
{
    reveal_with_fuel(hex_limit, 9);
}

/// `c` does not stand in `s`.
pub open spec fn lacks(s: Seq<char>, c: char) -> bool {
    forall|i: int| 0 <= i < s.len() ==> #[trigger] s[i] != c
}

/// What stands before the first `c`, or all of the text.
pub open spec fn head(s: Seq<char>, c: char) -> Seq<char> {
    s.take(chars::first_index(s, c))
}

/// What stands behind the first `c`, or nothing.
pub open spec fn tail(s: Seq<char>, c: char) -> Seq<char> {
    let k = chars::first_index(s, c);
    if k < s.len() {
        s.skip(k + 1)
    } else {
        Seq::empty()
    }
}

/// A `c` behind text without one parts the text.
pub proof fn lemma_parts(a: Seq<char>, c: char, b: Seq<char>)
    requires
        lacks(a, c),
    ensures
        head(a + seq![c] + b, c) == a,
        tail(a + seq![c] + b, c) == b,
        !lacks(a + seq![c] + b, c),
{
    let s = a + seq![c] + b;
    chars::lemma_first_index(s, c);
    let k = chars::first_index(s, c);
    assert(s[a.len() as int] == c);
    if k < a.len() {
        assert(s[k] == a[k]);
    }
    assert(k == a.len());
    assert(head(s, c) =~= a);
    assert(tail(s, c) =~= b);
}

/// Text without `c` is its own head.
pub proof fn lemma_whole(a: Seq<char>, c: char)
    requires
        lacks(a, c),
    ensures
        head(a, c) == a,
        tail(a, c) == Seq::<char>::empty(),
{
    chars::lemma_first_index(a, c);
    let k = chars::first_index(a, c);
    if k < a.len() {
        assert(a[k] == c);
    }
    assert(head(a, c) =~= a);
}

/// Of a line of fields that spaces part, each a name, an equals sign and a value:
/// all that stands behind a given name and its equals sign.
pub open spec fn from_field(line: Seq<char>, name: Seq<char>) -> Option<Seq<char>>
    decreases line.len(),
{
    if scan::starts_with(line, name + seq!['=']) {
        Some(line.skip(name.len() as int + 1))
    } else if line.len() == 0 {
        None
    } else {
        proof {
            chars::lemma_first_index(line, ' ');
        }
        from_field(tail(line, ' '), name)
    }
}

/// The value of a named field: what stands behind its name, up to a space.
pub open spec fn field(line: Seq<char>, name: Seq<char>) -> Option<Seq<char>> {
    match from_field(line, name) {
        Some(rest) => Some(head(rest, ' ')),
        None => None,
    }
}

/// The number that a named field of a line gives in decimal.
pub open spec fn number_field(line: Seq<char>, name: Seq<char>) -> Option<nat> {
    match field(line, name) {
        Some(v) => if v.len() > 0 && scan::all_digits(v) {
            Some(scan::digits_value(v))
        } else {
            None
        },
        None => None,
    }
}

/// The number that a named field of a line gives in eight hexadecimal digits.
pub open spec fn checksum_field(line: Seq<char>, name: Seq<char>) -> Option<nat> {
    match field(line, name) {
        Some(v) => if v.len() == 8 {
            Some(hex_value(v))
        } else {
            None
        },
        None => None,
    }
}

/// A field that does not have the name is passed over.
pub proof fn lemma_other_field(word: Seq<char>, rest: Seq<char>, name: Seq<char>)
    requires
        lacks(word, ' '),
        lacks(name, ' '),
        !scan::starts_with(word, name + seq!['=']),
    ensures
        from_field(word + seq![' '] + rest, name) == from_field(rest, name),
{
    let line = word + seq![' '] + rest;
    let key = name + seq!['='];
    lemma_parts(word, ' ', rest);
    if scan::starts_with(line, key) {
        assert(line.subrange(0, key.len() as int) == key);
        if key.len() <= word.len() {
            assert(word.subrange(0, key.len() as int) =~= line.subrange(0, key.len() as int));
        } else {
            let k = word.len() as int;
            assert(key[k] == line.subrange(0, key.len() as int)[k]);
            assert(line[k] == ' ');
            if k < name.len() {
                assert(name[k] == key[k]);
            }
        }
    }
}

/// The last field, and one that does not have the name, are passed over.
pub proof fn lemma_no_field(word: Seq<char>, name: Seq<char>)
    requires
        lacks(word, ' '),
        !scan::starts_with(word, name + seq!['=']),
    ensures
        from_field(word, name) is None,
{
    if word.len() > 0 {
        lemma_whole(word, ' ');
        let none = Seq::<char>::empty();
        assert(!scan::starts_with(none, name + seq!['=']));
        assert(from_field(none, name) is None);
    }
}

/// A field that has the name gives what stands behind it.
pub proof fn lemma_this_field(name: Seq<char>, rest: Seq<char>)
    ensures
        from_field(name + seq!['='] + rest, name) == Some(rest),
{
    let key = name + seq!['='];
    let line = key + rest;
    assert(line.subrange(0, key.len() as int) =~= key);
    assert(line.skip(name.len() as int + 1) =~= rest);
}

/// Fields in a line: names and values, with equals signs and spaces between.
pub open spec fn line_of(fields: Seq<(Seq<char>, Seq<char>)>) -> Seq<char>
    decreases fields.len(),
{
    if fields.len() == 0 {
        Seq::empty()
    } else {
        fields[0].0 + seq!['='] + behind_name(fields)
    }
}

/// The value of the first field, and the fields behind it.
pub open spec fn behind_name(fields: Seq<(Seq<char>, Seq<char>)>) -> Seq<char>
    decreases fields.len(), 0nat,
    when fields.len() > 0
{
    if fields.len() == 1 {
        fields[0].1
    } else {
        fields[0].1 + seq![' '] + line_of(fields.drop_first())
    }
}

/// One more field in front of a line.
pub proof fn lemma_line_of(
    name: Seq<char>,
    value: Seq<char>,
    rest: Seq<(Seq<char>, Seq<char>)>,
)
    requires
        rest.len() > 0,
    ensures
        line_of(seq![(name, value)] + rest) == name + seq!['='] + (value + seq![' '] + line_of(
            rest,
        )),
{
    let fields = seq![(name, value)] + rest;
    assert(fields.drop_first() =~= rest);
}

/// A line of one field.
pub proof fn lemma_line_of_one(name: Seq<char>, value: Seq<char>)
    ensures
        line_of(seq![(name, value)]) == name + seq!['='] + value,
{
}

/// The names can be told apart.
pub open spec fn well_named(fields: Seq<(Seq<char>, Seq<char>)>) -> bool {
    &&& forall|i: int|
        0 <= i < fields.len() ==> lacks((#[trigger] fields[i]).0, ' ') && lacks(fields[i].0, '=')
    &&& forall|i: int, j: int|
        0 <= i < j < fields.len() ==> (#[trigger] fields[i]).0 != (#[trigger] fields[j]).0
}

proof fn lemma_different_name(a: Seq<char>, value: Seq<char>, b: Seq<char>)
    requires
        lacks(a, '='),
        lacks(b, '='),
        a != b,
    ensures
        !scan::starts_with(a + seq!['='] + value, b + seq!['=']),
{
    let line = a + seq!['='] + value;
    let key = b + seq!['='];
    if scan::starts_with(line, key) {
        let start = line.subrange(0, key.len() as int);
        assert(start == key);
        if a.len() < b.len() {
            assert(start[a.len() as int] == '=');
            assert(b[a.len() as int] == key[a.len() as int]);
        } else if b.len() < a.len() {
            assert(key[b.len() as int] == '=');
            assert(a[b.len() as int] == start[b.len() as int]);
        } else {
            assert forall|i: int| 0 <= i < a.len() implies a[i] == b[i] by {
                assert(start[i] == a[i]);
                assert(key[i] == b[i]);
            }
            assert(a =~= b);
        }
    }
}

/// A reader finds each field of a line, as long as no value before it holds a
/// space.
pub proof fn lemma_fields(fields: Seq<(Seq<char>, Seq<char>)>, i: int)
    requires
        well_named(fields),
        0 <= i < fields.len(),
        forall|j: int| 0 <= j < i ==> lacks((#[trigger] fields[j]).1, ' '),
    ensures
        from_field(line_of(fields), fields[i].0) == Some(behind_name(fields.skip(i))),
        lacks(fields[i].1, ' ') ==> field(line_of(fields), fields[i].0) == Some(fields[i].1),
    decreases fields.len(),
{
    let name = fields[i].0;
    if i == 0 {
        assert(fields.skip(0) =~= fields);
        lemma_this_field(name, behind_name(fields));
    } else {
        let rest = fields.drop_first();
        assert(well_named(rest)) by {
            assert forall|j: int| 0 <= j < rest.len() implies lacks((#[trigger] rest[j]).0, ' ')
                && lacks(rest[j].0, '=') by {
                assert(rest[j] == fields[j + 1]);
            }
            assert forall|j: int, k: int| 0 <= j < k < rest.len() implies (#[trigger] rest[j]).0 != (
            #[trigger] rest[k]).0 by {
                assert(rest[j] == fields[j + 1] && rest[k] == fields[k + 1]);
            }
        }
        assert forall|j: int| 0 <= j < i - 1 implies lacks((#[trigger] rest[j]).1, ' ') by {
            assert(rest[j] == fields[j + 1]);
        }
        lemma_fields(rest, i - 1);
        assert(rest[i - 1] == fields[i]);
        assert(rest.skip(i - 1) =~= fields.skip(i));
        let word = fields[0].0 + seq!['='] + fields[0].1;
        assert(line_of(fields) =~= word + seq![' '] + line_of(rest));
        assert(lacks(word, ' ')) by {
            assert forall|k: int| 0 <= k < word.len() implies #[trigger] word[k] != ' ' by {
                if k < fields[0].0.len() {
                    assert(word[k] == fields[0].0[k]);
                } else if k > fields[0].0.len() {
                    assert(word[k] == fields[0].1[k - fields[0].0.len() - 1]);
                }
            }
        }
        lemma_different_name(fields[0].0, fields[0].1, name);
        lemma_other_field(word, line_of(rest), name);
    }
    if lacks(fields[i].1, ' ') {
        let here = fields.skip(i);
        assert(here[0] == fields[i]);
        if here.len() == 1 {
            lemma_whole(fields[i].1, ' ');
        } else {
            lemma_parts(fields[i].1, ' ', line_of(here.drop_first()));
        }
    }
}

/// A reader does not find a field that no line holds.
pub proof fn lemma_absent_field(fields: Seq<(Seq<char>, Seq<char>)>, name: Seq<char>)
    requires
        well_named(fields),
        lacks(name, ' '),
        lacks(name, '='),
        forall|j: int|
            0 <= j < fields.len() ==> lacks((#[trigger] fields[j]).1, ' ') && fields[j].0 != name,
    ensures
        from_field(line_of(fields), name) is None,
        field(line_of(fields), name) is None,
    decreases fields.len(),
{
    if fields.len() > 0 {
        let rest = fields.drop_first();
        assert(well_named(rest)) by {
            assert forall|j: int| 0 <= j < rest.len() implies lacks((#[trigger] rest[j]).0, ' ')
                && lacks(rest[j].0, '=') by {
                assert(rest[j] == fields[j + 1]);
            }
            assert forall|j: int, k: int| 0 <= j < k < rest.len() implies (#[trigger] rest[j]).0 != (
            #[trigger] rest[k]).0 by {
                assert(rest[j] == fields[j + 1] && rest[k] == fields[k + 1]);
            }
        }
        assert forall|j: int| 0 <= j < rest.len() implies lacks((#[trigger] rest[j]).1, ' ')
            && rest[j].0 != name by {
            assert(rest[j] == fields[j + 1]);
        }
        lemma_absent_field(rest, name);
        let word = fields[0].0 + seq!['='] + fields[0].1;
        assert(lacks(word, ' ')) by {
            assert forall|k: int| 0 <= k < word.len() implies #[trigger] word[k] != ' ' by {
                if k < fields[0].0.len() {
                    assert(word[k] == fields[0].0[k]);
                } else if k > fields[0].0.len() {
                    assert(word[k] == fields[0].1[k - fields[0].0.len() - 1]);
                }
            }
        }
        lemma_different_name(fields[0].0, fields[0].1, name);
        if fields.len() == 1 {
            assert(line_of(fields) =~= word);
            lemma_no_field(word, name);
        } else {
            assert(line_of(fields) =~= word + seq![' '] + line_of(rest));
            lemma_other_field(word, line_of(rest), name);
        }
    } else {
        assert(!scan::starts_with(line_of(fields), name + seq!['=']));
    }
}

/// `s` ends with `t`.
pub open spec fn ends_with(s: Seq<char>, t: Seq<char>) -> bool {
    s.len() >= t.len() && s.skip(s.len() - t.len()) == t
}

/// The value of a named attribute in a tag, where values stand in double quotes
/// behind a space, their name and an equals sign.
pub open spec fn attribute(tag: Seq<char>, name: Seq<char>) -> Option<Seq<char>>
    decreases tag.len(),
{
    if lacks(tag, '"') {
        None
    } else {
        proof {
            chars::lemma_first_index(tag, '"');
            chars::lemma_first_index(tail(tag, '"'), '"');
        }
        let rest = tail(tag, '"');
        if ends_with(head(tag, '"'), seq![' '] + name + seq!['=']) {
            Some(head(rest, '"'))
        } else {
            attribute(tail(rest, '"'), name)
        }
    }
}

/// An attribute in front of others is the one that is asked for, or is passed over.
pub proof fn lemma_attribute(
    key: Seq<char>,
    value: Seq<char>,
    rest: Seq<char>,
    name: Seq<char>,
)
    requires
        lacks(key, '"'),
        lacks(value, '"'),
    ensures
        attribute(key + seq!['"'] + (value + seq!['"'] + rest), name) == if ends_with(
            key,
            seq![' '] + name + seq!['='],
        ) {
            Some(value)
        } else {
            attribute(rest, name)
        },
{
    lemma_parts(key, '"', value + seq!['"'] + rest);
    lemma_parts(value, '"', rest);
}

/// A line without its CR and LF, where it ends with them.
pub open spec fn without_line_end(s: Seq<char>) -> Option<Seq<char>> {
    if s.len() >= 2 && s[s.len() - 2] == '\r' && s[s.len() - 1] == '\n' {
        Some(s.take(s.len() - 2))
    } else {
        None
    }
}

/// The digits of a number are no space.
pub proof fn lemma_decimal_has_no_space(n: nat)
    ensures
        lacks(text::decimal(n), ' '),
        lacks(text::decimal(n), '"'),
{
    law_decimals_read_back(n);
    let s = text::decimal(n);
    assert forall|i: int| 0 <= i < s.len() implies #[trigger] s[i] != ' ' && s[i] != '"' by {
        assert(chars::is_digit(s[i]));
    }
}

proof fn lemma_leading_zeros(zeros: nat, s: Seq<char>)
    ensures
        scan::digits_value(text::repeated('0', zeros) + s) == scan::digits_value(s),
    decreases s.len(),
{
    let z = text::repeated('0', zeros);
    if s.len() == 0 {
        assert(z + s =~= z);
        lemma_only_zeros(zeros);
    } else {
        lemma_leading_zeros(zeros, s.drop_last());
        assert((z + s).drop_last() =~= z + s.drop_last());
        assert((z + s).last() == s.last());
    }
}

proof fn lemma_only_zeros(zeros: nat)
    ensures
        scan::digits_value(text::repeated('0', zeros)) == 0,
    decreases zeros,
{
    if zeros > 0 {
        lemma_only_zeros((zeros - 1) as nat);
        let z = text::repeated('0', zeros);
        assert(z.drop_last() =~= text::repeated('0', (zeros - 1) as nat));
    }
}

/// A number written with leading zeros reads back as that number.
pub proof fn law_padded_decimals_read_back(n: nat, width: nat)
    ensures
        scan::digits_value(text::zero_padded(n, width)) == n,
        scan::all_digits(text::zero_padded(n, width)),
        text::zero_padded(n, width).len() >= width,
        width == 2 && n < 100 ==> text::zero_padded(n, width).len() == 2,
{
    law_decimals_read_back(n);
    let d = text::decimal(n);
    if d.len() < width {
        lemma_leading_zeros((width - d.len()) as nat, d);
    }
    let s = text::zero_padded(n, width);
    assert forall|i: int| 0 <= i < s.len() implies chars::is_digit(#[trigger] s[i]) by {
        if d.len() < width && i >= width - d.len() {
            assert(s[i] == d[i - (width - d.len())]);
        }
    }
    if n < 100 {
        assert(n < 10 ==> d.len() == 1);
        assert(n >= 10 ==> d == text::decimal(n / 10).push(text::digit_char((n % 10) as int)));
        assert(n >= 10 ==> text::decimal(n / 10).len() == 1);
    }
}

/// A number below a thousand takes three digits.
pub proof fn lemma_three_digits(n: nat)
    requires
        n < 1000,
    ensures
        text::zero_padded(n, 3).len() == 3,
{
    let d = text::decimal(n);
    assert(n < 10 ==> d.len() == 1);
    if n >= 10 {
        let e = text::decimal(n / 10);
        assert(d == e.push(text::digit_char((n % 10) as int)));
        assert(n / 10 < 10 ==> e.len() == 1);
        if n / 10 >= 10 {
            assert(e == text::decimal(n / 10 / 10).push(text::digit_char((n / 10 % 10) as int)));
            assert(text::decimal(n / 10 / 10).len() == 1);
        }
    }
}

/// The number that the characters from `from` to `to` give in decimal.
pub open spec fn number_at(s: Seq<char>, from: int, to: int) -> nat {
    scan::digits_value(s.subrange(from, to))
}

/// The items of a list that `c` parts.
pub open spec fn items(s: Seq<char>, c: char) -> Seq<Seq<char>>
    decreases s.len(),
{
    if lacks(s, c) {
        seq![s]
    } else {
        proof {
            chars::lemma_first_index(s, c);
        }
        seq![head(s, c)] + items(tail(s, c), c)
    }
}

/// The texts, all of them without `c`, behind each other with a `c` between.
pub proof fn lemma_items(list: Seq<String>, c: char)
    requires
        list.len() > 0,
        forall|i: int| 0 <= i < list.len() ==> lacks((#[trigger] list[i])@, c),
    ensures
        items(text::joined(list, seq![c]), c) == text::texts(list),
    decreases list.len(),
{
    if list.len() == 1 {
        assert(text::texts(list) =~= seq![list[0]@]);
    } else {
        let rest = list.drop_last();
        assert forall|i: int| 0 <= i < rest.len() implies lacks((#[trigger] rest[i])@, c) by {
            assert(rest[i] == list[i]);
        }
        lemma_items(rest, c);
        let last = list[list.len() - 1]@;
        lemma_items_push(text::joined(rest, seq![c]), last, c);
        assert(text::texts(rest).push(last) =~= text::texts(list));
    }
}

/// One more item.
pub proof fn lemma_items_push(s: Seq<char>, t: Seq<char>, c: char)
    requires
        lacks(t, c),
    ensures
        items(s + seq![c] + t, c) == items(s, c).push(t),
    decreases s.len(),
{
    let all = s + seq![c] + t;
    chars::lemma_first_index(s, c);
    if lacks(s, c) {
        lemma_parts(s, c, t);
        assert(items(t, c) == seq![t]);
        assert(items(s, c) == seq![s]);
        assert(items(all, c) == seq![head(all, c)] + items(tail(all, c), c));
        assert(items(all, c) =~= seq![s] + seq![t]);
        assert(seq![s] + seq![t] =~= seq![s].push(t));
    } else {
        let k = chars::first_index(s, c);
        if k == s.len() {
            assert forall|i: int| 0 <= i < s.len() implies #[trigger] s[i] != c by {}
            assert(lacks(s, c));
        }
        assert(lacks(s.take(k), c)) by {
            assert forall|i: int| 0 <= i < k implies #[trigger] s.take(k)[i] != c by {
                assert(s.take(k)[i] == s[i]);
            }
        }
        let rest = s.skip(k + 1);
        assert(all =~= s.take(k) + seq![c] + (rest + seq![c] + t));
        lemma_parts(s.take(k), c, rest + seq![c] + t);
        lemma_items_push(rest, t, c);
        assert(items(all, c) =~= seq![head(s, c)] + items(rest, c).push(t));
        assert(seq![head(s, c)] + items(rest, c).push(t) =~= (seq![head(s, c)] + items(
            rest,
            c,
        )).push(t));
    }
}

/// The value of a named header line: what stands behind its name, a colon and a
/// space, up to the end of the line. A blank line ends the headers.
pub open spec fn header(s: Seq<char>, name: Seq<char>) -> Option<Seq<char>>
    decreases s.len(),
{
    if scan::starts_with(s, name + seq![':', ' ']) {
        Some(head(s.skip(name.len() as int + 2), '\r'))
    } else if s.len() == 0 || s[0] == '\r' {
        None
    } else {
        proof {
            chars::lemma_first_index(s, '\n');
        }
        header(tail(s, '\n'), name)
    }
}

/// Header lines and the blank line behind them.
pub open spec fn headers_of(fields: Seq<(Seq<char>, Seq<char>)>) -> Seq<char>
    decreases fields.len(),
{
    if fields.len() == 0 {
        seq!['\r', '\n']
    } else {
        fields[0].0 + seq![':', ' '] + fields[0].1 + seq!['\r', '\n'] + headers_of(
            fields.drop_first(),
        )
    }
}

/// A text that fits in a header line.
pub open spec fn is_one_line(s: Seq<char>) -> bool {
    lacks(s, '\r') && lacks(s, '\n')
}

/// The headers can be told apart, and each takes one line.
pub open spec fn well_headed(fields: Seq<(Seq<char>, Seq<char>)>) -> bool {
    &&& forall|i: int|
        0 <= i < fields.len() ==> {
            &&& is_one_line((#[trigger] fields[i]).0)
            &&& lacks(fields[i].0, ':')
            &&& fields[i].0.len() > 0
            &&& is_one_line(fields[i].1)
        }
    &&& forall|i: int, j: int|
        0 <= i < j < fields.len() ==> (#[trigger] fields[i]).0 != (#[trigger] fields[j]).0
}

proof fn lemma_well_headed_rest(fields: Seq<(Seq<char>, Seq<char>)>)
    requires
        fields.len() > 0,
        well_headed(fields),
    ensures
        well_headed(fields.drop_first()),
{
    let rest = fields.drop_first();
    assert forall|i: int| 0 <= i < rest.len() implies {
        &&& is_one_line((#[trigger] rest[i]).0)
        &&& lacks(rest[i].0, ':')
        &&& rest[i].0.len() > 0
        &&& is_one_line(rest[i].1)
    } by {
        assert(rest[i] == fields[i + 1]);
    }
    assert forall|i: int, j: int| 0 <= i < j < rest.len() implies (#[trigger] rest[i]).0 != (
    #[trigger] rest[j]).0 by {
        assert(rest[i] == fields[i + 1] && rest[j] == fields[j + 1]);
    }
}

proof fn lemma_other_header(fields: Seq<(Seq<char>, Seq<char>)>, name: Seq<char>)
    requires
        fields.len() > 0,
        well_headed(fields),
        lacks(name, ':'),
        fields[0].0 != name,
    ensures
        header(headers_of(fields), name) == header(headers_of(fields.drop_first()), name),
{
    let s = headers_of(fields);
    let own = fields[0].0;
    let rest = headers_of(fields.drop_first());
    let line = own + seq![':', ' '] + fields[0].1 + seq!['\r'];
    assert(s =~= line + seq!['\n'] + rest);
    assert(lacks(line, '\n')) by {
        assert forall|i: int| 0 <= i < line.len() implies #[trigger] line[i] != '\n' by {
            if i < own.len() {
                assert(line[i] == own[i]);
            } else if own.len() + 2 <= i < own.len() + 2 + fields[0].1.len() {
                assert(line[i] == fields[0].1[i - own.len() - 2]);
            }
        }
    }
    lemma_parts(line, '\n', rest);
    assert(s[0] == own[0]);
    let key = name + seq![':', ' '];
    if scan::starts_with(s, key) {
        let start = s.subrange(0, key.len() as int);
        assert(start == key);
        if own.len() < name.len() {
            assert(start[own.len() as int] == ':');
            assert(key[own.len() as int] == name[own.len() as int]);
        } else if name.len() < own.len() {
            assert(key[name.len() as int] == ':');
            assert(start[name.len() as int] == own[name.len() as int]);
        } else {
            assert forall|i: int| 0 <= i < own.len() implies own[i] == name[i] by {
                assert(start[i] == own[i]);
                assert(key[i] == name[i]);
            }
            assert(own =~= name);
        }
    }
}

/// A reader finds each header.
pub proof fn lemma_headers(fields: Seq<(Seq<char>, Seq<char>)>, i: int)
    requires
        well_headed(fields),
        0 <= i < fields.len(),
    ensures
        header(headers_of(fields), fields[i].0) == Some(fields[i].1),
    decreases fields.len(),
{
    let name = fields[i].0;
    if i == 0 {
        let s = headers_of(fields);
        let key = name + seq![':', ' '];
        let rest = seq!['\n'] + headers_of(fields.drop_first());
        assert(s.subrange(0, key.len() as int) =~= key);
        assert(s.skip(name.len() as int + 2) =~= fields[0].1 + seq!['\r'] + rest);
        lemma_parts(fields[0].1, '\r', rest);
    } else {
        lemma_well_headed_rest(fields);
        lemma_headers(fields.drop_first(), i - 1);
        assert(fields.drop_first()[i - 1] == fields[i]);
        lemma_other_header(fields, name);
    }
}

/// A reader does not find a header that is not there.
pub proof fn lemma_no_header(fields: Seq<(Seq<char>, Seq<char>)>, name: Seq<char>)
    requires
        well_headed(fields),
        lacks(name, ':'),
        is_one_line(name),
        name.len() > 0,
        forall|i: int| 0 <= i < fields.len() ==> (#[trigger] fields[i]).0 != name,
    ensures
        header(headers_of(fields), name) is None,
    decreases fields.len(),
{
    if fields.len() == 0 {
        let s = headers_of(fields);
        let key = name + seq![':', ' '];
        if scan::starts_with(s, key) {
            assert(s.subrange(0, key.len() as int)[0] == key[0]);
            assert(key[0] == name[0]);
        }
    } else {
        let rest = fields.drop_first();
        lemma_well_headed_rest(fields);
        assert forall|i: int| 0 <= i < rest.len() implies (#[trigger] rest[i]).0 != name by {
            assert(rest[i] == fields[i + 1]);
        }
        lemma_no_header(rest, name);
        lemma_other_header(fields, name);
    }
}

/// The lines of a text, the last of which may go on.
pub open spec fn lines(s: Seq<char>) -> Seq<Seq<char>>
    decreases s.len(),
{
    if s.len() == 0 {
        seq![Seq::empty()]
    } else {
        let before = lines(s.drop_last());
        if s.last() == '\n' {
            before.push(Seq::empty())
        } else {
            before.drop_last().push(before.last().push(s.last()))
        }
    }
}

/// The lines of a text are these, and one that may go on.
pub open spec fn is_written(s: Seq<char>, done: Seq<Seq<char>>, current: Seq<char>) -> bool {
    lines(s) == done.push(current)
}

/// Text on the same line.
pub proof fn lemma_write(s: Seq<char>, done: Seq<Seq<char>>, current: Seq<char>, t: Seq<char>)
    requires
        is_written(s, done, current),
        lacks(t, '\n'),
    ensures
        is_written(s + t, done, current + t),
    decreases t.len(),
{
    if t.len() == 0 {
        assert(s + t =~= s);
        assert(current + t =~= current);
    } else {
        let u = t.drop_last();
        assert forall|i: int| 0 <= i < u.len() implies #[trigger] u[i] != '\n' by {
            assert(u[i] == t[i]);
        }
        lemma_write(s, done, current, u);
        assert((s + t).drop_last() =~= s + u);
        assert((s + t).last() == t.last());
        assert(t[t.len() - 1] != '\n');
        assert(done.push(current + u).drop_last() =~= done);
        assert((current + u).push(t.last()) =~= current + t);
    }
}

/// The end of a line.
pub proof fn lemma_end_line(s: Seq<char>, done: Seq<Seq<char>>, current: Seq<char>)
    requires
        is_written(s, done, current),
    ensures
        is_written(s + seq!['\n'], done.push(current), Seq::empty()),
{
    assert((s + seq!['\n']).drop_last() =~= s);
}

/// A whole line.
pub proof fn lemma_write_line(s: Seq<char>, done: Seq<Seq<char>>, line: Seq<char>)
    requires
        is_written(s, done, Seq::empty()),
        lacks(line, '\n'),
    ensures
        is_written(s + (line + seq!['\n']), done.push(line), Seq::empty()),
{
    lemma_write(s, done, Seq::empty(), line);
    assert(Seq::<char>::empty() + line =~= line);
    lemma_end_line(s + line, done, line);
    assert(s + (line + seq!['\n']) =~= s + line + seq!['\n']);
}

/// Nothing is written yet.
pub proof fn lemma_nothing_written()
    ensures
        is_written(Seq::empty(), Seq::empty(), Seq::empty()),
{
    assert(lines(Seq::empty()) =~= Seq::<Seq<char>>::empty().push(Seq::empty()));
}

} // verus!

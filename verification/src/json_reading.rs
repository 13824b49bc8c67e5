//! Reading JSON objects back: what a program finds in the lines and bodies that
//! the library writes.

use vstd::prelude::*;
use vstd::string::*;

use crate::chars;
use crate::json;
use crate::reading;
use crate::scan;
use crate::text;

verus! {

/// The length of a string literal's inside: what stands before the first double
/// quote that no backslash escapes.
pub open spec fn inside(s: Seq<char>) -> nat
    decreases s.len(),
{
    if s.len() == 0 || s[0] == '"' {
        0
    } else if s[0] == '\\' && s.len() >= 2 {
        2 + inside(s.skip(2))
    } else {
        1 + inside(s.skip(1))
    }
}

/// The length of a value that is no string: what stands before a comma or a
/// closing brace.
pub open spec fn bare(s: Seq<char>) -> nat
    decreases s.len(),
{
    if s.len() == 0 || s[0] == ',' || s[0] == '}' {
        0
    } else {
        1 + bare(s.skip(1))
    }
}

/// The length of the value at the start of a text.
pub open spec fn value_len(s: Seq<char>) -> nat {
    if s.len() > 0 && s[0] == '"' {
        inside(s.skip(1)) + 2
    } else {
        bare(s)
    }
}

/// The value of a member, as it is written, in a text that starts with the first of
/// an object's members.
pub open spec fn member(s: Seq<char>, key: Seq<char>) -> Option<Seq<char>>
    decreases s.len(),
{
    if s.len() < 2 || s[0] != '"' {
        None
    } else {
        let name = s.skip(1).take(inside(s.skip(1)) as int);
        let rest = s.skip(name.len() as int + 3);
        let n = value_len(rest) as int;
        if name == key {
            Some(rest.take(n))
        } else if n < rest.len() && rest.len() < s.len() && rest[n] == ',' {
            member(rest.skip(n + 1), key)
        } else {
            None
        }
    }
}

/// The value of a member of an object, as it is written.
pub open spec fn raw(object: Seq<char>, key: Seq<char>) -> Option<Seq<char>> {
    if object.len() > 0 && object[0] == '{' && object.last() == '}' {
        member(object.skip(1), key)
    } else {
        None
    }
}

/// The text that a string literal stands for.
pub open spec fn literal(v: Seq<char>) -> Option<Seq<char>> {
    if v.len() >= 2 && v[0] == '"' && v.last() == '"' {
        Some(json::json_reader(v.subrange(1, v.len() - 1)).0)
    } else {
        None
    }
}

/// The text of a member, where it is one.
pub open spec fn text_member(object: Seq<char>, key: Seq<char>) -> Option<Seq<char>> {
    match raw(object, key) {
        Some(v) => literal(v),
        None => None,
    }
}

/// The number of a member, where it is one.
pub open spec fn number_member(object: Seq<char>, key: Seq<char>) -> Option<nat> {
    match raw(object, key) {
        Some(v) => if v.len() > 0 && scan::all_digits(v) {
            Some(scan::digits_value(v))
        } else {
            None
        },
        None => None,
    }
}

/// A text that is a string literal, or a word or number.
pub open spec fn is_value(v: Seq<char>) -> bool {
    ||| exists|t: Seq<char>| v == #[trigger] json::json_quoted(t)
    ||| v.len() > 0 && forall|i: int|
        0 <= i < v.len() ==> #[trigger] v[i] != ',' && v[i] != '}' && v[i] != '"'
}

/// A name that needs no escapes.
pub open spec fn is_plain(s: Seq<char>) -> bool {
    reading::lacks(s, '"') && reading::lacks(s, '\\')
}

proof fn lemma_escaped_parts(a: Seq<char>, b: Seq<char>)
    ensures
        json::json_escaped(a + b) == json::json_escaped(a) + json::json_escaped(b),
    decreases b.len(),
{
    if b.len() == 0 {
        assert(a + b =~= a);
        assert(json::json_escaped(a) + json::json_escaped(b) =~= json::json_escaped(a));
    } else {
        lemma_escaped_parts(a, b.drop_last());
        assert((a + b).drop_last() =~= a + b.drop_last());
        assert((a + b).last() == b.last());
        assert(json::json_escaped(a + b) =~= json::json_escaped(a) + json::json_escaped(b));
    }
}

proof fn lemma_inside_step(c: char, rest: Seq<char>)
    ensures
        inside(json::escaped_char(c) + rest) == json::escaped_char(c).len() + inside(rest),
{
    let code = json::escaped_char(c);
    let s = code + rest;
    if code.len() == 1 {
        assert(s.skip(1) =~= rest);
    } else if code.len() == 2 {
        assert(s.skip(2) =~= rest);
    } else {
        json::lemma_hex_escape(c);
        let high = text::hex_char((c as int) / 16);
        let low = text::hex_char((c as int) % 16);
        assert(high != '"' && high != '\\' && low != '"' && low != '\\');
        assert(s =~= seq!['\\', 'u', '0', '0', high, low] + rest);
        let s2 = s.skip(2);
        let s3 = s2.skip(1);
        let s4 = s3.skip(1);
        let s5 = s4.skip(1);
        assert(s5.skip(1) =~= rest);
        assert(s2[0] == '0' && s3[0] == '0' && s4[0] == high && s5[0] == low);
        assert(inside(s) == 2 + inside(s2));
        assert(inside(s2) == 1 + inside(s3));
        assert(inside(s3) == 1 + inside(s4));
        assert(inside(s4) == 1 + inside(s5));
        assert(inside(s5) == 1 + inside(rest));
    }
}

/// A literal ends where its closing quote is.
proof fn lemma_inside(t: Seq<char>, rest: Seq<char>)
    ensures
        inside(json::json_escaped(t) + seq!['"'] + rest) == json::json_escaped(t).len(),
    decreases t.len(),
{
    let end = seq!['"'] + rest;
    if t.len() == 0 {
        assert(json::json_escaped(t) + seq!['"'] + rest =~= end);
        assert(end[0] == '"');
    } else {
        let c = t[0];
        let u = t.drop_first();
        lemma_escaped_parts(seq![c], u);
        assert(seq![c] + u =~= t);
        assert(seq![c].drop_last() =~= Seq::<char>::empty());
        assert(json::json_escaped(Seq::<char>::empty()) =~= Seq::<char>::empty());
        assert(json::json_escaped(seq![c]) =~= json::escaped_char(c));
        let e = json::json_escaped(u);
        lemma_inside(u, rest);
        lemma_inside_step(c, e + seq!['"'] + rest);
        assert(json::json_escaped(t) + seq!['"'] + rest =~= json::escaped_char(c) + (e + seq!['"']
            + rest));
    }
}

proof fn lemma_plain_is_escaped(s: Seq<char>, rest: Seq<char>)
    requires
        is_plain(s),
    ensures
        inside(s + seq!['"'] + rest) == s.len(),
    decreases s.len(),
{
    let all = s + seq!['"'] + rest;
    if s.len() > 0 {
        let u = s.drop_first();
        assert forall|i: int| 0 <= i < u.len() implies #[trigger] u[i] != '"' && u[i] != '\\' by {
            assert(u[i] == s[i + 1]);
        }
        lemma_plain_is_escaped(u, rest);
        assert(all.skip(1) =~= u + seq!['"'] + rest);
        assert(all[0] == s[0]);
    } else {
        assert(all[0] == '"');
    }
}

proof fn lemma_bare(v: Seq<char>, c: char, rest: Seq<char>)
    requires
        forall|i: int| 0 <= i < v.len() ==> #[trigger] v[i] != ',' && v[i] != '}',
        c == ',' || c == '}',
    ensures
        bare(v + seq![c] + rest) == v.len(),
    decreases v.len(),
{
    let all = v + seq![c] + rest;
    if v.len() > 0 {
        let u = v.drop_first();
        assert forall|i: int| 0 <= i < u.len() implies #[trigger] u[i] != ',' && u[i] != '}' by {
            assert(u[i] == v[i + 1]);
        }
        lemma_bare(u, c, rest);
        assert(all.skip(1) =~= u + seq![c] + rest);
        assert(all[0] == v[0]);
    } else {
        assert(all[0] == c);
    }
}

proof fn lemma_value_len(v: Seq<char>, c: char, rest: Seq<char>)
    requires
        is_value(v),
        c == ',' || c == '}',
    ensures
        value_len(v + seq![c] + rest) == v.len(),
        v.len() > 0,
{
    let all = v + seq![c] + rest;
    if exists|t: Seq<char>| v == #[trigger] json::json_quoted(t) {
        let t = choose|t: Seq<char>| v == #[trigger] json::json_quoted(t);
        reveal_strlit("\"");
        let e = json::json_escaped(t);
        assert(v =~= seq!['"'] + e + seq!['"']);
        assert(all.skip(1) =~= e + seq!['"'] + (seq![c] + rest));
        lemma_inside(t, seq![c] + rest);
    } else {
        assert(all[0] == v[0]);
        lemma_bare(v, c, rest);
    }
}

/// The members of an object, and its closing brace.
pub open spec fn members_of(fields: Seq<(Seq<char>, Seq<char>)>) -> Seq<char>
    decreases fields.len(),
{
    if fields.len() == 0 {
        seq!['}']
    } else {
        seq!['"'] + fields[0].0 + seq!['"', ':'] + fields[0].1 + if fields.len() == 1 {
            seq!['}']
        } else {
            seq![','] + members_of(fields.drop_first())
        }
    }
}

/// An object up to its closing brace, member by member.
pub open spec fn opened(fields: Seq<(Seq<char>, Seq<char>)>) -> Seq<char>
    decreases fields.len(),
{
    if fields.len() == 0 {
        seq!['{']
    } else {
        opened(fields.drop_last()) + (if fields.len() == 1 {
            Seq::empty()
        } else {
            seq![',']
        }) + seq!['"'] + fields.last().0 + seq!['"', ':'] + fields.last().1
    }
}

/// Members with names that can be told apart, and values.
pub open spec fn well_formed(fields: Seq<(Seq<char>, Seq<char>)>) -> bool {
    &&& forall|i: int|
        0 <= i < fields.len() ==> is_plain((#[trigger] fields[i]).0) && is_value(fields[i].1)
    &&& forall|i: int, j: int|
        0 <= i < j < fields.len() ==> (#[trigger] fields[i]).0 != (#[trigger] fields[j]).0
}

/// One more member.
pub proof fn lemma_opened(fields: Seq<(Seq<char>, Seq<char>)>, key: Seq<char>, value: Seq<char>)
    requires
        fields.len() > 0,
    ensures
        opened(fields.push((key, value))) == opened(fields) + (seq![',', '"'] + key + seq![
            '"',
            ':',
        ]) + value,
{
    let all = fields.push((key, value));
    assert(all.drop_last() =~= fields);
    assert(opened(all) =~= opened(fields) + (seq![',', '"'] + key + seq!['"', ':']) + value);
}

/// The first member.
pub proof fn lemma_opened_first(key: Seq<char>, value: Seq<char>)
    ensures
        opened(seq![(key, value)]) == (seq!['{', '"'] + key + seq!['"', ':']) + value,
{
    let all = seq![(key, value)];
    let none = Seq::<(Seq<char>, Seq<char>)>::empty();
    assert(all.drop_last() =~= none);
    assert(opened(none) == seq!['{']);
    assert(opened(all) =~= (seq!['{', '"'] + key + seq!['"', ':']) + value);
}

/// What the members behind the first few add.
spec fn continued(fields: Seq<(Seq<char>, Seq<char>)>) -> Seq<char> {
    if fields.len() == 0 {
        seq!['}']
    } else {
        seq![','] + members_of(fields)
    }
}

proof fn lemma_closed(fields: Seq<(Seq<char>, Seq<char>)>, k: int)
    requires
        1 <= k <= fields.len(),
    ensures
        opened(fields.take(k)) + continued(fields.skip(k)) == seq!['{'] + members_of(fields),
    decreases k,
{
    let rest = fields.skip(k);
    let front = fields.take(k);
    let (key, value) = fields[k - 1];
    let here = fields.skip(k - 1);
    assert(here.drop_first() =~= rest);
    assert(here[0] == fields[k - 1]);
    assert(front.drop_last() =~= fields.take(k - 1));
    assert(front.last() == fields[k - 1]);
    let m = seq!['"'] + key + seq!['"', ':'] + value;
    assert(members_of(here) =~= m + continued(rest));
    if k == 1 {
        assert(fields.take(0) =~= Seq::empty());
        assert(here =~= fields);
        assert(opened(front) =~= seq!['{'] + m);
        assert(opened(front) + continued(rest) =~= seq!['{'] + (m + continued(rest)));
    } else {
        lemma_closed(fields, k - 1);
        assert(opened(front) =~= opened(fields.take(k - 1)) + seq![','] + m);
        assert(opened(front) + continued(rest) =~= opened(fields.take(k - 1)) + (seq![','] + (m
            + continued(rest))));
    }
}

proof fn lemma_member(fields: Seq<(Seq<char>, Seq<char>)>, i: int)
    requires
        well_formed(fields),
        0 <= i < fields.len(),
    ensures
        member(members_of(fields), fields[i].0) == Some(fields[i].1),
    decreases fields.len(),
{
    let s = members_of(fields);
    let (key, value) = fields[0];
    let rest = fields.drop_first();
    let end = continued(rest);
    let c = end[0];
    let after = end.skip(1);
    assert(is_plain(fields[0].0) && is_value(fields[0].1));
    assert(c == ',' || c == '}');
    assert(end =~= seq![c] + after);
    assert(s =~= seq!['"'] + (key + seq!['"'] + (seq![':'] + value + end)));
    assert(s.skip(1) =~= key + seq!['"'] + (seq![':'] + value + end));
    lemma_plain_is_escaped(key, seq![':'] + value + end);
    let name = s.skip(1).take(inside(s.skip(1)) as int);
    assert(name =~= key);
    let v = s.skip(key.len() as int + 3);
    assert(v =~= value + seq![c] + after);
    lemma_value_len(value, c, after);
    assert(v.take(value.len() as int) =~= value);
    if i > 0 {
        assert(fields[i].0 != key);
        assert(well_formed(rest)) by {
            assert forall|j: int| 0 <= j < rest.len() implies is_plain((#[trigger] rest[j]).0)
                && is_value(rest[j].1) by {
                assert(rest[j] == fields[j + 1]);
            }
            assert forall|j: int, k: int| 0 <= j < k < rest.len() implies (#[trigger] rest[j]).0 != (
            #[trigger] rest[k]).0 by {
                assert(rest[j] == fields[j + 1] && rest[k] == fields[k + 1]);
            }
        }
        lemma_member(rest, i - 1);
        assert(rest[i - 1] == fields[i]);
        assert(v[value.len() as int] == ',');
        assert(v.skip(value.len() as int + 1) =~= members_of(rest));
    }
}

/// A reader of an object finds each of its members.
pub proof fn lemma_object(fields: Seq<(Seq<char>, Seq<char>)>, i: int)
    requires
        well_formed(fields),
        0 <= i < fields.len(),
    ensures
        raw(opened(fields) + seq!['}'], fields[i].0) == Some(fields[i].1),
{
    let n = fields.len() as int;
    let s = opened(fields) + seq!['}'];
    lemma_closed(fields, n);
    assert(fields.take(n) =~= fields);
    assert(fields.skip(n) =~= Seq::empty());
    assert(s == seq!['{'] + members_of(fields));
    assert(s.skip(1) =~= members_of(fields));
    lemma_member(fields, i);
}

/// A string literal reads as its text.
pub proof fn lemma_literal(t: Seq<char>)
    ensures
        literal(json::json_quoted(t)) == Some(t),
        is_value(json::json_quoted(t)),
{
    reveal_strlit("\"");
    let v = json::json_quoted(t);
    let e = json::json_escaped(t);
    assert(v.subrange(1, v.len() - 1) =~= e);
    json::law_json_reader_undoes_escaping(t);
}

/// `null` is a value, and no text.
pub proof fn lemma_null()
    ensures
        literal("null"@) is None,
        is_value("null"@),
{
    reveal_strlit("null");
    assert("null"@[0] == 'n');
}

/// A text or nothing reads as such.
pub proof fn lemma_optional(v: Option<&str>)
    ensures
        is_value(json::json_value(v)),
        literal(json::json_value(v)) == match v {
            Some(t) => Some(t@),
            None => None,
        },
        v is None ==> json::json_value(v) == "null"@,
{
    match v {
        Some(t) => {
            lemma_literal(t@);
        },
        None => {
            lemma_null();
        },
    }
}

/// A number is a value.
pub proof fn lemma_number(n: nat)
    ensures
        is_value(text::decimal(n)),
        scan::all_digits(text::decimal(n)),
        scan::digits_value(text::decimal(n)) == n,
        text::decimal(n).len() > 0,
{
    reading::law_decimals_read_back(n);
    let v = text::decimal(n);
    assert forall|i: int| 0 <= i < v.len() implies #[trigger] v[i] != ',' && v[i] != '}' && v[i]
        != '"' by {
        assert(chars::is_digit(v[i]));
    }
}

/// `true` and `false` are values, and different.
pub proof fn lemma_bool(b: bool)
    ensures
        is_value(json::bool_text(b)),
        json::bool_text(b) == "true"@ <==> b,
        json::bool_text(b) == "false"@ <==> !b,
{
    reveal_strlit("true");
    reveal_strlit("false");
    assert("true"@.len() == 4 && "false"@.len() == 5);
}

/// An object that grows by one member stays well formed.
pub proof fn lemma_well_formed(
    fields: Seq<(Seq<char>, Seq<char>)>,
    key: Seq<char>,
    value: Seq<char>,
)
    requires
        well_formed(fields),
        is_plain(key),
        is_value(value),
        forall|i: int| 0 <= i < fields.len() ==> (#[trigger] fields[i]).0 != key,
    ensures
        well_formed(fields.push((key, value))),
{
    let all = fields.push((key, value));
    assert forall|i: int| 0 <= i < all.len() implies is_plain((#[trigger] all[i]).0) && is_value(
        all[i].1,
    ) by {
        if i < fields.len() {
            assert(all[i] == fields[i]);
        }
    }
    assert forall|i: int, j: int| 0 <= i < j < all.len() implies (#[trigger] all[i]).0 != (
    #[trigger] all[j]).0 by {
        assert(all[i] == fields[i]);
        if j < fields.len() {
            assert(all[j] == fields[j]);
        }
    }
}

/// A name, and what stands before its value.
pub open spec fn label(key: Seq<char>) -> Seq<char> {
    seq![',', '"'] + key + seq!['"', ':']
}

/// A member is a text, or nothing.
pub open spec fn tells(object: Seq<char>, key: Seq<char>, value: Option<&str>) -> bool {
    match value {
        Some(t) => text_member(object, key) == Some(t@),
        None => raw(object, key) == Some("null"@),
    }
}

/// Texts put together in another order.
pub proof fn lemma_thrice(a: Seq<char>, b: Seq<char>, c: Seq<char>)
    ensures
        a + (b + c) == a + b + c,
{
    assert(a + (b + c) =~= a + b + c);
}

/// A literal whose quotes stand in the texts around it.
pub proof fn lemma_joins(a: Seq<char>, content: Seq<char>, b: Seq<char>)
    ensures
        a + seq!['"'] + content + (seq!['"'] + b) == a + (seq!['"'] + content + seq!['"']) + b,
{
    assert(a + seq!['"'] + content + (seq!['"'] + b) =~= a + (seq!['"'] + content + seq!['"']) + b);
}

/// A text without quotes, backslashes and control characters is its own escaped
/// form.
pub proof fn lemma_plain_quoted(s: Seq<char>)
    requires
        forall|i: int|
            0 <= i < s.len() ==> #[trigger] s[i] != '"' && s[i] != '\\' && s[i] >= ' ',
    ensures
        json::json_escaped(s) == s,
        json::json_quoted(s) == seq!['"'] + s + seq!['"'],
    decreases s.len(),
{
    reveal_strlit("\"");
    assert("\""@ =~= seq!['"']);
    if s.len() > 0 {
        let t = s.drop_last();
        assert forall|i: int| 0 <= i < t.len() implies #[trigger] t[i] != '"' && t[i] != '\\' && t[i]
            >= ' ' by {
            assert(t[i] == s[i]);
        }
        lemma_plain_quoted(t);
        assert(s[s.len() - 1] != '"' && s[s.len() - 1] >= ' ');
        assert(json::json_escaped(s) =~= s);
    } else {
        assert(json::json_escaped(s) =~= s);
    }
}

} // verus!

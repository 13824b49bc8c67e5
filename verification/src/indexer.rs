//! The request that submits an `.nzb` to a Newznab-compatible indexer.

use vstd::prelude::*;
use vstd::string::*;

use crate::chars;
use crate::reading;
use crate::text;

verus! {

/// A byte that stands for itself in a query value: an ASCII letter or digit,
/// or one of `-`, `_`, `.` and `~`.
pub open spec fn unreserved(b: u8) -> bool {
    0x41 <= b <= 0x5A || 0x61 <= b <= 0x7A || 0x30 <= b <= 0x39 || b == 0x2D || b == 0x5F || b
        == 0x2E || b == 0x7E
}

/// The encoded form of one byte.
pub open spec fn encoded_byte(b: u8) -> Seq<char> {
    if unreserved(b) {
        seq![b as char]
    } else {
        seq!['%', text::hex_char(b as int / 16), text::hex_char(b as int % 16)]
    }
}

/// The percent-encoded form of some bytes.
pub open spec fn url_encoded(bytes: Seq<u8>) -> Seq<char>
    decreases bytes.len(),
{
    if bytes.len() == 0 {
        Seq::empty()
    } else {
        url_encoded(bytes.drop_last()) + encoded_byte(bytes.last())
    }
}

/// Minimal percent-encoding for query parameter values: every byte of the
/// UTF-8 form that is not unreserved becomes `%` and two hexadecimal digits.
pub fn urlencoded(s: &str) -> (out: String)
    ensures
        out@ == url_encoded(s.spec_bytes()),
{
    let bytes: &[u8] = s.as_bytes();
    let n: usize = bytes.len();
    let mut out: String = String::new();
    let mut i: usize = 0;
    assert(out@ =~= url_encoded(bytes@.take(0)));
    while i < n
        invariant
            i <= n,
            n == bytes@.len(),
            out@ == url_encoded(bytes@.take(i as int)),
        decreases n - i,
    {
        let b: u8 = bytes[i];
        let ghost before = out@;
        if (0x41 <= b && b <= 0x5A) || (0x61 <= b && b <= 0x7A) || (0x30 <= b && b <= 0x39) || b
            == 0x2D || b == 0x5F || b == 0x2E || b == 0x7E {
            out.push(b as char);
        } else {
            out.push('%');
            text::push_hex_fixed(&mut out, b as u64, 2);
            proof {
                reveal_with_fuel(text::hex_fixed, 3);
                assert(text::hex_fixed(b as nat, 2) =~= seq![
                    text::hex_char(b as int / 16),
                    text::hex_char(b as int % 16),
                ]);
            }
        }
        assert(bytes@.take(i + 1).drop_last() =~= bytes@.take(i as int));
        assert(out@ =~= before + encoded_byte(b));
        i = i + 1;
    }
    assert(bytes@.take(n as int) =~= bytes@);
    out
}

/// The value of a hexadecimal digit.
pub open spec fn hex_value(c: char) -> int {
    if c <= '9' {
        c as int - 48
    } else {
        c as int - 87
    }
}

/// What a server reads: the bytes decoded so far, and the digits of an escape
/// that is not complete.
pub open spec fn url_reader(s: Seq<char>) -> (Seq<u8>, Seq<char>)
    decreases s.len(),
{
    if s.len() == 0 {
        (Seq::empty(), Seq::empty())
    } else {
        let (out, pending) = url_reader(s.drop_last());
        let c = s.last();
        if pending.len() == 0 {
            if c == '%' {
                (out, seq!['%'])
            } else {
                (out.push(c as u8), Seq::empty())
            }
        } else if pending.len() == 1 {
            (out, pending.push(c))
        } else {
            (out.push((16 * hex_value(pending[1]) + hex_value(c)) as u8), Seq::empty())
        }
    }
}

/// Decoding gives back the bytes that were encoded.
pub proof fn law_url_reader_undoes_encoding(bytes: Seq<u8>)
    ensures
        url_reader(url_encoded(bytes)) == (bytes, Seq::<char>::empty()),
    decreases bytes.len(),
{
    if bytes.len() > 0 {
        let before = bytes.drop_last();
        law_url_reader_undoes_encoding(before);
        let start = url_encoded(before);
        let b = bytes.last();
        assert(before.push(b) =~= bytes);
        if unreserved(b) {
            assert((start + encoded_byte(b)).drop_last() =~= start);
        } else {
            let h = text::hex_char(b as int / 16);
            let l = text::hex_char(b as int % 16);
            let one = start.push('%');
            let two = one.push(h);
            assert(one.drop_last() =~= start);
            assert(two.drop_last() =~= one);
            assert((start + encoded_byte(b)).drop_last() =~= two);
            assert(url_reader(one) == (before, seq!['%']));
            assert(url_reader(two) == (before, seq!['%'].push(h)));
            assert(16 * hex_value(h) + hex_value(l) == b);
        }
    }
}

/// The encoded form holds only unreserved characters and percent signs, so it
/// cannot end the query value that it stands in.
pub proof fn law_url_encoding_is_safe(bytes: Seq<u8>, i: int)
    requires
        0 <= i < url_encoded(bytes).len(),
    ensures
        url_encoded(bytes)[i] == '%' || (url_encoded(bytes)[i] as u32 <= 0x7F && unreserved(
            url_encoded(bytes)[i] as u8,
        )),
    decreases bytes.len(),
{
    let start = url_encoded(bytes.drop_last());
    if i < start.len() {
        law_url_encoding_is_safe(bytes.drop_last(), i);
    }
}

/// The address that an `.nzb` is sent to.
pub open spec fn upload_address(url: Seq<char>, api_key: Seq<char>, category: Option<&str>) -> Seq<
    char,
> {
    let base = chars::stripped_end(url, '/') + "/api?t=addnzb&apikey="@ + api_key;
    match category {
        Some(c) => base + "&cat="@ + url_encoded(c.spec_bytes()),
        None => base,
    }
}

/// The address that an `.nzb` is sent to: the base address without trailing
/// slashes, the API call with the key, and the category when there is one.
pub fn upload_url(url: &str, api_key: &str, category: Option<&str>) -> (address: String)
    ensures
        address@ == upload_address(url@, api_key@, category),
{
    let all: Vec<char> = text::chars_of(url);
    let mut address: String = text::string_of(chars::strip_end(all.as_slice(), '/'));
    address.append("/api?t=addnzb&apikey=");
    address.append(api_key);
    if let Some(c) = category {
        address.append("&cat=");
        address.append(urlencoded(c).as_str());
    }
    address
}

/// An indexer finds in the address the call, the key and, where there is one, the
/// category.
pub proof fn law_addresses_read_back(url: Seq<char>, api_key: Seq<char>, category: Option<&str>)
    requires
        reading::lacks(url, '?'),
        reading::lacks(api_key, '&'),
    ensures
        ({
            let address = upload_address(url, api_key, category);
            let query = reading::items(reading::tail(address, '?'), '&');
            &&& reading::head(address, '?') == chars::stripped_end(url, '/') + "/api"@
            &&& query.len() == if category is Some {
                3nat
            } else {
                2
            }
            &&& query[0] == "t=addnzb"@
            &&& query[1] == "apikey="@ + api_key
            &&& category matches Some(c) ==> {
                &&& query[2].take(4) == "cat="@
                &&& url_reader(query[2].skip(4)) == (c.spec_bytes(), Seq::<char>::empty())
            }
        }),
{
    reveal_strlit("/api?t=addnzb&apikey=");
    reveal_strlit("&cat=");
    reveal_strlit("/api");
    reveal_strlit("t=addnzb");
    reveal_strlit("apikey=");
    reveal_strlit("cat=");
    let base = chars::stripped_end(url, '/') + "/api"@;
    lemma_stripped_lacks(url, '/', '?');
    let key = "apikey="@ + api_key;
    let two = "t=addnzb"@ + seq!['&'] + key;
    assert(reading::items("t=addnzb"@, '&') == seq!["t=addnzb"@]);
    reading::lemma_items_push("t=addnzb"@, key, '&');
    match category {
        Some(c) => {
            let v = url_encoded(c.spec_bytes());
            let last = "cat="@ + v;
            assert forall|i: int| 0 <= i < last.len() implies #[trigger] last[i] != '&' by {
                if i >= 4 {
                    assert(last[i] == v[i - 4]);
                    law_url_encoding_is_safe(c.spec_bytes(), i - 4);
                }
            }
            reading::lemma_items_push(two, last, '&');
            law_url_reader_undoes_encoding(c.spec_bytes());
            let query = two + seq!['&'] + last;
            assert(upload_address(url, api_key, category) =~= base + seq!['?'] + query);
            reading::lemma_parts(base, '?', query);
            assert(last.take(4) =~= "cat="@);
            assert(last.skip(4) =~= v);
        },
        None => {
            assert(upload_address(url, api_key, category) =~= base + seq!['?'] + two);
            reading::lemma_parts(base, '?', two);
        },
    }
}

proof fn lemma_stripped_lacks(s: Seq<char>, c: char, d: char)
    requires
        reading::lacks(s, d),
    ensures
        reading::lacks(chars::stripped_end(s, c), d),
    decreases s.len(),
{
    if s.len() > 0 && s.last() == c {
        let t = s.drop_last();
        assert forall|i: int| 0 <= i < t.len() implies #[trigger] t[i] != d by {
            assert(t[i] == s[i]);
        }
        lemma_stripped_lacks(t, c, d);
    }
}

} // verus!

//! Requests to indexers.

use pesto::indexer::{upload_url, urlencoded};

#[test]
fn ascii_alphanumeric_passthrough() {
    assert_eq!(urlencoded("ABCxyz019"), "ABCxyz019");
}

#[test]
fn unreserved_chars_passthrough() {
    assert_eq!(urlencoded("-_.~"), "-_.~");
}

#[test]
fn space_encoded() {
    assert_eq!(urlencoded("hello world"), "hello%20world");
}

#[test]
fn slash_encoded() {
    assert_eq!(urlencoded("a/b"), "a%2fb");
}

#[test]
fn at_sign_encoded() {
    assert_eq!(urlencoded("user@host"), "user%40host");
}

#[test]
fn ampersand_encoded() {
    assert_eq!(urlencoded("a&b=c"), "a%26b%3dc");
}

#[test]
fn utf8_multibyte_encoded() {
    // "ã" is U+00E3, encoded as 0xC3 0xA3 in UTF-8.
    assert_eq!(urlencoded("ã"), "%c3%a3");
}

#[test]
fn empty_string() {
    assert_eq!(urlencoded(""), "");
}

#[test]
fn upload_addresses_are_exact() {
    assert_eq!(
        upload_url("https://my.indexer.example//", "KEY", Some("TV > HD")),
        "https://my.indexer.example/api?t=addnzb&apikey=KEY&cat=TV%20%3e%20HD"
    );
    assert_eq!(upload_url("http://i", "k", None), "http://i/api?t=addnzb&apikey=k");
}

#[test]
fn encoded_values_can_be_decoded() {
    let value = "a b&c=d/é~";
    let encoded = urlencoded(value);
    let mut bytes = Vec::new();
    let mut rest = encoded.as_bytes();
    while let Some((&b, tail)) = rest.split_first() {
        if b == b'%' {
            let hex = std::str::from_utf8(&tail[..2]).unwrap();
            bytes.push(u8::from_str_radix(hex, 16).unwrap());
            rest = &tail[2..];
        } else {
            bytes.push(b);
            rest = tail;
        }
    }
    assert_eq!(bytes, value.as_bytes());
}

//! The `.nfo` description of an upload.

use pesto::nfo::{build, build_at, hex_encode, FileDigest, NfoEntry};

#[test]
fn build_contains_expected_fields() {
    let entries = vec![
        NfoEntry { name: "movie.mkv".into(), size: 1 << 30, sha256: "abc".into() },
        NfoEntry { name: "sub.srt".into(), size: 1024, sha256: "def".into() },
    ];
    let text = build("My Upload", &entries);
    assert!(text.contains("My Upload"));
    assert!(text.contains("Files    : 2"));
    assert!(text.contains("movie.mkv"));
    assert!(text.contains("abc"));
    assert!(text.contains("sub.srt"));
}

#[test]
fn digests_of_known_texts() {
    let mut digest = FileDigest::new();
    digest.update(b"a");
    digest.update(b"bc");
    assert_eq!(
        digest.finish(),
        "ba7816bf8f01cfea414140de5dae2223b00361a396177a9cb410ff61f20015ad"
    );
    assert_eq!(
        FileDigest::new().finish(),
        "e3b0c44298fc1c149afbf4c8996fb92427ae41e4649b934ca495991b7852b855"
    );
    assert_eq!(hex_encode(&[0, 15, 255]), "000fff");
}

#[test]
fn sizes_and_date_are_shown() {
    let entries = vec![
        NfoEntry { name: "movie.mkv".into(), size: 1 << 30, sha256: "abc".into() },
        NfoEntry { name: "sub.srt".into(), size: 1024, sha256: "def".into() },
    ];
    let text = build_at("My Upload", &entries, 0);
    assert!(text.contains("1970-01-01"));
    assert!(text.contains("1.00 GiB"));
    assert!(text.contains("1.00 KiB"));
}

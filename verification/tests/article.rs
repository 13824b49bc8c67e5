//! Articles: headers, identifiers and generated names.

use pesto::article::{
    address_from, default_subject, generate_message_id, generate_message_id_at, letters_from,
    message_id_from, obfuscated_from, obfuscated_name, pick_tld, random_from, word_bytes, Article,
    MessageIds,
};

#[test]
fn message_id_is_bracketed_and_domain_qualified() {
    let id = generate_message_id(0);
    assert!(id.starts_with('<') && id.ends_with('>'));
    assert!(id.contains('@'));
}

#[test]
fn message_ids_are_unique() {
    let a = generate_message_id(1);
    let b = generate_message_id(2);
    assert_ne!(a, b);
}

#[test]
fn serialize_emits_headers_then_blank_line_then_body() {
    let article = Article {
        message_id: "<id@pesto>".into(),
        from: "poster <p@example.com>".into(),
        newsgroups: vec!["alt.binaries.test".into(), "alt.binaries.misc".into()],
        subject: "file.bin (1/2)".into(),
    };
    let serialized = String::from_utf8(article.serialize(b"BODY")).unwrap();
    assert!(serialized.contains("From: poster <p@example.com>\r\n"));
    assert!(serialized.contains("Newsgroups: alt.binaries.test,alt.binaries.misc\r\n"));
    assert!(serialized.contains("Subject: file.bin (1/2)\r\n"));
    assert!(serialized.contains("Message-ID: <id@pesto>\r\n"));
    assert!(serialized.ends_with("\r\n\r\nBODY"));
}

#[test]
fn default_subject_handles_single_and_multi_part() {
    assert_eq!(default_subject("file.bin", 1, 1), "file.bin");
    assert_eq!(default_subject("file.bin", 2, 5), "file.bin (2/5)");
}

#[test]
fn random_from_is_address_shaped_and_varied() {
    let a = random_from();
    let b = random_from();
    // `Name <local@domain.tld>` — must carry an `@` so the domain can be
    // extracted for `Message-ID`s.
    assert!(a.contains(" <") && a.ends_with('>') && a.contains('@'));
    assert_ne!(a, b);
}

#[test]
fn obfuscated_name_is_unique_32_hex_chars() {
    let a = obfuscated_name();
    let b = obfuscated_name();
    assert_eq!(a.len(), 32);
    assert!(a.chars().all(|c| c.is_ascii_hexdigit()));
    assert_ne!(a, b);
}

#[test]
fn message_id_is_exact() {
    assert_eq!(
        message_id_from(0x1f, 2, 0xabc, "quiet.net"),
        "<1f.2.abc@quiet.net>"
    );
}

#[test]
fn message_ids_with_different_numbers_differ() {
    // Even at the same time and by the same chance.
    let a = message_id_from(7, 1, 9, "a.com");
    let b = message_id_from(7, 2, 9, "a.com");
    assert_ne!(a, b);
    let numbered = generate_message_id(0x2b);
    assert_eq!(numbered.split('.').nth(1), Some("2b"));
}

#[test]
fn a_fixed_domain_is_kept() {
    let id = generate_message_id_at(3, Some("example.com"));
    assert!(id.ends_with("@example.com>"));
    let id = generate_message_id_at(3, None);
    assert!(id.ends_with(".com>") || id.ends_with(".net>") || id.ends_with(".org>"));
}

#[test]
fn serialized_headers_are_exact() {
    let article = Article {
        message_id: "<a@b>".into(),
        from: "n <l@d.com>".into(),
        newsgroups: vec!["g".into()],
        subject: "s".into(),
    };
    assert_eq!(
        article.serialize(b"x"),
        b"From: n <l@d.com>\r\nNewsgroups: g\r\nSubject: s\r\nMessage-ID: <a@b>\r\n\r\nx"
    );
    assert_eq!(
        article.serialize_with(Some("Thu, 01 Jan 1970 00:00:00 +0000"), true, b"x"),
        b"From: n <l@d.com>\r\nNewsgroups: g\r\nSubject: s\r\nMessage-ID: <a@b>\r\n\
          Date: Thu, 01 Jan 1970 00:00:00 +0000\r\nX-No-Archive: yes\r\n\r\nx"
    );
    assert_eq!(article.serialize_with(None, false, b"x"), article.serialize(b"x"));
}

#[test]
fn names_follow_from_their_words() {
    assert_eq!(
        obfuscated_from(0x0123_4567_89ab_cdef, 0xf),
        "0123456789abcdef000000000000000f"
    );
    assert_eq!(word_bytes(&[0x0807_0605_0403_0201, 9], 9), vec![1, 2, 3, 4, 5, 6, 7, 8, 9]);
    assert_eq!(letters_from(&[0x1b1a_1900], 4), "azab");
    assert_eq!(pick_tld(0), "com");
    assert_eq!(pick_tld(1), "net");
    assert_eq!(pick_tld(2), "org");
    assert_eq!(address_from("name", "local", "domain", "org"), "Name <local@domain.org>");
}

#[test]
fn a_process_repeats_no_message_id() {
    let mut ids = MessageIds::new();
    let mut given: Vec<String> = Vec::new();
    for i in 0..200u64 {
        assert_eq!(ids.count(), i);
        let id = ids.generate(Some("news.example"));
        assert!(id.ends_with("@news.example>"));
        assert_eq!(id.split('.').nth(1), Some(format!("{i:x}").as_str()));
        assert!(!given.contains(&id));
        given.push(id);
    }
    assert!(MessageIds::default().generate(None).contains(".0."));
}

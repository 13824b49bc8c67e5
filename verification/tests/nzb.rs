//! The `.nzb` description of what was posted.

use pesto::nzb::{escape, generate, generate_at, write_file, NzbMeta};
use pesto::poster::PostedSegment;

fn seg(name: &str, part: u32, total: u32, id: &str) -> PostedSegment {
    PostedSegment {
        file_name: name.to_string(),
        subject_name: name.to_string(),
        file_size: 1000,
        part,
        total,
        message_id: id.to_string(),
        bytes: 500,
    }
}

fn no_meta() -> NzbMeta {
    NzbMeta::default()
}

#[test]
fn empty_input_yields_a_well_formed_skeleton() {
    let xml = generate("p <p@x>", &["alt.test".into()], &[], &no_meta());
    assert!(xml.starts_with("<?xml version=\"1.0\""));
    assert!(xml.contains("<nzb xmlns="));
    assert!(xml.trim_end().ends_with("</nzb>"));
    assert!(!xml.contains("<file"));
}

#[test]
fn groups_segments_per_file_and_strips_brackets() {
    let segments = vec![
        seg("a.bin", 1, 2, "<id-a1@pesto>"),
        seg("a.bin", 2, 2, "<id-a2@pesto>"),
        seg("b.bin", 1, 1, "<id-b1@pesto>"),
    ];
    let xml = generate("poster <p@x>", &["alt.test".into()], &segments, &no_meta());

    assert_eq!(xml.matches("<file ").count(), 2);
    assert_eq!(xml.matches("<segment ").count(), 3);
    // Message-IDs appear without angle brackets.
    assert!(xml.contains(">id-a1@pesto</segment>"));
    assert!(!xml.contains("<id-a1@pesto>"));
    assert!(xml.contains("<group>alt.test</group>"));
    assert!(xml.contains("bytes=\"500\" number=\"2\""));
}

#[test]
fn obfuscated_subject_keeps_real_name_in_attribute() {
    let segment = PostedSegment {
        file_name: "secret-movie.mkv".to_string(),
        subject_name: "deadbeefcafe0000".to_string(),
        file_size: 1000,
        part: 1,
        total: 1,
        message_id: "<id@x>".to_string(),
        bytes: 500,
    };
    let xml = generate("poster <p@x>", &["alt.test".into()], &[segment], &no_meta());
    // The subject is the obfuscated name; the real name lives in `name`.
    assert!(xml.contains("subject=\"deadbeefcafe0000\""));
    assert!(xml.contains("name=\"secret-movie.mkv\""));
    assert!(!xml.contains("subject=\"secret-movie.mkv\""));
}

#[test]
fn xml_special_characters_are_escaped() {
    let segments = vec![seg("a&b<c>.bin", 1, 1, "<i@x>")];
    let xml = generate("a \"b\" & <c>", &["alt.test".into()], &segments, &no_meta());
    assert!(xml.contains("poster=\"a &quot;b&quot; &amp; &lt;c&gt;\""));
    assert!(xml.contains("a&amp;b&lt;c&gt;.bin"));
}

#[test]
fn meta_fields_emitted_in_head() {
    let meta = NzbMeta {
        name: Some("My Upload".into()),
        password: Some("s3cr3t".into()),
        category: Some("TV > HD".into()),
    };
    let xml = generate("p <p@x>", &["alt.test".into()], &[], &meta);
    assert!(xml.contains("<meta type=\"name\">My Upload</meta>"));
    assert!(xml.contains("<meta type=\"password\">s3cr3t</meta>"));
    assert!(xml.contains("<meta type=\"category\">TV &gt; HD</meta>"));
}

#[test]
fn no_head_block_when_meta_is_empty() {
    let xml = generate("p <p@x>", &["alt.test".into()], &[], &no_meta());
    assert!(!xml.contains("<head>"));
    assert!(!xml.contains("<meta"));
}

#[test]
fn multi_file_multi_segment_with_par2() {
    let groups = vec!["alt.test".into()];
    let segments = vec![
        seg("movie.mkv", 1, 3, "<a1@x>"),
        seg("movie.mkv", 2, 3, "<a2@x>"),
        seg("movie.mkv", 3, 3, "<a3@x>"),
        seg("movie.par2", 1, 1, "<p1@x>"),
        seg("movie.vol00+01.par2", 1, 1, "<p2@x>"),
    ];
    let xml = generate("poster <p@x>", &groups, &segments, &no_meta());

    // Three distinct <file> blocks.
    assert_eq!(xml.matches("<file ").count(), 3);
    // Five <segment> entries total.
    assert_eq!(xml.matches("<segment ").count(), 5);
    // PAR2 files appear.
    assert!(xml.contains("name=\"movie.par2\""));
    assert!(xml.contains("name=\"movie.vol00+01.par2\""));
    // Multi-part subject rendered correctly for movie.mkv.
    assert!(xml.contains("subject=\"movie.mkv (1/3)\""));
}

#[test]
fn multiple_groups_all_emitted() {
    let groups = vec!["alt.binaries.a".into(), "alt.binaries.b".into()];
    let xml = generate(
        "p <p@x>",
        &groups,
        &[seg("f.bin", 1, 1, "<id@x>")],
        &no_meta(),
    );
    assert!(xml.contains("<group>alt.binaries.a</group>"));
    assert!(xml.contains("<group>alt.binaries.b</group>"));
    assert_eq!(xml.matches("<group>").count(), 2);
}

#[test]
fn single_part_subject_has_no_part_indicator() {
    let xml = generate(
        "p <p@x>",
        &["alt.test".into()],
        &[seg("file.bin", 1, 1, "<id@x>")],
        &no_meta(),
    );
    assert!(xml.contains("subject=\"file.bin\""));
    assert!(!xml.contains("(1/1)"));
}

#[test]
fn only_password_meta_emits_head_without_name_or_category() {
    let meta = NzbMeta {
        name: None,
        password: Some("hunter2".into()),
        category: None,
    };
    let xml = generate("p <p@x>", &["alt.test".into()], &[], &meta);
    assert!(xml.contains("<meta type=\"password\">hunter2</meta>"));
    assert!(!xml.contains("type=\"name\""));
    assert!(!xml.contains("type=\"category\""));
}

#[test]
fn escaping_is_exact_and_can_be_undone() {
    let escaped = escape("a&b<c>\"d\"'e'");
    assert_eq!(escaped, "a&amp;b&lt;c&gt;&quot;d&quot;&apos;e&apos;");
    let back = escaped
        .replace("&lt;", "<")
        .replace("&gt;", ">")
        .replace("&quot;", "\"")
        .replace("&apos;", "'")
        .replace("&amp;", "&");
    assert_eq!(back, "a&b<c>\"d\"'e'");
}

#[test]
fn the_date_is_the_one_given() {
    let xml = generate_at("p", &["g".into()], &[seg("f", 1, 1, "<i@x>")], &no_meta(), 1_700_000_000);
    assert!(xml.contains("date=\"1700000000\""));
}

#[test]
fn a_file_block_is_written_behind_what_is_there() {
    let mut out = String::from("before");
    write_file(&mut out, "p", &["g".into()], 5, &[seg("f", 1, 1, "<i@x>")]);
    assert!(out.starts_with("before"));
    assert!(out.contains("<file "));
    assert!(out.contains("date=\"5\""));
}

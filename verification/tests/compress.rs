//! Archives: formats, tool calls, volumes and passwords.

use pesto::compress::{
    archive_args, archive_file_name, binary_candidates, check_volumes, exit_message,
    password_from, random_password, sorted_volumes, tool_for, ArchiveFormat, VolumeQueue,
};

#[test]
fn random_password_is_24_alphanumeric_chars() {
    let p = random_password();
    assert_eq!(p.len(), 24);
    assert!(
        p.chars().all(|c| c.is_ascii_alphanumeric()),
        "non-alphanumeric: {p}"
    );
}

#[test]
fn random_passwords_are_not_identical() {
    let a = random_password();
    let b = random_password();
    assert_ne!(a, b);
}

#[test]
fn format_round_trips() {
    for (s, expected) in &[
        ("7z", ArchiveFormat::SevenZip),
        ("zip", ArchiveFormat::Zip),
        ("rar", ArchiveFormat::Rar),
    ] {
        assert_eq!(ArchiveFormat::parse(s), Some(*expected));
        assert_eq!(expected.extension(), *s);
    }
    assert_eq!(ArchiveFormat::parse("tar"), None);
}

#[test]
fn formats_are_recognised_in_any_case() {
    assert_eq!(ArchiveFormat::parse("ZiP"), Some(ArchiveFormat::Zip));
    assert_eq!(ArchiveFormat::parse("7Z"), Some(ArchiveFormat::SevenZip));
    assert_eq!(ArchiveFormat::parse(""), None);
    assert_eq!(ArchiveFormat::default(), ArchiveFormat::SevenZip);
}

#[test]
fn compress_volumes_rejects_non_7z_format() {
    let err = check_volumes(ArchiveFormat::Zip).unwrap_err();
    assert!(err.message().contains("7z format"));
    assert_eq!(
        err.message(),
        "--volume-size is only supported with the 7z format (got `zip`)"
    );
    assert!(check_volumes(ArchiveFormat::Rar).is_err());
    assert!(check_volumes(ArchiveFormat::SevenZip).is_ok());
}

#[test]
fn tool_calls_are_exact() {
    let inputs = vec!["x".to_string(), "y z".to_string()];
    assert_eq!(
        archive_args(ArchiveFormat::SevenZip, None, Some("pw"), "/t/archive.7z", &inputs),
        ["a", "-t7z", "-mx=0", "-bd", "-y", "-ppw", "-mhe=on", "/t/archive.7z", "x", "y z"]
    );
    assert_eq!(
        archive_args(ArchiveFormat::SevenZip, Some(600), None, "/t/a", &inputs),
        ["a", "-t7z", "-mx=0", "-bd", "-y", "-v600b", "/t/a", "x", "y z"]
    );
    assert_eq!(
        archive_args(ArchiveFormat::Zip, None, Some("pw"), "/t/s.zip", &inputs),
        ["a", "-tzip", "-mx=0", "-bd", "-y", "-ppw", "/t/s.zip", "x", "y z"]
    );
    assert_eq!(
        archive_args(ArchiveFormat::Rar, None, Some("pw"), "/t/s.rar", &[]),
        ["a", "-m0", "-ep1", "-inul", "-hppw", "/t/s.rar"]
    );
    assert_eq!(tool_for(ArchiveFormat::Zip), "7z");
    assert_eq!(tool_for(ArchiveFormat::Rar), "rar");
}

#[test]
fn archives_are_named_by_format() {
    assert_eq!(archive_file_name("stem", ArchiveFormat::SevenZip), "stem.7z");
    assert_eq!(archive_file_name("movie", ArchiveFormat::SevenZip), "movie.7z");
    assert_eq!(archive_file_name("stem", ArchiveFormat::Zip), "stem.zip");
    assert_eq!(archive_file_name("stem", ArchiveFormat::Rar), "stem.rar");
}

#[test]
fn failures_quote_the_tool() {
    assert_eq!(
        exit_message("7z", "exit status: 2", " disk full\n"),
        "`7z` exited with exit status: 2: disk full"
    );
    assert_eq!(exit_message("rar", "exit status: 1", "\n"), "`rar` exited with exit status: 1");
}

#[test]
fn volumes_are_listed_in_order() {
    let names: Vec<String> = ["archive.7z.003", "other", "archive.7z.001", "archive.7z", "archive.7z.002"]
        .iter()
        .map(|s| s.to_string())
        .collect();
    assert_eq!(
        sorted_volumes(&names),
        ["archive.7z.001", "archive.7z.002", "archive.7z.003"]
    );
}

#[test]
fn volumes_are_handed_on_once_complete() {
    let mut queue = VolumeQueue::new();
    assert_eq!(queue.next(0, false), None);
    assert_eq!(queue.next(1, false), None);
    assert_eq!(queue.next(3, false), Some(0));
    assert_eq!(queue.next(3, false), Some(1));
    assert_eq!(queue.next(3, false), None);
    assert_eq!(queue.next(3, true), Some(2));
    assert_eq!(queue.next(3, true), None);
}

#[test]
fn tools_are_searched_along_the_path() {
    assert_eq!(binary_candidates("/bin:/usr/bin/::x", "7z"), ["/bin/7z", "/usr/bin/7z", "7z", "x/7z"]);
    assert_eq!(binary_candidates("", "rar"), ["rar"]);
    // A path from the root stands for itself.
    assert_eq!(binary_candidates("/bin:x", "/opt/7z"), ["/opt/7z", "/opt/7z"]);
}

#[test]
fn passwords_follow_from_their_words() {
    let p = password_from(&[0x3d_34_33_1a_19_01_00_3e, 0, 0xff]);
    assert_eq!(p, "AABZaz09AAAAAAAAHAAAAAAA");
}

#[test]
fn volumes_beyond_three_digits_keep_their_order() {
    let numbers = [1000, 101, 999, 1, 1001];
    let mut names: Vec<String> = numbers.iter().map(|n| format!("archive.7z.{n:03}")).collect();
    names.push("archive.7z.tmp".to_string());
    names.push("archive.7z.".to_string());
    assert_eq!(
        sorted_volumes(&names),
        ["archive.7z.001", "archive.7z.101", "archive.7z.999", "archive.7z.1000", "archive.7z.1001"]
    );
}

#[test]
fn every_volume_is_handed_on_once() {
    let mut queue = VolumeQueue::new();
    let mut handed: Vec<String> = Vec::new();
    let mut names: Vec<String> = Vec::new();
    for number in 1..=1100 {
        names.insert(0, format!("archive.7z.{number:03}"));
        let volumes = sorted_volumes(&names[..]);
        while let Some(i) = queue.next(volumes.len(), number == 1100) {
            handed.push(volumes[i].clone());
        }
    }
    let expected: Vec<String> = (1..=1100).map(|n| format!("archive.7z.{n:03}")).collect();
    assert_eq!(handed, expected);
}

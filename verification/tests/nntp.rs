//! The client side of NNTP: responses, commands and payloads.

use pesto::nntp::{
    after_article, after_password, after_post_command, after_stat, after_user, check_greeting,
    command_line, dot_stuff, post_payload, stat_command, user_command, AuthStep, Response,
};

#[test]
fn parses_well_formed_responses() {
    let r = Response::parse("200 posting allowed\r\n").unwrap();
    assert_eq!(r.code, 200);
    assert_eq!(r.text, "posting allowed");

    let r = Response::parse("381\r\n").unwrap();
    assert_eq!(r.code, 381);
    assert_eq!(r.text, "");
}

#[test]
fn rejects_malformed_responses() {
    assert!(Response::parse("xx oops\r\n").is_err());
    assert!(Response::parse("\r\n").is_err());
}

#[test]
fn parses_response_with_no_trailing_text() {
    let r = Response::parse("240\r\n").unwrap();
    assert_eq!(r.code, 240);
    assert_eq!(r.text, "");
}

#[test]
fn parses_response_without_line_ending() {
    // Bare response line (no \r\n) should still parse.
    let r = Response::parse("200 ok").unwrap();
    assert_eq!(r.code, 200);
    assert_eq!(r.text, "ok");
}

#[test]
fn dot_stuffs_lines_starting_with_dot() {
    let mut out = Vec::new();
    dot_stuff(b".hello\r\nworld\r\n.dot\r\n", &mut out);
    assert_eq!(out, b"..hello\r\nworld\r\n..dot\r\n");
}

#[test]
fn dot_stuff_leaves_other_lines_untouched() {
    let mut out = Vec::new();
    dot_stuff(b"a.b\r\nc\r\n", &mut out);
    assert_eq!(out, b"a.b\r\nc\r\n");
}

#[test]
fn dot_stuff_empty_input_produces_empty_output() {
    let mut out = Vec::new();
    dot_stuff(b"", &mut out);
    assert!(out.is_empty());
}

#[test]
fn dot_stuff_single_dot_at_buffer_start() {
    // A single `.` with no newline — the very first byte is at line start.
    let mut out = Vec::new();
    dot_stuff(b".", &mut out);
    assert_eq!(out, b"..");
}

#[test]
fn dot_stuff_consecutive_dot_lines() {
    let mut out = Vec::new();
    dot_stuff(b".a\r\n.b\r\n", &mut out);
    assert_eq!(out, b"..a\r\n..b\r\n");
}

fn reply(line: &str) -> Response {
    Response::parse(line).unwrap()
}

#[test]
fn authenticate_accepted_without_password() {
    let step = after_user(reply("281 Authentication accepted\r\n")).unwrap();
    assert_eq!(step, AuthStep::Accepted);
}

#[test]
fn authenticate_requires_and_then_accepts_password() {
    let step = after_user(reply("381 Password required\r\n")).unwrap();
    assert_eq!(step, AuthStep::SendPassword);
    assert!(after_password(reply("281 Authentication accepted\r\n")).is_ok());
}

#[test]
fn authenticate_user_rejected_returns_error() {
    let err = after_user(reply("502 Service permanently unavailable\r\n")).unwrap_err();
    assert!(err.message().contains("AUTHINFO USER rejected"));
}

#[test]
fn authenticate_password_rejected_returns_error() {
    let err = after_password(reply("481 Authentication failed\r\n")).unwrap_err();
    assert!(err.message().contains("authentication rejected"));
}

#[test]
fn post_succeeds_on_240() {
    assert!(after_post_command(reply("340 Send article\r\n")).is_ok());
    assert!(after_article(reply("240 Article received\r\n")).is_ok());
}

#[test]
fn post_not_permitted_returns_error() {
    let err = after_post_command(reply("440 Posting not permitted\r\n")).unwrap_err();
    assert!(err.message().contains("POST not permitted"));
}

#[test]
fn post_rejected_441_returns_error() {
    let err = after_article(reply("441 Posting failed\r\n")).unwrap_err();
    assert!(err.message().contains("441"));
}

#[test]
fn stat_article_found_returns_true() {
    assert!(after_stat(reply("223 0 <mid@host> Article exists\r\n")).unwrap());
}

#[test]
fn stat_article_not_found_returns_false() {
    assert!(!after_stat(reply("430 No such article\r\n")).unwrap());
}

#[test]
fn stat_unexpected_code_returns_error() {
    let err = after_stat(reply("503 Program fault\r\n")).unwrap_err();
    assert!(err.message().contains("unexpected STAT response"));
}

#[test]
fn greetings_other_than_200_and_201_are_refused() {
    assert!(check_greeting(reply("200 hello\r\n")).is_ok());
    assert!(check_greeting(reply("201 no posting\r\n")).is_ok());
    assert!(check_greeting(reply("400 busy\r\n")).unwrap_err().message().contains("400"));
}

#[test]
fn commands_end_with_a_line_end() {
    assert_eq!(command_line("QUIT", ""), b"QUIT\r\n");
    assert_eq!(user_command("alice"), "AUTHINFO USER alice");
    assert_eq!(stat_command("a@b"), "STAT <a@b>");
}

#[test]
fn payloads_are_stuffed_and_terminated() {
    assert_eq!(post_payload(b"a\r\n.b\r\n"), b"a\r\n..b\r\n.\r\n");
    // An article without a line end gets one before the terminator.
    assert_eq!(post_payload(b"a"), b"a\r\n.\r\n");
}

#[test]
fn stuffing_can_be_undone() {
    let article = b".\r\n..\r\na\r\n.x.\r\n";
    let payload = post_payload(article);
    let mut received = Vec::new();
    for line in payload[..payload.len() - 3].split_inclusive(|&b| b == b'\n') {
        assert_ne!(line, b".\r\n");
        received.extend_from_slice(line.strip_prefix(b".").unwrap_or(line));
    }
    assert_eq!(received, article);
}

#[test]
fn a_status_code_has_three_digits() {
    for line in ["+20 x", "20 x", "2 0 x", "-20 x", "20", "２００ x"] {
        assert!(Response::parse(line).is_err(), "{line}");
    }
    let r = Response::parse("020 x\r\n").unwrap();
    assert_eq!((r.code, r.text.as_str()), (20, "x"));
}

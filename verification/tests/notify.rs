//! Notifications: messages, addresses and requests.

use pesto::json::{json_opt, json_str, json_string};
use pesto::notify::{
    check_answer, ntfy_message, parse_url, request_head, webhook_body, webhook_message,
    NotifyConfig, NotifyError,
};

#[test]
fn json_string_escapes_special_chars() {
    assert_eq!(json_string(r#"say "hi""#), r#""say \"hi\"""#);
    assert_eq!(json_string("a\\b"), r#""a\\b""#);
}

#[test]
fn notify_json_opt_none_is_null() {
    assert_eq!(json_opt(None), "null");
    assert_eq!(json_opt(Some("foo")), r#""foo""#);
}

fn config(ok: bool) -> NotifyConfig<'static> {
    NotifyConfig {
        webhook_url: None,
        ntfy_topic: None,
        name: "My \"Upload\"",
        total_bytes: 1_610_612_736,
        group: Some("alt.test"),
        category: Some("TV"),
        ok,
    }
}

#[test]
fn line_ends_are_escaped() {
    assert_eq!(json_str("a\nb\rc"), "a\\nb\\rc");
    assert_eq!(json_str("\ta\u{0}\u{1}\u{1f} \u{7f}"), "\\ta\\u0000\\u0001\\u001f \u{7f}");
}

#[test]
fn messages_are_exact() {
    assert_eq!(
        webhook_message(&config(true)),
        "✅ Upload concluído: My \"Upload\" [TV] (1.50 GB) → alt.test"
    );
    let mut cfg = config(false);
    cfg.group = None;
    cfg.category = None;
    assert_eq!(webhook_message(&cfg), "❌ Upload com falhas: My \"Upload\" (1.50 GB)");
}

#[test]
fn bodies_fit_the_webhook() {
    let mut cfg = config(true);
    cfg.name = "n";
    cfg.category = None;
    let msg = "✅ Upload concluído: n (1.50 GB) → alt.test";
    assert_eq!(
        webhook_body("https://discord.com/api/webhooks/1", &cfg),
        format!("{{\"content\":\"{msg}\"}}")
    );
    assert_eq!(
        webhook_body("https://hooks.slack.com/x", &cfg),
        format!("{{\"text\":\"{msg}\"}}")
    );
    assert_eq!(
        webhook_body("https://api.telegram.org/x", &cfg),
        format!("{{\"text\":\"{msg}\"}}")
    );
    assert_eq!(
        webhook_body("https://example.com/hook", &cfg),
        format!(
            "{{\"message\":\"{msg}\",\"nome\":\"n\",\"tamanho_bytes\":1610612736,\
             \"grupo\":\"alt.test\",\"categoria\":null,\"ok\":true}}"
        )
    );
}

#[test]
fn topics_are_names_or_addresses() {
    let message = ntfy_message("my-topic", &config(false));
    assert_eq!(message.url, "https://ntfy.sh/my-topic");
    assert_eq!(message.title, "❌ pesto: upload com falhas");
    assert_eq!(message.body, "My \"Upload\" (1.50 GB) → alt.test");
    assert_eq!(message.priority, "high");
    assert_eq!(message.tags, "x");
    let message = ntfy_message("http://host/t", &config(true));
    assert_eq!(message.url, "http://host/t");
    assert_eq!(message.title, "✅ pesto: upload concluído");
    assert_eq!(message.priority, "default");
    assert_eq!(message.tags, "white_check_mark");
}

#[test]
fn addresses_are_taken_apart() {
    let t = parse_url("https://host.example:8443/a/b?c").unwrap();
    assert!(t.tls);
    assert_eq!((t.host.as_str(), t.port, t.path.as_str()), ("host.example", 8443, "/a/b?c"));
    let t = parse_url("http://host").unwrap();
    assert!(!t.tls);
    assert_eq!((t.host.as_str(), t.port, t.path.as_str()), ("host", 80, "/"));
    assert_eq!(parse_url("https://h/").unwrap().port, 443);
}

#[test]
fn bad_addresses_are_refused() {
    let err = parse_url("host/path").unwrap_err();
    assert!(matches!(err, NotifyError::MissingScheme));
    assert_eq!(err.message(), "invalid URL: missing scheme");
    let err = parse_url("ftp://host").unwrap_err();
    assert_eq!(err.message(), "unsupported scheme `ftp`");
    let err = parse_url("http://host:99999/").unwrap_err();
    assert!(matches!(err, NotifyError::InvalidPort));
    assert_eq!(err.message(), "invalid port");
}

#[test]
fn request_heads_are_exact() {
    let target = parse_url("http://h:81/p").unwrap();
    assert_eq!(
        request_head(&target, "text/plain", 5, &[("Title", "t"), ("Tags", "x")]),
        "POST /p HTTP/1.1\r\nHost: h\r\nContent-Type: text/plain\r\nContent-Length: 5\r\n\
         Connection: close\r\nTitle: t\r\nTags: x\r\n\r\n"
    );
}

#[test]
fn answers_are_judged_by_their_status() {
    assert!(check_answer("HTTP/1.1 200 OK\r\n", "u").is_ok());
    assert!(check_answer("HTTP/1.1 302 Found\r\n", "u").is_ok());
    let err = check_answer("HTTP/1.1 404 Not Found\r\n", "http://u").unwrap_err();
    assert_eq!(err.message(), "HTTP 404 from http://u");
    assert!(check_answer("", "u").is_err());
    assert!(check_answer("HTTP/1.1 ok", "u").is_err());
}

//! Completion notifications: webhook (Discord / Slack / Telegram / generic)
//! and ntfy.sh topics.
//!
//! Builds the messages and the HTTP requests that carry them, and judges the
//! answers.

use vstd::prelude::*;
use vstd::string::*;

use crate::chars;
use crate::json;
use crate::json_reading;
use crate::reading;
use crate::scan;
use crate::sizes;
use crate::text;

verus! {

/// Configuration for one notification run.
pub struct NotifyConfig<'a> {
    pub webhook_url: Option<&'a str>,
    pub ntfy_topic: Option<&'a str>,
    /// Name of the uploaded content.
    pub name: &'a str,
    /// Total bytes (data + PAR2).
    pub total_bytes: u64,
    /// Newsgroup(s) the content was posted to.
    pub group: Option<&'a str>,
    /// Detected or configured category.
    pub category: Option<&'a str>,
    /// Whether the upload finished without errors.
    pub ok: bool,
}

/// The group behind an arrow, or nothing.
pub open spec fn group_text(group: Option<&str>) -> Seq<char> {
    match group {
        Some(g) => " → "@ + g@,
        None => ""@,
    }
}

/// The category in brackets, or nothing.
pub open spec fn category_text(category: Option<&str>) -> Seq<char> {
    match category {
        Some(c) => " ["@ + c@ + "]"@,
        None => ""@,
    }
}

/// The message of a webhook.
pub open spec fn message_text(cfg: &NotifyConfig<'_>) -> Seq<char> {
    (if cfg.ok {
        "✅ Upload concluído: "@
    } else {
        "❌ Upload com falhas: "@
    }) + cfg.name@ + category_text(cfg.category) + " ("@ + sizes::gigabytes_text(
        cfg.total_bytes as nat,
    ) + ")"@ + group_text(cfg.group)
}

/// What a webhook expects.
#[derive(Debug, Clone, Copy, PartialEq, Eq, Structural)]
pub enum WebhookKind {
    /// `{"content": ..}`
    Discord,
    /// `{"text": ..}`, as Slack and Telegram take it.
    Text,
    /// A rich object.
    Generic,
}

/// What the webhook behind an address expects.
pub open spec fn kind_of(url: Seq<char>) -> WebhookKind {
    if chars::occurs(url, "discord.com/api/webhooks"@) || chars::occurs(
        url,
        "discordapp.com/api/webhooks"@,
    ) {
        WebhookKind::Discord
    } else if chars::occurs(url, "hooks.slack.com"@) || chars::occurs(url, "api.telegram.org"@) {
        WebhookKind::Text
    } else {
        WebhookKind::Generic
    }
}

/// The JSON body of a webhook call.
pub open spec fn webhook_text(url: Seq<char>, cfg: &NotifyConfig<'_>) -> Seq<char> {
    let msg = message_text(cfg);
    match kind_of(url) {
        WebhookKind::Discord => "{\"content\":"@ + json::json_quoted(msg) + "}"@,
        WebhookKind::Text => "{\"text\":"@ + json::json_quoted(msg) + "}"@,
        WebhookKind::Generic => "{\"message\":"@ + json::json_quoted(msg) + ",\"nome\":"@
            + json::json_quoted(cfg.name@) + ",\"tamanho_bytes\":"@ + text::decimal(
            cfg.total_bytes as nat,
        ) + ",\"grupo\":"@ + json::json_value(cfg.group) + ",\"categoria\":"@ + json::json_value(
            cfg.category,
        ) + ",\"ok\":"@ + json::bool_text(cfg.ok) + "}"@,
    }
}

fn contains(s: &[char], pat: &str) -> (r: bool)
    ensures
        r == chars::occurs(s@, pat@),
{
    chars::contains(s, text::chars_of(pat).as_slice())
}

fn push_group(out: &mut String, group: Option<&str>)
    ensures
        final(out)@ == old(out)@ + group_text(group),
{
    match group {
        Some(g) => {
            let mut tail: String = String::from_str(" → ");
            tail.append(g);
            out.append(tail.as_str());
        },
        None => {
            out.append("");
        },
    }
}

/// The message of a webhook.
pub fn webhook_message(cfg: &NotifyConfig<'_>) -> (message: String)
    ensures
        message@ == message_text(cfg),
{
    let mut message: String = String::from_str(
        if cfg.ok {
            "✅ Upload concluído: "
        } else {
            "❌ Upload com falhas: "
        },
    );
    message.append(cfg.name);
    match cfg.category {
        Some(c) => {
            let mut tail: String = String::from_str(" [");
            tail.append(c);
            tail.append("]");
            message.append(tail.as_str());
        },
        None => {
            message.append("");
        },
    }
    message.append(" (");
    message.append(sizes::format_gigabytes(cfg.total_bytes).as_str());
    message.append(")");
    push_group(&mut message, cfg.group);
    message
}

/// The JSON body of a call of the webhook at `url`, adapted for Discord, Slack,
/// Telegram, and generic webhooks.
pub fn webhook_body(url: &str, cfg: &NotifyConfig<'_>) -> (body: String)
    ensures
        body@ == webhook_text(url@, cfg),
{
    let address: Vec<char> = text::chars_of(url);
    let a: &[char] = address.as_slice();
    let message: String = webhook_message(cfg);
    let quoted: String = json::json_string(message.as_str());
    if contains(a, "discord.com/api/webhooks") || contains(a, "discordapp.com/api/webhooks") {
        let mut body: String = String::from_str("{\"content\":");
        body.append(quoted.as_str());
        body.append("}");
        body
    } else if contains(a, "hooks.slack.com") || contains(a, "api.telegram.org") {
        let mut body: String = String::from_str("{\"text\":");
        body.append(quoted.as_str());
        body.append("}");
        body
    } else {
        let mut body: String = String::from_str("{\"message\":");
        body.append(quoted.as_str());
        body.append(",\"nome\":");
        body.append(json::json_string(cfg.name).as_str());
        body.append(",\"tamanho_bytes\":");
        text::push_decimal(&mut body, cfg.total_bytes);
        body.append(",\"grupo\":");
        body.append(json::json_opt(cfg.group).as_str());
        body.append(",\"categoria\":");
        body.append(json::json_opt(cfg.category).as_str());
        body.append(",\"ok\":");
        body.append(
            if cfg.ok {
                "true"
            } else {
                "false"
            },
        );
        body.append("}");
        body
    }
}

/// A notification for an ntfy.sh topic.
pub struct NtfyMessage {
    pub url: String,
    pub title: String,
    pub body: String,
    pub priority: &'static str,
    pub tags: &'static str,
}

/// The address of a topic: a full one as it is, a name under ntfy.sh.
pub open spec fn topic_url(topic: Seq<char>) -> Seq<char> {
    if scan::starts_with(topic, "http://"@) || scan::starts_with(topic, "https://"@) {
        topic
    } else {
        "https://ntfy.sh/"@ + topic
    }
}

/// The notification for an ntfy.sh topic.
pub fn ntfy_message(topic: &str, cfg: &NotifyConfig<'_>) -> (message: NtfyMessage)
    ensures
        message.url@ == topic_url(topic@),
        message.title@ == if cfg.ok {
            "✅ pesto: upload concluído"@
        } else {
            "❌ pesto: upload com falhas"@
        },
        message.body@ == cfg.name@ + " ("@ + sizes::gigabytes_text(cfg.total_bytes as nat) + ")"@
            + group_text(cfg.group),
        message.priority@ == if cfg.ok {
            "default"@
        } else {
            "high"@
        },
        message.tags@ == if cfg.ok {
            "white_check_mark"@
        } else {
            "x"@
        },
{
    let t: Vec<char> = text::chars_of(topic);
    let plain: Vec<char> = text::chars_of("http://");
    let secure: Vec<char> = text::chars_of("https://");
    let url: String = if scan::begins_with(t.as_slice(), plain.as_slice()) || scan::begins_with(
        t.as_slice(),
        secure.as_slice(),
    ) {
        String::from_str(topic)
    } else {
        let mut full: String = String::from_str("https://ntfy.sh/");
        full.append(topic);
        full
    };
    let mut body: String = String::from_str(cfg.name);
    body.append(" (");
    body.append(sizes::format_gigabytes(cfg.total_bytes).as_str());
    body.append(")");
    push_group(&mut body, cfg.group);
    NtfyMessage {
        url,
        title: String::from_str(
            if cfg.ok {
                "✅ pesto: upload concluído"
            } else {
                "❌ pesto: upload com falhas"
            },
        ),
        body,
        priority: if cfg.ok {
            "default"
        } else {
            "high"
        },
        tags: if cfg.ok {
            "white_check_mark"
        } else {
            "x"
        },
    }
}

/// Why a notification could not be delivered.
#[derive(Debug)]
pub enum NotifyError {
    /// The address has no scheme.
    MissingScheme,
    /// The address has a scheme other than `http` and `https`.
    UnsupportedScheme { scheme: String },
    /// What stands behind the host is no port.
    InvalidPort,
    /// The server did not take the notification.
    Status { status: u16, url: String },
}

impl NotifyError {
    /// What went wrong, in words.
    pub fn message(&self) -> (message: String)
        ensures
            message@ == match *self {
                NotifyError::MissingScheme => "invalid URL: missing scheme"@,
                NotifyError::UnsupportedScheme { scheme } => "unsupported scheme `"@ + scheme@
                    + "`"@,
                NotifyError::InvalidPort => "invalid port"@,
                NotifyError::Status { status, url } => "HTTP "@ + text::decimal(status as nat)
                    + " from "@ + url@,
            },
    {
        match self {
            NotifyError::MissingScheme => String::from_str("invalid URL: missing scheme"),
            NotifyError::UnsupportedScheme { scheme } => {
                let mut message: String = String::from_str("unsupported scheme `");
                message.append(scheme.as_str());
                message.append("`");
                message
            },
            NotifyError::InvalidPort => String::from_str("invalid port"),
            NotifyError::Status { status, url } => {
                let mut message: String = String::from_str("HTTP ");
                text::push_decimal(&mut message, *status as u64);
                message.append(" from ");
                message.append(url.as_str());
                message
            },
        }
    }
}

/// The parts of an address.
#[derive(Debug)]
pub struct Target {
    pub tls: bool,
    pub host: String,
    pub port: u16,
    pub path: String,
}

/// What stands before `://`.
pub open spec fn scheme_of(url: Seq<char>) -> Seq<char> {
    url.take(chars::text_index(url, "://"@))
}

/// What stands behind `://`.
pub open spec fn rest_of(url: Seq<char>) -> Seq<char> {
    url.skip(chars::text_index(url, "://"@) + 3)
}

/// What stands before the path.
pub open spec fn authority_of(url: Seq<char>) -> Seq<char> {
    rest_of(url).take(chars::first_index(rest_of(url), '/'))
}

/// The path, at least a slash.
pub open spec fn path_of(url: Seq<char>) -> Seq<char> {
    if chars::first_index(rest_of(url), '/') < rest_of(url).len() {
        rest_of(url).skip(chars::first_index(rest_of(url), '/'))
    } else {
        "/"@
    }
}

/// A port is given.
pub open spec fn names_port(url: Seq<char>) -> bool {
    chars::first_index(authority_of(url), ':') < authority_of(url).len()
}

/// The port that is given, where it is one.
pub open spec fn given_port(url: Seq<char>) -> Option<nat> {
    scan::number_in(
        authority_of(url).skip(chars::first_index(authority_of(url), ':') + 1),
        65535,
    )
}

/// The host, without the port.
pub open spec fn host_of(url: Seq<char>) -> Seq<char> {
    authority_of(url).take(chars::first_index(authority_of(url), ':'))
}

/// The scheme of an address is one that can be spoken.
pub open spec fn is_supported(url: Seq<char>) -> bool {
    scheme_of(url) == "https"@ || scheme_of(url) == "http"@
}

/// Take an address apart. Without a port, that of the scheme counts.
pub fn parse_url(url: &str) -> (r: Result<Target, NotifyError>)
    ensures
        match r {
            Ok(t) => {
                &&& chars::text_index(url@, "://"@) >= 0
                &&& is_supported(url@)
                &&& t.tls == (scheme_of(url@) == "https"@)
                &&& t.host@ == host_of(url@)
                &&& t.path@ == path_of(url@)
                &&& names_port(url@) ==> given_port(url@) == Some(t.port as nat)
                &&& !names_port(url@) ==> t.port == if t.tls {
                    443u16
                } else {
                    80u16
                }
            },
            Err(NotifyError::MissingScheme) => chars::text_index(url@, "://"@) < 0,
            Err(NotifyError::UnsupportedScheme { scheme }) => {
                &&& chars::text_index(url@, "://"@) >= 0
                &&& !is_supported(url@)
                &&& scheme@ == scheme_of(url@)
            },
            Err(NotifyError::InvalidPort) => {
                &&& chars::text_index(url@, "://"@) >= 0
                &&& is_supported(url@)
                &&& names_port(url@)
                &&& given_port(url@) is None
            },
            Err(NotifyError::Status { .. }) => false,
        },
{
    let all: Vec<char> = text::chars_of(url);
    let a: &[char] = all.as_slice();
    let n: usize = all.len();
    let separator: Vec<char> = text::chars_of("://");
    proof {
        reveal_strlit("://");
        reveal_strlit("/");
    }
    let k: usize = match chars::find_text(a, separator.as_slice()) {
        Some(k) => k,
        None => {
            return Err(NotifyError::MissingScheme);
        },
    };
    let scheme: &[char] = chars::part(a, 0, k);
    assert(scheme@ =~= scheme_of(url@));
    let rest: &[char] = chars::part(a, k + 3, n);
    assert(rest@ =~= rest_of(url@));
    let tls: bool = chars::equal(scheme, text::chars_of("https").as_slice());
    if !tls && !chars::equal(scheme, text::chars_of("http").as_slice()) {
        return Err(NotifyError::UnsupportedScheme { scheme: text::string_of(scheme) });
    }
    let len: usize = rest.len();
    let slash: usize = chars::find(rest, '/');
    let authority: &[char] = chars::part(rest, 0, slash);
    assert(authority@ =~= authority_of(url@));
    let path: String = if slash < len {
        let tail: &[char] = chars::part(rest, slash, len);
        assert(tail@ =~= path_of(url@));
        text::string_of(tail)
    } else {
        String::from_str("/")
    };
    let colon: usize = chars::find(authority, ':');
    let host: &[char] = chars::part(authority, 0, colon);
    assert(host@ =~= host_of(url@));
    let port: u16 = if colon < slash {
        let digits: &[char] = chars::part(authority, colon + 1, slash);
        assert(digits@ =~= authority@.skip(colon + 1));
        match scan::parse_number(digits, 65535) {
            Some(p) => p as u16,
            None => {
                return Err(NotifyError::InvalidPort);
            },
        }
    } else if tls {
        443
    } else {
        80
    };
    Ok(Target { tls, host: text::string_of(host), port, path })
}

/// Header lines, each ended.
pub open spec fn headers_text(headers: Seq<(&str, &str)>) -> Seq<char>
    decreases headers.len(),
{
    if headers.len() == 0 {
        Seq::empty()
    } else {
        headers_text(headers.drop_last()) + headers.last().0@ + ": "@ + headers.last().1@ + "\r\n"@
    }
}

/// The head of a POST request.
pub open spec fn request_text(
    path: Seq<char>,
    host: Seq<char>,
    content_type: Seq<char>,
    len: nat,
    extra: Seq<(&str, &str)>,
) -> Seq<char> {
    "POST "@ + path + " HTTP/1.1\r\nHost: "@ + host + "\r\nContent-Type: "@ + content_type
        + "\r\nContent-Length: "@ + text::decimal(len) + "\r\nConnection: close\r\n"@
        + headers_text(extra) + "\r\n"@
}

fn format_headers(headers: &[(&str, &str)]) -> (s: String)
    ensures
        s@ == headers_text(headers@),
{
    let n: usize = headers.len();
    let mut s: String = String::new();
    let mut i: usize = 0;
    assert(s@ =~= headers_text(headers@.take(0)));
    while i < n
        invariant
            i <= n,
            n == headers@.len(),
            s@ == headers_text(headers@.take(i as int)),
        decreases n - i,
    {
        assert(headers@.take(i + 1).drop_last() =~= headers@.take(i as int));
        s.append(headers[i].0);
        s.append(": ");
        s.append(headers[i].1);
        s.append("\r\n");
        i = i + 1;
    }
    assert(headers@.take(n as int) =~= headers@);
    s
}

/// The head of a POST request for a body of `len` bytes, up to and including
/// the blank line.
pub fn request_head(target: &Target, content_type: &str, len: usize, extra: &[(&str, &str)]) -> (
head: String)
    ensures
        head@ == request_text(target.path@, target.host@, content_type@, len as nat, extra@),
{
    let mut head: String = String::from_str("POST ");
    head.append(target.path.as_str());
    head.append(" HTTP/1.1\r\nHost: ");
    head.append(target.host.as_str());
    head.append("\r\nContent-Type: ");
    head.append(content_type);
    head.append("\r\nContent-Length: ");
    text::push_decimal(&mut head, len as u64);
    head.append("\r\nConnection: close\r\n");
    head.append(format_headers(extra).as_str());
    head.append("\r\n");
    head
}

/// The status of an answer: its second word, or 0 where that is no status.
pub open spec fn status_of(answer: Seq<char>) -> nat {
    let words = scan::words_of(answer);
    if words.len() > 1 {
        match scan::number_in(words[1], 65535) {
            Some(status) => status,
            None => 0,
        }
    } else {
        0
    }
}

/// Judge the answer of the server at `url`: statuses below 400 are fine.
pub fn check_answer(answer: &str, url: &str) -> (r: Result<(), NotifyError>)
    ensures
        match r {
            Ok(_) => 0 < status_of(answer@) < 400,
            Err(NotifyError::Status { status, url: at }) => {
                &&& status == status_of(answer@)
                &&& status == 0 || status >= 400
                &&& at@ == url@
            },
            Err(_) => false,
        },
{
    let all: Vec<char> = text::chars_of(answer);
    let words: Vec<Vec<char>> = scan::words(all.as_slice());
    let status: u16 = if words.len() > 1 {
        match scan::parse_number(words[1].as_slice(), 65535) {
            Some(status) => status as u16,
            None => 0,
        }
    } else {
        0
    };
    if status == 0 || status >= 400 {
        return Err(NotifyError::Status { status, url: String::from_str(url) });
    }
    Ok(())
}

/// The parts of an address make up the address.
pub proof fn law_address_parts_are_complete(url: Seq<char>)
    requires
        chars::text_index(url, "://"@) >= 0,
    ensures
        url == scheme_of(url) + "://"@ + rest_of(url),
        chars::first_index(rest_of(url), '/') < rest_of(url).len() ==> rest_of(url) == authority_of(
            url,
        ) + path_of(url),
        names_port(url) ==> authority_of(url) == host_of(url) + ":"@ + authority_of(url).skip(
            chars::first_index(authority_of(url), ':') + 1,
        ),
        !names_port(url) ==> authority_of(url) == host_of(url),
{
    reveal_strlit("://");
    reveal_strlit(":");
    lemma_text_index(url, "://"@);
    let k = chars::text_index(url, "://"@);
    assert(url =~= scheme_of(url) + "://"@ + rest_of(url)) by {
        assert(url.subrange(k, k + 3) == "://"@);
    }
    let rest = rest_of(url);
    chars::lemma_first_index(rest, '/');
    let slash = chars::first_index(rest, '/');
    if slash < rest.len() {
        assert(rest =~= rest.take(slash) + rest.skip(slash));
    }
    let authority = authority_of(url);
    chars::lemma_first_index(authority, ':');
    let colon = chars::first_index(authority, ':');
    if colon < authority.len() {
        assert(authority =~= authority.take(colon) + ":"@ + authority.skip(colon + 1));
    } else {
        assert(authority.take(colon) =~= authority);
    }
}

proof fn lemma_text_index(s: Seq<char>, pat: Seq<char>)
    requires
        chars::text_index(s, pat) >= 0,
    ensures
        chars::occurs_at(s, pat, chars::text_index(s, pat)),
    decreases s.len(),
{
    if !chars::occurs_at(s, pat, 0) {
        lemma_text_index(s.drop_first(), pat);
        let k = chars::text_index(s.drop_first(), pat);
        assert(s.drop_first().subrange(k, k + pat.len()) =~= s.subrange(k + 1, k + 1 + pat.len()));
    }
}

/// The members of the object.
spec fn content_fields(v0: Seq<char>) -> Seq<(Seq<char>, Seq<char>)> {
    seq![("content"@, v0)]
}

proof fn lemma_content_fields(v0: Seq<char>)
    requires
        json_reading::is_value(v0),
    ensures
        json_reading::well_formed(content_fields(v0)),
{
    reveal_strlit("content");
    assert("content"@.len() == 7 && "content"@[0] == 'c');
    let f1 = seq![("content"@, v0)];
    assert(json_reading::well_formed(f1));
}

proof fn lemma_content_text(v0: Seq<char>)
    ensures
        "{\"content\":"@ + v0 + "}"@ == json_reading::opened(content_fields(v0)) + seq!['}'],
{
    reveal_strlit("content");
    reveal_strlit("{\"content\":");
    reveal_strlit("}");
    let q = seq!['"'];
    let f1 = seq![("content"@, v0)];
    json_reading::lemma_opened_first("content"@, v0);
    assert("{\"content\":"@ =~= (seq!['{', '"'] + "content"@ + seq!['"', ':']));
    assert("}"@ =~= seq!['}']);
}

/// The members of the object.
spec fn text_fields(v0: Seq<char>) -> Seq<(Seq<char>, Seq<char>)> {
    seq![("text"@, v0)]
}

proof fn lemma_text_fields(v0: Seq<char>)
    requires
        json_reading::is_value(v0),
    ensures
        json_reading::well_formed(text_fields(v0)),
{
    reveal_strlit("text");
    assert("text"@.len() == 4 && "text"@[0] == 't');
    let f1 = seq![("text"@, v0)];
    assert(json_reading::well_formed(f1));
}

proof fn lemma_text_text(v0: Seq<char>)
    ensures
        "{\"text\":"@ + v0 + "}"@ == json_reading::opened(text_fields(v0)) + seq!['}'],
{
    reveal_strlit("text");
    reveal_strlit("{\"text\":");
    reveal_strlit("}");
    let q = seq!['"'];
    let f1 = seq![("text"@, v0)];
    json_reading::lemma_opened_first("text"@, v0);
    assert("{\"text\":"@ =~= (seq!['{', '"'] + "text"@ + seq!['"', ':']));
    assert("}"@ =~= seq!['}']);
}

/// The members of the object.
spec fn rich_fields(v0: Seq<char>, v1: Seq<char>, v2: Seq<char>, v3: Seq<char>, v4: Seq<char>,
    v5: Seq<char>) -> Seq<(Seq<char>, Seq<char>)> {
    seq![("message"@, v0)].push(("nome"@, v1)).push(("tamanho_bytes"@, v2)).push(("grupo"@, v3))
        .push(("categoria"@, v4)).push(("ok"@, v5))
}

#[verifier::rlimit(40)]
proof fn lemma_rich_fields(v0: Seq<char>, v1: Seq<char>, v2: Seq<char>, v3: Seq<char>,
    v4: Seq<char>, v5: Seq<char>)
    requires
        json_reading::is_value(v0),
        json_reading::is_value(v1),
        json_reading::is_value(v2),
        json_reading::is_value(v3),
        json_reading::is_value(v4),
        json_reading::is_value(v5),
    ensures
        json_reading::well_formed(rich_fields(v0, v1, v2, v3, v4, v5)),
{
    reveal_strlit("message");
    reveal_strlit("nome");
    reveal_strlit("tamanho_bytes");
    reveal_strlit("grupo");
    reveal_strlit("categoria");
    reveal_strlit("ok");
    assert("message"@.len() == 7 && "message"@[0] == 'm');
    assert("nome"@.len() == 4 && "nome"@[0] == 'n');
    assert("tamanho_bytes"@.len() == 13 && "tamanho_bytes"@[0] == 't');
    assert("grupo"@.len() == 5 && "grupo"@[0] == 'g');
    assert("categoria"@.len() == 9 && "categoria"@[0] == 'c');
    assert("ok"@.len() == 2 && "ok"@[0] == 'o');
    let f1 = seq![("message"@, v0)];
    assert(json_reading::well_formed(f1));
    json_reading::lemma_well_formed(f1, "nome"@, v1);
    let f2 = f1.push(("nome"@, v1));
    json_reading::lemma_well_formed(f2, "tamanho_bytes"@, v2);
    let f3 = f2.push(("tamanho_bytes"@, v2));
    json_reading::lemma_well_formed(f3, "grupo"@, v3);
    let f4 = f3.push(("grupo"@, v3));
    json_reading::lemma_well_formed(f4, "categoria"@, v4);
    let f5 = f4.push(("categoria"@, v4));
    json_reading::lemma_well_formed(f5, "ok"@, v5);
    let f6 = f5.push(("ok"@, v5));
}

#[verifier::rlimit(40)]
proof fn lemma_rich_text(v0: Seq<char>, v1: Seq<char>, v2: Seq<char>, v3: Seq<char>, v4: Seq<char>,
    v5: Seq<char>)
    ensures
        "{\"message\":"@ + v0 + ",\"nome\":"@ + v1 + ",\"tamanho_bytes\":"@ + v2 + ",\"grupo\":"@
            + v3 + ",\"categoria\":"@ + v4 + ",\"ok\":"@ + v5 + "}"@
            == json_reading::opened(rich_fields(v0, v1, v2, v3, v4, v5)) + seq!['}'],
{
    reveal_strlit("message");
    reveal_strlit("nome");
    reveal_strlit("tamanho_bytes");
    reveal_strlit("grupo");
    reveal_strlit("categoria");
    reveal_strlit("ok");
    reveal_strlit("{\"message\":");
    reveal_strlit(",\"nome\":");
    reveal_strlit(",\"tamanho_bytes\":");
    reveal_strlit(",\"grupo\":");
    reveal_strlit(",\"categoria\":");
    reveal_strlit(",\"ok\":");
    reveal_strlit("}");
    let q = seq!['"'];
    let f1 = seq![("message"@, v0)];
    json_reading::lemma_opened_first("message"@, v0);
    let f2 = f1.push(("nome"@, v1));
    json_reading::lemma_opened(f1, "nome"@, v1);
    let f3 = f2.push(("tamanho_bytes"@, v2));
    json_reading::lemma_opened(f2, "tamanho_bytes"@, v2);
    let f4 = f3.push(("grupo"@, v3));
    json_reading::lemma_opened(f3, "grupo"@, v3);
    let f5 = f4.push(("categoria"@, v4));
    json_reading::lemma_opened(f4, "categoria"@, v4);
    let f6 = f5.push(("ok"@, v5));
    json_reading::lemma_opened(f5, "ok"@, v5);
    assert("{\"message\":"@ =~= (seq!['{', '"'] + "message"@ + seq!['"', ':']));
    assert(",\"nome\":"@ =~= json_reading::label("nome"@));
    assert(",\"tamanho_bytes\":"@ =~= json_reading::label("tamanho_bytes"@));
    assert(",\"grupo\":"@ =~= json_reading::label("grupo"@));
    assert(",\"categoria\":"@ =~= json_reading::label("categoria"@));
    assert(",\"ok\":"@ =~= json_reading::label("ok"@));
    assert("}"@ =~= seq!['}']);
}

/// The receiver of a webhook finds the message where it expects it, and a generic
/// one also the name, size, group and category of the upload, and whether it went
/// well.
#[verifier::rlimit(40)]
pub proof fn law_webhook_bodies_read_back(url: Seq<char>, cfg: &NotifyConfig<'_>)
    ensures
        ({
            let body = webhook_text(url, cfg);
            let message = Some(message_text(cfg));
            match kind_of(url) {
                WebhookKind::Discord => json_reading::text_member(body, "content"@) == message,
                WebhookKind::Text => json_reading::text_member(body, "text"@) == message,
                WebhookKind::Generic => {
                    &&& json_reading::text_member(body, "message"@) == message
                    &&& json_reading::text_member(body, "nome"@) == Some(cfg.name@)
                    &&& json_reading::number_member(body, "tamanho_bytes"@) == Some(
                        cfg.total_bytes as nat,
                    )
                    &&& json_reading::tells(body, "grupo"@, cfg.group)
                    &&& json_reading::tells(body, "categoria"@, cfg.category)
                    &&& json_reading::raw(body, "ok"@) == Some(
                        if cfg.ok {
                            "true"@
                        } else {
                            "false"@
                        },
                    )
                },
            }
        }),
{
    let v0 = json::json_quoted(message_text(cfg));
    json_reading::lemma_literal(message_text(cfg));
    match kind_of(url) {
        WebhookKind::Discord => {
            lemma_content_fields(v0);
            lemma_content_text(v0);
            json_reading::lemma_object(content_fields(v0), 0);
        },
        WebhookKind::Text => {
            lemma_text_fields(v0);
            lemma_text_text(v0);
            json_reading::lemma_object(text_fields(v0), 0);
        },
        WebhookKind::Generic => {
            json_reading::lemma_literal(cfg.name@);
            json_reading::lemma_number(cfg.total_bytes as nat);
            json_reading::lemma_optional(cfg.group);
            json_reading::lemma_optional(cfg.category);
            json_reading::lemma_bool(cfg.ok);
            let v1 = json::json_quoted(cfg.name@);
            let v2 = text::decimal(cfg.total_bytes as nat);
            let v3 = json::json_value(cfg.group);
            let v4 = json::json_value(cfg.category);
            let v5 = json::bool_text(cfg.ok);
            lemma_rich_fields(v0, v1, v2, v3, v4, v5);
            lemma_rich_text(v0, v1, v2, v3, v4, v5);
            let f = rich_fields(v0, v1, v2, v3, v4, v5);
            json_reading::lemma_object(f, 0);
            json_reading::lemma_object(f, 1);
            json_reading::lemma_object(f, 2);
            json_reading::lemma_object(f, 3);
            json_reading::lemma_object(f, 4);
            json_reading::lemma_object(f, 5);
        },
    }
}

/// Header lines as names and values.
pub open spec fn header_fields(headers: Seq<(&str, &str)>) -> Seq<(Seq<char>, Seq<char>)> {
    Seq::new(headers.len(), |i: int| (headers[i].0@, headers[i].1@))
}

proof fn lemma_headers_text(headers: Seq<(&str, &str)>, rest: Seq<(Seq<char>, Seq<char>)>)
    ensures
        headers_text(headers) + reading::headers_of(rest) == reading::headers_of(
            header_fields(headers) + rest,
        ),
    decreases headers.len(),
{
    if headers.len() == 0 {
        assert(header_fields(headers) + rest =~= rest);
        assert(headers_text(headers) + reading::headers_of(rest) =~= reading::headers_of(rest));
    } else {
        reveal_strlit(": ");
        reveal_strlit("\r\n");
        let front = headers.drop_last();
        let (name, value) = headers.last();
        let more = seq![(name@, value@)] + rest;
        assert(more.drop_first() =~= rest);
        lemma_headers_text(front, more);
        assert(header_fields(front) + more =~= header_fields(headers) + rest);
        let line = name@ + seq![':', ' '] + value@ + seq!['\r', '\n'];
        assert(reading::headers_of(more) == line + reading::headers_of(rest));
        assert(headers_text(headers) =~= headers_text(front) + line);
        assert(headers_text(headers) + reading::headers_of(rest) =~= headers_text(front) + (line
            + reading::headers_of(rest)));
    }
}

/// The headers that every request has.
spec fn common_fields(host: Seq<char>, content_type: Seq<char>, len: Seq<char>) -> Seq<(
    Seq<char>,
    Seq<char>,
)> {
    seq![
        ("Host"@, host),
        ("Content-Type"@, content_type),
        ("Content-Length"@, len),
        ("Connection"@, "close"@),
    ]
}

proof fn lemma_request_text(
    path: Seq<char>,
    host: Seq<char>,
    content_type: Seq<char>,
    len: Seq<char>,
    rest: Seq<(Seq<char>, Seq<char>)>,
)
    ensures
        "POST "@ + path + " HTTP/1.1\r\nHost: "@ + host + "\r\nContent-Type: "@ + content_type
            + "\r\nContent-Length: "@ + len + "\r\nConnection: close\r\n"@ + reading::headers_of(
            rest,
        ) == ("POST "@ + path + " HTTP/1.1"@ + seq!['\r']) + seq!['\n'] + reading::headers_of(
            common_fields(host, content_type, len) + rest,
        ),
{
    reveal_strlit(" HTTP/1.1\r\nHost: ");
    reveal_strlit("\r\nContent-Type: ");
    reveal_strlit("\r\nContent-Length: ");
    reveal_strlit("\r\nConnection: close\r\n");
    reveal_strlit(" HTTP/1.1");
    reveal_strlit("Host");
    reveal_strlit("Content-Type");
    reveal_strlit("Content-Length");
    reveal_strlit("Connection");
    reveal_strlit("close");
    let crlf = seq!['\r', '\n'];
    let sep = seq![':', ' '];
    let f3 = seq![("Connection"@, "close"@)] + rest;
    let f2 = seq![("Content-Length"@, len)] + f3;
    let f1 = seq![("Content-Type"@, content_type)] + f2;
    let f0 = seq![("Host"@, host)] + f1;
    assert(f0 =~= common_fields(host, content_type, len) + rest);
    assert(f0.drop_first() =~= f1 && f1.drop_first() =~= f2 && f2.drop_first() =~= f3);
    assert(f3.drop_first() =~= rest);
    let h = reading::headers_of(rest);
    let h3 = "Connection"@ + sep + "close"@ + crlf + h;
    let h2 = "Content-Length"@ + sep + len + crlf + h3;
    let h1 = "Content-Type"@ + sep + content_type + crlf + h2;
    let h0 = "Host"@ + sep + host + crlf + h1;
    assert(reading::headers_of(f3) == h3);
    assert(reading::headers_of(f2) == h2);
    assert(reading::headers_of(f1) == h1);
    assert(reading::headers_of(f0) == h0);
    assert(" HTTP/1.1\r\nHost: "@ =~= " HTTP/1.1"@ + crlf + "Host"@ + sep);
    assert("\r\nContent-Type: "@ =~= crlf + "Content-Type"@ + sep);
    assert("\r\nContent-Length: "@ =~= crlf + "Content-Length"@ + sep);
    assert("\r\nConnection: close\r\n"@ =~= crlf + "Connection"@ + sep + "close"@ + crlf);
    let a = "POST "@ + path + " HTTP/1.1"@;
    let b = crlf + "Content-Length"@ + sep + len + (crlf + "Connection"@ + sep + "close"@ + crlf)
        + h;
    assert(b =~= crlf + h2);
    let c = crlf + "Content-Type"@ + sep + content_type + b;
    assert(c =~= crlf + h1);
    let d = a + (crlf + "Host"@ + sep) + host + c;
    assert(d =~= (a + seq!['\r']) + seq!['\n'] + h0);
    assert("POST "@ + path + (" HTTP/1.1"@ + crlf + "Host"@ + sep) + host + (crlf
        + "Content-Type"@ + sep) + content_type + (crlf + "Content-Length"@ + sep) + len + (crlf
        + "Connection"@ + sep + "close"@ + crlf) + h =~= d);
}

/// A server finds in a request the path, and in its headers the host, the kind and
/// the length of the body, and every further header.
pub proof fn law_requests_read_back(
    path: Seq<char>,
    host: Seq<char>,
    content_type: Seq<char>,
    len: nat,
    extra: Seq<(&str, &str)>,
)
    requires
        reading::is_one_line(path),
        reading::well_headed(
            seq![
                ("Host"@, host),
                ("Content-Type"@, content_type),
                ("Content-Length"@, text::decimal(len)),
                ("Connection"@, "close"@),
            ] + header_fields(extra),
        ),
    ensures
        ({
            let request = request_text(path, host, content_type, len, extra);
            let headers = reading::tail(request, '\n');
            &&& reading::head(request, '\r') == "POST "@ + path + " HTTP/1.1"@
            &&& reading::header(headers, "Host"@) == Some(host)
            &&& reading::header(headers, "Content-Type"@) == Some(content_type)
            &&& match reading::header(headers, "Content-Length"@) {
                Some(v) => v.len() > 0 && scan::all_digits(v) && scan::digits_value(v) == len,
                None => false,
            }
            &&& reading::header(headers, "Connection"@) == Some("close"@)
            &&& forall|i: int|
                0 <= i < extra.len() ==> reading::header(headers, (#[trigger] extra[i]).0@) == Some(
                    extra[i].1@,
                )
        }),
{
    let length = text::decimal(len);
    let common = common_fields(host, content_type, length);
    let fields = common + header_fields(extra);
    let none = Seq::<(Seq<char>, Seq<char>)>::empty();
    reading::law_decimals_read_back(len);
    lemma_headers_text(extra, none);
    assert(header_fields(extra) + none =~= header_fields(extra));
    reveal_strlit("\r\n");
    assert("\r\n"@ =~= reading::headers_of(none));
    lemma_request_text(path, host, content_type, length, header_fields(extra));
    let request = request_text(path, host, content_type, len, extra);
    let first = "POST "@ + path + " HTTP/1.1"@;
    let front = "POST "@ + path + " HTTP/1.1\r\nHost: "@ + host + "\r\nContent-Type: "@
        + content_type + "\r\nContent-Length: "@ + length + "\r\nConnection: close\r\n"@;
    assert(request =~= front + (headers_text(extra) + reading::headers_of(none)));
    let headers = reading::headers_of(fields);
    assert(request == (first + seq!['\r']) + seq!['\n'] + headers);
    reveal_strlit("POST ");
    reveal_strlit(" HTTP/1.1");
    assert forall|i: int| 0 <= i < first.len() implies #[trigger] first[i] != '\r' && first[i]
        != '\n' by {
        if 5 <= i < 5 + path.len() {
            assert(first[i] == path[i - 5]);
        } else if i >= 5 + path.len() {
            assert(first[i] == " HTTP/1.1"@[i - 5 - path.len()]);
        } else {
            assert(first[i] == "POST "@[i]);
        }
    }
    let line = first + seq!['\r'];
    assert forall|i: int| 0 <= i < line.len() implies #[trigger] line[i] != '\n' by {
        if i < first.len() {
            assert(line[i] == first[i]);
            assert(first[i] != '\r' && first[i] != '\n');
        }
    }
    reading::lemma_parts(line, '\n', headers);
    assert(request =~= first + seq!['\r'] + (seq!['\n'] + headers));
    assert(reading::lacks(first, '\r'));
    reading::lemma_parts(first, '\r', seq!['\n'] + headers);
    reading::lemma_headers(fields, 0);
    reading::lemma_headers(fields, 1);
    reading::lemma_headers(fields, 2);
    reading::lemma_headers(fields, 3);
    assert forall|i: int| 0 <= i < extra.len() implies reading::header(
        headers,
        (#[trigger] extra[i]).0@,
    ) == Some(extra[i].1@) by {
        reading::lemma_headers(fields, 4 + i);
        assert(fields[4 + i] == header_fields(extra)[i]);
    }
}

} // verus!

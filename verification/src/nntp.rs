//! The NNTP protocol: what is sent to the server and what its replies mean.
//!
//! The library speaks just enough of the protocol (RFC 3977 / RFC 4643) to
//! authenticate, post articles and ask whether an article is there. It works
//! on lines and payloads; moving them over a connection is the caller's part.

use vstd::prelude::*;
use vstd::string::*;

use crate::chars;
use crate::scan;
use crate::text;
use crate::yenc;

verus! {

/// A parsed NNTP status response: a three-digit code and the trailing text.
#[derive(Debug, Clone)]
pub struct Response {
    pub code: u16,
    pub text: String,
}

/// What went wrong in an exchange with the server.
#[derive(Debug)]
pub enum NntpError {
    /// The line is no status response.
    Malformed { line: String },
    /// The greeting was neither 200 nor 201.
    Greeting { code: u16, text: String },
    /// The user name was not accepted.
    UserRejected { code: u16, text: String },
    /// The password was not accepted. The password itself is never kept.
    PasswordRejected { code: u16 },
    /// The server does not take an article now.
    PostNotPermitted { code: u16, text: String },
    /// The server refused the article.
    ArticleRejected { text: String },
    /// The reply to an article was none that the protocol knows.
    PostUnexpected { code: u16, text: String },
    /// The reply to a `STAT` was none that the protocol knows.
    StatUnexpected { code: u16, text: String },
}

/// `line` without the CR and LF characters at its end.
pub open spec fn without_line_end(line: Seq<char>) -> Seq<char>
    decreases line.len(),
{
    if line.len() > 0 && (line.last() == '\r' || line.last() == '\n') {
        without_line_end(line.drop_last())
    } else {
        line
    }
}

/// The value of a decimal digit character.
pub open spec fn digit_value(c: char) -> int {
    c as int - '0' as int
}

/// The status code at the start of a line: three digits.
pub open spec fn status_code(line: Seq<char>) -> Option<int> {
    if line.len() >= 3 && chars::is_digit(line[0]) && chars::is_digit(line[1]) && chars::is_digit(
        line[2],
    ) {
        Some(100 * digit_value(line[0]) + 10 * digit_value(line[1]) + digit_value(line[2]))
    } else {
        None
    }
}

/// The text of a status line: what follows the code and one ASCII separator.
pub open spec fn status_text(line: Seq<char>) -> Seq<char> {
    if line.len() >= 4 && line[3] as u32 <= 0x7F {
        line.skip(4)
    } else {
        Seq::empty()
    }
}

/// A line of three digits, a space and a text gives the number of the digits and the
/// text back, with or without a line end.
pub proof fn law_status_lines_read_back(digits: Seq<char>, text: Seq<char>)
    requires
        digits.len() == 3,
        scan::all_digits(digits),
        text.len() > 0 ==> text.last() != '\r' && text.last() != '\n',
    ensures
        ({
            let line = digits + seq![' '] + text;
            let sent = line + seq!['\r', '\n'];
            &&& without_line_end(sent) == line
            &&& without_line_end(line) == line
            &&& status_code(line) == Some(scan::digits_value(digits) as int)
            &&& status_text(line) == text
        }),
{
    let line = digits + seq![' '] + text;
    let sent = line + seq!['\r', '\n'];
    let one = line + seq!['\r'];
    assert(sent.drop_last() =~= one && sent.last() == '\n');
    assert(one.drop_last() =~= line && one.last() == '\r');
    if text.len() > 0 {
        assert(line.last() == text.last());
    } else {
        assert(line.last() == ' ');
    }
    assert(without_line_end(line) == line);
    assert(line[0] == digits[0] && line[1] == digits[1] && line[2] == digits[2] && line[3] == ' ');
    assert(chars::is_digit(digits[0]) && chars::is_digit(digits[1]) && chars::is_digit(digits[2]));
    assert(line.skip(4) =~= text);
    reveal_with_fuel(scan::digits_value, 4);
    let two = digits.drop_last();
    let first = two.drop_last();
    assert(two.last() == digits[1] && first.last() == digits[0] && digits.last() == digits[2]);
    let none = Seq::<char>::empty();
    assert(first.drop_last() =~= none);
    assert(scan::digits_value(none) == 0);
    assert(scan::digits_value(first) == digit_value(digits[0]));
    assert(scan::digits_value(two) == 10 * digit_value(digits[0]) + digit_value(digits[1]));
    assert(without_line_end(one) == without_line_end(line));
    assert(without_line_end(sent) == without_line_end(one));
}

impl Response {
    /// Parse a single response line (`"code text\r\n"`).
    pub fn parse(line: &str) -> (response: Result<Response, NntpError>)
        ensures
            match response {
                Ok(r) => {
                    &&& status_code(without_line_end(line@)) == Some(r.code as int)
                    &&& r.text@ == status_text(without_line_end(line@))
                },
                Err(e) => {
                    &&& status_code(without_line_end(line@)) is None
                    &&& e matches NntpError::Malformed { line: l } && l@ == without_line_end(line@)
                },
            },
    {
        let all: Vec<char> = text::chars_of(line);
        let mut n: usize = all.len();
        assert(all@.take(n as int) =~= all@);
        while n > 0 && (all[n - 1] == '\r' || all[n - 1] == '\n')
            invariant
                n <= all@.len(),
                without_line_end(all@) == without_line_end(all@.take(n as int)),
            decreases n,
        {
            assert(all@.take(n as int).drop_last() =~= all@.take(n - 1));
            n = n - 1;
        }
        let l: &[char] = chars::part(all.as_slice(), 0, n);
        assert(l@ =~= all@.take(n as int));
        if n >= 3 && chars::digit(l[0]) && chars::digit(l[1]) && chars::digit(l[2]) {
            let code: u16 = 100 * ((l[0] as u8 - 48) as u16) + 10 * ((l[1] as u8 - 48) as u16) + (
            l[2] as u8 - 48) as u16;
            let rest: String = if n >= 4 && l[3] as u32 <= 0x7F {
                let tail: &[char] = chars::part(l, 4, n);
                assert(tail@ =~= l@.skip(4));
                text::string_of(tail)
            } else {
                String::new()
            };
            assert(rest@ =~= status_text(l@));
            Ok(Response { code, text: rest })
        } else {
            Err(NntpError::Malformed { line: text::string_of(l) })
        }
    }
}

/// Bytes after which a new line starts.
pub open spec fn at_line_start(before: Seq<u8>) -> bool {
    before.len() == 0 || before.last() == 0x0A
}

/// The dot-stuffed form of some bytes: a line that begins with a dot gets
/// another in front.
pub open spec fn stuffed(input: Seq<u8>) -> Seq<u8>
    decreases input.len(),
{
    if input.len() == 0 {
        Seq::empty()
    } else {
        let before = input.drop_last();
        if at_line_start(before) && input.last() == 0x2E {
            stuffed(before) + seq![0x2Eu8, 0x2Eu8]
        } else {
            stuffed(before).push(input.last())
        }
    }
}

/// Apply NNTP dot-stuffing: any line that begins with `.` gets an extra `.`
/// prepended, so it cannot be mistaken for the end-of-data marker.
pub fn dot_stuff(input: &[u8], out: &mut Vec<u8>)
    ensures
        final(out)@ == old(out)@ + stuffed(input@),
{
    let ghost start = out@;
    let n: usize = input.len();
    let mut line_start: bool = true;
    let mut i: usize = 0;
    assert(start =~= start + stuffed(input@.take(0)));
    while i < n
        invariant
            i <= n,
            n == input@.len(),
            line_start == at_line_start(input@.take(i as int)),
            out@ == start + stuffed(input@.take(i as int)),
        decreases n - i,
    {
        let b: u8 = input[i];
        if line_start && b == 0x2E {
            out.push(0x2E);
        }
        out.push(b);
        line_start = b == 0x0A;
        assert(input@.take(i + 1).drop_last() =~= input@.take(i as int));
        assert(out@ =~= start + stuffed(input@.take(i + 1)));
        i = i + 1;
    }
    assert(input@.take(n as int) =~= input@);
}

/// What a receiver makes of stuffed bytes: the bytes without the stuffing, and
/// whether the next byte starts a line.
pub open spec fn unstuffed(received: Seq<u8>) -> (Seq<u8>, bool)
    decreases received.len(),
{
    if received.len() == 0 {
        (Seq::empty(), true)
    } else {
        let (out, line_start) = unstuffed(received.drop_last());
        let b = received.last();
        if line_start && b == 0x2E {
            (out, false)
        } else {
            (out.push(b), b == 0x0A)
        }
    }
}

/// The receiver gets back exactly what was stuffed.
pub proof fn law_unstuffing_undoes_stuffing(input: Seq<u8>)
    ensures
        unstuffed(stuffed(input)) == (input, at_line_start(input)),
    decreases input.len(),
{
    if input.len() > 0 {
        let before = input.drop_last();
        law_unstuffing_undoes_stuffing(before);
        let b = input.last();
        assert(before.push(b) =~= input);
        if at_line_start(before) && b == 0x2E {
            let once = stuffed(before).push(0x2E);
            assert(once.drop_last() =~= stuffed(before));
            assert(stuffed(input) =~= once.push(0x2E));
            assert(once.push(0x2E).drop_last() =~= once);
            assert(unstuffed(once) == (before, false));
        } else {
            assert(stuffed(input).drop_last() =~= stuffed(before));
        }
    }
}

/// In stuffed bytes a dot that starts a line is followed by another, so no
/// line is the end-of-data marker.
pub proof fn law_no_line_is_the_end_marker(input: Seq<u8>, p: int)
    requires
        0 <= p < stuffed(input).len(),
        stuffed(input)[p] == 0x2E,
        at_line_start(stuffed(input).take(p)),
    ensures
        p + 1 < stuffed(input).len(),
        stuffed(input)[p + 1] == 0x2E,
    decreases input.len(),
{
    let before = input.drop_last();
    let s = stuffed(before);
    lemma_stuffed_line_start(before);
    if p < s.len() {
        assert(stuffed(input).take(p) =~= s.take(p));
        law_no_line_is_the_end_marker(before, p);
    } else if p == s.len() {
        assert(stuffed(input).take(p) =~= s);
    } else {
        assert(stuffed(input).take(p).last() == 0x2E);
    }
}

/// Stuffing keeps where lines start.
proof fn lemma_stuffed_line_start(input: Seq<u8>)
    ensures
        at_line_start(stuffed(input)) == at_line_start(input),
        input.len() > 0 ==> stuffed(input).len() > 0 && stuffed(input).last() == input.last(),
        input.len() == 0 ==> stuffed(input).len() == 0,
{
}

/// Bytes without a dot at the start of a line are sent as they are: the yEnc
/// form of any data passes through stuffing unchanged.
pub proof fn law_yenc_needs_no_stuffing(data: Seq<u8>, line_len: usize)
    ensures
        stuffed(yenc::yenc(data, line_len)) == yenc::yenc(data, line_len),
{
    yenc::law_encoding_is_transport_safe(data, line_len);
    let output = yenc::yenc(data, line_len);
    lemma_unstuffed_prefix(output, output.len());
    assert(output.take(output.len() as int) =~= output);
}

proof fn lemma_unstuffed_prefix(output: Seq<u8>, n: nat)
    requires
        n <= output.len(),
        yenc::transport_safe(output),
    ensures
        stuffed(output.take(n as int)) == output.take(n as int),
    decreases n,
{
    if n > 0 {
        let before = output.take(n - 1);
        lemma_unstuffed_prefix(output, (n - 1) as nat);
        assert(output.take(n as int).drop_last() =~= before);
        assert(before.push(output[n - 1]) =~= output.take(n as int));
        if output[n - 1] == 0x2E {
            assert(!yenc::starts_line(output, n - 1));
        }
    } else {
        assert(output.take(0) =~= Seq::<u8>::empty());
    }
}

/// Some bytes end with CR LF.
pub open spec fn ends_with_line_end(bytes: Seq<u8>) -> bool {
    bytes.len() >= 2 && bytes[bytes.len() - 2] == 0x0D && bytes[bytes.len() - 1] == 0x0A
}

/// What is sent for an article: the stuffed article, a line end if it has
/// none, and the end-of-data marker.
pub open spec fn payload_of(article: Seq<u8>) -> Seq<u8> {
    let body = stuffed(article);
    let lines = if ends_with_line_end(body) {
        body
    } else {
        body + seq![0x0Du8, 0x0Au8]
    };
    lines + seq![0x2Eu8, 0x0Du8, 0x0Au8]
}

/// Build what is sent after the server asked for the article.
pub fn post_payload(article: &[u8]) -> (payload: Vec<u8>)
    ensures
        payload@ == payload_of(article@),
{
    let mut payload: Vec<u8> = Vec::new();
    dot_stuff(article, &mut payload);
    assert(payload@ =~= stuffed(article@));
    let n: usize = payload.len();
    if !(n >= 2 && payload[n - 2] == 0x0D && payload[n - 1] == 0x0A) {
        payload.push(0x0D);
        payload.push(0x0A);
    }
    payload.push(0x2E);
    payload.push(0x0D);
    payload.push(0x0A);
    assert(payload@ =~= payload_of(article@));
    payload
}

/// A payload ends with the end-of-data marker on a line of its own, and what
/// comes before unstuffs to the article and, if that has none, a line end.
pub proof fn law_payload_carries_the_article(article: Seq<u8>)
    ensures
        payload_of(article).len() >= 5,
        payload_of(article).skip(payload_of(article).len() - 5) == seq![
            0x0Du8,
            0x0Au8,
            0x2Eu8,
            0x0Du8,
            0x0Au8,
        ],
        unstuffed(payload_of(article).take(payload_of(article).len() - 3)).0 == (
        if ends_with_line_end(stuffed(article)) {
            article
        } else {
            article + seq![0x0Du8, 0x0Au8]
        }),
{
    let payload = payload_of(article);
    let body = stuffed(article);
    law_unstuffing_undoes_stuffing(article);
    assert(payload.skip(payload.len() - 5) =~= seq![0x0Du8, 0x0Au8, 0x2Eu8, 0x0Du8, 0x0Au8]);
    if ends_with_line_end(body) {
        assert(payload.take(payload.len() - 3) =~= body);
    } else {
        let once = body.push(0x0D);
        let twice = once.push(0x0A);
        assert(once.drop_last() =~= body);
        assert(twice.drop_last() =~= once);
        assert(unstuffed(once) == (article.push(0x0D), false));
        assert(unstuffed(twice) == (article.push(0x0D).push(0x0A), true));
        assert(payload.take(payload.len() - 3) =~= twice);
        assert(article.push(0x0D).push(0x0A) =~= article + seq![0x0Du8, 0x0Au8]);
    }
}

/// An article that ends with a line end needs no other: its payload unstuffs to
/// the article itself.
pub proof fn law_complete_articles_come_back(article: Seq<u8>)
    requires
        ends_with_line_end(article),
    ensures
        unstuffed(payload_of(article).take(payload_of(article).len() - 3)).0 == article,
{
    let once = article.drop_last();
    let twice = once.drop_last();
    assert(once.last() == 0x0D);
    assert(stuffed(once) == stuffed(twice).push(0x0D));
    assert(stuffed(article) == stuffed(once).push(0x0A));
    assert(ends_with_line_end(stuffed(article)));
    law_payload_carries_the_article(article);
}

/// The bytes of a command line: the two pieces and CR LF. The second piece may
/// be a secret and is kept apart.
pub fn command_line(prefix: &str, suffix: &str) -> (line: Vec<u8>)
    ensures
        line@ == prefix.spec_bytes() + suffix.spec_bytes() + seq![0x0Du8, 0x0Au8],
{
    let mut line: Vec<u8> = Vec::new();
    text::push_bytes(&mut line, prefix.as_bytes());
    assert(line@ =~= prefix.spec_bytes());
    text::push_bytes(&mut line, suffix.as_bytes());
    line.push(0x0D);
    line.push(0x0A);
    assert(line@ =~= prefix.spec_bytes() + suffix.spec_bytes() + seq![0x0Du8, 0x0Au8]);
    line
}

/// The command that gives the user name.
pub fn user_command(username: &str) -> (command: String)
    ensures
        command@ == "AUTHINFO USER "@ + username@,
{
    let mut command: String = String::from_str("AUTHINFO USER ");
    command.append(username);
    command
}

/// The command that asks whether an article is there. The Message-ID is given
/// without angle brackets.
pub fn stat_command(message_id: &str) -> (command: String)
    ensures
        command@ == "STAT <"@ + message_id@ + ">"@,
{
    let mut command: String = String::from_str("STAT <");
    command.append(message_id);
    command.append(">");
    command
}

/// Judge the greeting: 200 (posting allowed) and 201 (posting prohibited) open
/// the session.
pub fn check_greeting(response: Response) -> (r: Result<(), NntpError>)
    ensures
        r is Ok <==> response.code == 200 || response.code == 201,
        r matches Err(e) ==> e == (NntpError::Greeting {
            code: response.code,
            text: response.text,
        }),
{
    if response.code == 200 || response.code == 201 {
        Ok(())
    } else {
        Err(NntpError::Greeting { code: response.code, text: response.text })
    }
}

/// What follows the reply to the user name.
#[derive(Debug, Clone, Copy, PartialEq, Eq, Structural)]
pub enum AuthStep {
    /// Accepted without a password.
    Accepted,
    /// The password is to be sent.
    SendPassword,
}

/// Judge the reply to `AUTHINFO USER`.
pub fn after_user(response: Response) -> (r: Result<AuthStep, NntpError>)
    ensures
        response.code == 281 <==> r == Ok::<AuthStep, NntpError>(AuthStep::Accepted),
        response.code == 381 <==> r == Ok::<AuthStep, NntpError>(AuthStep::SendPassword),
        r matches Err(e) ==> e == (NntpError::UserRejected {
            code: response.code,
            text: response.text,
        }),
{
    if response.code == 281 {
        Ok(AuthStep::Accepted)
    } else if response.code == 381 {
        Ok(AuthStep::SendPassword)
    } else {
        Err(NntpError::UserRejected { code: response.code, text: response.text })
    }
}

/// Judge the reply to `AUTHINFO PASS`.
pub fn after_password(response: Response) -> (r: Result<(), NntpError>)
    ensures
        r is Ok <==> response.code == 281,
        r matches Err(e) ==> e == (NntpError::PasswordRejected { code: response.code }),
{
    if response.code == 281 {
        Ok(())
    } else {
        Err(NntpError::PasswordRejected { code: response.code })
    }
}

/// Judge the reply to `POST`: only 340 asks for the article.
pub fn after_post_command(response: Response) -> (r: Result<(), NntpError>)
    ensures
        r is Ok <==> response.code == 340,
        r matches Err(e) ==> e == (NntpError::PostNotPermitted {
            code: response.code,
            text: response.text,
        }),
{
    if response.code == 340 {
        Ok(())
    } else {
        Err(NntpError::PostNotPermitted { code: response.code, text: response.text })
    }
}

/// Judge the reply to the article: 240 accepts it, 441 refuses it.
pub fn after_article(response: Response) -> (r: Result<(), NntpError>)
    ensures
        r is Ok <==> response.code == 240,
        response.code == 441 ==> r == Err::<(), NntpError>(
            NntpError::ArticleRejected { text: response.text },
        ),
        response.code != 240 && response.code != 441 ==> r == Err::<(), NntpError>(
            NntpError::PostUnexpected { code: response.code, text: response.text },
        ),
{
    if response.code == 240 {
        Ok(())
    } else if response.code == 441 {
        Err(NntpError::ArticleRejected { text: response.text })
    } else {
        Err(NntpError::PostUnexpected { code: response.code, text: response.text })
    }
}

/// Judge the reply to `STAT`: `true` on 223 (article exists), `false` on 430
/// (not found).
pub fn after_stat(response: Response) -> (r: Result<bool, NntpError>)
    ensures
        response.code == 223 <==> r == Ok::<bool, NntpError>(true),
        response.code == 430 <==> r == Ok::<bool, NntpError>(false),
        r matches Err(e) ==> e == (NntpError::StatUnexpected {
            code: response.code,
            text: response.text,
        }),
{
    if response.code == 223 {
        Ok(true)
    } else if response.code == 430 {
        Ok(false)
    } else {
        Err(NntpError::StatUnexpected { code: response.code, text: response.text })
    }
}

/// A label, a code and a text, as they appear in messages.
pub open spec fn coded_message(label: Seq<char>, code: u16, text: Seq<char>) -> Seq<char> {
    label + text::decimal(code as nat) + " "@ + text
}

fn coded_string(label: &str, code: u16, text: &str) -> (message: String)
    ensures
        message@ == coded_message(label@, code, text@),
{
    let mut message: String = String::from_str(label);
    text::push_decimal(&mut message, code as u64);
    message.append(" ");
    message.append(text);
    message
}

impl NntpError {
    /// The text that is shown for an error.
    pub open spec fn shown(&self) -> Seq<char> {
        match self {
            NntpError::Malformed { line } => "malformed NNTP response: "@ + text::quoted(line@),
            NntpError::Greeting { code, text } => coded_message(
                "unexpected NNTP greeting: "@,
                *code,
                text@,
            ),
            NntpError::UserRejected { code, text } => coded_message(
                "AUTHINFO USER rejected: "@,
                *code,
                text@,
            ),
            NntpError::PasswordRejected { code } => "authentication rejected by server (code "@
                + text::decimal(*code as nat)
                + "); check the configured username and password"@,
            NntpError::PostNotPermitted { code, text } => coded_message(
                "POST not permitted: "@,
                *code,
                text@,
            ),
            NntpError::ArticleRejected { text } => "article rejected by server (441): "@ + text@,
            NntpError::PostUnexpected { code, text } => coded_message(
                "unexpected POST response: "@,
                *code,
                text@,
            ),
            NntpError::StatUnexpected { code, text } => coded_message(
                "unexpected STAT response: "@,
                *code,
                text@,
            ),
        }
    }

    /// The text that is shown for an error.
    pub fn message(&self) -> (message: String)
        ensures
            message@ == self.shown(),
    {
        match self {
            NntpError::Malformed { line } => {
                let mut message: String = String::from_str("malformed NNTP response: ");
                message.append(text::quote(line.as_str()).as_str());
                message
            },
            NntpError::Greeting { code, text } => coded_string(
                "unexpected NNTP greeting: ",
                *code,
                text.as_str(),
            ),
            NntpError::UserRejected { code, text } => coded_string(
                "AUTHINFO USER rejected: ",
                *code,
                text.as_str(),
            ),
            NntpError::PasswordRejected { code } => {
                let mut message: String = String::from_str(
                    "authentication rejected by server (code ",
                );
                text::push_decimal(&mut message, *code as u64);
                message.append("); check the configured username and password");
                message
            },
            NntpError::PostNotPermitted { code, text } => coded_string(
                "POST not permitted: ",
                *code,
                text.as_str(),
            ),
            NntpError::ArticleRejected { text } => {
                let mut message: String = String::from_str("article rejected by server (441): ");
                message.append(text.as_str());
                message
            },
            NntpError::PostUnexpected { code, text } => coded_string(
                "unexpected POST response: ",
                *code,
                text.as_str(),
            ),
            NntpError::StatUnexpected { code, text } => coded_string(
                "unexpected STAT response: ",
                *code,
                text.as_str(),
            ),
        }
    }
}

} // verus!

//! Article assembly: the Usenet headers (`From`, `Newsgroups`, `Subject`,
//! `Message-ID`) wrapped around a yEnc-encoded body, plus `Message-ID`
//! generation.

use vstd::prelude::*;
use vstd::string::*;

use crate::chars;
use crate::environment;
use crate::reading;
use crate::text;

verus! {

/// `<nanos.seq.random@host>`, the numbers in hexadecimal.
pub open spec fn message_id_text(nanos: nat, seq: nat, random: nat, host: Seq<char>) -> Seq<char> {
    "<"@ + text::hex(nanos) + "."@ + text::hex(seq) + "."@ + text::hex(random) + "@"@ + host + ">"@
}

/// Build a `Message-ID` from its pieces.
pub fn message_id_from(nanos: u128, seq: u64, random: u64, host: &str) -> (id: String)
    ensures
        id@ == message_id_text(nanos as nat, seq as nat, random as nat, host@),
{
    let mut id: String = String::from_str("<");
    text::push_hex(&mut id, nanos);
    id.append(".");
    text::push_hex(&mut id, seq as u128);
    id.append(".");
    text::push_hex(&mut id, random as u128);
    id.append("@");
    id.append(host);
    id.append(">");
    id
}

/// A string of lower-case ASCII letters.
pub open spec fn all_letters(s: Seq<char>) -> bool {
    forall|i: int| 0 <= i < s.len() ==> 'a' <= #[trigger] s[i] <= 'z'
}

/// One of the top-level domains that generated addresses use.
pub open spec fn is_tld(s: Seq<char>) -> bool {
    s == "com"@ || s == "net"@ || s == "org"@
}

/// Generate a `Message-ID` of the form `<timestamp.seq.random@random-domain>`.
///
/// `seq` is a number that the caller uses only once, such as the value of a
/// counter: two `Message-ID`s with different numbers never collide, even
/// within the same nanosecond. The domain is always a freshly randomised label
/// so no fixed identifier leaks through the header.
pub fn generate_message_id(seq: u64) -> (id: String)
    ensures
        exists|nanos: nat, random: nat, domain: Seq<char>, tld: Seq<char>|
            id@ == #[trigger] message_id_text(nanos, seq as nat, random, domain + "."@ + tld)
                && all_letters(domain) && 8 <= domain.len() <= 15 && is_tld(tld),
{
    let nanos: u128 = environment::now_nanos();
    let random: u64 = environment::rand_u64();
    let domain: String = random_alpha(8 + (environment::rand_u64() % 8) as usize);
    let tld: &str = pick_tld(environment::rand_u64());
    let mut host: String = domain.clone();
    host.append(".");
    host.append(tld);
    let id: String = message_id_from(nanos, seq, random, host.as_str());
    assert(id@ == message_id_text(nanos as nat, seq as nat, random as nat, domain@ + "."@ + tld@));
    id
}

/// Generate a `Message-ID` as [`generate_message_id`] does, but under a fixed
/// domain where one is given.
pub fn generate_message_id_at(seq: u64, domain: Option<&str>) -> (id: String)
    ensures
        exists|nanos: nat, random: nat, host: Seq<char>|
            id@ == #[trigger] message_id_text(nanos, seq as nat, random, host) && match domain {
                Some(fixed) => host == fixed@,
                None => is_random_host(host),
            },
{
    match domain {
        Some(fixed) => message_id_from(
            environment::now_nanos(),
            seq,
            environment::rand_u64(),
            fixed,
        ),
        None => {
            let id: String = generate_message_id(seq);
            proof {
                let (nanos, random, label, tld) = choose|
                    nanos: nat,
                    random: nat,
                    label: Seq<char>,
                    tld: Seq<char>,
                |
                    id@ == #[trigger] message_id_text(nanos, seq as nat, random, label + "."@ + tld)
                        && all_letters(label) && 8 <= label.len() <= 15 && is_tld(tld);
                assert(is_random_host(label + "."@ + tld));
            }
            id
        },
    }
}

/// A randomised label under a common top-level domain.
pub open spec fn is_random_host(host: Seq<char>) -> bool {
    exists|label: Seq<char>, tld: Seq<char>|
        host == #[trigger] (label + "."@ + tld) && all_letters(label) && 8 <= label.len() <= 15
            && is_tld(tld)
}

proof fn lemma_hex_digits(n: nat)
    ensures
        text::hex(n).len() > 0,
        forall|i: int|
            0 <= i < text::hex(n).len() ==> (#[trigger] text::hex(n)[i] != '.'),
    decreases n,
{
    if n >= 16 {
        lemma_hex_digits(n / 16);
    }
}

/// Different numbers have different hexadecimal digits.
pub proof fn lemma_hex_injective(m: nat, n: nat)
    requires
        text::hex(m) == text::hex(n),
    ensures
        m == n,
    decreases m,
{
    lemma_hex_digits(m / 16);
    lemma_hex_digits(n / 16);
    assert(text::hex(m).last() == text::hex_char((m % 16) as int));
    assert(text::hex(n).last() == text::hex_char((n % 16) as int));
    if m >= 16 {
        if n >= 16 {
            assert(text::hex(m).drop_last() =~= text::hex(m / 16));
            assert(text::hex(n).drop_last() =~= text::hex(n / 16));
            lemma_hex_injective(m / 16, n / 16);
        } else {
            assert(text::hex(n).len() == 1);
        }
    } else if n >= 16 {
        assert(text::hex(m).len() == 1);
    }
}

/// Two texts that start with dot-free pieces followed by a dot start with the
/// same piece.
proof fn lemma_same_piece(a: Seq<char>, b: Seq<char>, x: Seq<char>, y: Seq<char>)
    requires
        forall|i: int| 0 <= i < a.len() ==> #[trigger] a[i] != '.',
        forall|i: int| 0 <= i < b.len() ==> #[trigger] b[i] != '.',
        a + seq!['.'] + x == b + seq!['.'] + y,
    ensures
        a == b,
        x == y,
{
    let s = a + seq!['.'] + x;
    let t = b + seq!['.'] + y;
    if a.len() < b.len() {
        assert(s[a.len() as int] == '.');
        assert(t[a.len() as int] == b[a.len() as int]);
    } else if b.len() < a.len() {
        assert(t[b.len() as int] == '.');
        assert(s[b.len() as int] == a[b.len() as int]);
    }
    assert(s.take(a.len() as int) =~= a);
    assert(t.take(b.len() as int) =~= b);
    assert(s.skip((a.len() + 1) as int) =~= x);
    assert(t.skip((b.len() + 1) as int) =~= y);
}

proof fn lemma_assoc(a: Seq<char>, b: Seq<char>, c: Seq<char>)
    ensures
        (a + b) + c == a + (b + c),
{
    assert((a + b) + c =~= a + (b + c));
}

/// What follows the sequence number in a `Message-ID`.
spec fn id_rest(random: nat, host: Seq<char>) -> Seq<char> {
    text::hex(random) + "@"@ + host + ">"@
}

/// A `Message-ID` is a bracket, two dotted numbers and the rest.
proof fn lemma_id_pieces(nanos: nat, seq: nat, random: nat, host: Seq<char>)
    ensures
        message_id_text(nanos, seq, random, host).skip(1) == text::hex(nanos) + seq!['.'] + (
        text::hex(seq) + seq!['.'] + id_rest(random, host)),
{
    reveal_strlit("<");
    reveal_strlit(".");
    assert("."@ =~= seq!['.']);
    let head = "<"@ + text::hex(nanos) + "."@ + text::hex(seq) + "."@;
    let r = text::hex(random);
    lemma_assoc(head, r, "@"@);
    lemma_assoc(head, r + "@"@, host);
    lemma_assoc(head, r + "@"@ + host, ">"@);
    let rest = id_rest(random, host);
    assert(message_id_text(nanos, seq, random, host) == head + rest);
    let whole = text::hex(nanos) + seq!['.'] + (text::hex(seq) + seq!['.'] + rest);
    assert((head + rest).skip(1) =~= whole);
}

/// `Message-ID`s made with different sequence numbers are different, whatever
/// the time and chance that went into them.
pub proof fn law_message_ids_are_unique(
    nanos1: nat,
    seq1: nat,
    random1: nat,
    host1: Seq<char>,
    nanos2: nat,
    seq2: nat,
    random2: nat,
    host2: Seq<char>,
)
    requires
        message_id_text(nanos1, seq1, random1, host1) == message_id_text(
            nanos2,
            seq2,
            random2,
            host2,
        ),
    ensures
        seq1 == seq2,
{
    lemma_id_pieces(nanos1, seq1, random1, host1);
    lemma_id_pieces(nanos2, seq2, random2, host2);
    let rest1 = id_rest(random1, host1);
    let rest2 = id_rest(random2, host2);
    lemma_hex_digits(nanos1);
    lemma_hex_digits(nanos2);
    lemma_hex_digits(seq1);
    lemma_hex_digits(seq2);
    lemma_same_piece(
        text::hex(nanos1),
        text::hex(nanos2),
        text::hex(seq1) + seq!['.'] + rest1,
        text::hex(seq2) + seq!['.'] + rest2,
    );
    lemma_same_piece(text::hex(seq1), text::hex(seq2), rest1, rest2);
    lemma_hex_injective(seq1, seq2);
}

/// The identifier of an article without its angle brackets.
pub open spec fn bare_id(message_id: Seq<char>) -> Seq<char> {
    chars::stripped_end(chars::stripped_start(message_id, '<'), '>')
}

/// A `Message-ID` made with a given sequence number.
pub open spec fn has_number(id: Seq<char>, seq: nat) -> bool {
    exists|nanos: nat, random: nat, host: Seq<char>|
        id == #[trigger] message_id_text(nanos, seq, random, host)
}

/// Gives out the `Message-ID`s of a process, each of them once: two of them never
/// collide, even within the same nanosecond.
pub struct MessageIds {
    /// The number of the next one.
    next: u64,
    /// Those given out.
    issued: Ghost<Seq<Seq<char>>>,
}

impl View for MessageIds {
    type V = Seq<Seq<char>>;

    /// The `Message-ID`s given out, in their order.
    closed spec fn view(&self) -> Seq<Seq<char>> {
        self.issued@
    }
}

impl MessageIds {
    /// Each `Message-ID` was made with the number of those before it.
    pub closed spec fn wf(&self) -> bool {
        &&& self.next == self.issued@.len()
        &&& forall|i: int|
            0 <= i < self.issued@.len() ==> has_number(#[trigger] self.issued@[i], i as nat)
    }

    /// None yet.
    pub fn new() -> (ids: Self)
        ensures
            ids.wf(),
            ids@ == Seq::<Seq<char>>::empty(),
    {
        MessageIds { next: 0, issued: Ghost(Seq::empty()) }
    }

    /// How many were given out.
    pub fn count(&self) -> (n: u64)
        requires
            self.wf(),
        ensures
            n == self@.len(),
    {
        self.next
    }

    /// Generate one more, under a fixed domain where one is given, and under a
    /// randomised one otherwise.
    pub fn generate(&mut self, domain: Option<&str>) -> (id: String)
        requires
            old(self).wf(),
            old(self)@.len() < u64::MAX,
        ensures
            final(self).wf(),
            final(self)@ == old(self)@.push(id@),
            !old(self)@.contains(id@),
            exists|nanos: nat, random: nat, host: Seq<char>|
                id@ == #[trigger] message_id_text(nanos, old(self)@.len(), random, host)
                    && match domain {
                    Some(fixed) => host == fixed@,
                    None => is_random_host(host),
                },
    {
        let ghost before = self.issued@;
        let id: String = generate_message_id_at(self.next, domain);
        self.next = self.next + 1;
        self.issued = Ghost(before.push(id@));
        proof {
            let last = before.len();
            assert(has_number(id@, last));
            assert forall|i: int| 0 <= i < last implies #[trigger] before[i] != id@ by {
                assert(has_number(before[i], i as nat));
                lemma_numbers_differ(before[i], i as nat, id@, last);
            }
        }
        id
    }
}

impl Default for MessageIds {
    fn default() -> (ids: Self)
        ensures
            ids.wf(),
            ids@ == Seq::<Seq<char>>::empty(),
    {
        MessageIds::new()
    }
}

proof fn lemma_numbers_differ(id1: Seq<char>, seq1: nat, id2: Seq<char>, seq2: nat)
    requires
        has_number(id1, seq1),
        has_number(id2, seq2),
        seq1 != seq2,
    ensures
        id1 != id2,
{
    let (nanos1, random1, host1) = choose|nanos: nat, random: nat, host: Seq<char>|
        id1 == #[trigger] message_id_text(nanos, seq1, random, host);
    let (nanos2, random2, host2) = choose|nanos: nat, random: nat, host: Seq<char>|
        id2 == #[trigger] message_id_text(nanos, seq2, random, host);
    if id1 == id2 {
        law_message_ids_are_unique(nanos1, seq1, random1, host1, nanos2, seq2, random2, host2);
    }
}

/// No two `Message-ID`s of a process are the same.
pub proof fn law_a_process_repeats_no_message_id(ids: &MessageIds)
    requires
        ids.wf(),
    ensures
        ids@.no_duplicates(),
{
    assert forall|i: int, j: int|
        0 <= i < ids@.len() && 0 <= j < ids@.len() && i != j implies ids@[i] != ids@[j] by {
        assert(has_number(ids.issued@[i], i as nat));
        assert(has_number(ids.issued@[j], j as nat));
        lemma_numbers_differ(ids@[i], i as nat, ids@[j], j as nat);
    }
}

/// The headers of a single Usenet article.
#[derive(Debug, Clone)]
pub struct Article {
    /// `Message-ID` value, including the surrounding angle brackets.
    pub message_id: String,
    /// `From` header value.
    pub from: String,
    /// Newsgroups this article is posted to.
    pub newsgroups: Vec<String>,
    /// `Subject` header value.
    pub subject: String,
}

/// Header lines, with a date and a request not to archive the article where
/// they are wanted, and the blank line after them.
pub open spec fn header_text(
    from: Seq<char>,
    newsgroups: Seq<String>,
    subject: Seq<char>,
    message_id: Seq<char>,
    date: Option<&str>,
    no_archive: bool,
) -> Seq<char> {
    "From: "@ + from + "\r\nNewsgroups: "@ + text::joined(newsgroups, ","@) + "\r\nSubject: "@
        + subject + "\r\nMessage-ID: "@ + message_id + (match date {
        Some(d) => "\r\nDate: "@ + d@,
        None => Seq::empty(),
    }) + (if no_archive {
        "\r\nX-No-Archive: yes"@
    } else {
        Seq::empty()
    }) + "\r\n\r\n"@
}

/// What a server finds in the headers of an article.
pub open spec fn heads_as(
    s: Seq<char>,
    from: Seq<char>,
    newsgroups: Seq<String>,
    subject: Seq<char>,
    message_id: Seq<char>,
    date: Option<&str>,
    no_archive: bool,
) -> bool {
    &&& reading::header(s, "From"@) == Some(from)
    &&& match reading::header(s, "Newsgroups"@) {
        Some(list) => reading::items(list, ',') == text::texts(newsgroups),
        None => false,
    }
    &&& reading::header(s, "Subject"@) == Some(subject)
    &&& reading::header(s, "Message-ID"@) == Some(message_id)
    &&& reading::header(s, "Date"@) == match date {
        Some(d) => Some(d@),
        None => None,
    }
    &&& reading::header(s, "X-No-Archive"@) == if no_archive {
        Some("yes"@)
    } else {
        None
    }
}

/// The fields of an article's headers take one line each, and the names of the
/// groups hold no comma.
pub open spec fn fits_headers(
    from: Seq<char>,
    newsgroups: Seq<String>,
    subject: Seq<char>,
    message_id: Seq<char>,
    date: Option<&str>,
) -> bool {
    &&& reading::is_one_line(from)
    &&& reading::is_one_line(subject)
    &&& reading::is_one_line(message_id)
    &&& date matches Some(d) ==> reading::is_one_line(d@)
    &&& newsgroups.len() > 0
    &&& forall|i: int|
        0 <= i < newsgroups.len() ==> reading::is_one_line((#[trigger] newsgroups[i])@)
            && reading::lacks(newsgroups[i]@, ',')
}

proof fn lemma_joined_lacks(list: Seq<String>, separator: Seq<char>, c: char)
    requires
        forall|i: int| 0 <= i < list.len() ==> reading::lacks((#[trigger] list[i])@, c),
        reading::lacks(separator, c),
    ensures
        reading::lacks(text::joined(list, separator), c),
    decreases list.len(),
{
    if list.len() > 1 {
        let rest = list.drop_last();
        assert forall|i: int| 0 <= i < rest.len() implies reading::lacks(
            (#[trigger] rest[i])@,
            c,
        ) by {
            assert(rest[i] == list[i]);
        }
        lemma_joined_lacks(rest, separator, c);
        let a = text::joined(rest, separator);
        let last = list[list.len() - 1]@;
        let all = a + separator + last;
        assert forall|i: int| 0 <= i < all.len() implies #[trigger] all[i] != c by {
            if i < a.len() {
                assert(all[i] == a[i]);
            } else if i < a.len() + separator.len() {
                assert(all[i] == separator[i - a.len()]);
            } else {
                assert(all[i] == last[i - a.len() - separator.len()]);
            }
        }
    }
}

/// The headers of an article, as names and values.
spec fn header_fields(
    from: Seq<char>,
    groups: Seq<char>,
    subject: Seq<char>,
    message_id: Seq<char>,
    date: Option<&str>,
    no_archive: bool,
) -> Seq<(Seq<char>, Seq<char>)> {
    seq![
        ("From"@, from),
        ("Newsgroups"@, groups),
        ("Subject"@, subject),
        ("Message-ID"@, message_id),
    ] + (match date {
        Some(d) => seq![("Date"@, d@)],
        None => Seq::empty(),
    }) + (if no_archive {
        seq![("X-No-Archive"@, "yes"@)]
    } else {
        Seq::empty()
    })
}

proof fn lemma_header_names()
    ensures
        reading::is_one_line("From"@) && reading::lacks("From"@, ':') && "From"@.len() == 4,
        reading::is_one_line("Newsgroups"@) && reading::lacks("Newsgroups"@, ':')
            && "Newsgroups"@.len() == 10 && "Newsgroups"@[0] == 'N',
        reading::is_one_line("Subject"@) && reading::lacks("Subject"@, ':') && "Subject"@.len()
            == 7,
        reading::is_one_line("Message-ID"@) && reading::lacks("Message-ID"@, ':')
            && "Message-ID"@.len() == 10 && "Message-ID"@[0] == 'M',
        reading::is_one_line("Date"@) && reading::lacks("Date"@, ':') && "Date"@.len() == 4
            && "Date"@[0] == 'D' && "From"@[0] == 'F',
        reading::is_one_line("X-No-Archive"@) && reading::lacks("X-No-Archive"@, ':')
            && "X-No-Archive"@.len() == 12,
        reading::is_one_line("yes"@),
{
    reveal_strlit("From");
    reveal_strlit("Newsgroups");
    reveal_strlit("Subject");
    reveal_strlit("Message-ID");
    reveal_strlit("Date");
    reveal_strlit("X-No-Archive");
    reveal_strlit("yes");
}

proof fn lemma_two_headers(name: Seq<char>, value: Seq<char>, rest: Seq<(Seq<char>, Seq<char>)>)
    ensures
        reading::headers_of(seq![(name, value)] + rest) == name + seq![':', ' '] + value + seq![
            '\r',
            '\n',
        ] + reading::headers_of(rest),
{
    let fields = seq![(name, value)] + rest;
    assert(fields.drop_first() =~= rest);
}

/// The end of the headers: the date and the request not to archive the article,
/// where they are wanted.
#[verifier::rlimit(40)]
proof fn lemma_last_headers(date: Option<&str>, no_archive: bool)
    ensures
        ({
            let last = (match date {
                Some(d) => seq![("Date"@, d@)],
                None => Seq::empty(),
            }) + (if no_archive {
                seq![("X-No-Archive"@, "yes"@)]
            } else {
                Seq::empty()
            });
            (match date {
                Some(d) => "\r\nDate: "@ + d@,
                None => Seq::empty(),
            }) + (if no_archive {
                "\r\nX-No-Archive: yes"@
            } else {
                Seq::empty()
            }) + "\r\n\r\n"@ == seq!['\r', '\n'] + reading::headers_of(last)
        }),
{
    reveal_strlit("\r\nDate: ");
    reveal_strlit("\r\nX-No-Archive: yes");
    reveal_strlit("\r\n\r\n");
    reveal_strlit("Date");
    reveal_strlit("X-No-Archive");
    reveal_strlit("yes");
    let none = Seq::<(Seq<char>, Seq<char>)>::empty();
    let one = seq![("X-No-Archive"@, "yes"@)];
    assert(reading::headers_of(none) == seq!['\r', '\n']);
    lemma_two_headers("X-No-Archive"@, "yes"@, none);
    assert(one + none =~= one);
    let tail = if no_archive {
        one
    } else {
        none
    };
    let end = (if no_archive {
        "\r\nX-No-Archive: yes"@
    } else {
        Seq::empty()
    }) + "\r\n\r\n"@;
    assert(end =~= seq!['\r', '\n'] + reading::headers_of(tail));
    match date {
        Some(d) => {
            lemma_two_headers("Date"@, d@, tail);
            assert("\r\nDate: "@ + d@ + (if no_archive {
                "\r\nX-No-Archive: yes"@
            } else {
                Seq::empty()
            }) + "\r\n\r\n"@ =~= seq!['\r', '\n'] + reading::headers_of(
                seq![("Date"@, d@)] + tail,
            ));
        },
        None => {
            assert(none + tail =~= tail);
            assert(Seq::<char>::empty() + (if no_archive {
                "\r\nX-No-Archive: yes"@
            } else {
                Seq::empty()
            }) + "\r\n\r\n"@ =~= seq!['\r', '\n'] + reading::headers_of(tail));
        },
    }
}

#[verifier::rlimit(40)]
proof fn lemma_header_text(
    from: Seq<char>,
    newsgroups: Seq<String>,
    subject: Seq<char>,
    message_id: Seq<char>,
    date: Option<&str>,
    no_archive: bool,
)
    ensures
        header_text(from, newsgroups, subject, message_id, date, no_archive)
            == reading::headers_of(
            header_fields(
                from,
                text::joined(newsgroups, ","@),
                subject,
                message_id,
                date,
                no_archive,
            ),
        ),
{
    let groups = text::joined(newsgroups, ","@);
    let dated = match date {
        Some(d) => seq![("Date"@, d@)],
        None => Seq::empty(),
    };
    let kept = if no_archive {
        seq![("X-No-Archive"@, "yes"@)]
    } else {
        Seq::empty()
    };
    let last = dated + kept;
    let f4 = seq![("Message-ID"@, message_id)] + last;
    let f3 = seq![("Subject"@, subject)] + f4;
    let f2 = seq![("Newsgroups"@, groups)] + f3;
    let f1 = seq![("From"@, from)] + f2;
    assert(f1 =~= header_fields(from, groups, subject, message_id, date, no_archive));
    lemma_two_headers("From"@, from, f2);
    lemma_two_headers("Newsgroups"@, groups, f3);
    lemma_two_headers("Subject"@, subject, f4);
    lemma_two_headers("Message-ID"@, message_id, last);
    lemma_last_headers(date, no_archive);
    let end = (match date {
        Some(d) => "\r\nDate: "@ + d@,
        None => Seq::empty(),
    }) + (if no_archive {
        "\r\nX-No-Archive: yes"@
    } else {
        Seq::empty()
    }) + "\r\n\r\n"@;
    lemma_header_front(from, groups, subject, message_id, reading::headers_of(last));
    let front = "From: "@ + from + "\r\nNewsgroups: "@ + groups + "\r\nSubject: "@ + subject
        + "\r\nMessage-ID: "@ + message_id;
    lemma_three_parts(
        front,
        match date {
            Some(d) => "\r\nDate: "@ + d@,
            None => Seq::empty(),
        },
        if no_archive {
            "\r\nX-No-Archive: yes"@
        } else {
            Seq::empty()
        },
        "\r\n\r\n"@,
    );
}

proof fn lemma_three_parts(front: Seq<char>, a: Seq<char>, b: Seq<char>, c: Seq<char>)
    ensures
        front + a + b + c == front + (a + b + c),
{
    assert(front + a + b + c =~= front + (a + b + c));
}

#[verifier::rlimit(40)]
proof fn lemma_header_front(
    from: Seq<char>,
    groups: Seq<char>,
    subject: Seq<char>,
    message_id: Seq<char>,
    rest: Seq<char>,
)
    ensures
        ({
            let crlf = seq!['\r', '\n'];
            let sep = seq![':', ' '];
            "From: "@ + from + "\r\nNewsgroups: "@ + groups + "\r\nSubject: "@ + subject
                + "\r\nMessage-ID: "@ + message_id + (crlf + rest) == "From"@ + sep + from + crlf + (
            "Newsgroups"@ + sep + groups + crlf + ("Subject"@ + sep + subject + crlf + (
            "Message-ID"@ + sep + message_id + crlf + rest)))
        }),
{
    reveal_strlit("From: ");
    reveal_strlit("\r\nNewsgroups: ");
    reveal_strlit("\r\nSubject: ");
    reveal_strlit("\r\nMessage-ID: ");
    reveal_strlit("From");
    reveal_strlit("Newsgroups");
    reveal_strlit("Subject");
    reveal_strlit("Message-ID");
    let crlf = seq!['\r', '\n'];
    let sep = seq![':', ' '];
    assert("From: "@ =~= "From"@ + sep);
    assert("\r\nNewsgroups: "@ =~= crlf + "Newsgroups"@ + sep);
    assert("\r\nSubject: "@ =~= crlf + "Subject"@ + sep);
    assert("\r\nMessage-ID: "@ =~= crlf + "Message-ID"@ + sep);
    assert("From"@ + sep + from + (crlf + "Newsgroups"@ + sep) + groups + (crlf + "Subject"@ + sep)
        + subject + (crlf + "Message-ID"@ + sep) + message_id + (crlf + rest) =~= "From"@ + sep
        + from + crlf + ("Newsgroups"@ + sep + groups + crlf + ("Subject"@ + sep + subject + crlf
        + ("Message-ID"@ + sep + message_id + crlf + rest))));
}

/// A server finds in the headers of an article what they were made of: who posts,
/// to which groups, the subject, the identifier, and the date and the request not
/// to archive exactly where they are wanted.
#[verifier::rlimit(40)]
pub proof fn law_headers_read_back(
    from: Seq<char>,
    newsgroups: Seq<String>,
    subject: Seq<char>,
    message_id: Seq<char>,
    date: Option<&str>,
    no_archive: bool,
)
    requires
        fits_headers(from, newsgroups, subject, message_id, date),
    ensures
        heads_as(
            header_text(from, newsgroups, subject, message_id, date, no_archive),
            from,
            newsgroups,
            subject,
            message_id,
            date,
            no_archive,
        ),
{
    let groups = text::joined(newsgroups, ","@);
    let fields = header_fields(from, groups, subject, message_id, date, no_archive);
    lemma_header_text(from, newsgroups, subject, message_id, date, no_archive);
    lemma_header_names();
    reveal_strlit(",");
    assert(","@ =~= seq![',']);
    lemma_joined_lacks(newsgroups, ","@, '\r');
    lemma_joined_lacks(newsgroups, ","@, '\n');
    reading::lemma_items(newsgroups, ',');
    assert("Subject"@ != "X-No-Archive"@ && "From"@ != "Date"@ && "Newsgroups"@ != "Message-ID"@);
    assert(reading::well_headed(fields));
    reading::lemma_headers(fields, 0);
    reading::lemma_headers(fields, 1);
    reading::lemma_headers(fields, 2);
    reading::lemma_headers(fields, 3);
    match date {
        Some(d) => {
            reading::lemma_headers(fields, 4);
            if no_archive {
                reading::lemma_headers(fields, 5);
            } else {
                reading::lemma_no_header(fields, "X-No-Archive"@);
            }
        },
        None => {
            reading::lemma_no_header(fields, "Date"@);
            if no_archive {
                reading::lemma_headers(fields, 4);
            } else {
                reading::lemma_no_header(fields, "X-No-Archive"@);
            }
        },
    }
}

impl Article {
    /// The header lines and the blank line after them.
    pub open spec fn header(&self) -> Seq<char> {
        "From: "@ + self.from@ + "\r\nNewsgroups: "@ + text::joined(self.newsgroups@, ","@)
            + "\r\nSubject: "@ + self.subject@ + "\r\nMessage-ID: "@ + self.message_id@
            + "\r\n\r\n"@
    }

    /// The header lines with a date and a request not to archive the article,
    /// and the blank line after them.
    pub open spec fn header_with(&self, date: Option<&str>, no_archive: bool) -> Seq<char> {
        header_text(
            self.from@,
            self.newsgroups@,
            self.subject@,
            self.message_id@,
            date,
            no_archive,
        )
    }

    /// Serialize the article for posting: header lines, a blank line, then the
    /// already-encoded `body`.
    pub fn serialize(&self, body: &[u8]) -> (out: Vec<u8>)
        ensures
            out@ == vstd::utf8::encode_utf8(self.header()) + body@,
    {
        proof {
            let lines = "From: "@ + self.from@ + "\r\nNewsgroups: "@ + text::joined(
                self.newsgroups@,
                ","@,
            ) + "\r\nSubject: "@ + self.subject@ + "\r\nMessage-ID: "@ + self.message_id@;
            assert(lines + Seq::empty() =~= lines);
        }
        self.serialize_with(None, false, body)
    }

    /// Serialize the article for posting, with a `Date:` header where one is
    /// given, and with `X-No-Archive: yes` where it is asked for.
    pub fn serialize_with(&self, date: Option<&str>, no_archive: bool, body: &[u8]) -> (out: Vec<
        u8,
    >)
        ensures
            out@ == vstd::utf8::encode_utf8(self.header_with(date, no_archive)) + body@,
    {
        let mut header: String = String::from_str("From: ");
        header.append(self.from.as_str());
        header.append("\r\nNewsgroups: ");
        header.append(text::join(self.newsgroups.as_slice(), ",").as_str());
        header.append("\r\nSubject: ");
        header.append(self.subject.as_str());
        header.append("\r\nMessage-ID: ");
        header.append(self.message_id.as_str());
        let ghost lines = header@;
        assert(lines + Seq::empty() =~= lines);
        match date {
            Some(d) => {
                let mut line: String = String::from_str("\r\nDate: ");
                line.append(d);
                header.append(line.as_str());
            },
            None => {},
        }
        let ghost dated = header@;
        assert(dated + Seq::empty() =~= dated);
        if no_archive {
            header.append("\r\nX-No-Archive: yes");
        }
        header.append("\r\n\r\n");
        let mut out: Vec<u8> = Vec::new();
        text::push_bytes(&mut out, header.as_str().as_bytes());
        assert(out@ =~= vstd::utf8::encode_utf8(self.header_with(date, no_archive)));
        text::push_bytes(&mut out, body);
        out
    }
}

/// The thirty-two hexadecimal digits of two words.
pub open spec fn obfuscated_text(high: u64, low: u64) -> Seq<char> {
    text::hex_fixed(high as nat, 16) + text::hex_fixed(low as nat, 16)
}

/// The name made of two words.
pub fn obfuscated_from(high: u64, low: u64) -> (name: String)
    ensures
        name@ == obfuscated_text(high, low),
{
    let mut name: String = String::new();
    text::push_hex_fixed(&mut name, high, 16);
    assert(name@ =~= text::hex_fixed(high as nat, 16));
    text::push_hex_fixed(&mut name, low, 16);
    name
}

/// Generate a random 32-hex-character name, used to obfuscate the subject and
/// yEnc file name when posting. Each call draws fresh words.
pub fn obfuscated_name() -> (name: String)
    ensures
        exists|high: u64, low: u64| name@ == #[trigger] obfuscated_text(high, low),
{
    let high: u64 = environment::rand_u64();
    let low: u64 = environment::rand_u64();
    obfuscated_from(high, low)
}

proof fn lemma_hex_fixed_shape(n: nat, width: nat)
    ensures
        text::hex_fixed(n, width).len() == width,
        forall|i: int|
            0 <= i < width ==> is_hex_digit(#[trigger] text::hex_fixed(n, width)[i]),
    decreases width,
{
    if width > 0 {
        lemma_hex_fixed_shape(n / 16, (width - 1) as nat);
    }
}

/// A lower-case hexadecimal digit.
pub open spec fn is_hex_digit(c: char) -> bool {
    '0' <= c <= '9' || 'a' <= c <= 'f'
}

/// An obfuscated name has thirty-two characters, all hexadecimal digits.
pub proof fn law_obfuscated_names_are_hex(high: u64, low: u64)
    ensures
        obfuscated_text(high, low).len() == 32,
        forall|i: int|
            0 <= i < 32 ==> is_hex_digit(#[trigger] obfuscated_text(high, low)[i]),
{
    lemma_hex_fixed_shape(high as nat, 16);
    lemma_hex_fixed_shape(low as nat, 16);
    let s = obfuscated_text(high, low);
    assert forall|i: int| 0 <= i < 32 implies is_hex_digit(#[trigger] s[i]) by {
        if i < 16 {
            assert(s[i] == text::hex_fixed(high as nat, 16)[i]);
        } else {
            assert(s[i] == text::hex_fixed(low as nat, 16)[i - 16]);
        }
    }
}

/// Byte `i` of a word, the lowest being zero.
pub open spec fn byte_of(word: u64, i: nat) -> int
    decreases i,
{
    if i == 0 {
        word as int % 256
    } else {
        byte_of((word / 256) as u64, (i - 1) as nat)
    }
}

/// The letters that random words stand for: each byte, from the lowest up,
/// gives a letter.
pub open spec fn letters_of(words: Seq<u64>, len: nat) -> Seq<char> {
    Seq::new(len, |i: int| (97 + byte_of(words[i / 8], (i % 8) as nat) % 26) as char)
}

/// Take words apart into `len` bytes, eight to a word, from the lowest up.
pub fn word_bytes(words: &[u64], len: usize) -> (bytes: Vec<u8>)
    requires
        len <= 8 * words@.len(),
    ensures
        bytes@.len() == len,
        forall|k: int|
            0 <= k < len ==> #[trigger] bytes@[k] == byte_of(words@[k / 8], (k % 8) as nat),
{
    let mut bytes: Vec<u8> = Vec::new();
    let mut bits: u64 = 0;
    let mut i: usize = 0;
    while i < len
        invariant
            i <= len,
            len <= 8 * words@.len(),
            bytes@.len() == i,
            i % 8 != 0 ==> forall|k: nat| #[trigger]
                byte_of(bits, k) == byte_of(words@[i as int / 8], (i as int % 8 + k) as nat),
            forall|k: int|
                0 <= k < i ==> #[trigger] bytes@[k] == byte_of(words@[k / 8], (k % 8) as nat),
        decreases len - i,
    {
        if i % 8 == 0 {
            bits = words[i / 8];
        }
        assert(byte_of(bits, 0) == byte_of(words@[i as int / 8], (i as int % 8) as nat));
        bytes.push((bits % 256) as u8);
        proof {
            let before = bits;
            let next = (bits / 256) as u64;
            assert forall|k: nat| (i + 1) % 8 != 0 implies #[trigger] byte_of(next, k) == byte_of(
                words@[(i + 1) as int / 8],
                ((i + 1) as int % 8 + k) as nat,
            ) by {
                assert(byte_of(before, k + 1) == byte_of(next, k));
                assert(byte_of(before, k + 1) == byte_of(
                    words@[i as int / 8],
                    (i as int % 8 + (k + 1)) as nat,
                ));
                assert((i + 1) as int / 8 == i as int / 8);
                assert((i + 1) as int % 8 + k == i as int % 8 + (k + 1));
            }
        }
        bits = bits / 256;
        i = i + 1;
    }
    bytes
}

/// Turn random words into `len` lower-case ASCII letters, eight to a word.
pub fn letters_from(words: &[u64], len: usize) -> (s: String)
    requires
        len <= 8 * words@.len(),
    ensures
        s@ == letters_of(words@, len as nat),
{
    let bytes: Vec<u8> = word_bytes(words, len);
    let mut s: String = String::new();
    let mut i: usize = 0;
    while i < len
        invariant
            i <= len,
            bytes@.len() == len,
            forall|k: int|
                0 <= k < len ==> #[trigger] bytes@[k] == byte_of(words@[k / 8], (k % 8) as nat),
            s@ == letters_of(words@, len as nat).take(i as int),
        decreases len - i,
    {
        s.push((97 + bytes[i] % 26) as char);
        assert(s@ =~= letters_of(words@, len as nat).take(i + 1));
        i = i + 1;
    }
    assert(s@ =~= letters_of(words@, len as nat));
    s
}

/// Build a string of `len` random lowercase ASCII letters.
fn random_alpha(len: usize) -> (s: String)
    requires
        len < usize::MAX / 8,
    ensures
        s@.len() == len,
        all_letters(s@),
{
    let mut words: Vec<u64> = Vec::new();
    let needed: usize = (len + 7) / 8;
    while words.len() < needed
        invariant
            words@.len() <= needed,
        decreases needed - words@.len(),
    {
        words.push(environment::rand_u64());
    }
    letters_from(words.as_slice(), len)
}

/// One of three top-level domains, chosen by a random word.
pub fn pick_tld(r: u64) -> (tld: &'static str)
    ensures
        r % 3 == 0 ==> tld@ == "com"@,
        r % 3 == 1 ==> tld@ == "net"@,
        r % 3 == 2 ==> tld@ == "org"@,
        is_tld(tld@),
{
    if r % 3 == 0 {
        "com"
    } else if r % 3 == 1 {
        "net"
    } else {
        "org"
    }
}

/// The ASCII upper-case form of a character.
pub open spec fn upper(c: char) -> char {
    if 'a' <= c <= 'z' {
        (c as u32 - 32) as char
    } else {
        c
    }
}

/// `Name <local@domain.tld>`, the name capitalised.
pub open spec fn address_text(
    name: Seq<char>,
    local: Seq<char>,
    domain: Seq<char>,
    tld: Seq<char>,
) -> Seq<char> {
    seq![upper(name[0])] + name.skip(1) + " <"@ + local + "@"@ + domain + "."@ + tld + ">"@
}

/// Build a `From` header value from its pieces.
pub fn address_from(name: &str, local: &str, domain: &str, tld: &str) -> (from: String)
    requires
        name@.len() > 0,
    ensures
        from@ == address_text(name@, local@, domain@, tld@),
{
    let letters: Vec<char> = text::chars_of(name);
    let first: char = letters[0];
    let mut from: String = String::new();
    if 'a' <= first && first <= 'z' {
        from.push(((first as u8) - 32) as char);
    } else {
        from.push(first);
    }
    assert(from@ =~= seq![upper(name@[0])]);
    let n: usize = letters.len();
    let rest: &[char] = chars::part(letters.as_slice(), 1, n);
    assert(rest@ =~= name@.skip(1));
    text::push_chars(&mut from, rest);
    from.append(" <");
    from.append(local);
    from.append("@");
    from.append(domain);
    from.append(".");
    from.append(tld);
    from.append(">");
    from
}

/// Generate a random `From` header of the form `Name <local@domain.tld>`.
///
/// Both the display name and the address use a randomised character count so
/// no two posts share an obvious fingerprint.
pub fn random_from() -> (from: String)
    ensures
        exists|name: Seq<char>, local: Seq<char>, domain: Seq<char>, tld: Seq<char>|
            from@ == #[trigger] address_text(name, local, domain, tld) && all_letters(name)
                && all_letters(local) && all_letters(domain) && is_tld(tld) && 5 <= name.len() <= 12
                && 6 <= local.len() <= 14 && 5 <= domain.len() <= 12,
{
    let name: String = random_alpha(5 + (environment::rand_u64() % 8) as usize);
    let local: String = random_alpha(6 + (environment::rand_u64() % 9) as usize);
    let domain: String = random_alpha(5 + (environment::rand_u64() % 8) as usize);
    let tld: &str = pick_tld(environment::rand_u64());
    address_from(name.as_str(), local.as_str(), domain.as_str(), tld)
}

/// The subject of one part of a file: the name alone, or with `(part/total)`
/// when there are several parts.
pub open spec fn subject_text(name: Seq<char>, part: nat, total: nat) -> Seq<char> {
    if total > 1 {
        name + " ("@ + text::decimal(part) + "/"@ + text::decimal(total) + ")"@
    } else {
        name
    }
}

/// Build a default subject line for one part of a file.
///
/// Single-part files use just the name; multi-part files append `(part/total)`.
pub fn default_subject(name: &str, part: u32, total: u32) -> (subject: String)
    ensures
        subject@ == subject_text(name@, part as nat, total as nat),
{
    let mut subject: String = String::from_str(name);
    if total > 1 {
        subject.append(" (");
        text::push_decimal(&mut subject, part as u64);
        subject.append("/");
        text::push_decimal(&mut subject, total as u64);
        subject.append(")");
    }
    subject
}

} // verus!

//! Reading `.nzb` documents back: what a downloader finds in them.

use vstd::prelude::*;
use vstd::string::*;

use crate::article;
use crate::nzb;
use crate::nzb::NzbMeta;
use crate::poster::PostedSegment;
use crate::reading;
use crate::scan;
use crate::text;

verus! {

/// A segment as a downloader finds it.
pub struct FoundSegment {
    pub bytes: nat,
    pub number: nat,
    pub id: Seq<char>,
}

/// A file as a downloader finds it.
pub struct FoundFile {
    pub name: Seq<char>,
    pub poster: Seq<char>,
    pub date: nat,
    pub subject: Seq<char>,
    pub groups: Seq<Seq<char>>,
    pub segments: Seq<FoundSegment>,
}

/// What a downloader finds in a document: its `<meta>` fields, and its files.
pub struct Found {
    pub metas: Seq<(Seq<char>, Seq<char>)>,
    pub files: Seq<FoundFile>,
}

/// A text with its entities replaced by what they stand for.
pub open spec fn plain(s: Seq<char>) -> Seq<char> {
    nzb::xml_reader(s).0
}

/// The text of a named attribute; nothing where there is none.
pub open spec fn text_of(tag: Seq<char>, name: Seq<char>) -> Seq<char> {
    match reading::attribute(tag, name) {
        Some(v) => plain(v),
        None => Seq::empty(),
    }
}

/// The number in a named attribute.
pub open spec fn number_of(tag: Seq<char>, name: Seq<char>) -> nat {
    scan::digits_value(text_of(tag, name))
}

/// What a tag adds, given the text between it and the tag before.
pub open spec fn with_tag(found: Found, content: Seq<char>, tag: Seq<char>) -> Found {
    let files = found.files;
    let metas = found.metas;
    if scan::starts_with(tag, "file "@) {
        let file = FoundFile {
            name: text_of(tag, "name"@),
            poster: text_of(tag, "poster"@),
            date: number_of(tag, "date"@),
            subject: text_of(tag, "subject"@),
            groups: Seq::empty(),
            segments: Seq::empty(),
        };
        Found { files: files.push(file), ..found }
    } else if scan::starts_with(tag, "segment "@) {
        let segment = FoundSegment {
            bytes: number_of(tag, "bytes"@),
            number: number_of(tag, "number"@),
            id: Seq::empty(),
        };
        with_segments(found, files.last().segments.push(segment))
    } else if tag == "/segment"@ {
        let segments = files.last().segments;
        let segment = FoundSegment { id: plain(content), ..segments.last() };
        with_segments(found, segments.drop_last().push(segment))
    } else if tag == "/group"@ {
        let file = FoundFile {
            groups: files.last().groups.push(plain(content)),
            ..files.last()
        };
        Found { files: files.drop_last().push(file), ..found }
    } else if scan::starts_with(tag, "meta "@) {
        Found { metas: metas.push((text_of(tag, "type"@), Seq::empty())), ..found }
    } else if tag == "/meta"@ {
        Found { metas: metas.drop_last().push((metas.last().0, plain(content))), ..found }
    } else {
        found
    }
}

/// The last file with these segments.
pub open spec fn with_segments(found: Found, segments: Seq<FoundSegment>) -> Found {
    let file = FoundFile { segments, ..found.files.last() };
    Found { files: found.files.drop_last().push(file), ..found }
}

/// A reader at work: what it has found, the text behind the last tag, and the tag
/// that it is in.
pub struct Reader {
    pub found: Found,
    pub content: Seq<char>,
    pub in_tag: bool,
    pub tag: Seq<char>,
}

/// The reader after one more character.
pub open spec fn step(r: Reader, c: char) -> Reader {
    if r.in_tag {
        if c == '>' {
            Reader {
                found: with_tag(r.found, r.content, r.tag),
                content: Seq::empty(),
                in_tag: false,
                tag: Seq::empty(),
            }
        } else {
            Reader { tag: r.tag.push(c), ..r }
        }
    } else if c == '<' {
        Reader { in_tag: true, tag: Seq::empty(), ..r }
    } else {
        Reader { content: r.content.push(c), ..r }
    }
}

/// The reader after more text.
pub open spec fn run(r: Reader, s: Seq<char>) -> Reader
    decreases s.len(),
{
    if s.len() == 0 {
        r
    } else {
        step(run(r, s.drop_last()), s.last())
    }
}

/// What a reader finds in a document.
pub open spec fn read(document: Seq<char>) -> Found {
    let start = Reader {
        found: Found { metas: Seq::empty(), files: Seq::empty() },
        content: Seq::empty(),
        in_tag: false,
        tag: Seq::empty(),
    };
    run(start, document).found
}

/// A reader between tags that has found this much.
pub open spec fn between(found: Found, content: Seq<char>) -> Reader {
    Reader { found, content, in_tag: false, tag: Seq::empty() }
}

proof fn lemma_run_parts(r: Reader, a: Seq<char>, b: Seq<char>)
    ensures
        run(r, a + b) == run(run(r, a), b),
    decreases b.len(),
{
    if b.len() == 0 {
        assert(a + b =~= a);
    } else {
        lemma_run_parts(r, a, b.drop_last());
        assert((a + b).drop_last() =~= a + b.drop_last());
        assert((a + b).last() == b.last());
    }
}

proof fn lemma_run_text(found: Found, content: Seq<char>, t: Seq<char>)
    requires
        reading::lacks(t, '<'),
    ensures
        run(between(found, content), t) == between(found, content + t),
    decreases t.len(),
{
    if t.len() == 0 {
        assert(content + t =~= content);
    } else {
        let u = t.drop_last();
        assert forall|i: int| 0 <= i < u.len() implies #[trigger] u[i] != '<' by {
            assert(u[i] == t[i]);
        }
        lemma_run_text(found, content, u);
        assert(t[t.len() - 1] != '<');
        assert((content + u).push(t.last()) =~= content + t);
    }
}

proof fn lemma_run_tag(r: Reader, t: Seq<char>)
    requires
        r.in_tag,
        reading::lacks(t, '>'),
    ensures
        run(r, t) == (Reader { tag: r.tag + t, ..r }),
    decreases t.len(),
{
    if t.len() == 0 {
        assert(r.tag + t =~= r.tag);
    } else {
        let u = t.drop_last();
        assert forall|i: int| 0 <= i < u.len() implies #[trigger] u[i] != '>' by {
            assert(u[i] == t[i]);
        }
        lemma_run_tag(r, u);
        assert(t[t.len() - 1] != '>');
        assert((r.tag + u).push(t.last()) =~= r.tag + t);
    }
}

/// Text and a tag.
proof fn lemma_run_element(found: Found, content: Seq<char>, t: Seq<char>, tag: Seq<char>)
    requires
        reading::lacks(t, '<'),
        reading::lacks(tag, '>'),
    ensures
        run(between(found, content), t + seq!['<'] + tag + seq!['>']) == between(
            with_tag(found, content + t, tag),
            Seq::empty(),
        ),
{
    let r = between(found, content);
    lemma_run_text(found, content, t);
    let a = t + seq!['<'];
    assert(a.drop_last() =~= t && a.last() == '<');
    let opened = Reader { found, content: content + t, in_tag: true, tag: Seq::empty() };
    assert(run(r, a) == opened);
    lemma_run_parts(r, a, tag);
    lemma_run_tag(opened, tag);
    let b = a + tag;
    assert(opened.tag + tag =~= tag);
    let c = b + seq!['>'];
    assert(c.drop_last() =~= b && c.last() == '>');
}

/// Text without entities is plain.
proof fn lemma_plain_text(s: Seq<char>)
    requires
        reading::lacks(s, '&'),
    ensures
        nzb::xml_reader(s) == (s, Seq::<char>::empty()),
    decreases s.len(),
{
    if s.len() > 0 {
        let t = s.drop_last();
        assert forall|i: int| 0 <= i < t.len() implies #[trigger] t[i] != '&' by {
            assert(t[i] == s[i]);
        }
        lemma_plain_text(t);
        assert(s[s.len() - 1] != '&');
        assert(t.push(s.last()) =~= s);
    }
}

/// What is written for a number reads as that number, and holds no markup.
proof fn lemma_number(n: nat)
    ensures
        scan::digits_value(plain(text::decimal(n))) == n,
        reading::lacks(text::decimal(n), '"'),
        reading::lacks(text::decimal(n), '<'),
        reading::lacks(text::decimal(n), '>'),
{
    reading::law_decimals_read_back(n);
    let s = text::decimal(n);
    assert forall|i: int| 0 <= i < s.len() implies #[trigger] s[i] != '"' && s[i] != '<' && s[i]
        != '>' && s[i] != '&' by {
        assert(crate::chars::is_digit(s[i]));
    }
    lemma_plain_text(s);
}

/// What is written for a text reads as that text, and holds no markup.
proof fn lemma_escaped(s: Seq<char>)
    ensures
        plain(nzb::xml_escaped(s)) == s,
        reading::lacks(nzb::xml_escaped(s), '"'),
        reading::lacks(nzb::xml_escaped(s), '<'),
        reading::lacks(nzb::xml_escaped(s), '>'),
{
    nzb::law_xml_reader_undoes_escaping(s);
    let e = nzb::xml_escaped(s);
    assert forall|i: int| 0 <= i < e.len() implies #[trigger] e[i] != '"' && e[i] != '<' && e[i]
        != '>' by {
        nzb::law_escaped_text_is_inert(s, i);
    }
}

proof fn lemma_lacks_joined(a: Seq<char>, b: Seq<char>, c: char)
    requires
        reading::lacks(a, c),
        reading::lacks(b, c),
    ensures
        reading::lacks(a + b, c),
{
    assert forall|i: int| 0 <= i < (a + b).len() implies #[trigger] (a + b)[i] != c by {
        if i < a.len() {
            assert((a + b)[i] == a[i]);
        } else {
            assert((a + b)[i] == b[i - a.len()]);
        }
    }
}

/// The tag of a segment.
spec fn segment_tag(bytes: Seq<char>, number: Seq<char>) -> Seq<char> {
    "segment bytes="@ + seq!['"'] + (bytes + seq!['"'] + (" number="@ + seq!['"'] + (number + seq![
        '"',
    ] + Seq::empty())))
}

proof fn lemma_segment_tag(bytes: Seq<char>, number: Seq<char>)
    requires
        reading::lacks(bytes, '"'),
        reading::lacks(number, '"'),
        reading::lacks(bytes, '>'),
        reading::lacks(number, '>'),
    ensures
        ({
            let tag = segment_tag(bytes, number);
            &&& reading::attribute(tag, "bytes"@) == Some(bytes)
            &&& reading::attribute(tag, "number"@) == Some(number)
            &&& reading::lacks(tag, '>')
            &&& scan::starts_with(tag, "segment "@)
            &&& !scan::starts_with(tag, "file "@)
        }),
{
    reveal_strlit("segment bytes=");
    reveal_strlit(" number=");
    reveal_strlit("bytes");
    reveal_strlit("number");
    reveal_strlit("segment ");
    reveal_strlit("file ");
    let tag = segment_tag(bytes, number);
    let k1 = "segment bytes="@;
    let k2 = " number="@;
    let rest = k2 + seq!['"'] + (number + seq!['"'] + Seq::empty());
    reading::lemma_attribute(k1, bytes, rest, "bytes"@);
    reading::lemma_attribute(k1, bytes, rest, "number"@);
    reading::lemma_attribute(k2, number, Seq::empty(), "number"@);
    assert(k1.skip(7) =~= seq![' '] + "bytes"@ + seq!['=']);
    assert(k2.skip(0) =~= seq![' '] + "number"@ + seq!['=']);
    let other = seq![' '] + "number"@ + seq!['='];
    assert(k1.skip(6)[0] == 't' && other[0] == ' ');
    assert(tag.subrange(0, 8) =~= "segment "@);
    assert(tag[0] == 's');
    if scan::starts_with(tag, "file "@) {
        assert(tag.subrange(0, 5)[0] == "file "@[0]);
    }
}

/// A `<segment>` line, taken apart.
#[verifier::rlimit(40)]
proof fn lemma_segment_text(bytes: Seq<char>, number: Seq<char>, e: Seq<char>)
    ensures
        "      <segment bytes=\""@ + bytes + "\" number=\""@ + number + "\">"@ + e
            + "</segment>\n"@ == ("      "@ + seq!['<'] + segment_tag(bytes, number) + seq!['>'])
                + (
        e + seq!['<'] + "/segment"@ + seq!['>']) + seq!['\n'],
{
    reveal_strlit("      <segment bytes=\"");
    reveal_strlit("\" number=\"");
    reveal_strlit("\">");
    reveal_strlit("</segment>\n");
    reveal_strlit("segment bytes=");
    reveal_strlit(" number=");
    reveal_strlit("/segment");
    reveal_strlit("      ");
    let q = seq!['"'];
    assert("      <segment bytes=\""@ =~= "      "@ + seq!['<'] + "segment bytes="@ + q);
    assert("\" number=\""@ =~= q + " number="@ + q);
    assert("\">"@ =~= q + seq!['>']);
    assert("</segment>\n"@ =~= seq!['<'] + "/segment"@ + seq!['>'] + seq!['\n']);
    assert("      "@ + seq!['<'] + "segment bytes="@ + q + bytes + (q + " number="@ + q) + number
        + (q + seq!['>']) + e + (seq!['<'] + "/segment"@ + seq!['>'] + seq!['\n']) =~= ("      "@
        + seq!['<'] + segment_tag(bytes, number) + seq!['>']) + (e + seq!['<'] + "/segment"@ + seq![
        '>',
    ]) + seq!['\n']);
}

/// A `<segment>` line adds a segment to the last file: its size, its number and
/// its identifier.
#[verifier::rlimit(40)]
proof fn lemma_segment_line(found: Found, content: Seq<char>, seg: PostedSegment)
    requires
        found.files.len() > 0,
    ensures
        run(
            between(found, content),
            "      <segment bytes=\""@ + text::decimal(seg.bytes as nat) + "\" number=\""@
                + text::decimal(seg.part as nat) + "\">"@ + nzb::xml_escaped(
                article::bare_id(seg.message_id@),
            ) + "</segment>\n"@,
        ) == between(
            with_segments(found, found.files.last().segments.push(segment_found(seg))),
            seq!['\n'],
        ),
{
    let bytes = text::decimal(seg.bytes as nat);
    let number = text::decimal(seg.part as nat);
    let id = article::bare_id(seg.message_id@);
    let e = nzb::xml_escaped(id);
    let line = "      <segment bytes=\""@ + bytes + "\" number=\""@ + number + "\">"@ + e
        + "</segment>\n"@;
    lemma_number(seg.bytes as nat);
    lemma_number(seg.part as nat);
    lemma_escaped(id);
    lemma_segment_tag(bytes, number);
    let tag = segment_tag(bytes, number);
    lemma_segment_text(bytes, number, e);
    reveal_strlit("/segment");
    reveal_strlit("      ");
    reveal_strlit("file ");
    reveal_strlit("segment ");
    let a = "      "@ + seq!['<'] + tag + seq!['>'];
    let b = e + seq!['<'] + "/segment"@ + seq!['>'];
    let r = between(found, content);
    lemma_run_element(found, content, "      "@, tag);
    let one = with_tag(found, content + "      "@, tag);
    let opened = found.files.last().segments.push(
        FoundSegment { bytes: seg.bytes as nat, number: seg.part as nat, id: Seq::empty() },
    );
    assert(one == with_segments(found, opened));
    lemma_run_element(one, Seq::empty(), e, "/segment"@);
    assert(Seq::<char>::empty() + e =~= e);
    let two = with_tag(one, e, "/segment"@);
    assert("/segment"@[0] == '/');
    if scan::starts_with("/segment"@, "file "@) {
        assert("/segment"@.subrange(0, 5)[0] == "file "@[0]);
    }
    if scan::starts_with("/segment"@, "segment "@) {
        assert("/segment"@.subrange(0, 8)[0] == "segment "@[0]);
    }
    let closed = found.files.last().segments.push(segment_found(seg));
    assert(one.files.last().segments == opened);
    assert(opened.drop_last().push(
        FoundSegment { id, ..opened.last() },
    ) =~= closed);
    assert(two.files =~= with_segments(found, closed).files);
    lemma_run_parts(r, a, b);
    lemma_run_parts(r, a + b, seq!['\n']);
    lemma_run_text(two, Seq::empty(), seq!['\n']);
    assert(Seq::<char>::empty() + seq!['\n'] =~= seq!['\n']);
}

/// What a downloader is to find of a segment.
pub open spec fn segment_found(seg: PostedSegment) -> FoundSegment {
    FoundSegment {
        bytes: seg.bytes as nat,
        number: seg.part as nat,
        id: article::bare_id(seg.message_id@),
    }
}

/// A reader between tags, whatever the text behind the last one.
spec fn is_between(r: Reader, found: Found) -> bool {
    r == between(found, r.content)
}

/// What a downloader is to find of some segments.
pub open spec fn segments_found(segs: Seq<PostedSegment>) -> Seq<FoundSegment> {
    Seq::new(segs.len(), |i: int| segment_found(segs[i]))
}

proof fn lemma_segment_lines(found: Found, content: Seq<char>, segs: Seq<PostedSegment>)
    requires
        found.files.len() > 0,
    ensures
        is_between(
            run(between(found, content), nzb::segment_lines(segs)),
            with_segments(found, found.files.last().segments + segments_found(segs)),
        ),
    decreases segs.len(),
{
    let before = found.files.last().segments;
    if segs.len() == 0 {
        assert(before + segments_found(segs) =~= before);
        assert(with_segments(found, before).files =~= found.files);
    } else {
        let rest = segs.drop_last();
        let seg = segs.last();
        lemma_segment_lines(found, content, rest);
        let r = run(between(found, content), nzb::segment_lines(rest));
        let mid = with_segments(found, before + segments_found(rest));
        lemma_segment_line(mid, r.content, seg);
        let line = "      <segment bytes=\""@ + text::decimal(seg.bytes as nat) + "\" number=\""@
            + text::decimal(seg.part as nat) + "\">"@ + nzb::xml_escaped(
            article::bare_id(seg.message_id@),
        ) + "</segment>\n"@;
        assert(nzb::segment_lines(segs) =~= nzb::segment_lines(rest) + line);
        lemma_run_parts(between(found, content), nzb::segment_lines(rest), line);
        let after = before + segments_found(segs);
        assert(mid.files.last().segments.push(segment_found(seg)) =~= after);
        assert(with_segments(mid, after).files =~= with_segments(found, after).files);
    }
}

/// The last file with these groups.
pub open spec fn with_groups(found: Found, groups: Seq<Seq<char>>) -> Found {
    let file = FoundFile { groups, ..found.files.last() };
    Found { files: found.files.drop_last().push(file), ..found }
}

#[verifier::rlimit(40)]
proof fn lemma_group_line(found: Found, content: Seq<char>, group: Seq<char>)
    requires
        found.files.len() > 0,
    ensures
        is_between(
            run(
                between(found, content),
                "      <group>"@ + nzb::xml_escaped(group) + "</group>\n"@,
            ),
            with_groups(found, found.files.last().groups.push(group)),
        ),
{
    let e = nzb::xml_escaped(group);
    lemma_escaped(group);
    reveal_strlit("      <group>");
    reveal_strlit("</group>\n");
    reveal_strlit("      ");
    reveal_strlit("group");
    reveal_strlit("/group");
    reveal_strlit("/segment");
    reveal_strlit("/meta");
    reveal_strlit("file ");
    reveal_strlit("segment ");
    reveal_strlit("meta ");
    let a = "      "@ + seq!['<'] + "group"@ + seq!['>'];
    let b = e + seq!['<'] + "/group"@ + seq!['>'];
    assert("      <group>"@ + e + "</group>\n"@ =~= a + b + seq!['\n']);
    let r = between(found, content);
    lemma_run_element(found, content, "      "@, "group"@);
    assert("group"@[0] == 'g' && "/group"@[0] == '/' && "/group"@[1] == 'g');
    assert("/segment"@[1] == 's' && "/segment"@[0] == '/' && "/meta"@[0] == '/');
    lemma_not_started("group"@, "file "@);
    lemma_not_started("group"@, "segment "@);
    lemma_not_started("group"@, "meta "@);
    lemma_not_started("/group"@, "file "@);
    lemma_not_started("/group"@, "segment "@);
    assert(with_tag(found, content + "      "@, "group"@) == found);
    lemma_run_element(found, Seq::empty(), e, "/group"@);
    assert(Seq::<char>::empty() + e =~= e);
    let done = with_tag(found, e, "/group"@);
    assert(done == with_groups(found, found.files.last().groups.push(group)));
    lemma_run_parts(r, a, b);
    lemma_run_parts(r, a + b, seq!['\n']);
    lemma_run_text(done, Seq::empty(), seq!['\n']);
}

/// A text with another first character does not start so.
proof fn lemma_not_started(s: Seq<char>, t: Seq<char>)
    requires
        s.len() > 0,
        t.len() > 0,
        s[0] != t[0],
    ensures
        !scan::starts_with(s, t),
{
    if scan::starts_with(s, t) {
        assert(s.subrange(0, t.len() as int)[0] == t[0]);
    }
}

proof fn lemma_group_lines(found: Found, content: Seq<char>, groups: Seq<String>)
    requires
        found.files.len() > 0,
    ensures
        is_between(
            run(between(found, content), nzb::group_lines(groups)),
            with_groups(found, found.files.last().groups + text::texts(groups)),
        ),
    decreases groups.len(),
{
    let before = found.files.last().groups;
    if groups.len() == 0 {
        assert(before + text::texts(groups) =~= before);
        assert(with_groups(found, before).files =~= found.files);
    } else {
        let rest = groups.drop_last();
        let group = groups.last()@;
        lemma_group_lines(found, content, rest);
        let r = run(between(found, content), nzb::group_lines(rest));
        let mid = with_groups(found, before + text::texts(rest));
        lemma_group_line(mid, r.content, group);
        let line = "      <group>"@ + nzb::xml_escaped(group) + "</group>\n"@;
        assert(nzb::group_lines(groups) =~= nzb::group_lines(rest) + line);
        lemma_run_parts(between(found, content), nzb::group_lines(rest), line);
        let after = before + text::texts(groups);
        assert(mid.files.last().groups.push(group) =~= after);
        assert(with_groups(mid, after).files =~= with_groups(found, after).files);
    }
}

/// The tag of a file.
spec fn file_tag(
    name: Seq<char>,
    poster: Seq<char>,
    date: Seq<char>,
    subject: Seq<char>,
) -> Seq<char> {
    "file name="@ + seq!['"'] + (name + seq!['"'] + (" poster="@ + seq!['"'] + (poster + seq!['"']
        + (" date="@ + seq!['"'] + (date + seq!['"'] + (" subject="@ + seq!['"'] + (subject + seq![
        '"',
    ] + Seq::empty())))))))
}

#[verifier::rlimit(40)]
proof fn lemma_file_tag(
    name: Seq<char>,
    poster: Seq<char>,
    date: Seq<char>,
    subject: Seq<char>,
)
    requires
        reading::lacks(name, '"') && reading::lacks(name, '>'),
        reading::lacks(poster, '"') && reading::lacks(poster, '>'),
        reading::lacks(date, '"') && reading::lacks(date, '>'),
        reading::lacks(subject, '"') && reading::lacks(subject, '>'),
    ensures
        ({
            let tag = file_tag(name, poster, date, subject);
            &&& reading::attribute(tag, "name"@) == Some(name)
            &&& reading::attribute(tag, "poster"@) == Some(poster)
            &&& reading::attribute(tag, "date"@) == Some(date)
            &&& reading::attribute(tag, "subject"@) == Some(subject)
            &&& reading::lacks(tag, '>')
            &&& scan::starts_with(tag, "file "@)
        }),
{
    reveal_strlit("file name=");
    reveal_strlit(" poster=");
    reveal_strlit(" date=");
    reveal_strlit(" subject=");
    reveal_strlit("name");
    reveal_strlit("poster");
    reveal_strlit("date");
    reveal_strlit("subject");
    reveal_strlit("file ");
    let k1 = "file name="@;
    let k2 = " poster="@;
    let k3 = " date="@;
    let k4 = " subject="@;
    let r4 = Seq::<char>::empty();
    let r3 = k4 + seq!['"'] + (subject + seq!['"'] + r4);
    let r2 = k3 + seq!['"'] + (date + seq!['"'] + r3);
    let r1 = k2 + seq!['"'] + (poster + seq!['"'] + r2);
    let tag = file_tag(name, poster, date, subject);
    assert(tag == k1 + seq!['"'] + (name + seq!['"'] + r1));
    let a1 = seq![' '] + "name"@ + seq!['='];
    let a2 = seq![' '] + "poster"@ + seq!['='];
    let a3 = seq![' '] + "date"@ + seq!['='];
    let a4 = seq![' '] + "subject"@ + seq!['='];
    assert(k1.skip(4) =~= a1);
    assert(k2.skip(0) =~= a2);
    assert(k3.skip(0) =~= a3);
    assert(k4.skip(0) =~= a4);
    assert(a1.len() == 6 && a2.len() == 8 && a3.len() == 6 && a4.len() == 9);
    assert(k1.skip(2)[0] == 'l' && k1.skip(4)[1] == 'n' && k1.skip(1)[0] == 'i');
    assert(a2[0] == ' ' && a3[1] == 'd' && a4[0] == ' ' && a3[0] == ' ');
    assert(k2.skip(2)[0] == 'o');
    reading::lemma_attribute(k1, name, r1, "name"@);
    reading::lemma_attribute(k1, name, r1, "poster"@);
    reading::lemma_attribute(k1, name, r1, "date"@);
    reading::lemma_attribute(k1, name, r1, "subject"@);
    reading::lemma_attribute(k2, poster, r2, "poster"@);
    reading::lemma_attribute(k2, poster, r2, "date"@);
    reading::lemma_attribute(k2, poster, r2, "subject"@);
    reading::lemma_attribute(k3, date, r3, "date"@);
    reading::lemma_attribute(k3, date, r3, "subject"@);
    reading::lemma_attribute(k4, subject, r4, "subject"@);
    assert(tag.subrange(0, 5) =~= "file "@);
    lemma_lacks_joined(k4 + seq!['"'], subject + seq!['"'] + r4, '>');
    lemma_lacks_joined(date + seq!['"'], r3, '>');
    lemma_lacks_joined(k3 + seq!['"'], date + seq!['"'] + r3, '>');
    lemma_lacks_joined(poster + seq!['"'], r2, '>');
    lemma_lacks_joined(k2 + seq!['"'], poster + seq!['"'] + r2, '>');
    lemma_lacks_joined(name + seq!['"'], r1, '>');
    lemma_lacks_joined(k1 + seq!['"'], name + seq!['"'] + r1, '>');
}

/// What a downloader is to find of one file.
pub open spec fn file_found(
    poster: Seq<char>,
    groups: Seq<String>,
    date: nat,
    segs: Seq<PostedSegment>,
) -> FoundFile {
    FoundFile {
        name: segs[0].file_name@,
        poster,
        date,
        subject: article::subject_text(segs[0].subject_name@, 1, segs[0].total as nat),
        groups: text::texts(groups),
        segments: segments_found(segs),
    }
}

/// A tag that adds nothing.
spec fn is_idle(tag: Seq<char>) -> bool {
    &&& reading::lacks(tag, '>')
    &&& forall|found: Found, content: Seq<char>| #[trigger] with_tag(found, content, tag) == found
}

#[verifier::rlimit(40)]
proof fn lemma_idle_tags()
    ensures
        is_idle("groups"@),
        is_idle("/groups"@),
        is_idle("segments"@),
        is_idle("/segments"@),
        is_idle("/file"@),
        is_idle("head"@),
        is_idle("/head"@),
        is_idle("/nzb"@),
{
    reveal_strlit("groups");
    reveal_strlit("/groups");
    reveal_strlit("segments");
    reveal_strlit("/segments");
    reveal_strlit("/file");
    reveal_strlit("head");
    reveal_strlit("/head");
    reveal_strlit("/nzb");
    reveal_strlit("file ");
    reveal_strlit("segment ");
    reveal_strlit("meta ");
    reveal_strlit("/segment");
    reveal_strlit("/group");
    reveal_strlit("/meta");
    assert("groups"@[0] == 'g' && "/groups"@[0] == '/' && "segments"@[0] == 's' && "/segments"@[0]
        == '/' && "/file"@[0] == '/' && "head"@[0] == 'h' && "/head"@[0] == '/' && "/nzb"@[0]
        == '/');
    assert("/groups"@.len() == 7 && "/segments"@.len() == 9 && "/file"@.len() == 5 && "/head"@.len()
        == 5 && "/nzb"@.len() == 4 && "segments"@.len() == 8);
    assert("/segment"@.len() == 8 && "/group"@.len() == 6 && "/meta"@.len() == 5);
    assert("/file"@[1] == 'f' && "/head"@[1] == 'h' && "/meta"@[1] == 'm');
    assert("/segment"@[0] == '/' && "/group"@[0] == '/' && "/meta"@[0] == '/');
    lemma_not_started("groups"@, "file "@);
    lemma_not_started("groups"@, "segment "@);
    lemma_not_started("groups"@, "meta "@);
    lemma_not_started("/groups"@, "file "@);
    lemma_not_started("/groups"@, "segment "@);
    lemma_not_started("/groups"@, "meta "@);
    lemma_not_started("segments"@, "file "@);
    lemma_not_started("segments"@, "meta "@);
    if scan::starts_with("segments"@, "segment "@) {
        assert("segments"@.subrange(0, 8)[7] == "segment "@[7]);
    }
    lemma_not_started("/segments"@, "file "@);
    lemma_not_started("/segments"@, "segment "@);
    lemma_not_started("/segments"@, "meta "@);
    lemma_not_started("/file"@, "file "@);
    lemma_not_started("/file"@, "segment "@);
    lemma_not_started("/file"@, "meta "@);
    lemma_not_started("head"@, "file "@);
    lemma_not_started("head"@, "segment "@);
    lemma_not_started("head"@, "meta "@);
    lemma_not_started("/head"@, "file "@);
    lemma_not_started("/head"@, "segment "@);
    lemma_not_started("/head"@, "meta "@);
    lemma_not_started("/nzb"@, "file "@);
    lemma_not_started("/nzb"@, "segment "@);
    lemma_not_started("/nzb"@, "meta "@);
}

/// A line with a tag that adds nothing.
proof fn lemma_idle_line(found: Found, content: Seq<char>, indent: Seq<char>, tag: Seq<char>)
    requires
        is_idle(tag),
        reading::lacks(indent, '<'),
    ensures
        is_between(
            run(between(found, content), indent + seq!['<'] + tag + seq!['>'] + seq!['\n']),
            found,
        ),
{
    let a = indent + seq!['<'] + tag + seq!['>'];
    lemma_run_element(found, content, indent, tag);
    assert(with_tag(found, content + indent, tag) == found);
    lemma_run_parts(between(found, content), a, seq!['\n']);
    lemma_run_text(found, Seq::empty(), seq!['\n']);
}

#[verifier::rlimit(40)]
proof fn lemma_file_line(n: Seq<char>, p: Seq<char>, d: Seq<char>, s: Seq<char>)
    ensures
        "  <file name=\""@ + n + "\" poster=\""@ + p + "\" date=\""@ + d + "\" subject=\""@ + s
            + "\">\n"@ == "  "@ + seq!['<'] + file_tag(n, p, d, s) + seq!['>'] + seq!['\n'],
{
    reveal_strlit("  <file name=\"");
    reveal_strlit("\" poster=\"");
    reveal_strlit("\" date=\"");
    reveal_strlit("\" subject=\"");
    reveal_strlit("\">\n");
    reveal_strlit("file name=");
    reveal_strlit(" poster=");
    reveal_strlit(" date=");
    reveal_strlit(" subject=");
    reveal_strlit("  ");
    let q = seq!['"'];
    assert("  <file name=\""@ =~= "  "@ + seq!['<'] + "file name="@ + q);
    assert("\" poster=\""@ =~= q + " poster="@ + q);
    assert("\" date=\""@ =~= q + " date="@ + q);
    assert("\" subject=\""@ =~= q + " subject="@ + q);
    assert("\">\n"@ =~= q + seq!['>'] + seq!['\n']);
    assert("  "@ + seq!['<'] + "file name="@ + q + n + (q + " poster="@ + q) + p + (q + " date="@
        + q) + d + (q + " subject="@ + q) + s + (q + seq!['>'] + seq!['\n']) =~= "  "@ + seq!['<']
        + file_tag(n, p, d, s) + seq!['>'] + seq!['\n']);
}

proof fn lemma_file_open(
    found: Found,
    content: Seq<char>,
    name: Seq<char>,
    poster: Seq<char>,
    date: nat,
    subject: Seq<char>,
)
    ensures
        is_between(
            run(
                between(found, content),
                "  <file name=\""@ + nzb::xml_escaped(name) + "\" poster=\""@ + nzb::xml_escaped(
                    poster,
                ) + "\" date=\""@ + text::decimal(date) + "\" subject=\""@ + nzb::xml_escaped(
                    subject,
                ) + "\">\n"@,
            ),
            Found {
                files: found.files.push(
                    FoundFile {
                        name,
                        poster,
                        date,
                        subject,
                        groups: Seq::empty(),
                        segments: Seq::empty(),
                    },
                ),
                ..found
            },
        ),
{
    let n = nzb::xml_escaped(name);
    let p = nzb::xml_escaped(poster);
    let d = text::decimal(date);
    let s = nzb::xml_escaped(subject);
    lemma_escaped(name);
    lemma_escaped(poster);
    lemma_number(date);
    lemma_escaped(subject);
    lemma_file_tag(n, p, d, s);
    lemma_file_line(n, p, d, s);
    lemma_idle_texts();
    let tag = file_tag(n, p, d, s);
    let a = "  "@ + seq!['<'] + tag + seq!['>'];
    lemma_run_element(found, content, "  "@, tag);
    let done = with_tag(found, content + "  "@, tag);
    lemma_run_parts(between(found, content), a, seq!['\n']);
    lemma_run_text(done, Seq::empty(), seq!['\n']);
}

/// What comes behind a text that is read.
proof fn lemma_go_on(r: Reader, a: Seq<char>, b: Seq<char>, found: Found)
    requires
        is_between(run(r, a), found),
    ensures
        run(r, a + b) == run(between(found, run(r, a).content), b),
{
    lemma_run_parts(r, a, b);
}

/// A `<file>` element adds a file.
#[verifier::rlimit(40)]
proof fn lemma_file_element(
    found: Found,
    content: Seq<char>,
    poster: Seq<char>,
    groups: Seq<String>,
    date: nat,
    segs: Seq<PostedSegment>,
)
    ensures
        is_between(
            run(between(found, content), nzb::file_element(poster, groups, date, segs)),
            Found {
                files: found.files.push(file_found(poster, groups, date, segs)),
                ..found
            },
        ),
{
    let first = segs[0];
    let subject = article::subject_text(first.subject_name@, 1, first.total as nat);
    let r = between(found, content);
    let p1 = "  <file name=\""@ + nzb::xml_escaped(first.file_name@) + "\" poster=\""@
        + nzb::xml_escaped(poster) + "\" date=\""@ + text::decimal(date) + "\" subject=\""@
        + nzb::xml_escaped(subject) + "\">\n"@;
    let file = FoundFile {
        name: first.file_name@,
        poster,
        date,
        subject,
        groups: Seq::empty(),
        segments: Seq::empty(),
    };
    let f1 = Found { files: found.files.push(file), ..found };
    lemma_file_open(found, content, first.file_name@, poster, date, subject);
    lemma_idle_tags();
    lemma_idle_texts();
    let p2 = p1 + "    <groups>\n"@;
    lemma_go_on(r, p1, "    <groups>\n"@, f1);
    lemma_idle_line(f1, run(r, p1).content, "    "@, "groups"@);
    let p3 = p2 + nzb::group_lines(groups);
    lemma_go_on(r, p2, nzb::group_lines(groups), f1);
    lemma_group_lines(f1, run(r, p2).content, groups);
    let f2 = with_groups(f1, f1.files.last().groups + text::texts(groups));
    let p4 = p3 + "    </groups>\n"@;
    lemma_go_on(r, p3, "    </groups>\n"@, f2);
    lemma_idle_line(f2, run(r, p3).content, "    "@, "/groups"@);
    let p5 = p4 + "    <segments>\n"@;
    lemma_go_on(r, p4, "    <segments>\n"@, f2);
    lemma_idle_line(f2, run(r, p4).content, "    "@, "segments"@);
    let p6 = p5 + nzb::segment_lines(segs);
    lemma_go_on(r, p5, nzb::segment_lines(segs), f2);
    lemma_segment_lines(f2, run(r, p5).content, segs);
    let f3 = with_segments(f2, f2.files.last().segments + segments_found(segs));
    let p7 = p6 + "    </segments>\n"@;
    lemma_go_on(r, p6, "    </segments>\n"@, f3);
    lemma_idle_line(f3, run(r, p6).content, "    "@, "/segments"@);
    let p8 = p7 + "  </file>\n"@;
    lemma_go_on(r, p7, "  </file>\n"@, f3);
    lemma_idle_line(f3, run(r, p7).content, "  "@, "/file"@);
    assert(p8 == nzb::file_element(poster, groups, date, segs));
    assert(Seq::<Seq<char>>::empty() + text::texts(groups) =~= text::texts(groups));
    assert(Seq::<FoundSegment>::empty() + segments_found(segs) =~= segments_found(segs));
    assert(f3.files =~= found.files.push(file_found(poster, groups, date, segs)));
}

/// The lines with tags that add nothing, taken apart.
#[verifier::rlimit(40)]
proof fn lemma_idle_texts()
    ensures
        "    <groups>\n"@ == "    "@ + seq!['<'] + "groups"@ + seq!['>'] + seq!['\n'],
        "    </groups>\n"@ == "    "@ + seq!['<'] + "/groups"@ + seq!['>'] + seq!['\n'],
        "    <segments>\n"@ == "    "@ + seq!['<'] + "segments"@ + seq!['>'] + seq!['\n'],
        "    </segments>\n"@ == "    "@ + seq!['<'] + "/segments"@ + seq!['>'] + seq!['\n'],
        "  </file>\n"@ == "  "@ + seq!['<'] + "/file"@ + seq!['>'] + seq!['\n'],
        "  <head>\n"@ == "  "@ + seq!['<'] + "head"@ + seq!['>'] + seq!['\n'],
        "  </head>\n"@ == "  "@ + seq!['<'] + "/head"@ + seq!['>'] + seq!['\n'],
        "</nzb>\n"@ == ""@ + seq!['<'] + "/nzb"@ + seq!['>'] + seq!['\n'],
        reading::lacks("    "@, '<'),
        reading::lacks("  "@, '<'),
        reading::lacks(""@, '<'),
{
    reveal_strlit("    <groups>\n");
    reveal_strlit("    </groups>\n");
    reveal_strlit("    <segments>\n");
    reveal_strlit("    </segments>\n");
    reveal_strlit("  </file>\n");
    reveal_strlit("  <head>\n");
    reveal_strlit("  </head>\n");
    reveal_strlit("</nzb>\n");
    reveal_strlit("groups");
    reveal_strlit("/groups");
    reveal_strlit("segments");
    reveal_strlit("/segments");
    reveal_strlit("/file");
    reveal_strlit("head");
    reveal_strlit("/head");
    reveal_strlit("/nzb");
    reveal_strlit("    ");
    reveal_strlit("  ");
    reveal_strlit("");
    assert("    <groups>\n"@ =~= "    "@ + seq!['<'] + "groups"@ + seq!['>'] + seq!['\n']);
    assert("    </groups>\n"@ =~= "    "@ + seq!['<'] + "/groups"@ + seq!['>'] + seq!['\n']);
    assert("    <segments>\n"@ =~= "    "@ + seq!['<'] + "segments"@ + seq!['>'] + seq!['\n']);
    assert("    </segments>\n"@ =~= "    "@ + seq!['<'] + "/segments"@ + seq!['>'] + seq!['\n']);
    assert("  </file>\n"@ =~= "  "@ + seq!['<'] + "/file"@ + seq!['>'] + seq!['\n']);
    assert("  <head>\n"@ =~= "  "@ + seq!['<'] + "head"@ + seq!['>'] + seq!['\n']);
    assert("  </head>\n"@ =~= "  "@ + seq!['<'] + "/head"@ + seq!['>'] + seq!['\n']);
    assert("</nzb>\n"@ =~= ""@ + seq!['<'] + "/nzb"@ + seq!['>'] + seq!['\n']);
}

/// What a downloader is to find of the segments from `i` on: one file for each run
/// of them with the same file name.
spec fn files_found(
    poster: Seq<char>,
    groups: Seq<String>,
    date: nat,
    segs: Seq<PostedSegment>,
    i: int,
) -> Seq<FoundFile>
    decreases segs.len() - i,
{
    if i < 0 || i >= segs.len() {
        Seq::empty()
    } else {
        proof {
            nzb::lemma_run_end(segs, i, i + 1);
        }
        let end = nzb::run_end(segs, i, i + 1);
        seq![file_found(poster, groups, date, segs.subrange(i, end))] + files_found(
            poster,
            groups,
            date,
            segs,
            end,
        )
    }
}

proof fn lemma_file_elements(
    found: Found,
    content: Seq<char>,
    poster: Seq<char>,
    groups: Seq<String>,
    date: nat,
    segs: Seq<PostedSegment>,
    i: int,
)
    ensures
        is_between(
            run(between(found, content), nzb::file_elements(poster, groups, date, segs, i)),
            Found {
                files: found.files + files_found(poster, groups, date, segs, i),
                ..found
            },
        ),
    decreases segs.len() - i,
{
    if i < 0 || i >= segs.len() {
        assert(found.files + Seq::<FoundFile>::empty() =~= found.files);
    } else {
        nzb::lemma_run_end(segs, i, i + 1);
        let end = nzb::run_end(segs, i, i + 1);
        let own = segs.subrange(i, end);
        let one = nzb::file_element(poster, groups, date, own);
        let rest = nzb::file_elements(poster, groups, date, segs, end);
        let r = between(found, content);
        lemma_file_element(found, content, poster, groups, date, own);
        let file = file_found(poster, groups, date, own);
        let f1 = Found { files: found.files.push(file), ..found };
        lemma_go_on(r, one, rest, f1);
        lemma_file_elements(f1, run(r, one).content, poster, groups, date, segs, end);
        let more = files_found(poster, groups, date, segs, end);
        assert(f1.files + more =~= found.files + (seq![file] + more));
    }
}

#[verifier::rlimit(40)]
proof fn lemma_meta_line(found: Found, content: Seq<char>, kind: Seq<char>, value: Option<String>)
    requires
        reading::lacks(kind, '"') && reading::lacks(kind, '>') && reading::lacks(kind, '&'),
    ensures
        is_between(
            run(between(found, content), nzb::meta_line(kind, value)),
            match value {
                Some(v) => Found { metas: found.metas.push((kind, v@)), ..found },
                None => found,
            },
        ),
{
    if let Some(v) = value {
        let e = nzb::xml_escaped(v@);
        lemma_escaped(v@);
        lemma_plain_text(kind);
        reveal_strlit("    <meta type=\"");
        reveal_strlit("\">");
        reveal_strlit("</meta>\n");
        reveal_strlit("    ");
        reveal_strlit("meta type=");
        reveal_strlit("type");
        reveal_strlit("/meta");
        reveal_strlit("/group");
        reveal_strlit("/segment");
        reveal_strlit("file ");
        reveal_strlit("segment ");
        reveal_strlit("meta ");
        let none = Seq::<char>::empty();
        let tag = "meta type="@ + seq!['"'] + (kind + seq!['"'] + none);
        let a = "    "@ + seq!['<'] + tag + seq!['>'];
        let b = e + seq!['<'] + "/meta"@ + seq!['>'];
        let line = nzb::meta_line(kind, value);
        assert(line =~= a + b + seq!['\n']);
        reading::lemma_attribute("meta type="@, kind, none, "type"@);
        assert("meta type="@.skip(4) =~= seq![' '] + "type"@ + seq!['=']);
        assert(tag.subrange(0, 5) =~= "meta "@);
        assert(tag[0] == 'm' && "/meta"@[0] == '/' && "/meta"@.len() == 5 && "/meta"@[1] == 'm');
        assert("/segment"@[0] == '/' && "/group"@[0] == '/' && "/segment"@.len() == 8);
        assert("/group"@.len() == 6);
        lemma_not_started(tag, "file "@);
        lemma_not_started(tag, "segment "@);
        lemma_not_started("/meta"@, "file "@);
        lemma_not_started("/meta"@, "segment "@);
        lemma_not_started("/meta"@, "meta "@);
        lemma_lacks_joined("meta type="@ + seq!['"'], kind + seq!['"'] + none, '>');
        let r = between(found, content);
        lemma_run_element(found, content, "    "@, tag);
        let one = with_tag(found, content + "    "@, tag);
        assert(one == (Found { metas: found.metas.push((kind, none)), ..found }));
        lemma_run_element(one, none, e, "/meta"@);
        assert(none + e =~= e);
        let two = with_tag(one, e, "/meta"@);
        assert(two.metas =~= found.metas.push((kind, v@)));
        lemma_run_parts(r, a, b);
        lemma_run_parts(r, a + b, seq!['\n']);
        lemma_run_text(two, none, seq!['\n']);
    }
}

/// A field that is set.
pub open spec fn meta_found(kind: Seq<char>, value: Option<String>) -> Seq<(
    Seq<char>,
    Seq<char>,
)> {
    match value {
        Some(v) => seq![(kind, v@)],
        None => Seq::empty(),
    }
}

proof fn lemma_head_block(found: Found, content: Seq<char>, meta: &NzbMeta)
    ensures
        is_between(
            run(between(found, content), nzb::head_block(meta)),
            Found {
                metas: found.metas + meta_found("name"@, meta.name) + meta_found(
                    "password"@,
                    meta.password,
                ) + meta_found("category"@, meta.category),
                ..found
            },
        ),
{
    let all = found.metas + meta_found("name"@, meta.name) + meta_found("password"@, meta.password)
        + meta_found("category"@, meta.category);
    if meta.name is None && meta.password is None && meta.category is None {
        assert(all =~= found.metas);
    } else {
        reveal_strlit("name");
        reveal_strlit("password");
        reveal_strlit("category");
        lemma_idle_tags();
        lemma_idle_texts();
        let r = between(found, content);
        let m1 = nzb::meta_line("name"@, meta.name);
        let m2 = nzb::meta_line("password"@, meta.password);
        let m3 = nzb::meta_line("category"@, meta.category);
        lemma_idle_line(found, content, "  "@, "head"@);
        let p1 = "  <head>\n"@;
        let p2 = p1 + m1;
        lemma_go_on(r, p1, m1, found);
        lemma_meta_line(found, run(r, p1).content, "name"@, meta.name);
        let f1 = Found { metas: found.metas + meta_found("name"@, meta.name), ..found };
        assert(is_between(run(r, p2), f1)) by {
            match meta.name {
                Some(v) => {
                    assert(found.metas.push(("name"@, v@)) =~= f1.metas);
                },
                None => {
                    assert(found.metas =~= f1.metas);
                },
            }
        }
        let p3 = p2 + m2;
        lemma_go_on(r, p2, m2, f1);
        lemma_meta_line(f1, run(r, p2).content, "password"@, meta.password);
        let f2 = Found { metas: f1.metas + meta_found("password"@, meta.password), ..found };
        assert(is_between(run(r, p3), f2)) by {
            match meta.password {
                Some(v) => {
                    assert(f1.metas.push(("password"@, v@)) =~= f2.metas);
                },
                None => {
                    assert(f1.metas =~= f2.metas);
                },
            }
        }
        let p4 = p3 + m3;
        lemma_go_on(r, p3, m3, f2);
        lemma_meta_line(f2, run(r, p3).content, "category"@, meta.category);
        let f3 = Found { metas: all, ..found };
        assert(is_between(run(r, p4), f3)) by {
            match meta.category {
                Some(v) => {
                    assert(f2.metas.push(("category"@, v@)) =~= f3.metas);
                },
                None => {
                    assert(f2.metas =~= f3.metas);
                },
            }
        }
        lemma_go_on(r, p4, "  </head>\n"@, f3);
        lemma_idle_line(f3, run(r, p4).content, "  "@, "/head"@);
        assert(p4 + "  </head>\n"@ == nzb::head_block(meta));
    }
}

proof fn lemma_declaration()
    ensures
        is_idle("?xml version=\"1.0\" encoding=\"UTF-8\"?"@),
        "<?xml version=\"1.0\" encoding=\"UTF-8\"?>\n"@ == ""@ + seq!['<']
            + "?xml version=\"1.0\" encoding=\"UTF-8\"?"@ + seq!['>'] + seq!['\n'],
{
    reveal_strlit("?xml version=\"1.0\" encoding=\"UTF-8\"?");
    reveal_strlit("<?xml version=\"1.0\" encoding=\"UTF-8\"?>\n");
    reveal_strlit("");
    reveal_strlit("file ");
    reveal_strlit("segment ");
    reveal_strlit("meta ");
    reveal_strlit("/segment");
    reveal_strlit("/group");
    reveal_strlit("/meta");
    let tag = "?xml version=\"1.0\" encoding=\"UTF-8\"?"@;
    assert(tag[0] == '?');
    assert("/segment"@[0] == '/' && "/group"@[0] == '/' && "/meta"@[0] == '/');
    lemma_not_started(tag, "file "@);
    lemma_not_started(tag, "segment "@);
    lemma_not_started(tag, "meta "@);
    assert("<?xml version=\"1.0\" encoding=\"UTF-8\"?>\n"@ =~= ""@ + seq!['<'] + tag + seq!['>']
        + seq!['\n']);
}

#[verifier::rlimit(40)]
proof fn lemma_doctype()
    ensures
        is_idle("!DOCTYPE nzb PUBLIC \"-//newzBin//DTD NZB 1.1//EN\" \"http://www.newzbin.com/DTD/nzb/nzb-1.1.dtd\""@),
        "<!DOCTYPE nzb PUBLIC \"-//newzBin//DTD NZB 1.1//EN\" \"http://www.newzbin.com/DTD/nzb/nzb-1.1.dtd\">\n"@
            == ""@ + seq!['<']
            + "!DOCTYPE nzb PUBLIC \"-//newzBin//DTD NZB 1.1//EN\" \"http://www.newzbin.com/DTD/nzb/nzb-1.1.dtd\""@
            + seq!['>'] + seq!['\n'],
{
    reveal_strlit("!DOCTYPE nzb PUBLIC \"-//newzBin//DTD NZB 1.1//EN\" \"http://www.newzbin.com/DTD/nzb/nzb-1.1.dtd\"");
    reveal_strlit("<!DOCTYPE nzb PUBLIC \"-//newzBin//DTD NZB 1.1//EN\" \"http://www.newzbin.com/DTD/nzb/nzb-1.1.dtd\">\n");
    reveal_strlit("");
    reveal_strlit("file ");
    reveal_strlit("segment ");
    reveal_strlit("meta ");
    reveal_strlit("/segment");
    reveal_strlit("/group");
    reveal_strlit("/meta");
    let tag = "!DOCTYPE nzb PUBLIC \"-//newzBin//DTD NZB 1.1//EN\" \"http://www.newzbin.com/DTD/nzb/nzb-1.1.dtd\""@;
    assert(tag[0] == '!');
    assert("/segment"@[0] == '/' && "/group"@[0] == '/' && "/meta"@[0] == '/');
    lemma_not_started(tag, "file "@);
    lemma_not_started(tag, "segment "@);
    lemma_not_started(tag, "meta "@);
    assert("<!DOCTYPE nzb PUBLIC \"-//newzBin//DTD NZB 1.1//EN\" \"http://www.newzbin.com/DTD/nzb/nzb-1.1.dtd\">\n"@
        =~= ""@ + seq!['<'] + tag + seq!['>'] + seq!['\n']);
}

proof fn lemma_root()
    ensures
        is_idle("nzb xmlns=\"http://www.newzbin.com/DTD/2003/nzb\""@),
        "<nzb xmlns=\"http://www.newzbin.com/DTD/2003/nzb\">\n"@ == ""@ + seq!['<']
            + "nzb xmlns=\"http://www.newzbin.com/DTD/2003/nzb\""@ + seq!['>'] + seq!['\n'],
{
    reveal_strlit("nzb xmlns=\"http://www.newzbin.com/DTD/2003/nzb\"");
    reveal_strlit("<nzb xmlns=\"http://www.newzbin.com/DTD/2003/nzb\">\n");
    reveal_strlit("");
    reveal_strlit("file ");
    reveal_strlit("segment ");
    reveal_strlit("meta ");
    reveal_strlit("/segment");
    reveal_strlit("/group");
    reveal_strlit("/meta");
    let tag = "nzb xmlns=\"http://www.newzbin.com/DTD/2003/nzb\""@;
    assert(tag[0] == 'n');
    assert("/segment"@[0] == '/' && "/group"@[0] == '/' && "/meta"@[0] == '/');
    lemma_not_started(tag, "file "@);
    lemma_not_started(tag, "segment "@);
    lemma_not_started(tag, "meta "@);
    assert("<nzb xmlns=\"http://www.newzbin.com/DTD/2003/nzb\">\n"@ =~= ""@ + seq!['<'] + tag
        + seq!['>'] + seq!['\n']);
}

/// The segments of some files, each with the name of its file, in order.
pub open spec fn rows(files: Seq<FoundFile>) -> Seq<(Seq<char>, FoundSegment)>
    decreases files.len(),
{
    if files.len() == 0 {
        Seq::empty()
    } else {
        let file = files[0];
        Seq::new(file.segments.len(), |k: int| (file.name, file.segments[k])) + rows(
            files.drop_first(),
        )
    }
}

/// The number of segments in the files before file `j`.
pub open spec fn rows_before(files: Seq<FoundFile>, j: int) -> nat
    decreases files.len(),
{
    if files.len() == 0 || j <= 0 {
        0
    } else {
        files[0].segments.len() + rows_before(files.drop_first(), j - 1)
    }
}

proof fn lemma_run_is_one_file(segs: Seq<PostedSegment>, i: int, j: int)
    requires
        0 <= i < j <= segs.len(),
        forall|k: int| i <= k < j ==> (#[trigger] segs[k]).file_name@ == segs[i].file_name@,
    ensures
        ({
            let end = nzb::run_end(segs, i, j);
            &&& j <= end <= segs.len()
            &&& forall|k: int|
                i <= k < end ==> (#[trigger] segs[k]).file_name@ == segs[i].file_name@
            &&& end < segs.len() ==> segs[end].file_name@ != segs[i].file_name@
        }),
    decreases segs.len() - j,
{
    if j < segs.len() && segs[j].file_name@ == segs[i].file_name@ {
        lemma_run_is_one_file(segs, i, j + 1);
    }
}

/// File `j` is as it should be: of the run, and described by its first segment.
pub open spec fn is_file_of(
    files: Seq<FoundFile>,
    j: int,
    poster: Seq<char>,
    groups: Seq<String>,
    date: nat,
    segs: Seq<PostedSegment>,
) -> bool {
    let first = segs[rows_before(files, j) as int];
    &&& files[j].poster == poster
    &&& files[j].date == date
    &&& files[j].groups == text::texts(groups)
    &&& files[j].segments.len() > 0
    &&& files[j].subject == article::subject_text(first.subject_name@, 1, first.total as nat)
    &&& j + 1 < files.len() ==> files[j + 1].name != files[j].name
}

#[verifier::rlimit(40)]
proof fn lemma_files_found(
    poster: Seq<char>,
    groups: Seq<String>,
    date: nat,
    segs: Seq<PostedSegment>,
    i: int,
)
    requires
        0 <= i <= segs.len(),
    ensures
        ({
            let files = files_found(poster, groups, date, segs, i);
            &&& rows(files) == Seq::new(
                (segs.len() - i) as nat,
                |k: int| (segs[i + k].file_name@, segment_found(segs[i + k])),
            )
            &&& i < segs.len() ==> files.len() > 0 && files[0].name == segs[i].file_name@
            &&& i == segs.len() ==> files.len() == 0
            &&& forall|j: int|
                0 <= j < files.len() ==> #[trigger] is_file_of(
                    files,
                    j,
                    poster,
                    groups,
                    date,
                    segs.skip(i),
                )
        }),
    decreases segs.len() - i,
{
    let files = files_found(poster, groups, date, segs, i);
    let all = Seq::new(
        (segs.len() - i) as nat,
        |k: int| (segs[i + k].file_name@, segment_found(segs[i + k])),
    );
    if i < segs.len() {
        lemma_run_is_one_file(segs, i, i + 1);
        let end = nzb::run_end(segs, i, i + 1);
        let own = segs.subrange(i, end);
        let file = file_found(poster, groups, date, own);
        let rest = files_found(poster, groups, date, segs, end);
        lemma_files_found(poster, groups, date, segs, end);
        assert(files == seq![file] + rest);
        assert(files.drop_first() =~= rest);
        assert(file.name == segs[i].file_name@);
        let mine = Seq::new(file.segments.len(), |k: int| (file.name, file.segments[k]));
        assert forall|k: int| 0 <= k < all.len() implies #[trigger] (mine + rows(rest))[k]
            == all[k] by {
            if k < mine.len() {
                assert(own[k] == segs[i + k]);
                assert(segs[i + k].file_name@ == segs[i].file_name@);
            } else {
                assert(rows(rest)[k - mine.len()] == (
                    segs[end + (k - mine.len())].file_name@,
                    segment_found(segs[end + (k - mine.len())]),
                ));
            }
        }
        assert(mine + rows(rest) =~= all);
        assert forall|j: int| 0 <= j < files.len() implies #[trigger] is_file_of(
            files,
            j,
            poster,
            groups,
            date,
            segs.skip(i),
        ) by {
            if j == 0 {
                assert(segs.skip(i)[0] == segs[i]);
                assert(own[0] == segs[i]);
                if 1 < files.len() {
                    assert(files[1] == rest[0]);
                }
            } else {
                assert(is_file_of(rest, j - 1, poster, groups, date, segs.skip(end)));
                assert(files[j] == rest[j - 1]);
                if j + 1 < files.len() {
                    assert(files[j + 1] == rest[j]);
                }
                let n = rows_before(rest, j - 1) as int;
                assert(rows_before(files, j) == file.segments.len() + n);
                assert(file.segments.len() == end - i);
                lemma_rows_before(rest, j - 1);
                assert(rows(rest).len() == segs.len() - end);
                assert(segs.skip(end)[n] == segs[end + n]);
                assert(segs.skip(i)[end - i + n] == segs[end + n]);
            }
        }
    } else {
        assert(rows(files) =~= all);
    }
}

proof fn lemma_rows_before(files: Seq<FoundFile>, j: int)
    requires
        0 <= j < files.len(),
    ensures
        rows_before(files, j) + files[j].segments.len() <= rows(files).len(),
    decreases files.len(),
{
    if j > 0 {
        lemma_rows_before(files.drop_first(), j - 1);
        assert(files.drop_first()[j - 1] == files[j]);
    }
}

#[verifier::rlimit(40)]
proof fn lemma_document_reads(
    poster: Seq<char>,
    groups: Seq<String>,
    segs: Seq<PostedSegment>,
    meta: &NzbMeta,
    date: nat,
)
    ensures
        ({
            let found = read(nzb::nzb_document(poster, groups, segs, meta, date));
            &&& found.files == files_found(poster, groups, date, segs, 0)
            &&& found.metas == meta_found("name"@, meta.name) + meta_found(
                "password"@,
                meta.password,
            ) + meta_found("category"@, meta.category)
        }),
{
    let none = Seq::<char>::empty();
    let f0 = Found { metas: Seq::empty(), files: Seq::empty() };
    let r = between(f0, none);
    lemma_idle_tags();
    lemma_idle_texts();
    lemma_declaration();
    lemma_doctype();
    lemma_root();
    let l1 = "<?xml version=\"1.0\" encoding=\"UTF-8\"?>\n"@;
    let l2 = "<!DOCTYPE nzb PUBLIC \"-//newzBin//DTD NZB 1.1//EN\" \"http://www.newzbin.com/DTD/nzb/nzb-1.1.dtd\">\n"@;
    let l3 = "<nzb xmlns=\"http://www.newzbin.com/DTD/2003/nzb\">\n"@;
    lemma_idle_line(f0, none, ""@, "?xml version=\"1.0\" encoding=\"UTF-8\"?"@);
    let p2 = l1 + l2;
    lemma_go_on(r, l1, l2, f0);
    lemma_idle_line(f0, run(r, l1).content, ""@,
        "!DOCTYPE nzb PUBLIC \"-//newzBin//DTD NZB 1.1//EN\" \"http://www.newzbin.com/DTD/nzb/nzb-1.1.dtd\""@);
    let p3 = p2 + l3;
    lemma_go_on(r, p2, l3, f0);
    lemma_idle_line(f0, run(r, p2).content, ""@,
        "nzb xmlns=\"http://www.newzbin.com/DTD/2003/nzb\""@);
    let p4 = p3 + nzb::head_block(meta);
    lemma_go_on(r, p3, nzb::head_block(meta), f0);
    lemma_head_block(f0, run(r, p3).content, meta);
    let metas = meta_found("name"@, meta.name) + meta_found("password"@, meta.password)
        + meta_found("category"@, meta.category);
    assert(f0.metas + meta_found("name"@, meta.name) + meta_found("password"@, meta.password)
        + meta_found("category"@, meta.category) =~= metas);
    let f1 = Found { metas, ..f0 };
    let elements = nzb::file_elements(poster, groups, date, segs, 0);
    let p5 = p4 + elements;
    lemma_go_on(r, p4, elements, f1);
    lemma_file_elements(f1, run(r, p4).content, poster, groups, date, segs, 0);
    let files = files_found(poster, groups, date, segs, 0);
    assert(f1.files + files =~= files);
    let f2 = Found { metas, files };
    lemma_go_on(r, p5, "</nzb>\n"@, f2);
    lemma_idle_line(f2, run(r, p5).content, ""@, "/nzb"@);
    assert(p5 + "</nzb>\n"@ == nzb::nzb_document(poster, groups, segs, meta, date));
}

/// A downloader finds in a document what was posted: every segment in order, each
/// with its own size, number and identifier, under the name of its own file; each
/// file with the poster, date and groups of the run and the subject of its first
/// segment, and neighbouring files with different names; and the fields of the head
/// that are set.
pub proof fn law_documents_read_back(
    poster: Seq<char>,
    groups: Seq<String>,
    segs: Seq<PostedSegment>,
    meta: &NzbMeta,
    date: nat,
)
    ensures
        ({
            let found = read(nzb::nzb_document(poster, groups, segs, meta, date));
            &&& rows(found.files) == Seq::new(
                segs.len(),
                |k: int|
                    (
                        segs[k].file_name@,
                        FoundSegment {
                            bytes: segs[k].bytes as nat,
                            number: segs[k].part as nat,
                            id: article::bare_id(segs[k].message_id@),
                        },
                    ),
            )
            &&& forall|j: int|
                0 <= j < found.files.len() ==> #[trigger] is_file_of(
                    found.files,
                    j,
                    poster,
                    groups,
                    date,
                    segs,
                )
            &&& found.metas == meta_found("name"@, meta.name) + meta_found(
                "password"@,
                meta.password,
            ) + meta_found("category"@, meta.category)
        }),
{
    lemma_document_reads(poster, groups, segs, meta, date);
    lemma_files_found(poster, groups, date, segs, 0);
    let files = files_found(poster, groups, date, segs, 0);
    assert(segs.skip(0) =~= segs);
    assert(rows(files) =~= Seq::new(
        segs.len(),
        |k: int|
            (
                segs[k].file_name@,
                FoundSegment {
                    bytes: segs[k].bytes as nat,
                    number: segs[k].part as nat,
                    id: article::bare_id(segs[k].message_id@),
                },
            ),
    ));
}

/// A document says what it is: XML, of the NZB 1.1 type, with one root element.
pub proof fn law_documents_say_what_they_are(
    poster: Seq<char>,
    groups: Seq<String>,
    segs: Seq<PostedSegment>,
    meta: &NzbMeta,
    date: nat,
)
    ensures
        ({
            let document = nzb::nzb_document(poster, groups, segs, meta, date);
            &&& scan::starts_with(
                document,
                "<?xml version=\"1.0\" encoding=\"UTF-8\"?>\n"@
                    + "<!DOCTYPE nzb PUBLIC \"-//newzBin//DTD NZB 1.1//EN\" \"http://www.newzbin.com/DTD/nzb/nzb-1.1.dtd\">\n"@
                    + "<nzb xmlns=\"http://www.newzbin.com/DTD/2003/nzb\">\n"@,
            )
            &&& reading::ends_with(document, "</nzb>\n"@)
        }),
{
    let front = "<?xml version=\"1.0\" encoding=\"UTF-8\"?>\n"@
        + "<!DOCTYPE nzb PUBLIC \"-//newzBin//DTD NZB 1.1//EN\" \"http://www.newzbin.com/DTD/nzb/nzb-1.1.dtd\">\n"@
        + "<nzb xmlns=\"http://www.newzbin.com/DTD/2003/nzb\">\n"@;
    let document = nzb::nzb_document(poster, groups, segs, meta, date);
    assert(document.subrange(0, front.len() as int) =~= front);
    assert(document.skip(document.len() - "</nzb>\n"@.len()) =~= "</nzb>\n"@);
}

/// Documents that are the same list the same identifiers, sizes and numbers.
pub proof fn law_documents_tell_segments_apart(
    poster: Seq<char>,
    groups: Seq<String>,
    a: Seq<PostedSegment>,
    b: Seq<PostedSegment>,
    meta: &NzbMeta,
    date: nat,
)
    requires
        nzb::nzb_document(poster, groups, a, meta, date) == nzb::nzb_document(
            poster,
            groups,
            b,
            meta,
            date,
        ),
    ensures
        a.len() == b.len(),
        forall|k: int|
            0 <= k < a.len() ==> {
                &&& article::bare_id((#[trigger] a[k]).message_id@) == article::bare_id(
                    b[k].message_id@,
                )
                &&& a[k].file_name@ == b[k].file_name@
                &&& a[k].part == b[k].part
                &&& a[k].bytes == b[k].bytes
            },
{
    law_documents_read_back(poster, groups, a, meta, date);
    law_documents_read_back(poster, groups, b, meta, date);
    let found = rows(read(nzb::nzb_document(poster, groups, a, meta, date)).files);
    assert(found.len() == a.len() && found.len() == b.len());
    assert forall|k: int| 0 <= k < a.len() implies {
        &&& article::bare_id((#[trigger] a[k]).message_id@) == article::bare_id(b[k].message_id@)
        &&& a[k].file_name@ == b[k].file_name@
        &&& a[k].part == b[k].part
        &&& a[k].bytes == b[k].bytes
    } by {
        assert(found[k].1.id == article::bare_id(a[k].message_id@));
        assert(found[k].1.id == article::bare_id(b[k].message_id@));
        assert(found[k].1.number == a[k].part as nat && found[k].1.number == b[k].part as nat);
        assert(found[k].1.bytes == a[k].bytes as nat && found[k].1.bytes == b[k].bytes as nat);
        assert(found[k].0 == a[k].file_name@ && found[k].0 == b[k].file_name@);
    }
}

} // verus!

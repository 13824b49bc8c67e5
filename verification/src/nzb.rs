//! `.nzb` file generation.
//!
//! Turns the [`PostedSegment`]s collected during a posting run into an `.nzb`
//! XML document (newzbin NZB 1.1). Segments are expected pre-sorted by file
//! name then part number.

use vstd::prelude::*;
use vstd::string::*;

use crate::article;
use crate::chars;
use crate::environment;
use crate::poster::PostedSegment;
use crate::text;

verus! {

/// NZB `<head>` metadata fields emitted as `<meta type="...">` elements.
///
/// All fields are optional.
#[derive(Debug, Default, Clone)]
pub struct NzbMeta {
    /// Friendly display name for the download (`<meta type="name">`).
    pub name: Option<String>,
    /// Extraction password (`<meta type="password">`).
    pub password: Option<String>,
    /// Indexer / downloader category (`<meta type="category">`).
    pub category: Option<String>,
}

/// The escaped form of one character: the five XML predefined entities.
pub open spec fn entity(c: char) -> Seq<char> {
    if c == '&' {
        seq!['&', 'a', 'm', 'p', ';']
    } else if c == '<' {
        seq!['&', 'l', 't', ';']
    } else if c == '>' {
        seq!['&', 'g', 't', ';']
    } else if c == '"' {
        seq!['&', 'q', 'u', 'o', 't', ';']
    } else if c == '\'' {
        seq!['&', 'a', 'p', 'o', 's', ';']
    } else {
        seq![c]
    }
}

/// The escaped form of a string.
pub open spec fn xml_escaped(s: Seq<char>) -> Seq<char>
    decreases s.len(),
{
    if s.len() == 0 {
        Seq::empty()
    } else {
        xml_escaped(s.drop_last()) + entity(s.last())
    }
}

/// Escape the five XML predefined entities.
pub fn escape(s: &str) -> (out: String)
    ensures
        out@ == xml_escaped(s@),
{
    let chars: Vec<char> = text::chars_of(s);
    let n: usize = chars.len();
    let mut out: String = String::new();
    let mut i: usize = 0;
    assert(out@ =~= xml_escaped(s@.take(0)));
    while i < n
        invariant
            i <= n,
            chars@ == s@,
            n == s@.len(),
            out@ == xml_escaped(s@.take(i as int)),
        decreases n - i,
    {
        let c: char = chars[i];
        let ghost before = out@;
        proof {
            reveal_strlit("&amp;");
            reveal_strlit("&lt;");
            reveal_strlit("&gt;");
            reveal_strlit("&quot;");
            reveal_strlit("&apos;");
        }
        if c == '&' {
            out.append("&amp;");
        } else if c == '<' {
            out.append("&lt;");
        } else if c == '>' {
            out.append("&gt;");
        } else if c == '"' {
            out.append("&quot;");
        } else if c == '\'' {
            out.append("&apos;");
        } else {
            out.push(c);
        }
        assert(out@ =~= before + entity(c));
        assert(s@.take(i + 1).drop_last() =~= s@.take(i as int));
        i = i + 1;
    }
    assert(s@.take(n as int) =~= s@);
    out
}

/// An escaped string holds none of the characters that delimit markup and
/// attribute values.
pub proof fn law_escaped_text_is_inert(s: Seq<char>, i: int)
    requires
        0 <= i < xml_escaped(s).len(),
    ensures
        xml_escaped(s)[i] != '<',
        xml_escaped(s)[i] != '>',
        xml_escaped(s)[i] != '"',
        xml_escaped(s)[i] != '\'',
    decreases s.len(),
{
    let start = xml_escaped(s.drop_last());
    if i < start.len() {
        law_escaped_text_is_inert(s.drop_last(), i);
    }
}

/// The character that the name of an entity stands for.
pub open spec fn entity_value(name: Seq<char>) -> char {
    if name == seq!['&', 'a', 'm', 'p'] {
        '&'
    } else if name == seq!['&', 'l', 't'] {
        '<'
    } else if name == seq!['&', 'g', 't'] {
        '>'
    } else if name == seq!['&', 'q', 'u', 'o', 't'] {
        '"'
    } else {
        '\''
    }
}

/// What an XML reader makes of text: the characters read, and the part of an
/// entity that is not complete.
pub open spec fn xml_reader(s: Seq<char>) -> (Seq<char>, Seq<char>)
    decreases s.len(),
{
    if s.len() == 0 {
        (Seq::empty(), Seq::empty())
    } else {
        let (out, pending) = xml_reader(s.drop_last());
        let c = s.last();
        if pending.len() > 0 {
            if c == ';' {
                (out.push(entity_value(pending)), Seq::empty())
            } else {
                (out, pending.push(c))
            }
        } else if c == '&' {
            (out, seq!['&'])
        } else {
            (out.push(c), Seq::empty())
        }
    }
}

/// Reading `more`, which neither starts nor ends an entity, inside an entity.
proof fn lemma_read_entity(start: Seq<char>, out: Seq<char>, name: Seq<char>, n: nat)
    requires
        xml_reader(start) == (out, Seq::<char>::empty()),
        0 < n <= name.len(),
        name[0] == '&',
        forall|i: int| 0 <= i < name.len() ==> #[trigger] name[i] != ';',
    ensures
        xml_reader(start + name.take(n as int)) == (out, name.take(n as int)),
    decreases n,
{
    let s = start + name.take(n as int);
    assert(s.drop_last() =~= start + name.take(n - 1));
    assert(s.last() == name[n - 1]);
    if n == 1 {
        assert(start + name.take(0) =~= start);
        assert(name.take(1) =~= seq!['&']);
    } else {
        lemma_read_entity(start, out, name, (n - 1) as nat);
        assert(name.take(n - 1).push(name[n - 1]) =~= name.take(n as int));
    }
}

/// A reader gets back exactly the string that was escaped.
pub proof fn law_xml_reader_undoes_escaping(s: Seq<char>)
    ensures
        xml_reader(xml_escaped(s)) == (s, Seq::<char>::empty()),
    decreases s.len(),
{
    if s.len() > 0 {
        let before = s.drop_last();
        let c = s.last();
        law_xml_reader_undoes_escaping(before);
        let start = xml_escaped(before);
        let code = entity(c);
        assert(before.push(c) =~= s);
        if code.len() == 1 {
            assert((start + code).drop_last() =~= start);
        } else {
            let name = code.drop_last();
            lemma_read_entity(start, before, name, name.len());
            assert(name.take(name.len() as int) =~= name);
            assert((start + code).drop_last() =~= start + name);
            lemma_entity_values(c);
        }
    }
}

proof fn lemma_entity_values(c: char)
    requires
        entity(c).len() > 1,
    ensures
        entity_value(entity(c).drop_last()) == c,
{
    let name = entity(c).drop_last();
    if c == '&' {
        assert(name =~= seq!['&', 'a', 'm', 'p']);
    } else if c == '<' {
        assert(name =~= seq!['&', 'l', 't']);
        assert(name.len() != seq!['&', 'a', 'm', 'p'].len());
    } else if c == '>' {
        assert(name =~= seq!['&', 'g', 't']);
        assert(name[1] != seq!['&', 'l', 't'][1]);
        assert(name.len() != seq!['&', 'a', 'm', 'p'].len());
    } else if c == '"' {
        assert(name =~= seq!['&', 'q', 'u', 'o', 't']);
    } else {
        assert(name =~= seq!['&', 'a', 'p', 'o', 's']);
        assert(name[1] != seq!['&', 'q', 'u', 'o', 't'][1]);
    }
}

/// The `<group>` lines of a file.
pub open spec fn group_lines(groups: Seq<String>) -> Seq<char>
    decreases groups.len(),
{
    if groups.len() == 0 {
        Seq::empty()
    } else {
        group_lines(groups.drop_last()) + "      <group>"@ + xml_escaped(groups.last()@)
            + "</group>\n"@
    }
}

/// The `<segment>` lines of a file.
pub open spec fn segment_lines(segs: Seq<PostedSegment>) -> Seq<char>
    decreases segs.len(),
{
    if segs.len() == 0 {
        Seq::empty()
    } else {
        let seg = segs.last();
        segment_lines(segs.drop_last()) + "      <segment bytes=\""@ + text::decimal(
            seg.bytes as nat,
        ) + "\" number=\""@ + text::decimal(seg.part as nat) + "\">"@ + xml_escaped(
            article::bare_id(seg.message_id@),
        ) + "</segment>\n"@
    }
}

/// The `<file>` element of one file's segments. The subject reflects the
/// posting name; the real file name is preserved in the `name` attribute.
pub open spec fn file_element(
    poster: Seq<char>,
    groups: Seq<String>,
    date: nat,
    segs: Seq<PostedSegment>,
) -> Seq<char> {
    let first = segs[0];
    "  <file name=\""@ + xml_escaped(first.file_name@) + "\" poster=\""@ + xml_escaped(poster)
        + "\" date=\""@ + text::decimal(date) + "\" subject=\""@ + xml_escaped(
        article::subject_text(first.subject_name@, 1, first.total as nat),
    ) + "\">\n"@ + "    <groups>\n"@ + group_lines(groups) + "    </groups>\n"@
        + "    <segments>\n"@ + segment_lines(segs) + "    </segments>\n"@ + "  </file>\n"@
}

/// Where the run of segments of one file that starts at `i` ends, looking from
/// `j` on.
pub open spec fn run_end(segs: Seq<PostedSegment>, i: int, j: int) -> int
    decreases segs.len() - j,
{
    if j < segs.len() && segs[j].file_name@ == segs[i].file_name@ {
        run_end(segs, i, j + 1)
    } else {
        j
    }
}

/// The `<file>` elements of the segments from `i` on: one for each run of
/// segments with the same file name.
pub open spec fn file_elements(
    poster: Seq<char>,
    groups: Seq<String>,
    date: nat,
    segs: Seq<PostedSegment>,
    i: int,
) -> Seq<char>
    decreases segs.len() - i,
{
    if i < 0 || i >= segs.len() {
        Seq::empty()
    } else {
        proof {
            lemma_run_end(segs, i, i + 1);
        }
        let end = run_end(segs, i, i + 1);
        file_element(poster, groups, date, segs.subrange(i, end)) + file_elements(
            poster,
            groups,
            date,
            segs,
            end,
        )
    }
}

/// A run ends behind where it was looked for, and within the segments.
pub proof fn lemma_run_end(segs: Seq<PostedSegment>, i: int, j: int)
    ensures
        j <= run_end(segs, i, j),
        j <= segs.len() ==> run_end(segs, i, j) <= segs.len(),
    decreases segs.len() - j,
{
    if j < segs.len() && segs[j].file_name@ == segs[i].file_name@ {
        lemma_run_end(segs, i, j + 1);
    }
}

/// One `<meta>` line, when the field is set.
pub open spec fn meta_line(kind: Seq<char>, value: Option<String>) -> Seq<char> {
    match value {
        Some(v) => "    <meta type=\""@ + kind + "\">"@ + xml_escaped(v@) + "</meta>\n"@,
        None => Seq::empty(),
    }
}

/// The `<head>` block, when any field is set.
pub open spec fn head_block(meta: &NzbMeta) -> Seq<char> {
    if meta.name is None && meta.password is None && meta.category is None {
        Seq::empty()
    } else {
        "  <head>\n"@ + meta_line("name"@, meta.name) + meta_line("password"@, meta.password)
            + meta_line("category"@, meta.category) + "  </head>\n"@
    }
}

/// The contents of an `.nzb` file.
pub open spec fn nzb_document(
    poster: Seq<char>,
    groups: Seq<String>,
    segs: Seq<PostedSegment>,
    meta: &NzbMeta,
    date: nat,
) -> Seq<char> {
    "<?xml version=\"1.0\" encoding=\"UTF-8\"?>\n"@
        + "<!DOCTYPE nzb PUBLIC \"-//newzBin//DTD NZB 1.1//EN\" \"http://www.newzbin.com/DTD/nzb/nzb-1.1.dtd\">\n"@
        + "<nzb xmlns=\"http://www.newzbin.com/DTD/2003/nzb\">\n"@ + head_block(meta)
        + file_elements(poster, groups, date, segs, 0) + "</nzb>\n"@
}

fn push_meta(out: &mut String, kind: &str, value: &Option<String>)
    ensures
        final(out)@ == old(out)@ + meta_line(kind@, *value),
{
    let ghost before = out@;
    if let Some(v) = value {
        let mut line: String = String::from_str("    <meta type=\"");
        line.append(kind);
        line.append("\">");
        line.append(escape(v.as_str()).as_str());
        line.append("</meta>\n");
        out.append(line.as_str());
    } else {
        assert(out@ =~= before + meta_line(kind@, *value));
    }
}

fn group_string(groups: &[String]) -> (out: String)
    ensures
        out@ == group_lines(groups@),
{
    let n: usize = groups.len();
    let mut out: String = String::new();
    let mut i: usize = 0;
    assert(out@ =~= group_lines(groups@.take(0)));
    while i < n
        invariant
            i <= n,
            n == groups@.len(),
            out@ == group_lines(groups@.take(i as int)),
        decreases n - i,
    {
        out.append("      <group>");
        out.append(escape(groups[i].as_str()).as_str());
        out.append("</group>\n");
        assert(groups@.take(i + 1).drop_last() =~= groups@.take(i as int));
        i = i + 1;
    }
    assert(groups@.take(n as int) =~= groups@);
    out
}

fn segment_string(segs: &[PostedSegment]) -> (out: String)
    ensures
        out@ == segment_lines(segs@),
{
    let n: usize = segs.len();
    let mut out: String = String::new();
    let mut i: usize = 0;
    assert(out@ =~= segment_lines(segs@.take(0)));
    while i < n
        invariant
            i <= n,
            n == segs@.len(),
            out@ == segment_lines(segs@.take(i as int)),
        decreases n - i,
    {
        let seg: &PostedSegment = &segs[i];
        let id: Vec<char> = text::chars_of(seg.message_id.as_str());
        let bare: String = text::string_of(
            chars::strip_end(chars::strip_start(id.as_slice(), '<'), '>'),
        );
        out.append("      <segment bytes=\"");
        text::push_decimal(&mut out, seg.bytes);
        out.append("\" number=\"");
        text::push_decimal(&mut out, seg.part as u64);
        out.append("\">");
        out.append(escape(bare.as_str()).as_str());
        out.append("</segment>\n");
        assert(segs@.take(i + 1).drop_last() =~= segs@.take(i as int));
        i = i + 1;
    }
    assert(segs@.take(n as int) =~= segs@);
    out
}

/// Write a single `<file>` element for one file's segments.
pub fn write_file(
    out: &mut String,
    poster: &str,
    groups: &[String],
    date: u64,
    segs: &[PostedSegment],
)
    requires
        segs@.len() > 0,
    ensures
        final(out)@ == old(out)@ + file_element(poster@, groups@, date as nat, segs@),
{
    let first: &PostedSegment = &segs[0];
    let subject: String = article::default_subject(first.subject_name.as_str(), 1, first.total);
    let mut file: String = String::from_str("  <file name=\"");
    file.append(escape(first.file_name.as_str()).as_str());
    file.append("\" poster=\"");
    file.append(escape(poster).as_str());
    file.append("\" date=\"");
    text::push_decimal(&mut file, date);
    file.append("\" subject=\"");
    file.append(escape(subject.as_str()).as_str());
    file.append("\">\n");
    file.append("    <groups>\n");
    file.append(group_string(groups).as_str());
    file.append("    </groups>\n");
    file.append("    <segments>\n");
    file.append(segment_string(segs).as_str());
    file.append("    </segments>\n");
    file.append("  </file>\n");
    out.append(file.as_str());
}

/// Generate the contents of an `.nzb` file, with the given posting date in
/// seconds since 1970.
pub fn generate_at(
    poster: &str,
    groups: &[String],
    segments: &[PostedSegment],
    meta: &NzbMeta,
    date: u64,
) -> (out: String)
    ensures
        out@ == nzb_document(poster@, groups@, segments@, meta, date as nat),
{
    let mut out: String = String::from_str("<?xml version=\"1.0\" encoding=\"UTF-8\"?>\n");
    out.append(
        "<!DOCTYPE nzb PUBLIC \"-//newzBin//DTD NZB 1.1//EN\" \"http://www.newzbin.com/DTD/nzb/nzb-1.1.dtd\">\n",
    );
    out.append("<nzb xmlns=\"http://www.newzbin.com/DTD/2003/nzb\">\n");
    let ghost opened = out@;
    if meta.name.is_some() || meta.password.is_some() || meta.category.is_some() {
        let mut head: String = String::from_str("  <head>\n");
        push_meta(&mut head, "name", &meta.name);
        push_meta(&mut head, "password", &meta.password);
        push_meta(&mut head, "category", &meta.category);
        head.append("  </head>\n");
        out.append(head.as_str());
    } else {
        assert(out@ =~= opened + head_block(meta));
    }
    let ghost base = out@;
    let n: usize = segments.len();
    let mut i: usize = 0;
    while i < n
        invariant
            i <= n,
            n == segments@.len(),
            out@ + file_elements(poster@, groups@, date as nat, segments@, i as int) == base
                + file_elements(poster@, groups@, date as nat, segments@, 0),
        decreases n - i,
    {
        let mut end: usize = i + 1;
        while end < n && segments[end].file_name == segments[i].file_name
            invariant
                i < end <= n,
                n == segments@.len(),
                run_end(segments@, i as int, i + 1) == run_end(segments@, i as int, end as int),
            decreases n - end,
        {
            end = end + 1;
        }
        let ghost before = out@;
        write_file(
            &mut out,
            poster,
            groups,
            date,
            vstd::slice::slice_subrange(segments, i, end),
        );
        proof {
            let element = file_element(
                poster@,
                groups@,
                date as nat,
                segments@.subrange(i as int, end as int),
            );
            let rest = file_elements(poster@, groups@, date as nat, segments@, end as int);
            assert((before + element) + rest =~= before + (element + rest));
        }
        i = end;
    }
    assert(out@ =~= base + file_elements(poster@, groups@, date as nat, segments@, 0));
    out.append("</nzb>\n");
    out
}

/// Generate the contents of an `.nzb` file describing the posted segments,
/// dated now.
///
/// [`NzbMeta`] fields are emitted as `<meta>` elements in the `<head>` block.
pub fn generate(
    poster: &str,
    groups: &[String],
    segments: &[PostedSegment],
    meta: &NzbMeta,
) -> (out: String)
    ensures
        exists|date: u64|
            out@ == #[trigger] nzb_document(poster@, groups@, segments@, meta, date as nat),
{
    generate_at(poster, groups, segments, meta, environment::now_secs())
}

} // verus!

//! `.nfo` article content generation.
//!
//! An `.nfo` is a plain-text informational file posted as the first article
//! in a set. It lists the upload name, date, file sizes, and SHA-256 hashes
//! so a downloader can verify the original files without fetching every
//! article.

use vstd::prelude::*;
use vstd::string::*;

use crate::calendar;
use crate::chars;
use crate::digests;
use crate::environment;
use crate::reading;
use crate::scan;
use crate::sizes;
use crate::text;

verus! {

/// A file entry included in the `.nfo`.
#[derive(Debug, Clone)]
pub struct NfoEntry {
    /// Published name (relative path with `/` separators).
    pub name: String,
    /// File size in bytes.
    pub size: u64,
    /// Hex-encoded SHA-256 digest of the original file content.
    pub sha256: String,
}

/// Two lower-case hexadecimal digits for each byte.
pub open spec fn hex_text(bytes: Seq<u8>) -> Seq<char>
    decreases bytes.len(),
{
    if bytes.len() == 0 {
        Seq::empty()
    } else {
        hex_text(bytes.drop_last()) + text::hex_fixed(bytes.last() as nat, 2)
    }
}

/// Two lower-case hexadecimal digits for each byte.
pub fn hex_encode(bytes: &[u8]) -> (s: String)
    ensures
        s@ == hex_text(bytes@),
{
    let n: usize = bytes.len();
    let mut s: String = String::new();
    let mut i: usize = 0;
    assert(s@ =~= hex_text(bytes@.take(0)));
    while i < n
        invariant
            i <= n,
            n == bytes@.len(),
            s@ == hex_text(bytes@.take(i as int)),
        decreases n - i,
    {
        text::push_hex_fixed(&mut s, bytes[i] as u64, 2);
        assert(bytes@.take(i + 1).drop_last() =~= bytes@.take(i as int));
        i = i + 1;
    }
    assert(bytes@.take(n as int) =~= bytes@);
    s
}

/// Computes the SHA-256 digest of a file's bytes, fed in pieces as they are
/// read.
pub struct FileDigest {
    hasher: sha2::Sha256,
}

impl View for FileDigest {
    type V = Seq<u8>;

    /// The bytes fed so far.
    closed spec fn view(&self) -> Seq<u8> {
        digests::sha256_fed(self.hasher)
    }
}

impl FileDigest {
    /// Start on a new file.
    pub fn new() -> (digest: Self)
        ensures
            digest@ == Seq::<u8>::empty(),
    {
        FileDigest { hasher: digests::sha256_new() }
    }

    /// Feed the next bytes of the file.
    pub fn update(&mut self, data: &[u8])
        requires
            8 * (old(self)@.len() + data@.len()) <= u64::MAX,
        ensures
            final(self)@ == old(self)@ + data@,
    {
        digests::sha256_update(&mut self.hasher, data);
    }

    /// The digest of all bytes fed, in hexadecimal.
    pub fn finish(self) -> (hex: String)
        ensures
            hex@ == hex_text(digests::sha256_digest(self@)),
    {
        let digest: [u8; 32] = digests::sha256_finalize(self.hasher);
        hex_encode(vstd::array::array_as_slice(&digest))
    }
}

/// The sum of the sizes of the entries.
pub open spec fn total_size(entries: Seq<NfoEntry>) -> nat
    decreases entries.len(),
{
    if entries.len() == 0 {
        0
    } else {
        total_size(entries.drop_last()) + entries.last().size as nat
    }
}

/// The width of the name column: the longest name in bytes, at least twenty.
pub open spec fn name_width(entries: Seq<NfoEntry>) -> nat
    decreases entries.len(),
{
    if entries.len() == 0 {
        20
    } else {
        let width = name_width(entries.drop_last());
        let len = vstd::utf8::encode_utf8(entries.last().name@).len();
        if len > width {
            len
        } else {
            width
        }
    }
}

/// The line of one entry.
pub open spec fn entry_line(entry: NfoEntry, width: nat) -> Seq<char> {
    "  "@ + text::right_padded(entry.name@, width) + "  "@ + text::left_filled(
        sizes::precise_size_text(entry.size as nat),
        ' ',
        9,
    ) + "  "@ + entry.sha256@ + "\n"@
}

/// The lines of all entries.
pub open spec fn entry_lines(entries: Seq<NfoEntry>, width: nat) -> Seq<char>
    decreases entries.len(),
{
    if entries.len() == 0 {
        Seq::empty()
    } else {
        entry_lines(entries.drop_last(), width) + entry_line(entries.last(), width)
    }
}

/// The text of an `.nfo`, dated by seconds since 1970.
pub open spec fn nfo_text(upload_name: Seq<char>, entries: Seq<NfoEntry>, secs: nat) -> Seq<char> {
    " "@ + text::repeated('═', 72) + "\n"@ + "  "@ + upload_name + "\n"@ + " "@
        + text::repeated('═', 72) + "\n"@ + "\n"@ + "  Date     : "@ + calendar::ymd_text(secs)
        + "\n"@ + "  Files    : "@ + text::decimal(entries.len()) + "\n"@ + "  Size     : "@
        + sizes::precise_size_text(total_size(entries)) + "\n"@ + "\n"@ + " "@
        + text::repeated('─', 72) + "\n"@ + entry_lines(entries, name_width(entries)) + " "@
        + text::repeated('─', 72) + "\n"@ + "\n"@ + "  Created by pesto\n"@
}

proof fn lemma_total_grows(entries: Seq<NfoEntry>, i: int)
    requires
        0 <= i < entries.len(),
    ensures
        total_size(entries.take(i + 1)) == total_size(entries.take(i)) + entries[i].size,
        total_size(entries.take(i + 1)) <= total_size(entries),
    decreases entries.len(),
{
    assert(entries.take(i + 1).drop_last() =~= entries.take(i));
    if i < entries.len() - 1 {
        lemma_total_grows(entries.drop_last(), i);
        assert(entries.drop_last().take(i + 1) =~= entries.take(i + 1));
        assert(entries.drop_last().take(i) =~= entries.take(i));
    } else {
        assert(entries.take(i + 1) =~= entries);
    }
}

fn sum_sizes(entries: &[NfoEntry]) -> (total: u64)
    requires
        total_size(entries@) <= u64::MAX,
    ensures
        total == total_size(entries@),
{
    let n: usize = entries.len();
    let mut total: u64 = 0;
    let mut i: usize = 0;
    while i < n
        invariant
            i <= n,
            n == entries@.len(),
            total_size(entries@) <= u64::MAX,
            total == total_size(entries@.take(i as int)),
        decreases n - i,
    {
        proof {
            lemma_total_grows(entries@, i as int);
        }
        total = total + entries[i].size;
        i = i + 1;
    }
    assert(entries@.take(n as int) =~= entries@);
    total
}

fn widest_name(entries: &[NfoEntry]) -> (width: usize)
    ensures
        width == name_width(entries@),
{
    let n: usize = entries.len();
    let mut width: usize = 20;
    let mut i: usize = 0;
    while i < n
        invariant
            i <= n,
            n == entries@.len(),
            width == name_width(entries@.take(i as int)),
        decreases n - i,
    {
        let len: usize = entries[i].name.as_str().as_bytes().len();
        if len > width {
            width = len;
        }
        assert(entries@.take(i + 1).drop_last() =~= entries@.take(i as int));
        i = i + 1;
    }
    assert(entries@.take(n as int) =~= entries@);
    width
}

fn entry_string(entry: &NfoEntry, width: usize) -> (line: String)
    ensures
        line@ == entry_line(*entry, width as nat),
{
    let mut line: String = String::from_str("  ");
    let mut name: String = String::from_str(entry.name.as_str());
    let name_len: usize = entry.name.as_str().unicode_len();
    if name_len < width {
        text::push_repeated(&mut name, ' ', width - name_len);
    }
    line.append(name.as_str());
    line.append("  ");
    let size: String = sizes::format_size_precise(entry.size);
    let size_len: usize = size.as_str().unicode_len();
    let mut filled: String = String::new();
    if size_len < 9 {
        text::push_repeated(&mut filled, ' ', 9 - size_len);
    }
    filled.append(size.as_str());
    assert(filled@ =~= text::left_filled(size@, ' ', 9));
    line.append(filled.as_str());
    line.append("  ");
    line.append(entry.sha256.as_str());
    line.append("\n");
    line
}

fn entry_block(entries: &[NfoEntry], width: usize) -> (block: String)
    ensures
        block@ == entry_lines(entries@, width as nat),
{
    let n: usize = entries.len();
    let mut block: String = String::new();
    let mut i: usize = 0;
    assert(block@ =~= entry_lines(entries@.take(0), width as nat));
    while i < n
        invariant
            i <= n,
            n == entries@.len(),
            block@ == entry_lines(entries@.take(i as int), width as nat),
        decreases n - i,
    {
        block.append(entry_string(&entries[i], width).as_str());
        assert(entries@.take(i + 1).drop_last() =~= entries@.take(i as int));
        i = i + 1;
    }
    assert(entries@.take(n as int) =~= entries@);
    block
}

/// Build the text content of the `.nfo` article, dated by seconds since 1970.
pub fn build_at(upload_name: &str, entries: &[NfoEntry], secs: u64) -> (out: String)
    requires
        total_size(entries@) <= u64::MAX,
    ensures
        out@ == nfo_text(upload_name@, entries@, secs as nat),
{
    let total: u64 = sum_sizes(entries);
    let mut out: String = String::from_str(" ");
    text::push_repeated(&mut out, '═', 72);
    out.append("\n");
    out.append("  ");
    out.append(upload_name);
    out.append("\n");
    out.append(" ");
    text::push_repeated(&mut out, '═', 72);
    out.append("\n");
    out.append("\n");
    out.append("  Date     : ");
    out.append(calendar::ymd(secs).as_str());
    out.append("\n");
    out.append("  Files    : ");
    text::push_decimal(&mut out, entries.len() as u64);
    out.append("\n");
    out.append("  Size     : ");
    out.append(sizes::format_size_precise(total).as_str());
    out.append("\n");
    out.append("\n");
    out.append(" ");
    text::push_repeated(&mut out, '─', 72);
    out.append("\n");
    let width: usize = widest_name(entries);
    out.append(entry_block(entries, width).as_str());
    out.append(" ");
    text::push_repeated(&mut out, '─', 72);
    out.append("\n");
    out.append("\n");
    out.append("  Created by pesto\n");
    out
}

/// Build the text content of the `.nfo` article, dated today.
pub fn build(upload_name: &str, entries: &[NfoEntry]) -> (out: String)
    requires
        total_size(entries@) <= u64::MAX,
    ensures
        exists|secs: u64| out@ == #[trigger] nfo_text(upload_name@, entries@, secs as nat),
{
    build_at(upload_name, entries, environment::now_secs())
}

/// Hexadecimal digits read back as the bytes, two for each.
pub proof fn law_hex_reads_back(bytes: Seq<u8>, i: int)
    ensures
        hex_text(bytes).len() == 2 * bytes.len(),
        0 <= i < bytes.len() ==> reading::hex_value(hex_text(bytes).subrange(2 * i, 2 * i + 2))
            == bytes[i],
    decreases bytes.len(),
{
    if bytes.len() > 0 {
        let rest = bytes.drop_last();
        law_hex_reads_back(rest, i);
        let last = bytes.last() as nat;
        reveal_with_fuel(reading::hex_limit, 3);
        reading::law_fixed_hex_reads_back(last, 2);
        let s = hex_text(bytes);
        if 0 <= i < rest.len() {
            assert(s.subrange(2 * i, 2 * i + 2) =~= hex_text(rest).subrange(2 * i, 2 * i + 2));
        } else if i == rest.len() {
            assert(s.subrange(2 * i, 2 * i + 2) =~= text::hex_fixed(last, 2));
        }
    }
}

/// A reader of an entry's line finds, in a column `width` wide, the name of the file,
/// behind it its size, and at the end its digest.
pub open spec fn shows_entry(line: Seq<char>, entry: NfoEntry, width: nat) -> bool {
    let n = entry.name@.len() as int;
    let end = line.len() - entry.sha256@.len();
    &&& n <= width
    &&& 4 + width <= end - 2
    &&& line.subrange(2, 2 + n) == entry.name@
    &&& forall|i: int| 2 + n <= i < 4 + width ==> #[trigger] line[i] == ' '
    &&& reading::ends_with(
        line.subrange(4 + width as int, end - 2),
        sizes::precise_size_text(entry.size as nat),
    )
    &&& chars::trimmed_start(line.subrange(4 + width as int, end - 2)) == sizes::precise_size_text(
        entry.size as nat,
    )
    &&& line.skip(end) == entry.sha256@
}

/// Each entry has its line, in order, with columns of the same width.
pub open spec fn shows_entries(
    lines: Seq<Seq<char>>,
    entries: Seq<NfoEntry>,
    width: nat,
) -> bool {
    &&& lines.len() >= entries.len()
    &&& forall|i: int|
        0 <= i < entries.len() ==> shows_entry(lines[i], #[trigger] entries[i], width)
}

/// The line of an entry, without its end.
spec fn row(entry: NfoEntry, width: nat) -> Seq<char> {
    "  "@ + text::right_padded(entry.name@, width) + "  "@ + text::left_filled(
        sizes::precise_size_text(entry.size as nat),
        ' ',
        9,
    ) + "  "@ + entry.sha256@
}

proof fn lemma_trimmed(spaces: nat, s: Seq<char>)
    requires
        s.len() > 0,
        !chars::is_space(s[0]),
    ensures
        chars::trimmed_start(text::repeated(' ', spaces) + s) == s,
    decreases spaces,
{
    let all = text::repeated(' ', spaces) + s;
    if spaces == 0 {
        assert(all =~= s);
    } else {
        lemma_trimmed((spaces - 1) as nat, s);
        assert(all.drop_first() =~= text::repeated(' ', (spaces - 1) as nat) + s);
        assert(all[0] == ' ');
    }
}

/// A size starts with a digit, and takes one line.
proof fn lemma_size_shape(bytes: nat)
    ensures
        ({
            let s = sizes::precise_size_text(bytes);
            &&& s.len() > 0
            &&& chars::is_digit(s[0])
            &&& reading::lacks(s, '\n')
        }),
{
    reveal_strlit(" B");
    reveal_strlit(" KiB");
    reveal_strlit(" MiB");
    reveal_strlit(" GiB");
    reveal_strlit(".");
    if bytes < 1024 {
        reading::law_decimals_read_back(bytes);
        let d = text::decimal(bytes);
        let s = d + " B"@;
        assert(s[0] == d[0] && chars::is_digit(d[0]));
        assert forall|i: int| 0 <= i < s.len() implies #[trigger] s[i] != '\n' by {
            if i < d.len() {
                assert(s[i] == d[i]);
                assert(chars::is_digit(d[i]));
            }
        }
    } else {
        let (unit, name) = if bytes < 1048576 {
            (1024nat, " KiB"@)
        } else if bytes < 1073741824 {
            (1048576nat, " MiB"@)
        } else {
            (1073741824nat, " GiB"@)
        };
        let n = sizes::scaled_size(bytes, unit, 100);
        let a = text::decimal(n / 100);
        let b = text::zero_padded(n % 100, 2);
        reading::law_decimals_read_back(n / 100);
        reading::law_padded_decimals_read_back(n % 100, 2);
        let s = a + "."@ + b + name;
        assert(s[0] == a[0] && chars::is_digit(a[0]));
        assert forall|i: int| 0 <= i < s.len() implies #[trigger] s[i] != '\n' by {
            if i < a.len() {
                assert(s[i] == a[i]);
                assert(chars::is_digit(a[i]));
            } else if a.len() < i < a.len() + 1 + b.len() {
                assert(s[i] == b[i - a.len() - 1]);
                assert(chars::is_digit(b[i - a.len() - 1]));
            } else if i >= a.len() + 1 + b.len() {
                assert(s[i] == name[i - a.len() - 1 - b.len()]);
            }
        }
    }
}

#[verifier::rlimit(40)]
proof fn lemma_row(entry: NfoEntry, width: nat)
    requires
        entry.name@.len() <= width,
        reading::lacks(entry.name@, '\n'),
        reading::lacks(entry.sha256@, '\n'),
    ensures
        shows_entry(row(entry, width), entry, width),
        reading::lacks(row(entry, width), '\n'),
        entry_line(entry, width) == row(entry, width) + seq!['\n'],
{
    reveal_strlit("  ");
    reveal_strlit("\n");
    let line = row(entry, width);
    let name = entry.name@;
    let size = sizes::precise_size_text(entry.size as nat);
    let sha = entry.sha256@;
    let p = text::right_padded(name, width);
    let f = text::left_filled(size, ' ', 9);
    lemma_size_shape(entry.size as nat);
    let spaces: nat = if size.len() >= 9 {
        0
    } else {
        (9 - size.len()) as nat
    };
    assert(f =~= text::repeated(' ', spaces) + size);
    lemma_trimmed(spaces, size);
    assert(p.len() == width);
    let end = line.len() - sha.len();
    assert(line.subrange(4 + width as int, end - 2) =~= f);
    assert(f.skip(f.len() - size.len()) =~= size);
    assert(line.skip(end) =~= sha);
    assert(line.subrange(2, 2 + name.len() as int) =~= name);
    assert forall|i: int| 0 <= i < line.len() implies #[trigger] line[i] != '\n' by {
        if 2 <= i < 2 + name.len() {
            assert(line[i] == name[i - 2]);
        } else if 4 + width <= i < end - 2 {
            let j = i - 4 - width;
            assert(line[i] == f[j]);
            if j >= spaces {
                assert(f[j] == size[j - spaces]);
            }
        } else if i >= end {
            assert(line[i] == sha[i - end]);
        }
    }
    assert(entry_line(entry, width) =~= line + seq!['\n']);
}

proof fn lemma_width(entries: Seq<NfoEntry>, i: int)
    requires
        0 <= i < entries.len(),
    ensures
        vstd::utf8::encode_utf8(entries[i].name@).len() <= name_width(entries),
    decreases entries.len(),
{
    if i < entries.len() - 1 {
        lemma_width(entries.drop_last(), i);
        assert(entries.drop_last()[i] == entries[i]);
    }
}

/// A text has at least as many bytes as characters.
proof fn lemma_bytes_of_text(s: Seq<char>)
    ensures
        s.len() <= vstd::utf8::encode_utf8(s).len(),
    decreases s.len(),
{
    if s.len() > 0 {
        lemma_bytes_of_text(s.drop_first());
    }
}

/// The rows of some entries.
spec fn rows(entries: Seq<NfoEntry>, width: nat) -> Seq<Seq<char>> {
    Seq::new(entries.len(), |i: int| row(entries[i], width))
}

/// The texts of an entry take one line.
pub open spec fn fits_line(entry: NfoEntry) -> bool {
    reading::lacks(entry.name@, '\n') && reading::lacks(entry.sha256@, '\n')
}

proof fn lemma_entry_lines(
    s: Seq<char>,
    done: Seq<Seq<char>>,
    entries: Seq<NfoEntry>,
    width: nat,
)
    requires
        reading::is_written(s, done, Seq::empty()),
        forall|i: int|
            0 <= i < entries.len() ==> fits_line(#[trigger] entries[i]) && entries[i].name@.len()
                <= width,
    ensures
        reading::is_written(
            s + entry_lines(entries, width),
            done + rows(entries, width),
            Seq::empty(),
        ),
    decreases entries.len(),
{
    if entries.len() == 0 {
        assert(s + entry_lines(entries, width) =~= s);
        assert(done + rows(entries, width) =~= done);
    } else {
        let rest = entries.drop_last();
        let last = entries[entries.len() - 1];
        assert forall|i: int| 0 <= i < rest.len() implies fits_line(#[trigger] rest[i])
            && rest[i].name@.len() <= width by {
            assert(rest[i] == entries[i]);
        }
        lemma_entry_lines(s, done, rest, width);
        lemma_row(last, width);
        let t = s + entry_lines(rest, width);
        reading::lemma_write_line(t, done + rows(rest, width), row(last, width));
        assert(s + entry_lines(entries, width) =~= t + (row(last, width) + seq!['\n']));
        assert((done + rows(rest, width)).push(row(last, width)) =~= done + rows(entries, width));
    }
}

/// The lines in front of the entries.
spec fn front(upload_name: Seq<char>, date: Seq<char>, count: Seq<char>, size: Seq<char>) -> Seq<
    char,
> {
    " "@ + text::repeated('═', 72) + "\n"@ + "  "@ + upload_name + "\n"@ + " "@ + text::repeated(
        '═',
        72,
    ) + "\n"@ + "\n"@ + "  Date     : "@ + date + "\n"@ + "  Files    : "@ + count + "\n"@
        + "  Size     : "@ + size + "\n"@ + "\n"@ + " "@ + text::repeated('─', 72) + "\n"@
}

#[verifier::rlimit(40)]
proof fn lemma_front(
    upload_name: Seq<char>,
    date: Seq<char>,
    count: Seq<char>,
    size: Seq<char>,
)
    requires
        reading::lacks(upload_name, '\n'),
        reading::lacks(date, '\n'),
        reading::lacks(count, '\n'),
        reading::lacks(size, '\n'),
    ensures
        reading::is_written(
            front(upload_name, date, count, size),
            seq![
                " "@ + text::repeated('═', 72),
                "  "@ + upload_name,
                " "@ + text::repeated('═', 72),
                Seq::empty(),
                "  Date     : "@ + date,
                "  Files    : "@ + count,
                "  Size     : "@ + size,
                Seq::empty(),
                " "@ + text::repeated('─', 72),
            ],
            Seq::empty(),
        ),
{
    reveal_strlit(" ");
    reveal_strlit("  ");
    reveal_strlit("\n");
    reveal_strlit("  Date     : ");
    reveal_strlit("  Files    : ");
    reveal_strlit("  Size     : ");
    let none = Seq::<char>::empty();
    let double = text::repeated('═', 72);
    let single = text::repeated('─', 72);
    assert("\n"@ =~= seq!['\n']);
    reading::lemma_nothing_written();
    let d0 = Seq::<Seq<char>>::empty();
    reading::lemma_write(none, d0, none, " "@);
    assert(none + " "@ =~= " "@);
    reading::lemma_write(" "@, d0, " "@, double);
    let s1 = " "@ + double;
    reading::lemma_end_line(s1, d0, s1);
    let d1 = d0.push(s1);
    let s2 = s1 + "\n"@;
    reading::lemma_write(s2, d1, none, "  "@);
    assert(none + "  "@ =~= "  "@);
    reading::lemma_write(s2 + "  "@, d1, "  "@, upload_name);
    let s3 = s2 + "  "@ + upload_name;
    reading::lemma_end_line(s3, d1, "  "@ + upload_name);
    let d2 = d1.push("  "@ + upload_name);
    let s4 = s3 + "\n"@;
    reading::lemma_write(s4, d2, none, " "@);
    reading::lemma_write(s4 + " "@, d2, " "@, double);
    let s5 = s4 + " "@ + double;
    reading::lemma_end_line(s5, d2, s1);
    let d3 = d2.push(s1);
    let s6 = s5 + "\n"@;
    reading::lemma_end_line(s6, d3, none);
    let d4 = d3.push(none);
    let s7 = s6 + "\n"@;
    reading::lemma_write(s7, d4, none, "  Date     : "@);
    assert(none + "  Date     : "@ =~= "  Date     : "@);
    reading::lemma_write(s7 + "  Date     : "@, d4, "  Date     : "@, date);
    let s8 = s7 + "  Date     : "@ + date;
    reading::lemma_end_line(s8, d4, "  Date     : "@ + date);
    let d5 = d4.push("  Date     : "@ + date);
    let s9 = s8 + "\n"@;
    reading::lemma_write(s9, d5, none, "  Files    : "@);
    assert(none + "  Files    : "@ =~= "  Files    : "@);
    reading::lemma_write(s9 + "  Files    : "@, d5, "  Files    : "@, count);
    let s10 = s9 + "  Files    : "@ + count;
    reading::lemma_end_line(s10, d5, "  Files    : "@ + count);
    let d6 = d5.push("  Files    : "@ + count);
    let s11 = s10 + "\n"@;
    reading::lemma_write(s11, d6, none, "  Size     : "@);
    assert(none + "  Size     : "@ =~= "  Size     : "@);
    reading::lemma_write(s11 + "  Size     : "@, d6, "  Size     : "@, size);
    let s12 = s11 + "  Size     : "@ + size;
    reading::lemma_end_line(s12, d6, "  Size     : "@ + size);
    let d7 = d6.push("  Size     : "@ + size);
    let s13 = s12 + "\n"@;
    reading::lemma_end_line(s13, d7, none);
    let d8 = d7.push(none);
    let s14 = s13 + "\n"@;
    reading::lemma_write(s14, d8, none, " "@);
    reading::lemma_write(s14 + " "@, d8, " "@, single);
    let s15 = s14 + " "@ + single;
    reading::lemma_end_line(s15, d8, " "@ + single);
    let d9 = d8.push(" "@ + single);
    assert(d9 =~= seq![
        " "@ + double,
        "  "@ + upload_name,
        " "@ + double,
        Seq::empty(),
        "  Date     : "@ + date,
        "  Files    : "@ + count,
        "  Size     : "@ + size,
        Seq::empty(),
        " "@ + single,
    ]);
}

/// A date takes one line.
proof fn lemma_date_shape(secs: nat)
    ensures
        reading::lacks(calendar::ymd_text(secs), '\n'),
{
    reveal_strlit("-");
    let (y, m, d) = calendar::date_of(secs as int / 86400);
    let a = text::zero_padded(y as nat, 4);
    let b = text::zero_padded(m as nat, 2);
    let c = text::zero_padded(d as nat, 2);
    reading::law_padded_decimals_read_back(y as nat, 4);
    reading::law_padded_decimals_read_back(m as nat, 2);
    reading::law_padded_decimals_read_back(d as nat, 2);
    let s = calendar::ymd_text(secs);
    assert forall|i: int| 0 <= i < s.len() implies #[trigger] s[i] != '\n' by {
        if i < a.len() {
            assert(s[i] == a[i]);
            assert(chars::is_digit(a[i]));
        } else if a.len() < i < a.len() + 1 + b.len() {
            assert(s[i] == b[i - a.len() - 1]);
            assert(chars::is_digit(b[i - a.len() - 1]));
        } else if i > a.len() + 1 + b.len() {
            assert(s[i] == c[i - a.len() - b.len() - 2]);
            assert(chars::is_digit(c[i - a.len() - b.len() - 2]));
        }
    }
}

/// A reader of an `.nfo` finds the name of the upload, its date, the number of its
/// files and their size together, and below, one line for each file in its order,
/// with the name of that file, its size and its digest in columns of the same width.
#[verifier::rlimit(40)]
pub proof fn law_nfos_read_back(upload_name: Seq<char>, entries: Seq<NfoEntry>, secs: nat)
    requires
        reading::lacks(upload_name, '\n'),
        forall|i: int| 0 <= i < entries.len() ==> fits_line(#[trigger] entries[i]),
    ensures
        ({
            let lines = reading::lines(nfo_text(upload_name, entries, secs));
            &&& lines.len() >= 9 + entries.len()
            &&& lines[1] == "  "@ + upload_name
            &&& lines[4] == "  Date     : "@ + calendar::ymd_text(secs)
            &&& lines[5].take(13) == "  Files    : "@
            &&& scan::digits_value(lines[5].skip(13)) == entries.len()
            &&& lines[6] == "  Size     : "@ + sizes::precise_size_text(total_size(entries))
            &&& exists|width: nat| #[trigger] shows_entries(lines.skip(9), entries, width)
        }),
{
    let width = name_width(entries);
    let date = calendar::ymd_text(secs);
    let count = text::decimal(entries.len());
    let size = sizes::precise_size_text(total_size(entries));
    reading::law_decimals_read_back(entries.len());
    assert forall|i: int| 0 <= i < count.len() implies #[trigger] count[i] != '\n' by {
        assert(chars::is_digit(count[i]));
    }
    lemma_date_shape(secs);
    lemma_size_shape(total_size(entries));
    lemma_front(upload_name, date, count, size);
    let head = front(upload_name, date, count, size);
    let single = text::repeated('─', 72);
    let first = seq![
        " "@ + text::repeated('═', 72),
        "  "@ + upload_name,
        " "@ + text::repeated('═', 72),
        Seq::empty(),
        "  Date     : "@ + date,
        "  Files    : "@ + count,
        "  Size     : "@ + size,
        Seq::empty(),
        " "@ + single,
    ];
    assert forall|i: int| 0 <= i < entries.len() implies fits_line(#[trigger] entries[i])
        && entries[i].name@.len() <= width by {
        lemma_width(entries, i);
        lemma_bytes_of_text(entries[i].name@);
    }
    lemma_entry_lines(head, first, entries, width);
    let all = first + rows(entries, width);
    let s = head + entry_lines(entries, width);
    reveal_strlit(" ");
    reveal_strlit("\n");
    reveal_strlit("  Created by pesto\n");
    reveal_strlit("  Created by pesto");
    reveal_strlit("  Files    : ");
    assert("\n"@ =~= seq!['\n']);
    let none = Seq::<char>::empty();
    reading::lemma_write(s, all, none, " "@);
    assert(none + " "@ =~= " "@);
    reading::lemma_write(s + " "@, all, " "@, single);
    let t = s + " "@ + single;
    reading::lemma_end_line(t, all, " "@ + single);
    let more = all.push(" "@ + single);
    reading::lemma_end_line(t + "\n"@, more, none);
    let most = more.push(none);
    reading::lemma_write_line(t + "\n"@ + "\n"@, most, "  Created by pesto"@);
    assert("  Created by pesto\n"@ =~= "  Created by pesto"@ + seq!['\n']);
    let lines = reading::lines(nfo_text(upload_name, entries, secs));
    assert(lines == most.push("  Created by pesto"@).push(none));
    assert(lines[5] == "  Files    : "@ + count);
    assert(lines[5].take(13) =~= "  Files    : "@);
    assert(lines[5].skip(13) =~= count);
    assert forall|i: int| 0 <= i < entries.len() implies shows_entry(
        lines.skip(9)[i],
        #[trigger] entries[i],
        width,
    ) by {
        lemma_row(entries[i], width);
        assert(lines[9 + i] == rows(entries, width)[i]);
    }
    assert(shows_entries(lines.skip(9), entries, width));
}

} // verus!

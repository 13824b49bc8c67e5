//! yEnc encoder.
//!
//! Encodes raw file bytes into yEnc article bodies, with the `=ybegin`,
//! `=ypart` and `=yend` control lines, and splits files into multi-part
//! segments.
//!
//! Each byte is shifted by 42 (mod 256). The four critical output values,
//! NUL, LF, CR and `=`, are always escaped as `=` followed by the value
//! shifted by a further 64. TAB and space are escaped only at the start or end
//! of a line, and `.` is escaped at the start of a line.

use vstd::arithmetic::div_mod::*;
use vstd::prelude::*;
use vstd::string::*;

use crate::digests;
use crate::reading;
use crate::scan;
use crate::text;

verus! {

/// Default yEnc line length, in source bytes per line.
pub const DEFAULT_LINE_LENGTH: usize = 128;

/// Incremental CRC-32 calculator (IEEE polynomial, as used by yEnc).
#[derive(Debug)]
pub struct Crc32 {
    hasher: crc32fast::Hasher,
}

impl View for Crc32 {
    type V = Seq<u8>;

    /// The bytes fed so far.
    closed spec fn view(&self) -> Seq<u8> {
        digests::crc32_fed(self.hasher)
    }
}

impl Crc32 {
    /// Start a fresh CRC-32 computation.
    pub fn new() -> (crc: Self)
        ensures
            crc@ == Seq::<u8>::empty(),
    {
        Crc32 { hasher: crc32fast::Hasher::new() }
    }

    /// Feed more bytes into the running checksum.
    pub fn update(&mut self, data: &[u8])
        requires
            old(self)@.len() + data@.len() <= u64::MAX,
        ensures
            final(self)@ == old(self)@ + data@,
    {
        self.hasher.update(data);
    }

    /// Produce the final CRC-32 value.
    pub fn finalize(&self) -> (checksum: u32)
        ensures
            checksum == digests::crc32_checksum(self@),
    {
        self.hasher.clone().finalize()
    }
}

impl Clone for Crc32 {
    fn clone(&self) -> (copy: Self)
        ensures
            copy@ == self@,
    {
        Crc32 { hasher: self.hasher.clone() }
    }
}

impl Default for Crc32 {
    fn default() -> (crc: Self)
        ensures
            crc@ == Seq::<u8>::empty(),
    {
        Crc32::new()
    }
}

/// CRC-32 of a complete byte slice.
pub fn crc32(data: &[u8]) -> (checksum: u32)
    ensures
        checksum == digests::crc32_checksum(data@),
{
    crc32fast::hash(data)
}

/// A size or length that counts as at least one.
pub open spec fn at_least_one(n: usize) -> nat {
    if n == 0 {
        1
    } else {
        n as nat
    }
}

/// The number of segments of a file: an empty file has one, empty too.
pub open spec fn segment_count(file_size: nat, article_size: nat) -> nat {
    if file_size == 0 {
        1
    } else {
        ((file_size - 1) / article_size as int + 1) as nat
    }
}

/// Segment `i` of a file: where it starts and how long it is.
pub open spec fn segment(file_size: nat, article_size: nat, i: int) -> (int, int) {
    let offset = i * article_size;
    let rest = file_size - offset;
    (
        offset,
        if rest < article_size {
            rest
        } else {
            article_size as int
        },
    )
}

/// Split a file of `file_size` bytes into `(offset, len)` segments of at most
/// `article_size` bytes each. An empty file yields a single empty segment so
/// it still produces one article.
pub fn segments(file_size: u64, article_size: usize) -> (out: Vec<(u64, usize)>)
    ensures
        out@.len() == segment_count(file_size as nat, at_least_one(article_size)),
        forall|i: int|
            0 <= i < out@.len() ==> (#[trigger] out@[i]).0 == segment(
                file_size as nat,
                at_least_one(article_size),
                i,
            ).0 && out@[i].1 == segment(file_size as nat, at_least_one(article_size), i).1,
{
    let size: u64 = if article_size == 0 {
        1
    } else {
        article_size as u64
    };
    let mut out: Vec<(u64, usize)> = Vec::new();
    if file_size == 0 {
        out.push((0, 0));
        return out;
    }
    let mut offset: u64 = 0;
    assert(0 * size == 0);
    while offset < file_size
        invariant
            offset <= file_size,
            file_size > 0,
            size == at_least_one(article_size),
            size <= usize::MAX,
            offset < file_size ==> offset == out@.len() * size,
            offset == file_size ==> out@.len() == segment_count(file_size as nat, size as nat),
            forall|i: int|
                0 <= i < out@.len() ==> (#[trigger] out@[i]).0 == segment(
                    file_size as nat,
                    size as nat,
                    i,
                ).0 && out@[i].1 == segment(file_size as nat, size as nat, i).1,
        decreases file_size - offset,
    {
        let rest: u64 = file_size - offset;
        let len: u64 = if size < rest {
            size
        } else {
            rest
        };
        proof {
            let n = out@.len() as int;
            assert((n + 1) * size == n * size + size) by (nonlinear_arith);
            if len == rest {
                lemma_fundamental_div_mod_converse(
                    file_size - 1,
                    size as int,
                    n,
                    file_size - 1 - n * size,
                );
            }
        }
        out.push((offset, len as usize));
        offset = offset + len;
    }
    out
}

/// The segments of a file follow each other without gap or overlap: the first
/// starts at zero, each next one starts where the one before ends, and the
/// last ends at the end of the file. None but the only one of an empty file is
/// empty, and none exceeds the article size.
pub proof fn law_segments_tile_the_file(file_size: nat, article_size: nat, i: int)
    requires
        article_size > 0,
        0 <= i < segment_count(file_size, article_size),
    ensures
        segment(file_size, article_size, 0).0 == 0,
        0 <= segment(file_size, article_size, i).1 <= article_size,
        file_size > 0 ==> segment(file_size, article_size, i).1 > 0,
        i + 1 < segment_count(file_size, article_size) ==> segment(
            file_size,
            article_size,
            i + 1,
        ).0 == segment(file_size, article_size, i).0 + segment(file_size, article_size, i).1,
        i + 1 == segment_count(file_size, article_size) ==> segment(file_size, article_size, i).0
            + segment(file_size, article_size, i).1 == file_size,
{
    if file_size > 0 {
        let a = article_size as int;
        let q = (file_size - 1) / a;
        let r = (file_size - 1) % a;
        lemma_fundamental_div_mod(file_size - 1, a);
        assert(i <= q);
        assert((i + 1) * a == i * a + a && 0 * a == 0) by (nonlinear_arith);
        assert(i * a <= q * a) by (nonlinear_arith)
            requires
                i <= q,
                a > 0,
        ;
        assert(a * q == q * a) by (nonlinear_arith);
        if i < q {
            assert((i + 1) * a <= q * a) by (nonlinear_arith)
                requires
                    i + 1 <= q,
                    a > 0,
            ;
        }
    } else {
        assert(0 * (article_size as int) == 0);
    }
}

/// A byte shifted by 42.
pub open spec fn shifted(b: u8) -> u8 {
    ((b + 42) % 256) as u8
}

/// Values that are escaped wherever they stand: NUL, LF, CR and `=`.
pub open spec fn critical(e: u8) -> bool {
    e == 0x00 || e == 0x0A || e == 0x0D || e == 0x3D
}

/// Whether the shifted value `e` is escaped: the critical values always, TAB
/// and space at either end of a line, a dot at the start of a line.
pub open spec fn escaped(e: u8, at_line_start: bool, at_line_end: bool) -> bool {
    ||| critical(e)
    ||| (e == 0x09 || e == 0x20) && (at_line_start || at_line_end)
    ||| e == 0x2E && at_line_start
}

/// The encoded form of one byte.
pub open spec fn encoded_byte(b: u8, at_line_start: bool, at_line_end: bool) -> Seq<u8> {
    let e = shifted(b);
    if escaped(e, at_line_start, at_line_end) {
        seq![0x3Du8, ((e + 64) % 256) as u8]
    } else {
        seq![e]
    }
}

/// Byte `i` of `n` bytes is the last of its line.
pub open spec fn ends_line(i: int, n: int, line_len: int) -> bool {
    i % line_len + 1 == line_len || i + 1 == n
}

/// What byte `i` of the data adds to the output: its encoded form, and the end
/// of the line after the last byte of a line.
pub open spec fn encoded_unit(data: Seq<u8>, line_len: int, i: int) -> Seq<u8> {
    let end = ends_line(i, data.len() as int, line_len);
    let byte = encoded_byte(data[i], i % line_len == 0, end);
    if end {
        byte + seq![0x0Du8, 0x0Au8]
    } else {
        byte
    }
}

/// What the first `n` bytes of the data add to the output.
pub open spec fn encoded_prefix(data: Seq<u8>, line_len: int, n: nat) -> Seq<u8>
    decreases n,
{
    if n == 0 {
        Seq::empty()
    } else {
        encoded_prefix(data, line_len, (n - 1) as nat) + encoded_unit(data, line_len, n - 1)
    }
}

/// The yEnc form of the data, in lines of `line_len` source bytes.
pub open spec fn yenc(data: Seq<u8>, line_len: usize) -> Seq<u8> {
    encoded_prefix(data, at_least_one(line_len) as int, data.len())
}

/// The column after one more byte.
proof fn lemma_next_column(i: int, line_len: int)
    requires
        i >= 0,
        line_len > 0,
    ensures
        0 <= i % line_len < line_len,
        i % line_len + 1 == line_len ==> (i + 1) % line_len == 0,
        i % line_len + 1 < line_len ==> (i + 1) % line_len == i % line_len + 1,
{
    let q = i / line_len;
    let r = i % line_len;
    lemma_fundamental_div_mod(i, line_len);
    if r + 1 == line_len {
        assert(line_len * (q + 1) == line_len * q + line_len) by (nonlinear_arith);
        lemma_fundamental_div_mod_converse(i + 1, line_len, q + 1, 0);
    } else {
        lemma_fundamental_div_mod_converse(i + 1, line_len, q, r + 1);
    }
}

/// Append the encoded form of one byte.
fn push_encoded(out: &mut Vec<u8>, b: u8, at_line_start: bool, at_line_end: bool)
    ensures
        final(out)@ == old(out)@ + encoded_byte(b, at_line_start, at_line_end),
{
    let ghost before = out@;
    let e: u8 = b.wrapping_add(42);
    let is_critical: bool = e == 0x00 || e == 0x0A || e == 0x0D || e == 0x3D;
    let positional: bool = ((e == 0x09 || e == 0x20) && (at_line_start || at_line_end)) || (e
        == 0x2E && at_line_start);
    if is_critical || positional {
        out.push(0x3D);
        out.push(e.wrapping_add(64));
    } else {
        out.push(e);
    }
    assert(out@ =~= before + encoded_byte(b, at_line_start, at_line_end));
}

/// The portable encoder: append the encoded form of `data` to `out`, wrapping
/// every `line_len` source bytes.
pub fn encode_scalar(out: &mut Vec<u8>, data: &[u8], line_len: usize)
    ensures
        final(out)@ == old(out)@ + yenc(data@, line_len),
{
    let line: usize = if line_len == 0 {
        1
    } else {
        line_len
    };
    let n: usize = data.len();
    let ghost before = out@;
    let mut col: usize = 0;
    let mut i: usize = 0;
    assert(out@ =~= before + encoded_prefix(data@, line as int, 0));
    while i < n
        invariant
            i <= n,
            n == data@.len(),
            line > 0,
            col == i as int % line as int,
            col < line,
            out@ == before + encoded_prefix(data@, line as int, i as nat),
        decreases n - i,
    {
        let at_line_start: bool = col == 0;
        let at_line_end: bool = col + 1 == line || i + 1 == n;
        push_encoded(out, data[i], at_line_start, at_line_end);
        col = col + 1;
        if at_line_end {
            out.push(0x0D);
            out.push(0x0A);
        }
        proof {
            lemma_next_column(i as int, line as int);
            assert(out@ =~= before + encoded_prefix(data@, line as int, (i + 1) as nat));
        }
        if col == line {
            col = 0;
        }
        i = i + 1;
    }
}

/// Encode by blocks: the first and the last byte of a line are encoded one by
/// one, and the bytes between them, for which only the critical values are
/// escaped, in blocks of `block` bytes. A block without critical values is
/// copied shifted.
fn encode_blocks(out: &mut Vec<u8>, data: &[u8], line_len: usize, block: usize)
    requires
        block > 0,
    ensures
        final(out)@ == old(out)@ + yenc(data@, line_len),
{
    let line: usize = if line_len == 0 {
        1
    } else {
        line_len
    };
    let n: usize = data.len();
    let ghost before = out@;
    let mut col: usize = 0;
    let mut i: usize = 0;
    assert(out@ =~= before + encoded_prefix(data@, line as int, 0));
    while i < n
        invariant
            i <= n,
            n == data@.len(),
            line > 0,
            block > 0,
            line == at_least_one(line_len),
            col == i as int % line as int,
            col < line,
            out@ == before + encoded_prefix(data@, line as int, i as nat),
        decreases n - i,
    {
        if col == 0 || col + 1 == line || i + 1 == n {
            let at_line_end: bool = col + 1 == line || i + 1 == n;
            push_encoded(out, data[i], col == 0, at_line_end);
            col = col + 1;
            if at_line_end {
                out.push(0x0D);
                out.push(0x0A);
            }
            proof {
                lemma_next_column(i as int, line as int);
                assert(out@ =~= before + encoded_prefix(data@, line as int, (i + 1) as nat));
            }
            if col == line {
                col = 0;
            }
            i = i + 1;
        } else {
            let in_line: usize = line - 1 - col;
            let in_data: usize = n - 1 - i;
            let inside: usize = if in_line < in_data {
                in_line
            } else {
                in_data
            };
            let count: usize = if inside < block {
                inside
            } else {
                block
            };
            encode_inside(out, data, i, count, line, Ghost(before));
            proof {
                lemma_columns_inside(i as int, count as int, line as int);
            }
            col = col + count;
            i = i + count;
        }
    }
}

/// The columns of a run of bytes that stays inside a line.
proof fn lemma_columns_inside(i: int, count: int, line: int)
    requires
        i >= 0,
        count >= 0,
        line > 0,
        i % line + count < line,
    ensures
        (i + count) % line == i % line + count,
    decreases count,
{
    if count > 0 {
        lemma_columns_inside(i, count - 1, line);
        lemma_next_column(i + count - 1, line);
    }
}

/// Encode `count` bytes that stand strictly inside a line.
fn encode_inside(
    out: &mut Vec<u8>,
    data: &[u8],
    first: usize,
    count: usize,
    line: usize,
    Ghost(before): Ghost<Seq<u8>>,
)
    requires
        line > 0,
        count > 0,
        first + count < data@.len(),
        0 < first as int % line as int,
        first as int % line as int + count < line,
        old(out)@ == before + encoded_prefix(data@, line as int, first as nat),
    ensures
        final(out)@ == before + encoded_prefix(data@, line as int, (first + count) as nat),
{
    let n: usize = data.len();
    let mut clean: bool = true;
    let mut k: usize = 0;
    while k < count
        invariant
            k <= count,
            n == data@.len(),
            first + count < n,
            clean ==> forall|j: int|
                first <= j < first + k ==> !critical(shifted(#[trigger] data@[j])),
        decreases count - k,
    {
        let e: u8 = data[first + k].wrapping_add(42);
        if e == 0x00 || e == 0x0A || e == 0x0D || e == 0x3D {
            clean = false;
        }
        k = k + 1;
    }
    k = 0;
    while k < count
        invariant
            k <= count,
            n == data@.len(),
            line > 0,
            first + count < n,
            0 < first as int % line as int,
            first as int % line as int + count < line,
            clean ==> forall|j: int|
                first <= j < first + count ==> !critical(shifted(#[trigger] data@[j])),
            out@ == before + encoded_prefix(data@, line as int, (first + k) as nat),
        decreases count - k,
    {
        proof {
            lemma_columns_inside(first as int, k as int, line as int);
            lemma_next_column(first + k, line as int);
        }
        if clean {
            out.push(data[first + k].wrapping_add(42));
        } else {
            push_encoded(out, data[first + k], false, false);
        }
        proof {
            assert(out@ =~= before + encoded_prefix(
                data@,
                line as int,
                (first + k + 1) as nat,
            ));
        }
        k = k + 1;
    }
}

/// yEnc encoder that works on blocks of sixteen bytes. The output is that of
/// [`encode_scalar`].
pub fn encode_ssse3(out: &mut Vec<u8>, data: &[u8], line_len: usize)
    ensures
        final(out)@ == old(out)@ + yenc(data@, line_len),
{
    encode_blocks(out, data, line_len, 16)
}

/// yEnc encoder that works on blocks of thirty-two bytes. The output is that
/// of [`encode_scalar`].
pub fn encode_avx2(out: &mut Vec<u8>, data: &[u8], line_len: usize)
    ensures
        final(out)@ == old(out)@ + yenc(data@, line_len),
{
    encode_blocks(out, data, line_len, 32)
}

/// yEnc encoder that works on blocks of sixteen bytes. The output is that of
/// [`encode_scalar`].
pub fn encode_neon(out: &mut Vec<u8>, data: &[u8], line_len: usize)
    ensures
        final(out)@ == old(out)@ + yenc(data@, line_len),
{
    encode_blocks(out, data, line_len, 16)
}

/// Append the encoded form of `data` to `out`.
pub fn encode(out: &mut Vec<u8>, data: &[u8], line_len: usize)
    ensures
        final(out)@ == old(out)@ + yenc(data@, line_len),
{
    encode_avx2(out, data, line_len)
}

/// The output only grows from one byte of the data to the next.
proof fn lemma_prefix_grows(data: Seq<u8>, line_len: int, m: nat, n: nat)
    requires
        m <= n,
    ensures
        encoded_prefix(data, line_len, m).len() <= encoded_prefix(data, line_len, n).len(),
    decreases n,
{
    if m < n {
        lemma_prefix_grows(data, line_len, m, (n - 1) as nat);
    }
}

/// A byte adds at most four bytes to the output.
proof fn lemma_prefix_bound(data: Seq<u8>, line_len: int, n: nat)
    ensures
        encoded_prefix(data, line_len, n).len() <= 4 * n,
    decreases n,
{
    if n > 0 {
        lemma_prefix_bound(data, line_len, (n - 1) as nat);
    }
}

/// Compute the exact number of bytes that encoding `data` with `line_len` will
/// produce, including escape sequences and `\r\n` line terminators.
pub fn encoded_size(data: &[u8], line_len: usize) -> (size: usize)
    requires
        yenc(data@, line_len).len() <= usize::MAX,
    ensures
        size == yenc(data@, line_len).len(),
{
    let line: usize = if line_len == 0 {
        1
    } else {
        line_len
    };
    let n: usize = data.len();
    let mut size: usize = 0;
    let mut col: usize = 0;
    let mut i: usize = 0;
    while i < n
        invariant
            i <= n,
            n == data@.len(),
            line > 0,
            col == i as int % line as int,
            col < line,
            size == encoded_prefix(data@, line as int, i as nat).len(),
            encoded_prefix(data@, line as int, n as nat).len() <= usize::MAX,
        decreases n - i,
    {
        proof {
            lemma_next_column(i as int, line as int);
            lemma_prefix_grows(data@, line as int, (i + 1) as nat, n as nat);
        }
        let e: u8 = data[i].wrapping_add(42);
        let at_line_start: bool = col == 0;
        let at_line_end: bool = col + 1 == line || i + 1 == n;
        let is_critical: bool = e == 0x00 || e == 0x0A || e == 0x0D || e == 0x3D;
        let positional: bool = ((e == 0x09 || e == 0x20) && (at_line_start || at_line_end)) || (e
            == 0x2E && at_line_start);
        let width: usize = if is_critical || positional {
            2
        } else {
            1
        };
        let ending: usize = if at_line_end {
            2
        } else {
            0
        };
        assert(encoded_unit(data@, line as int, i as int).len() == width + ending);
        size = size + (width + ending);
        col = col + 1;
        if col == line {
            col = 0;
        }
        i = i + 1;
    }
    size
}

/// The state of a yEnc decoder after some encoded bytes: the decoded bytes,
/// and whether the last byte was an escape marker.
#[verifier::opaque]
pub open spec fn decoder(encoded: Seq<u8>) -> (Seq<u8>, bool)
    decreases encoded.len(),
{
    if encoded.len() == 0 {
        (Seq::empty(), false)
    } else {
        let (out, marked) = decoder(encoded.drop_last());
        let c = encoded.last();
        if marked {
            (out.push(((c + 512 - 64 - 42) % 256) as u8), false)
        } else if c == 0x3D {
            (out, true)
        } else if c == 0x0D || c == 0x0A {
            (out, false)
        } else {
            (out.push(((c + 256 - 42) % 256) as u8), false)
        }
    }
}

proof fn lemma_decode_push(encoded: Seq<u8>, c: u8)
    ensures
        decoder(encoded.push(c)) == ({
            let (out, marked) = decoder(encoded);
            if marked {
                (out.push(((c + 512 - 64 - 42) % 256) as u8), false)
            } else if c == 0x3D {
                (out, true)
            } else if c == 0x0D || c == 0x0A {
                (out, false)
            } else {
                (out.push(((c + 256 - 42) % 256) as u8), false)
            }
        }),
{
    assert(encoded.push(c).drop_last() =~= encoded);
    reveal(decoder);
}

proof fn lemma_byte_decodes(start: Seq<u8>, out: Seq<u8>, b: u8, at_start: bool, at_end: bool)
    requires
        decoder(start) == (out, false),
    ensures
        decoder(start + encoded_byte(b, at_start, at_end)) == (out.push(b), false),
{
    let e = shifted(b);
    let byte = encoded_byte(b, at_start, at_end);
    if escaped(e, at_start, at_end) {
        let c = ((e + 64) % 256) as u8;
        lemma_decode_push(start, 0x3D);
        lemma_decode_push(start.push(0x3D), c);
        assert(start + byte =~= start.push(0x3D).push(c));
    } else {
        lemma_decode_push(start, e);
        assert(start + byte =~= start.push(e));
    }
}

proof fn lemma_line_end_decodes(start: Seq<u8>, out: Seq<u8>)
    requires
        decoder(start) == (out, false),
    ensures
        decoder(start + seq![0x0Du8, 0x0Au8]) == (out, false),
{
    lemma_decode_push(start, 0x0D);
    lemma_decode_push(start.push(0x0D), 0x0A);
    assert(start + seq![0x0Du8, 0x0Au8] =~= start.push(0x0D).push(0x0A));
}

proof fn lemma_prefix_decodes(data: Seq<u8>, line_len: int, n: nat)
    requires
        n <= data.len(),
    ensures
        decoder(encoded_prefix(data, line_len, n)) == (data.take(n as int), false),
    decreases n,
{
    if n == 0 {
        assert(data.take(0) =~= Seq::<u8>::empty());
        reveal(decoder);
    } else {
        let m = (n - 1) as nat;
        let i = n - 1;
        lemma_prefix_decodes(data, line_len, m);
        let start = encoded_prefix(data, line_len, m);
        let end = ends_line(i, data.len() as int, line_len);
        let byte = encoded_byte(data[i], i % line_len == 0, end);
        lemma_byte_decodes(start, data.take(i), data[i], i % line_len == 0, end);
        assert(data.take(i).push(data[i]) =~= data.take(n as int));
        if end {
            lemma_line_end_decodes(start + byte, data.take(n as int));
            assert(encoded_prefix(data, line_len, n) =~= start + byte + seq![0x0Du8, 0x0Au8]);
        }
    }
}

/// Decoding gives back what was encoded, for every data and line length.
pub proof fn law_encoding_is_reversible(data: Seq<u8>, line_len: usize)
    ensures
        decoder(yenc(data, line_len)) == (data, false),
{
    lemma_prefix_decodes(data, at_least_one(line_len) as int, data.len());
    assert(data.take(data.len() as int) =~= data);
}

/// Different data have different yEnc forms.
pub proof fn law_encoding_is_injective(a: Seq<u8>, b: Seq<u8>, line_len: usize)
    requires
        yenc(a, line_len) == yenc(b, line_len),
    ensures
        a == b,
{
    law_encoding_is_reversible(a, line_len);
    law_encoding_is_reversible(b, line_len);
}

/// Position `p` of some output is the first of a line.
pub open spec fn starts_line(output: Seq<u8>, p: int) -> bool {
    p == 0 || output[p - 1] == 0x0A
}

/// Position `p` of some output is the last of a line, before the line end.
pub open spec fn stops_line(output: Seq<u8>, p: int) -> bool {
    p + 1 == output.len() || output[p + 1] == 0x0D
}

/// Output that transports leave alone: no NUL, CR and LF only as line ends, no
/// dot at the start of a line, and no TAB or space at either end of a line.
pub open spec fn transport_safe(output: Seq<u8>) -> bool {
    forall|p: int|
        0 <= p < output.len() ==> {
            &&& #[trigger] output[p] != 0x00
            &&& output[p] == 0x0D ==> p + 1 < output.len() && output[p + 1] == 0x0A
            &&& output[p] == 0x0A ==> p > 0 && output[p - 1] == 0x0D
            &&& output[p] == 0x2E ==> !starts_line(output, p)
            &&& output[p] == 0x09 || output[p] == 0x20 ==> !starts_line(output, p)
                && !stops_line(output, p)
        }
}

/// The same of output whose last line may go on.
spec fn safe_so_far(output: Seq<u8>) -> bool {
    forall|p: int|
        0 <= p < output.len() ==> {
            &&& #[trigger] output[p] != 0x00
            &&& output[p] == 0x0D ==> p + 1 < output.len() && output[p + 1] == 0x0A
            &&& output[p] == 0x0A ==> p > 0 && output[p - 1] == 0x0D
            &&& output[p] == 0x2E ==> !starts_line(output, p)
            &&& output[p] == 0x09 || output[p] == 0x20 ==> !starts_line(output, p) && (p + 1
                < output.len() ==> output[p + 1] != 0x0D)
        }
}

proof fn lemma_prefix_is_safe(data: Seq<u8>, line_len: int, n: nat)
    requires
        n <= data.len(),
        line_len > 0,
    ensures
        safe_so_far(encoded_prefix(data, line_len, n)),
        n > 0 ==> encoded_prefix(data, line_len, n).len() > 0,
        n > 0 && !ends_line(n - 1, data.len() as int, line_len) ==> encoded_prefix(
            data,
            line_len,
            n,
        ).last() != 0x0A,
        n == 0 ==> encoded_prefix(data, line_len, n).len() == 0,
    decreases n,
{
    if n > 0 {
        let m = (n - 1) as nat;
        let i = n - 1;
        lemma_prefix_is_safe(data, line_len, m);
        let start = encoded_prefix(data, line_len, m);
        let output = encoded_prefix(data, line_len, n);
        let unit = encoded_unit(data, line_len, i);
        assert(output == start + unit);
        if m > 0 {
            lemma_next_column(m - 1, line_len);
        } else {
            lemma_small_mod(0, line_len as nat);
        }
        assert forall|p: int| 0 <= p < output.len() implies {
            &&& #[trigger] output[p] != 0x00
            &&& output[p] == 0x0D ==> p + 1 < output.len() && output[p + 1] == 0x0A
            &&& output[p] == 0x0A ==> p > 0 && output[p - 1] == 0x0D
            &&& output[p] == 0x2E ==> !starts_line(output, p)
            &&& output[p] == 0x09 || output[p] == 0x20 ==> !starts_line(output, p) && (p + 1
                < output.len() ==> output[p + 1] != 0x0D)
        } by {
            if p < start.len() {
                assert(output[p] == start[p]);
                if p + 1 < start.len() {
                    assert(output[p + 1] == start[p + 1]);
                } else {
                    assert(output[p + 1] == unit[0]);
                }
                if p > 0 {
                    assert(output[p - 1] == start[p - 1]);
                }
            } else {
                let u = p - start.len();
                assert(output[p] == unit[u]);
                if u > 0 {
                    assert(output[p - 1] == unit[u - 1]);
                }
                if u + 1 < unit.len() {
                    assert(output[p + 1] == unit[u + 1]);
                }
                if u == 0 && start.len() > 0 {
                    assert(output[p - 1] == start.last());
                }
            }
        }
    }
}

/// Whatever the data, its yEnc form holds no NUL, no CR or LF but line ends, no
/// line that starts with a dot, and none that starts or ends with TAB or space.
pub proof fn law_encoding_is_transport_safe(data: Seq<u8>, line_len: usize)
    ensures
        transport_safe(yenc(data, line_len)),
{
    lemma_prefix_is_safe(data, at_least_one(line_len) as int, data.len());
    law_encoding_ends_with_line_end(data, line_len);
    let output = yenc(data, line_len);
    if data.len() > 0 {
        assert(output.subrange(output.len() - 2, output.len() as int)[1] == 0x0A);
    }
}

/// The yEnc form of data is empty or ends with a line end.
pub proof fn law_encoding_ends_with_line_end(data: Seq<u8>, line_len: usize)
    ensures
        data.len() == 0 <==> yenc(data, line_len).len() == 0,
        data.len() > 0 ==> yenc(data, line_len).len() >= 3 && yenc(data, line_len).subrange(
            yenc(data, line_len).len() - 2,
            yenc(data, line_len).len() as int,
        ) == seq![0x0Du8, 0x0Au8],
{
    if data.len() > 0 {
        let n = data.len();
        let line = at_least_one(line_len) as int;
        let output = yenc(data, line_len);
        let start = encoded_prefix(data, line, (n - 1) as nat);
        assert(ends_line(n - 1, n as int, line));
        assert(output == start + encoded_unit(data, line, n - 1));
        assert(output.subrange(output.len() - 2, output.len() as int) =~= seq![0x0Du8, 0x0Au8]);
    }
}

/// A byte takes two in the output exactly where one would harm: NUL, LF, CR and `=`
/// always, TAB and space at either end of a line, and a dot at its start. Any other
/// is shifted by 42 and stands alone; an escaped one is shifted by 64 more behind `=`.
pub proof fn law_only_harmful_bytes_are_escaped(b: u8, at_line_start: bool, at_line_end: bool)
    ensures
        ({
            let code = encoded_byte(b, at_line_start, at_line_end);
            let value = (b + 42) % 256;
            let harmful = value == 0 || value == 10 || value == 13 || value == 61 || ((value == 9
                || value == 32) && (at_line_start || at_line_end)) || (value == 46
                && at_line_start);
            &&& harmful ==> code.len() == 2 && code[0] == 61 && code[1] == (value + 64) % 256
            &&& !harmful ==> code.len() == 1 && code[0] == value
        }),
{
}

/// The number of line feeds in some bytes.
pub open spec fn line_feeds(bytes: Seq<u8>) -> nat
    decreases bytes.len(),
{
    if bytes.len() == 0 {
        0
    } else {
        line_feeds(bytes.drop_last()) + (if bytes.last() == 0x0A {
            1nat
        } else {
            0nat
        })
    }
}

proof fn lemma_line_feeds(a: Seq<u8>, b: Seq<u8>)
    ensures
        line_feeds(a + b) == line_feeds(a) + line_feeds(b),
    decreases b.len(),
{
    if b.len() == 0 {
        assert(a + b =~= a);
    } else {
        lemma_line_feeds(a, b.drop_last());
        assert((a + b).drop_last() =~= a + b.drop_last());
        assert((a + b).last() == b.last());
    }
}

proof fn lemma_unit_feeds(data: Seq<u8>, line_len: int, i: int)
    ensures
        line_feeds(encoded_unit(data, line_len, i)) == (if ends_line(
            i,
            data.len() as int,
            line_len,
        ) {
            1nat
        } else {
            0nat
        }),
{
    let end = ends_line(i, data.len() as int, line_len);
    let byte = encoded_byte(data[i], i % line_len == 0, end);
    reveal_with_fuel(line_feeds, 4);
    if byte.len() == 2 {
        assert(byte.drop_last() =~= seq![byte[0]]);
        assert(seq![byte[0]].drop_last() =~= Seq::empty());
    } else {
        assert(byte.drop_last() =~= Seq::empty());
    }
    assert(line_feeds(byte) == 0);
    let crlf = seq![0x0Du8, 0x0Au8];
    assert(crlf.drop_last() =~= seq![0x0Du8]);
    assert(seq![0x0Du8].drop_last() =~= Seq::empty());
    assert(line_feeds(crlf) == 1);
    lemma_line_feeds(byte, crlf);
}

proof fn lemma_prefix_feeds(data: Seq<u8>, line_len: int, n: nat)
    requires
        n <= data.len(),
        line_len > 0,
    ensures
        n < data.len() ==> line_feeds(encoded_prefix(data, line_len, n)) == n as int / line_len,
        n == data.len() && n > 0 ==> line_feeds(encoded_prefix(data, line_len, n)) == (n - 1)
            / line_len + 1,
        n == 0 ==> line_feeds(encoded_prefix(data, line_len, n)) == 0,
    decreases n,
{
    if n > 0 {
        let i = n - 1;
        lemma_prefix_feeds(data, line_len, (n - 1) as nat);
        lemma_unit_feeds(data, line_len, i);
        lemma_line_feeds(
            encoded_prefix(data, line_len, (n - 1) as nat),
            encoded_unit(data, line_len, i),
        );
        lemma_next_column(i, line_len);
        lemma_fundamental_div_mod(i, line_len);
        lemma_fundamental_div_mod(i + 1, line_len);
        let q = i / line_len;
        let r = i % line_len;
        if r + 1 == line_len {
            assert((q + 1) * line_len == line_len * q + line_len) by (nonlinear_arith);
            lemma_fundamental_div_mod_converse(i + 1, line_len, q + 1, 0);
        } else {
            assert(q * line_len == line_len * q) by (nonlinear_arith);
            lemma_fundamental_div_mod_converse(i + 1, line_len, q, r + 1);
        }
    } else {
        lemma_basic_div(0, line_len);
    }
}

/// There are as many lines as the data need at `line_len` bytes each, and no more.
pub proof fn law_lines_are_full(data: Seq<u8>, line_len: usize)
    ensures
        data.len() > 0 ==> line_feeds(yenc(data, line_len)) == segment_count(
            data.len(),
            at_least_one(line_len),
        ),
        data.len() == 0 ==> line_feeds(yenc(data, line_len)) == 0,
{
    lemma_prefix_feeds(data, at_least_one(line_len) as int, data.len());
}

/// Escape markers are followed by something other than `y`.
pub open spec fn markers_are_no_control(output: Seq<u8>) -> bool {
    forall|p: int|
        0 <= p < output.len() && #[trigger] output[p] == 0x3D ==> p + 1 < output.len() && output[p
            + 1] != 0x79
}

proof fn lemma_prefix_markers(data: Seq<u8>, line_len: int, n: nat)
    requires
        n <= data.len(),
    ensures
        markers_are_no_control(encoded_prefix(data, line_len, n)),
    decreases n,
{
    if n > 0 {
        let start = encoded_prefix(data, line_len, (n - 1) as nat);
        let unit = encoded_unit(data, line_len, n - 1);
        let output = start + unit;
        lemma_prefix_markers(data, line_len, (n - 1) as nat);
        assert forall|p: int| 0 <= p < output.len() && #[trigger] output[p] == 0x3D implies p + 1
            < output.len() && output[p + 1] != 0x79 by {
            if p < start.len() {
                assert(start[p] == 0x3D);
                assert(output[p + 1] == start[p + 1]);
            } else {
                assert(unit[p - start.len()] == 0x3D);
            }
        }
    }
}

/// No line of encoded data looks like a control line: wherever `=` stands, it
/// marks an escape, and is never followed by `y`.
pub proof fn law_data_is_no_control_line(data: Seq<u8>, line_len: usize)
    ensures
        markers_are_no_control(yenc(data, line_len)),
{
    lemma_prefix_markers(data, at_least_one(line_len) as int, data.len());
}

/// Identifies one segment of a file to be encoded.
#[derive(Debug, Clone, Copy)]
pub struct PartSpec {
    /// 1-based part number.
    pub number: u32,
    /// Total number of parts for the file.
    pub total: u32,
    /// 0-based byte offset of this part within the file.
    pub offset: u64,
}

/// The parts of a file, one for each of its segments: numbered from 1 on, each
/// with their count and with its own offset.
pub fn parts(file_size: u64, article_size: usize) -> (r: Vec<PartSpec>)
    requires
        segment_count(file_size as nat, at_least_one(article_size)) <= u32::MAX,
    ensures
        r@.len() == segment_count(file_size as nat, at_least_one(article_size)),
        forall|i: int|
            0 <= i < r@.len() ==> {
                &&& (#[trigger] r@[i]).number == i + 1
                &&& r@[i].total == r@.len()
                &&& r@[i].offset == segment(file_size as nat, at_least_one(article_size), i).0
            },
{
    let all: Vec<(u64, usize)> = segments(file_size, article_size);
    let n: usize = all.len();
    let mut r: Vec<PartSpec> = Vec::new();
    let mut i: usize = 0;
    while i < n
        invariant
            i <= n,
            n == all@.len(),
            n <= u32::MAX,
            r@.len() == i,
            forall|k: int|
                0 <= k < i ==> {
                    &&& (#[trigger] r@[k]).number == k + 1
                    &&& r@[k].total == n
                    &&& r@[k].offset == all@[k].0
                },
        decreases n - i,
    {
        r.push(PartSpec { number: (i + 1) as u32, total: n as u32, offset: all[i].0 });
        i = i + 1;
    }
    r
}

/// A yEnc-encoded segment, ready to be used as an NNTP article body.
#[derive(Debug)]
pub struct EncodedPart {
    /// 1-based part number.
    pub number: u32,
    /// Total number of parts for the file.
    pub total: u32,
    /// 1-based offset of the first byte of this part within the file.
    pub begin: u64,
    /// 1-based offset of the last byte of this part within the file.
    pub end: u64,
    /// CRC-32 of this part's raw bytes.
    pub crc32: u32,
    /// Full yEnc body: `=ybegin` / `=ypart` / data lines / `=yend`.
    pub body: Vec<u8>,
}

/// The `=ybegin` line. A file of several parts gives the part and their number.
pub open spec fn ybegin_line(
    name: Seq<char>,
    file_size: nat,
    number: nat,
    total: nat,
    line_len: nat,
) -> Seq<char> {
    let head = if total > 1 {
        "=ybegin part="@ + text::decimal(number) + " total="@ + text::decimal(total) + " line="@
    } else {
        "=ybegin line="@
    };
    head + text::decimal(line_len) + " size="@ + text::decimal(file_size) + " name="@ + name
        + "\r\n"@
}

/// The `=ypart` line.
pub open spec fn ypart_line(begin: nat, end: nat) -> Seq<char> {
    "=ypart begin="@ + text::decimal(begin) + " end="@ + text::decimal(end) + "\r\n"@
}

/// The `=yend` line. A file of several parts gives the part, its checksum and,
/// when known, the checksum of the whole file.
pub open spec fn yend_line(
    size: nat,
    number: nat,
    total: nat,
    part_crc: nat,
    file_crc: Option<u32>,
) -> Seq<char> {
    if total > 1 {
        let part = "=yend size="@ + text::decimal(size) + " part="@ + text::decimal(number)
            + " pcrc32="@ + text::hex_fixed(part_crc, 8);
        match file_crc {
            Some(crc) => part + " crc32="@ + text::hex_fixed(crc as nat, 8) + "\r\n"@,
            None => part + "\r\n"@,
        }
    } else {
        "=yend size="@ + text::decimal(size) + " crc32="@ + text::hex_fixed(part_crc, 8)
            + "\r\n"@
    }
}

/// The body of an article: the control lines around the encoded data.
pub open spec fn part_body(
    name: Seq<char>,
    file_size: nat,
    spec: PartSpec,
    data: Seq<u8>,
    line_len: usize,
    file_crc: Option<u32>,
) -> Seq<u8> {
    let total = spec.total as nat;
    let begin_line = vstd::utf8::encode_utf8(
        ybegin_line(name, file_size, spec.number as nat, total, line_len as nat),
    );
    let head = if total > 1 {
        begin_line + vstd::utf8::encode_utf8(
            ypart_line((spec.offset + 1) as nat, (spec.offset + data.len()) as nat),
        )
    } else {
        begin_line
    };
    head + yenc(data, line_len) + vstd::utf8::encode_utf8(
        yend_line(
            data.len(),
            spec.number as nat,
            total,
            digests::crc32_checksum(data) as nat,
            file_crc,
        ),
    )
}

fn ybegin_string(name: &str, file_size: u64, spec: PartSpec, line_len: usize) -> (line: String)
    ensures
        line@ == ybegin_line(
            name@,
            file_size as nat,
            spec.number as nat,
            spec.total as nat,
            line_len as nat,
        ),
{
    let mut line: String;
    if spec.total > 1 {
        line = String::from_str("=ybegin part=");
        text::push_decimal(&mut line, spec.number as u64);
        line.append(" total=");
        text::push_decimal(&mut line, spec.total as u64);
        line.append(" line=");
    } else {
        line = String::from_str("=ybegin line=");
    }
    text::push_decimal(&mut line, line_len as u64);
    line.append(" size=");
    text::push_decimal(&mut line, file_size);
    line.append(" name=");
    line.append(name);
    line.append("\r\n");
    line
}

fn ypart_string(begin: u64, end: u64) -> (line: String)
    ensures
        line@ == ypart_line(begin as nat, end as nat),
{
    let mut line: String = String::from_str("=ypart begin=");
    text::push_decimal(&mut line, begin);
    line.append(" end=");
    text::push_decimal(&mut line, end);
    line.append("\r\n");
    line
}

fn yend_string(size: usize, spec: PartSpec, part_crc: u32, file_crc: Option<u32>) -> (line: String)
    ensures
        line@ == yend_line(
            size as nat,
            spec.number as nat,
            spec.total as nat,
            part_crc as nat,
            file_crc,
        ),
{
    let mut line: String = String::from_str("=yend size=");
    text::push_decimal(&mut line, size as u64);
    if spec.total > 1 {
        line.append(" part=");
        text::push_decimal(&mut line, spec.number as u64);
        line.append(" pcrc32=");
        text::push_hex_fixed(&mut line, part_crc as u64, 8);
        if let Some(crc) = file_crc {
            line.append(" crc32=");
            text::push_hex_fixed(&mut line, crc as u64, 8);
        }
    } else {
        line.append(" crc32=");
        text::push_hex_fixed(&mut line, part_crc as u64, 8);
    }
    line.append("\r\n");
    line
}

/// Encode one segment of a file into a complete yEnc article body.
///
/// `data` is the raw byte slice for this part. `file_size` is the size of the
/// whole file. When `spec.total > 1` a multi-part body is produced (with a
/// `=ypart` line); otherwise a single-part body is produced. `file_crc32`, if
/// supplied, is appended to the `=yend` line of multi-part articles.
pub fn encode_part(
    name: &str,
    file_size: u64,
    spec: PartSpec,
    data: &[u8],
    line_len: usize,
    file_crc32: Option<u32>,
) -> (part: EncodedPart)
    requires
        spec.offset + 1 <= u64::MAX,
        spec.offset + data@.len() <= u64::MAX,
    ensures
        part.number == spec.number,
        part.total == spec.total,
        part.begin == spec.offset + 1,
        part.end == spec.offset + data@.len(),
        part.crc32 == digests::crc32_checksum(data@),
        part.body@ == part_body(name@, file_size as nat, spec, data@, line_len, file_crc32),
{
    let part_crc: u32 = crc32(data);
    let begin: u64 = spec.offset + 1;
    let end: u64 = spec.offset + data.len() as u64;
    let ybegin: String = ybegin_string(name, file_size, spec, line_len);
    let yend: String = yend_string(data.len(), spec, part_crc, file_crc32);
    let mut body: Vec<u8> = Vec::new();
    if data.len() <= usize::MAX / 4 {
        proof {
            lemma_prefix_bound(data@, at_least_one(line_len) as int, data@.len());
        }
        body.reserve(encoded_size(data, line_len));
    }
    text::push_bytes(&mut body, ybegin.as_str().as_bytes());
    assert(body@ =~= vstd::utf8::encode_utf8(ybegin@));
    if spec.total > 1 {
        let ypart: String = ypart_string(begin, end);
        text::push_bytes(&mut body, ypart.as_str().as_bytes());
    }
    encode(&mut body, data, line_len);
    text::push_bytes(&mut body, yend.as_str().as_bytes());
    EncodedPart {
        number: spec.number,
        total: spec.total,
        begin,
        end,
        crc32: part_crc,
        body,
    }
}

proof fn lemma_decimal_is_ascii(n: nat)
    ensures
        vstd::utf8::is_ascii_chars(text::decimal(n)),
    decreases n,
{
    if n >= 10 {
        lemma_decimal_is_ascii(n / 10);
    }
}

proof fn lemma_hex_is_ascii(n: nat, width: nat)
    ensures
        vstd::utf8::is_ascii_chars(text::hex_fixed(n, width)),
    decreases width,
{
    if width > 0 {
        lemma_hex_is_ascii(n / 16, (width - 1) as nat);
    }
}

proof fn lemma_ascii_joined(a: Seq<char>, b: Seq<char>)
    requires
        vstd::utf8::is_ascii_chars(a),
        vstd::utf8::is_ascii_chars(b),
    ensures
        vstd::utf8::is_ascii_chars(a + b),
{
    assert forall|i: int| 0 <= i < (a + b).len() implies '\0' <= #[trigger] (a + b)[i]
        <= '\u{7f}' by {
        if i < a.len() {
            assert((a + b)[i] == a[i]);
        } else {
            assert((a + b)[i] == b[i - a.len()]);
        }
    }
}

proof fn lemma_yend_ends(
    size: nat,
    number: nat,
    total: nat,
    part_crc: nat,
    file_crc: Option<u32>,
)
    ensures
        ({
            let line = vstd::utf8::encode_utf8(
                yend_line(size, number, total, part_crc, file_crc),
            );
            line.len() >= 2 && line[line.len() - 2] == 0x0D && line[line.len() - 1] == 0x0A
        }),
{
    reveal_strlit("=yend size=");
    reveal_strlit(" part=");
    reveal_strlit(" pcrc32=");
    reveal_strlit(" crc32=");
    reveal_strlit("\r\n");
    lemma_decimal_is_ascii(size);
    lemma_decimal_is_ascii(number);
    lemma_hex_is_ascii(part_crc, 8);
    let a = "=yend size="@ + text::decimal(size);
    lemma_ascii_joined("=yend size="@, text::decimal(size));
    let line = yend_line(size, number, total, part_crc, file_crc);
    if total > 1 {
        lemma_ascii_joined(a, " part="@);
        let b = a + " part="@ + text::decimal(number);
        lemma_ascii_joined(a + " part="@, text::decimal(number));
        lemma_ascii_joined(b, " pcrc32="@);
        let c = b + " pcrc32="@ + text::hex_fixed(part_crc, 8);
        lemma_ascii_joined(b + " pcrc32="@, text::hex_fixed(part_crc, 8));
        match file_crc {
            Some(crc) => {
                lemma_hex_is_ascii(crc as nat, 8);
                lemma_ascii_joined(c, " crc32="@);
                let d = c + " crc32="@ + text::hex_fixed(crc as nat, 8);
                lemma_ascii_joined(c + " crc32="@, text::hex_fixed(crc as nat, 8));
                lemma_ascii_joined(d, "\r\n"@);
            },
            None => {
                lemma_ascii_joined(c, "\r\n"@);
            },
        }
    } else {
        lemma_ascii_joined(a, " crc32="@);
        let b = a + " crc32="@ + text::hex_fixed(part_crc, 8);
        lemma_ascii_joined(a + " crc32="@, text::hex_fixed(part_crc, 8));
        lemma_ascii_joined(b, "\r\n"@);
    }
    vstd::utf8::is_ascii_chars_encode_utf8(line);
    assert(line[line.len() - 2] == '\r');
    assert(line[line.len() - 1] == '\n');
}

/// The body of an article ends with a line end.
pub proof fn law_part_body_ends_with_line_end(
    name: Seq<char>,
    file_size: nat,
    spec: PartSpec,
    data: Seq<u8>,
    line_len: usize,
    file_crc: Option<u32>,
)
    ensures
        ({
            let body = part_body(name, file_size, spec, data, line_len, file_crc);
            body.len() >= 2 && body[body.len() - 2] == 0x0D && body[body.len() - 1] == 0x0A
        }),
{
    lemma_yend_ends(
        data.len(),
        spec.number as nat,
        spec.total as nat,
        digests::crc32_checksum(data) as nat,
        file_crc,
    );
}

/// An article that holds a whole file has the checksum of its own data, whatever
/// file checksum is given.
pub proof fn law_single_part_has_no_file_checksum(
    name: Seq<char>,
    file_size: nat,
    spec: PartSpec,
    data: Seq<u8>,
    line_len: usize,
    file_crc: Option<u32>,
)
    requires
        spec.total <= 1,
    ensures
        part_body(name, file_size, spec, data, line_len, file_crc) == part_body(
            name,
            file_size,
            spec,
            data,
            line_len,
            None,
        ),
{
}

/// The pieces of an article's body: the line in front, the line of the part if
/// there is one, the data, and the line at the end.
pub open spec fn is_body(
    body: Seq<u8>,
    first: Seq<char>,
    second: Seq<char>,
    encoded: Seq<u8>,
    last: Seq<char>,
) -> bool {
    body == vstd::utf8::encode_utf8(first) + vstd::utf8::encode_utf8(second) + encoded
        + vstd::utf8::encode_utf8(last)
}

/// A control line of a given kind, with its line end taken off.
pub open spec fn control_line(line: Seq<char>, kind: Seq<char>) -> Option<Seq<char>> {
    match reading::without_line_end(line) {
        Some(l) => if scan::starts_with(l, kind + seq![' ']) {
            Some(l.skip(kind.len() as int + 1))
        } else {
            None
        },
        None => None,
    }
}

/// What a reader finds in a `=ybegin` line.
pub open spec fn begins_as(
    line: Seq<char>,
    name: Seq<char>,
    file_size: nat,
    spec: PartSpec,
    line_len: usize,
) -> bool {
    match control_line(line, "=ybegin"@) {
        Some(l) => {
            &&& reading::number_field(l, "line"@) == Some(line_len as nat)
            &&& reading::number_field(l, "size"@) == Some(file_size)
            &&& reading::from_field(l, "name"@) == Some(name)
            &&& spec.total > 1 ==> reading::number_field(l, "part"@) == Some(spec.number as nat)
            &&& spec.total > 1 ==> reading::number_field(l, "total"@) == Some(spec.total as nat)
            &&& spec.total <= 1 ==> scan::starts_with(l, "line="@)
        },
        None => false,
    }
}

/// What a reader finds in a `=ypart` line, which only parts have.
pub open spec fn places_as(line: Seq<char>, spec: PartSpec, len: nat) -> bool {
    if spec.total > 1 {
        match control_line(line, "=ypart"@) {
            Some(l) => {
                &&& reading::number_field(l, "begin"@) == Some((spec.offset + 1) as nat)
                &&& reading::number_field(l, "end"@) == Some((spec.offset + len) as nat)
            },
            None => false,
        }
    } else {
        line.len() == 0
    }
}

/// What a reader finds in a `=yend` line: the size, and the checksum of the data;
/// of a part also its number, and the checksum of the file where one is known.
pub open spec fn ends_as(
    line: Seq<char>,
    spec: PartSpec,
    data: Seq<u8>,
    file_crc: Option<u32>,
) -> bool {
    match control_line(line, "=yend"@) {
        Some(l) => {
            let checksum = Some(digests::crc32_checksum(data) as nat);
            &&& reading::number_field(l, "size"@) == Some(data.len())
            &&& if spec.total > 1 {
                &&& reading::number_field(l, "part"@) == Some(spec.number as nat)
                &&& reading::checksum_field(l, "pcrc32"@) == checksum
                &&& match file_crc {
                    Some(crc) => reading::checksum_field(l, "crc32"@) == Some(crc as nat),
                    None => reading::field(l, "crc32"@) is None,
                }
            } else {
                &&& reading::checksum_field(l, "crc32"@) == checksum
                &&& reading::field(l, "pcrc32"@) is None
                &&& reading::field(l, "part"@) is None
            }
        },
        None => false,
    }
}

proof fn lemma_reads_number(
    l: Seq<char>,
    fields: Seq<(Seq<char>, Seq<char>)>,
    i: int,
    n: nat,
)
    requires
        l == reading::line_of(fields),
        reading::well_named(fields),
        0 <= i < fields.len(),
        forall|j: int| 0 <= j < i ==> reading::lacks((#[trigger] fields[j]).1, ' '),
        fields[i].1 == text::decimal(n),
    ensures
        reading::number_field(l, fields[i].0) == Some(n),
{
    reading::lemma_decimal_has_no_space(n);
    reading::law_decimals_read_back(n);
    reading::lemma_fields(fields, i);
}

proof fn lemma_reads_checksum(
    l: Seq<char>,
    fields: Seq<(Seq<char>, Seq<char>)>,
    i: int,
    n: nat,
)
    requires
        l == reading::line_of(fields),
        reading::well_named(fields),
        0 <= i < fields.len(),
        forall|j: int| 0 <= j < i ==> reading::lacks((#[trigger] fields[j]).1, ' '),
        fields[i].1 == text::hex_fixed(n, 8),
        n <= u32::MAX,
    ensures
        reading::checksum_field(l, fields[i].0) == Some(n),
        reading::lacks(fields[i].1, ' '),
{
    reading::lemma_eight_digits();
    reading::law_fixed_hex_reads_back(n, 8);
    reading::lemma_fields(fields, i);
}

/// A control line made of its kind and some fields.
proof fn lemma_control_line(
    line: Seq<char>,
    kind: Seq<char>,
    fields: Seq<(Seq<char>, Seq<char>)>,
)
    requires
        line == kind + seq![' '] + reading::line_of(fields) + seq!['\r', '\n'],
    ensures
        control_line(line, kind) == Some(reading::line_of(fields)),
{
    let l = kind + seq![' '] + reading::line_of(fields);
    assert(line.take(line.len() - 2) =~= l);
    assert(l.subrange(0, kind.len() as int + 1) =~= kind + seq![' ']);
    assert(l.skip(kind.len() as int + 1) =~= reading::line_of(fields));
}

#[verifier::rlimit(40)]
proof fn lemma_begin_fields(
    number: Seq<char>,
    total: Seq<char>,
    length: Seq<char>,
    size: Seq<char>,
    name: Seq<char>,
)
    ensures
        ({
            let few = seq![("line"@, length), ("size"@, size), ("name"@, name)];
            let all = seq![
                ("part"@, number),
                ("total"@, total),
                ("line"@, length),
                ("size"@, size),
                ("name"@, name),
            ];
            &&& reading::well_named(few)
            &&& reading::well_named(all)
            &&& "=ybegin line="@ + length + " size="@ + size + " name="@ + name + "\r\n"@
                == "=ybegin"@ + seq![' '] + reading::line_of(few) + seq!['\r', '\n']
            &&& "=ybegin part="@ + number + " total="@ + total + " line="@ + length + " size="@
                + size + " name="@ + name + "\r\n"@ == "=ybegin"@ + seq![' '] + reading::line_of(
                all,
            ) + seq!['\r', '\n']
            &&& scan::starts_with(reading::line_of(few), "line="@)
        }),
{
    reveal_strlit("=ybegin part=");
    reveal_strlit(" total=");
    reveal_strlit(" line=");
    reveal_strlit("=ybegin line=");
    reveal_strlit(" size=");
    reveal_strlit(" name=");
    reveal_strlit("\r\n");
    reveal_strlit("=ybegin");
    reveal_strlit("part");
    reveal_strlit("total");
    reveal_strlit("line");
    reveal_strlit("size");
    reveal_strlit("name");
    reveal_strlit("line=");
    assert("part"@[0] == 'p' && "total"@[0] == 't' && "line"@[0] == 'l' && "size"@[0] == 's'
        && "name"@[0] == 'n');
    let f3 = seq![("name"@, name)];
    let f2 = seq![("size"@, size), ("name"@, name)];
    let f1 = seq![("line"@, length), ("size"@, size), ("name"@, name)];
    let g = seq![("total"@, total), ("line"@, length), ("size"@, size), ("name"@, name)];
    let f0 = seq![
        ("part"@, number),
        ("total"@, total),
        ("line"@, length),
        ("size"@, size),
        ("name"@, name),
    ];
    reading::lemma_line_of_one("name"@, name);
    reading::lemma_line_of("size"@, size, f3);
    assert(seq![("size"@, size)] + f3 =~= f2);
    reading::lemma_line_of("line"@, length, f2);
    assert(seq![("line"@, length)] + f2 =~= f1);
    reading::lemma_line_of("total"@, total, f1);
    assert(seq![("total"@, total)] + f1 =~= g);
    reading::lemma_line_of("part"@, number, g);
    assert(seq![("part"@, number)] + g =~= f0);
    let l1 = reading::line_of(f1);
    assert(" size="@ =~= seq![' '] + "size"@ + seq!['=']);
    assert(" name="@ =~= seq![' '] + "name"@ + seq!['=']);
    assert(" line="@ =~= seq![' '] + "line"@ + seq!['=']);
    assert(" total="@ =~= seq![' '] + "total"@ + seq!['=']);
    assert("=ybegin line="@ =~= "=ybegin"@ + seq![' '] + "line"@ + seq!['=']);
    assert("=ybegin part="@ =~= "=ybegin"@ + seq![' '] + "part"@ + seq!['=']);
    assert("\r\n"@ =~= seq!['\r', '\n']);
    assert("=ybegin line="@ + length + " size="@ + size + " name="@ + name + "\r\n"@
        =~= "=ybegin"@ + seq![' '] + l1 + seq!['\r', '\n']);
    assert("=ybegin part="@ + number + " total="@ + total + " line="@ + length + " size="@ + size
        + " name="@ + name + "\r\n"@ =~= "=ybegin"@ + seq![' '] + reading::line_of(f0) + seq![
        '\r',
        '\n',
    ]);
    assert(l1.subrange(0, 5) =~= "line="@);
}

#[verifier::rlimit(40)]
proof fn lemma_begin_reads(
    name: Seq<char>,
    file_size: nat,
    spec: PartSpec,
    line_len: usize,
)
    ensures
        begins_as(
            ybegin_line(name, file_size, spec.number as nat, spec.total as nat, line_len as nat),
            name,
            file_size,
            spec,
            line_len,
        ),
{
    let line = ybegin_line(
        name,
        file_size,
        spec.number as nat,
        spec.total as nat,
        line_len as nat,
    );
    let number = text::decimal(spec.number as nat);
    let total = text::decimal(spec.total as nat);
    let length = text::decimal(line_len as nat);
    let size = text::decimal(file_size);
    reading::lemma_decimal_has_no_space(spec.number as nat);
    reading::lemma_decimal_has_no_space(spec.total as nat);
    reading::lemma_decimal_has_no_space(line_len as nat);
    reading::lemma_decimal_has_no_space(file_size);
    lemma_begin_fields(number, total, length, size, name);
    if spec.total > 1 {
        let f = seq![
            ("part"@, number),
            ("total"@, total),
            ("line"@, length),
            ("size"@, size),
            ("name"@, name),
        ];
        let l = reading::line_of(f);
        lemma_control_line(line, "=ybegin"@, f);
        lemma_reads_number(l, f, 0, spec.number as nat);
        lemma_reads_number(l, f, 1, spec.total as nat);
        lemma_reads_number(l, f, 2, line_len as nat);
        lemma_reads_number(l, f, 3, file_size);
        reading::lemma_fields(f, 4);
        assert(f.skip(4) =~= seq![("name"@, name)]);
    } else {
        let f = seq![("line"@, length), ("size"@, size), ("name"@, name)];
        let l = reading::line_of(f);
        lemma_control_line(line, "=ybegin"@, f);
        lemma_reads_number(l, f, 0, line_len as nat);
        lemma_reads_number(l, f, 1, file_size);
        reading::lemma_fields(f, 2);
        assert(f.skip(2) =~= seq![("name"@, name)]);
    }
}

#[verifier::rlimit(40)]
proof fn lemma_place_reads(spec: PartSpec, len: nat)
    requires
        spec.total > 1,
    ensures
        places_as(
            ypart_line((spec.offset + 1) as nat, (spec.offset + len) as nat),
            spec,
            len,
        ),
{
    reveal_strlit("=ypart begin=");
    reveal_strlit(" end=");
    reveal_strlit("\r\n");
    reveal_strlit("=ypart");
    reveal_strlit("begin");
    reveal_strlit("end");
    let b = (spec.offset + 1) as nat;
    let e = (spec.offset + len) as nat;
    let line = ypart_line(b, e);
    reading::lemma_decimal_has_no_space(b);
    reading::lemma_decimal_has_no_space(e);
    let f1 = seq![("end"@, text::decimal(e))];
    let f0 = seq![("begin"@, text::decimal(b)), ("end"@, text::decimal(e))];
    reading::lemma_line_of_one("end"@, text::decimal(e));
    reading::lemma_line_of("begin"@, text::decimal(b), f1);
    assert(seq![("begin"@, text::decimal(b))] + f1 =~= f0);
    let l0 = reading::line_of(f0);
    assert(line =~= "=ypart"@ + seq![' '] + l0 + seq!['\r', '\n']);
    lemma_control_line(line, "=ypart"@, f0);
    assert("begin"@[0] == 'b' && "end"@[0] == 'e');
    assert(reading::well_named(f0));
    lemma_reads_number(l0, f0, 0, b);
    lemma_reads_number(l0, f0, 1, e);
}

#[verifier::rlimit(40)]
proof fn lemma_end_fields(size: Seq<char>, part: Seq<char>, sum: Seq<char>, whole: Seq<char>)
    ensures
        ({
            let alone = seq![("size"@, size), ("crc32"@, sum)];
            let short = seq![("size"@, size), ("part"@, part), ("pcrc32"@, sum)];
            let long = seq![
                ("size"@, size),
                ("part"@, part),
                ("pcrc32"@, sum),
                ("crc32"@, whole),
            ];
            &&& reading::well_named(alone)
            &&& reading::well_named(short)
            &&& reading::well_named(long)
            &&& "=yend size="@ + size + " crc32="@ + sum + "\r\n"@ == "=yend"@ + seq![' ']
                + reading::line_of(alone) + seq!['\r', '\n']
            &&& "=yend size="@ + size + " part="@ + part + " pcrc32="@ + sum + "\r\n"@
                == "=yend"@ + seq![' '] + reading::line_of(short) + seq!['\r', '\n']
            &&& "=yend size="@ + size + " part="@ + part + " pcrc32="@ + sum + " crc32="@ + whole
                + "\r\n"@ == "=yend"@ + seq![' '] + reading::line_of(long) + seq!['\r', '\n']
            &&& reading::lacks("crc32"@, ' ') && reading::lacks("crc32"@, '=')
            &&& reading::lacks("pcrc32"@, ' ') && reading::lacks("pcrc32"@, '=')
            &&& reading::lacks("part"@, ' ') && reading::lacks("part"@, '=')
            &&& "crc32"@ != "size"@ && "crc32"@ != "part"@ && "crc32"@ != "pcrc32"@
            &&& "pcrc32"@ != "size"@ && "pcrc32"@ != "part"@ && "part"@ != "size"@
        }),
{
    reveal_strlit("=yend size=");
    reveal_strlit(" part=");
    reveal_strlit(" pcrc32=");
    reveal_strlit(" crc32=");
    reveal_strlit("\r\n");
    reveal_strlit("=yend");
    reveal_strlit("size");
    reveal_strlit("part");
    reveal_strlit("pcrc32");
    reveal_strlit("crc32");
    assert("size"@[0] == 's' && "part"@[0] == 'p' && "pcrc32"@[0] == 'p' && "crc32"@[0] == 'c');
    assert("part"@.len() == 4 && "pcrc32"@.len() == 6);
    let c = seq![("crc32"@, whole)];
    let d = seq![("pcrc32"@, sum), ("crc32"@, whole)];
    let e = seq![("part"@, part), ("pcrc32"@, sum), ("crc32"@, whole)];
    let long = seq![("size"@, size), ("part"@, part), ("pcrc32"@, sum), ("crc32"@, whole)];
    reading::lemma_line_of_one("crc32"@, whole);
    reading::lemma_line_of("pcrc32"@, sum, c);
    assert(seq![("pcrc32"@, sum)] + c =~= d);
    reading::lemma_line_of("part"@, part, d);
    assert(seq![("part"@, part)] + d =~= e);
    reading::lemma_line_of("size"@, size, e);
    assert(seq![("size"@, size)] + e =~= long);
    let p = seq![("pcrc32"@, sum)];
    let q = seq![("part"@, part), ("pcrc32"@, sum)];
    let short = seq![("size"@, size), ("part"@, part), ("pcrc32"@, sum)];
    reading::lemma_line_of_one("pcrc32"@, sum);
    reading::lemma_line_of("part"@, part, p);
    assert(seq![("part"@, part)] + p =~= q);
    reading::lemma_line_of("size"@, size, q);
    assert(seq![("size"@, size)] + q =~= short);
    let o = seq![("crc32"@, sum)];
    let alone = seq![("size"@, size), ("crc32"@, sum)];
    reading::lemma_line_of_one("crc32"@, sum);
    reading::lemma_line_of("size"@, size, o);
    assert(seq![("size"@, size)] + o =~= alone);
    assert(" part="@ =~= seq![' '] + "part"@ + seq!['=']);
    assert(" pcrc32="@ =~= seq![' '] + "pcrc32"@ + seq!['=']);
    assert(" crc32="@ =~= seq![' '] + "crc32"@ + seq!['=']);
    assert("=yend size="@ =~= "=yend"@ + seq![' '] + "size"@ + seq!['=']);
    assert("\r\n"@ =~= seq!['\r', '\n']);
    assert("=yend size="@ + size + " crc32="@ + sum + "\r\n"@ =~= "=yend"@ + seq![' ']
        + reading::line_of(alone) + seq!['\r', '\n']);
    assert("=yend size="@ + size + " part="@ + part + " pcrc32="@ + sum + "\r\n"@ =~= "=yend"@
        + seq![' '] + reading::line_of(short) + seq!['\r', '\n']);
    assert("=yend size="@ + size + " part="@ + part + " pcrc32="@ + sum + " crc32="@ + whole
        + "\r\n"@ =~= "=yend"@ + seq![' '] + reading::line_of(long) + seq!['\r', '\n']);
}

#[verifier::rlimit(40)]
proof fn lemma_end_reads(spec: PartSpec, data: Seq<u8>, file_crc: Option<u32>)
    ensures
        ends_as(
            yend_line(
                data.len(),
                spec.number as nat,
                spec.total as nat,
                digests::crc32_checksum(data) as nat,
                file_crc,
            ),
            spec,
            data,
            file_crc,
        ),
{
    let number = spec.number as nat;
    let crc = digests::crc32_checksum(data) as nat;
    let line = yend_line(data.len(), number, spec.total as nat, crc, file_crc);
    let size = text::decimal(data.len());
    let part = text::decimal(number);
    let sum = text::hex_fixed(crc, 8);
    reading::lemma_decimal_has_no_space(data.len());
    reading::lemma_decimal_has_no_space(number);
    reading::lemma_eight_digits();
    reading::law_fixed_hex_reads_back(crc, 8);
    assert(reading::lacks(sum, ' '));
    if spec.total > 1 {
        match file_crc {
            Some(w) => {
                let whole = text::hex_fixed(w as nat, 8);
                lemma_end_fields(size, part, sum, whole);
                let f = seq![
                    ("size"@, size),
                    ("part"@, part),
                    ("pcrc32"@, sum),
                    ("crc32"@, whole),
                ];
                let l = reading::line_of(f);
                lemma_control_line(line, "=yend"@, f);
                lemma_reads_number(l, f, 0, data.len());
                lemma_reads_number(l, f, 1, number);
                lemma_reads_checksum(l, f, 2, crc);
                lemma_reads_checksum(l, f, 3, w as nat);
            },
            None => {
                lemma_end_fields(size, part, sum, sum);
                let f = seq![("size"@, size), ("part"@, part), ("pcrc32"@, sum)];
                let l = reading::line_of(f);
                lemma_control_line(line, "=yend"@, f);
                lemma_reads_number(l, f, 0, data.len());
                lemma_reads_number(l, f, 1, number);
                lemma_reads_checksum(l, f, 2, crc);
                reading::lemma_absent_field(f, "crc32"@);
            },
        }
    } else {
        lemma_end_fields(size, part, sum, sum);
        let f = seq![("size"@, size), ("crc32"@, sum)];
        let l = reading::line_of(f);
        lemma_control_line(line, "=yend"@, f);
        lemma_reads_number(l, f, 0, data.len());
        lemma_reads_checksum(l, f, 1, crc);
        reading::lemma_absent_field(f, "pcrc32"@);
        reading::lemma_absent_field(f, "part"@);
    }
}

/// A reader of an article gets back all that went into it: from the line in front
/// the name and size of the file, the length of the lines and, of a part, its
/// number and how many there are; from the line of a part the bytes of the file
/// that it holds; from the encoded lines the data; and from the line at the end the
/// size and checksum of the data, and the checksum of the file where one is given
/// with a part.
pub proof fn law_articles_read_back(
    name: Seq<char>,
    file_size: nat,
    spec: PartSpec,
    data: Seq<u8>,
    line_len: usize,
    file_crc: Option<u32>,
)
    ensures
        exists|first: Seq<char>, second: Seq<char>, encoded: Seq<u8>, last: Seq<char>|
            {
                &&& #[trigger] is_body(
                    part_body(name, file_size, spec, data, line_len, file_crc),
                    first,
                    second,
                    encoded,
                    last,
                )
                &&& begins_as(first, name, file_size, spec, line_len)
                &&& places_as(second, spec, data.len())
                &&& decoder(encoded) == (data, false)
                &&& ends_as(last, spec, data, file_crc)
            },
{
    let number = spec.number as nat;
    let total = spec.total as nat;
    let first = ybegin_line(name, file_size, number, total, line_len as nat);
    let second = if total > 1 {
        ypart_line((spec.offset + 1) as nat, (spec.offset + data.len()) as nat)
    } else {
        Seq::empty()
    };
    let encoded = yenc(data, line_len);
    let last = yend_line(
        data.len(),
        number,
        total,
        digests::crc32_checksum(data) as nat,
        file_crc,
    );
    lemma_begin_reads(name, file_size, spec, line_len);
    if total > 1 {
        lemma_place_reads(spec, data.len());
    } else {
        assert(vstd::utf8::encode_utf8(second) =~= Seq::empty());
        let begun = vstd::utf8::encode_utf8(first);
        assert(begun + vstd::utf8::encode_utf8(second) =~= begun);
    }
    law_encoding_is_reversible(data, line_len);
    lemma_end_reads(spec, data, file_crc);
    assert(is_body(
        part_body(name, file_size, spec, data, line_len, file_crc),
        first,
        second,
        encoded,
        last,
    ));
}

} // verus!

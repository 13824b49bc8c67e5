//! The pieces of the progress panel: bars, sparklines, boxes, cells and
//! durations.

use vstd::prelude::*;
use vstd::string::*;

use crate::chars;
use crate::reading;
use crate::scan;
use crate::text;

use super::ConnState;

verus! {

/// Width, in characters, of the panel box interior.
pub const BODY_W: usize = 56;

/// `s` cut to at most `width` characters, a cut being marked with `…`.
pub open spec fn truncated(s: Seq<char>, width: nat) -> Seq<char> {
    if s.len() <= width {
        s
    } else if width == 0 {
        Seq::empty()
    } else {
        s.take(width - 1).push('…')
    }
}

/// `s` cut or filled up with spaces to `width` characters.
pub open spec fn padded(s: Seq<char>, width: nat) -> Seq<char> {
    text::right_padded(truncated(s, width), width)
}

/// A line of a box.
pub open spec fn boxed(body: Seq<char>) -> Seq<char> {
    "│ "@ + padded(body, BODY_W as nat) + " │"@
}

/// The block that fills `eighths` eighths of a cell from the left.
pub open spec fn block_char(eighths: int) -> char {
    if eighths <= 1 {
        '▏'
    } else if eighths == 2 {
        '▎'
    } else if eighths == 3 {
        '▍'
    } else if eighths == 4 {
        '▌'
    } else if eighths == 5 {
        '▋'
    } else if eighths == 6 {
        '▊'
    } else if eighths == 7 {
        '▉'
    } else {
        '█'
    }
}

/// A bar of `width` cells of which `eighths` eighth cells are filled: each cell
/// is full, partly filled or empty.
pub open spec fn bar_of(eighths: nat, width: nat) -> Seq<char> {
    Seq::new(
        width,
        |i: int|
            if 8 * (i + 1) <= eighths {
                '█'
            } else if 8 * i < eighths {
                block_char(eighths - 8 * i)
            } else {
                '░'
            },
    )
}

/// The column of height `level`, from 0 to 8.
pub open spec fn spark_char(level: int) -> char {
    if level <= 0 {
        ' '
    } else if level == 1 {
        '▁'
    } else if level == 2 {
        '▂'
    } else if level == 3 {
        '▃'
    } else if level == 4 {
        '▄'
    } else if level == 5 {
        '▅'
    } else if level == 6 {
        '▆'
    } else if level == 7 {
        '▇'
    } else {
        '█'
    }
}

/// A sparkline: one column per level.
pub open spec fn sparkline_of(levels: Seq<usize>) -> Seq<char> {
    Seq::new(levels.len(), |i: int| spark_char(levels[i] as int))
}

/// `s` between the escape codes of a colour, or `s` itself without colours.
pub open spec fn coloured(s: Seq<char>, code: Seq<char>, colour: bool) -> Seq<char> {
    if colour {
        "\x1b["@ + code + "m"@ + s + "\x1b[0m"@
    } else {
        s
    }
}

/// Seconds as `m:ss`, or as `h:mm:ss` from an hour on.
pub open spec fn duration_text(secs: nat) -> Seq<char> {
    if secs >= 3600 {
        text::decimal(secs / 3600) + ":"@ + text::zero_padded(secs % 3600 / 60, 2) + ":"@
            + text::zero_padded(secs % 60, 2)
    } else {
        text::decimal(secs / 60) + ":"@ + text::zero_padded(secs % 60, 2)
    }
}

/// The colour code of a connection's state.
pub open spec fn state_code(state: ConnState) -> Seq<char> {
    match state {
        ConnState::Busy => "32"@,
        ConnState::Auth => "33"@,
        ConnState::Retrying => "31"@,
        ConnState::Idle => "2"@,
    }
}

/// What a cell of the connection grid says of connection `idx`, counted from 0.
pub open spec fn cell_body(idx: nat, file: Option<Seq<char>>) -> Seq<char> {
    "conn "@ + text::right_padded(text::decimal(idx + 1), 2) + " ▸ "@ + match file {
        Some(name) => truncated(name, 14),
        None => "idle"@,
    }
}

/// A cell of the connection grid: coloured by state, and 26 columns wide unless
/// its text is longer.
pub open spec fn cell_text(
    idx: nat,
    file: Option<Seq<char>>,
    state: ConnState,
    colour: bool,
) -> Seq<char> {
    let body = cell_body(idx, file);
    coloured(body, state_code(state), colour) + text::repeated(
        ' ',
        if body.len() < 26 {
            (26 - body.len()) as nat
        } else {
            0
        },
    )
}

/// Truncate `s` to at most `width` characters, marking a cut with `…`.
pub fn truncate(s: &str, width: usize) -> (r: String)
    ensures
        r@ == truncated(s@, width as nat),
{
    let all: Vec<char> = text::chars_of(s);
    if all.len() <= width {
        return String::from_str(s);
    }
    if width == 0 {
        return String::new();
    }
    let mut r: String = text::string_of(vstd::slice::slice_subrange(all.as_slice(), 0, width - 1));
    r.push('…');
    assert(r@ =~= truncated(s@, width as nat));
    r
}

/// Pad `s` with spaces (or truncate it) to exactly `width` characters.
pub fn pad(s: &str, width: usize) -> (r: String)
    ensures
        r@ == padded(s@, width as nat),
{
    let cut: String = truncate(s, width);
    let mut r: String = String::new();
    text::push_right_padded(&mut r, cut.as_str(), width);
    assert(r@ =~= padded(s@, width as nat));
    r
}

/// Whatever is padded, the result has the width asked for.
pub proof fn law_padding_is_exact(s: Seq<char>, width: nat)
    ensures
        padded(s, width).len() == width,
        s.len() <= width ==> padded(s, width) == s + text::repeated(
            ' ',
            (width - s.len()) as nat,
        ),
{
}

/// Truncation keeps to the width, and changes nothing that fits.
pub proof fn law_truncation_keeps_to_the_width(s: Seq<char>, width: nat)
    ensures
        truncated(s, width).len() <= width,
        s.len() <= width ==> truncated(s, width) == s,
        s.len() > width > 0 ==> truncated(s, width) == s.take(width - 1).push('…'),
{
}

/// Format a `│ … │` box content line, padding/truncating to the interior.
pub fn box_line(body: &str) -> (line: String)
    ensures
        line@ == boxed(body@),
{
    let mut line: String = String::from_str("│ ");
    line.append(pad(body, BODY_W).as_str());
    line.append(" │");
    line
}

fn block(eighths: usize) -> (c: char)
    ensures
        c == block_char(eighths as int),
{
    match eighths {
        0 | 1 => '▏',
        2 => '▎',
        3 => '▍',
        4 => '▌',
        5 => '▋',
        6 => '▊',
        7 => '▉',
        _ => '█',
    }
}

/// Draw a proportional bar of `width` cells of which `eighths` eighth cells are
/// filled, so that it moves by less than a cell.
pub fn render_bar(eighths: usize, width: usize) -> (bar: String)
    ensures
        bar@ == bar_of(eighths as nat, width as nat),
{
    let whole: usize = eighths / 8;
    let full: usize = if whole < width {
        whole
    } else {
        width
    };
    let remainder: usize = eighths % 8;
    let mut bar: String = String::new();
    text::push_repeated(&mut bar, '█', full);
    if full < width {
        if remainder > 0 {
            bar.push(block(remainder));
            text::push_repeated(&mut bar, '░', width - full - 1);
        } else {
            text::push_repeated(&mut bar, '░', width - full);
        }
    }
    assert(bar@ =~= bar_of(eighths as nat, width as nat));
    bar
}

/// A bar takes `width` columns; it is empty, or full, exactly when nothing, or
/// everything, is done; and more done never shows less.
pub proof fn law_bars_are_proportional(eighths: nat, more: nat, width: nat, i: int)
    requires
        eighths <= more <= 8 * width,
        0 <= i < width,
    ensures
        bar_of(eighths, width).len() == width,
        eighths == 0 <==> bar_of(eighths, width) == text::repeated('░', width),
        eighths == 8 * width <==> bar_of(eighths, width) == text::repeated('█', width),
        bar_of(eighths, width)[i] == '█' ==> bar_of(more, width)[i] == '█',
        bar_of(more, width)[i] == '░' ==> bar_of(eighths, width)[i] == '░',
{
    let b = bar_of(eighths, width);
    if eighths == 0 {
        assert(b =~= text::repeated('░', width));
    } else {
        assert(b[0] != '░');
        assert(text::repeated('░', width)[0] == '░');
    }
    if eighths == 8 * width {
        assert(b =~= text::repeated('█', width));
    } else {
        assert(b[width - 1] != '█');
        assert(text::repeated('█', width)[width - 1] == '█');
    }
}

fn spark(level: usize) -> (c: char)
    ensures
        c == spark_char(level as int),
{
    match level {
        0 => ' ',
        1 => '▁',
        2 => '▂',
        3 => '▃',
        4 => '▄',
        5 => '▅',
        6 => '▆',
        7 => '▇',
        _ => '█',
    }
}

/// Render a sparkline from levels between 0 and 8.
pub fn render_sparkline(levels: &[usize]) -> (line: String)
    ensures
        line@ == sparkline_of(levels@),
{
    let n: usize = levels.len();
    let mut line: String = String::new();
    let mut i: usize = 0;
    while i < n
        invariant
            i <= n,
            n == levels@.len(),
            line@ == sparkline_of(levels@).take(i as int),
        decreases n - i,
    {
        line.push(spark(levels[i]));
        assert(line@ =~= sparkline_of(levels@).take(i + 1));
        i = i + 1;
    }
    assert(line@ =~= sparkline_of(levels@));
    line
}

/// Wrap `s` in the given ANSI SGR codes, or return `s` unchanged when colours
/// are disabled.
pub fn ansi(s: &str, code: &str, colour: bool) -> (r: String)
    ensures
        r@ == coloured(s@, code@, colour),
{
    if colour {
        let mut r: String = String::from_str("\x1b[");
        r.append(code);
        r.append("m");
        r.append(s);
        r.append("\x1b[0m");
        r
    } else {
        String::from_str(s)
    }
}

/// Format a duration in seconds as `m:ss` (or `h:mm:ss` past an hour).
pub fn format_duration(secs: u64) -> (s: String)
    ensures
        s@ == duration_text(secs as nat),
{
    let h: u64 = secs / 3600;
    let m: u64 = (secs % 3600) / 60;
    let mut s: String = String::new();
    if h > 0 {
        s.append(text::decimal_string(h).as_str());
        assert(s@ =~= text::decimal(h as nat));
        s.append(":");
        text::push_zero_padded(&mut s, m, 2);
    } else {
        s.append(text::decimal_string(m).as_str());
        assert(s@ =~= text::decimal(m as nat));
    }
    s.append(":");
    text::push_zero_padded(&mut s, secs % 60, 2);
    s
}

/// One cell of the connection grid with colour-coded state.
pub fn conn_cell(idx: usize, file: &Option<String>, state: ConnState, colour: bool) -> (cell:
    String)
    requires
        idx < usize::MAX,
    ensures
        cell@ == cell_text(
            idx as nat,
            match *file {
                Some(name) => Some(name@),
                None => None,
            },
            state,
            colour,
        ),
{
    let mut raw: String = String::from_str("conn ");
    text::push_right_padded(&mut raw, text::decimal_string((idx + 1) as u64).as_str(), 2);
    raw.append(" ▸ ");
    match file {
        Some(name) => {
            raw.append(truncate(name.as_str(), 14).as_str());
        },
        None => {
            raw.append("idle");
        },
    }
    let code: &str = match state {
        ConnState::Busy => "32",
        ConnState::Auth => "33",
        ConnState::Retrying => "31",
        ConnState::Idle => "2",
    };
    let mut cell: String = ansi(raw.as_str(), code, colour);
    let visual_len: usize = raw.as_str().unicode_len();
    let padding: usize = if visual_len < 26 {
        26 - visual_len
    } else {
        0
    };
    text::push_repeated(&mut cell, ' ', padding);
    cell
}

/// The seconds that the pieces of a duration give, each in units of 60 of the next.
pub open spec fn seconds_of(pieces: Seq<Seq<char>>) -> nat
    decreases pieces.len(),
{
    if pieces.len() == 0 {
        0
    } else {
        60 * seconds_of(pieces.drop_last()) + scan::digits_value(pieces.last())
    }
}

proof fn lemma_digits_lack_colon(s: Seq<char>)
    requires
        scan::all_digits(s),
    ensures
        reading::lacks(s, ':'),
{
    assert forall|i: int| 0 <= i < s.len() implies #[trigger] s[i] != ':' by {
        assert(chars::is_digit(s[i]));
    }
}

/// A reader of a duration finds its seconds: minutes and seconds, and from an hour on
/// also hours, the seconds and the minutes behind hours in two digits.
pub proof fn law_durations_read_back(secs: nat)
    ensures
        ({
            let pieces = reading::items(duration_text(secs), ':');
            &&& seconds_of(pieces) == secs
            &&& pieces.len() == if secs >= 3600 {
                3nat
            } else {
                2
            }
            &&& forall|i: int| 1 <= i < pieces.len() ==> (#[trigger] pieces[i]).len() == 2
        }),
{
    reveal_strlit(":");
    reveal_with_fuel(seconds_of, 4);
    assert(":"@ =~= seq![':']);
    let c = text::zero_padded(secs % 60, 2);
    reading::law_padded_decimals_read_back(secs % 60, 2);
    lemma_digits_lack_colon(c);
    if secs >= 3600 {
        let a = text::decimal(secs / 3600);
        let b = text::zero_padded(secs % 3600 / 60, 2);
        reading::law_decimals_read_back(secs / 3600);
        reading::law_padded_decimals_read_back(secs % 3600 / 60, 2);
        lemma_digits_lack_colon(a);
        lemma_digits_lack_colon(b);
        reading::lemma_items_push(a, b, ':');
        reading::lemma_items_push(a + seq![':'] + b, c, ':');
        let pieces = seq![a].push(b).push(c);
        assert(reading::items(duration_text(secs), ':') == pieces);
        assert(pieces.drop_last() =~= seq![a].push(b));
        assert(pieces.drop_last().drop_last() =~= seq![a]);
        assert(seq![a].drop_last() =~= Seq::empty());
        assert(secs == 3600 * (secs / 3600) + 60 * (secs % 3600 / 60) + secs % 60) by {
            let t = (secs % 3600) as int;
            assert(secs % 60 == t % 60);
        }
    } else {
        let a = text::decimal(secs / 60);
        reading::law_decimals_read_back(secs / 60);
        lemma_digits_lack_colon(a);
        reading::lemma_items_push(a, c, ':');
        let pieces = seq![a].push(c);
        assert(reading::items(duration_text(secs), ':') == pieces);
        assert(pieces.drop_last() =~= seq![a]);
        assert(seq![a].drop_last() =~= Seq::empty());
    }
}

} // verus!

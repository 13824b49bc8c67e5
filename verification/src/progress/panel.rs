//! What the renderer shows of a run: the panel, the quiet line and the plain
//! lines for logs.

use vstd::prelude::*;
use vstd::string::*;

use crate::sizes;
use crate::text;

use super::files;
use super::layout;
use super::state;
use super::state::{Drawing, Progress, RenderState};
use super::{ConnState, RunMode};

verus! {

/// Above this connection count the per-connection grid is replaced by a
/// one-line summary, so the panel never grows unbounded.
pub const GRID_LIMIT: usize = 12;

/// When a run is expected to end, in whole seconds from now.
#[derive(Debug, Clone, Copy, PartialEq, Eq, Structural)]
pub enum Eta {
    /// Nothing can be said.
    Unknown,
    /// At about one time.
    At { secs: u64, unstable: bool },
    /// Between two times.
    Between { low: u64, high: u64, unstable: bool },
}

/// Rates, shares and times of a run at the moment of a draw. Times are whole
/// seconds, rates whole bytes per second, and bars count in eighths of a cell.
pub struct Figures {
    /// Filled part of the compression bar, of 18 cells.
    pub compress_eighths: usize,
    pub compress_percent: u64,
    pub compress_rate: u64,
    pub compress_elapsed: u64,
    pub compress_eta: Option<u64>,
    /// Filled part of the overall bar, of 26 cells.
    pub overall_eighths: usize,
    pub overall_percent: u64,
    pub rate: u64,
    /// Heights of the sparkline's columns, from 0 to 8.
    pub levels: Vec<usize>,
    pub elapsed: u64,
    pub eta: Eta,
    /// Filled part of the buffer bar, of 10 cells.
    pub buffer_eighths: usize,
    /// Filled part of the recovery bar, of 10 cells.
    pub par2_eighths: usize,
    pub par2_elapsed: u64,
    pub par2_eta: Option<u64>,
    /// Processor use in percent, with one decimal.
    pub cpu: String,
    pub status_elapsed: u64,
}

/// A percentage, right-aligned in three columns.
pub open spec fn percent_text(percent: nat) -> Seq<char> {
    text::left_filled(text::decimal(percent), ' ', 3) + "%"@
}

/// A time of arrival as shown.
pub open spec fn eta_text(eta: Eta) -> Seq<char> {
    match eta {
        Eta::Unknown => "ETA —"@,
        Eta::At { secs, unstable } => "ETA "@ + unstable_mark(unstable) + layout::duration_text(
            secs as nat,
        ),
        Eta::Between { low, high, unstable } => "ETA "@ + unstable_mark(unstable)
            + layout::duration_text(low as nat) + "–"@ + layout::duration_text(high as nat),
    }
}

/// The mark of an estimate that varies much.
pub open spec fn unstable_mark(unstable: bool) -> Seq<char> {
    if unstable {
        "~"@
    } else {
        ""@
    }
}

/// The first line of the panel.
#[verifier::opaque]
pub open spec fn header_text(p: Progress) -> Seq<char> {
    if p.compress_active && p.files.len() == 0 {
        "pesto · compressing"@
    } else {
        "pesto · "@ + match p.mode {
            RunMode::Post => "posting"@,
            RunMode::DryRun => "dry run"@,
            RunMode::Par2Only => "par2"@,
        } + " "@ + text::decimal(p.files.len()) + " file(s)"@ + match p.target {
            Some(t) => " → "@ + t,
            None => ""@,
        }
    }
}

/// The top edge of a box with its title.
pub open spec fn top_edge(title: Seq<char>) -> Seq<char> {
    "┌─ "@ + title + " "@ + text::repeated('─', (layout::BODY_W - 1 - title.len()) as nat) + "┐"@
}

/// The bottom edge of a box.
pub open spec fn bottom_edge() -> Seq<char> {
    "└"@ + text::repeated('─', (layout::BODY_W + 2) as nat) + "┘"@
}

/// Whether the panel shows the compression box.
pub open spec fn shows_compression(p: Progress, final_draw: bool) -> bool {
    p.compress_active || (final_draw && p.compress_total > 0 && p.files.len() == 0)
}

/// The compression box.
#[verifier::opaque]
pub open spec fn compress_box(p: Progress, fig: Figures, final_draw: bool) -> Seq<Seq<char>> {
    seq![
        top_edge("compressing"@),
        layout::boxed(
            "["@ + layout::bar_of(fig.compress_eighths as nat, 18) + "] "@ + percent_text(
                fig.compress_percent as nat,
            ) + "  "@ + sizes::size_text(p.compress_written) + "/"@ + sizes::size_text(
                p.compress_total,
            ),
        ),
        layout::boxed(
            sizes::size_text(fig.compress_rate as nat) + "/s · "@ + if final_draw {
                "elapsed "@ + layout::duration_text(fig.compress_elapsed as nat)
            } else {
                match fig.compress_eta {
                    Some(secs) => "ETA "@ + layout::duration_text(secs as nat),
                    None => "ETA —"@,
                }
            },
        ),
        bottom_edge(),
    ]
}

/// The box with the overall progress.
#[verifier::opaque]
pub open spec fn overall_box(p: Progress, fig: Figures, final_draw: bool) -> Seq<Seq<char>> {
    seq![
        top_edge("overall"@),
        layout::boxed(
            "["@ + layout::bar_of(fig.overall_eighths as nat, 26) + "] "@ + percent_text(
                fig.overall_percent as nat,
            ) + "  "@ + text::decimal(p.done_segments) + "/"@ + text::decimal(p.total_segments)
                + " seg"@,
        ),
        layout::boxed(
            sizes::size_text(p.done_bytes) + "/"@ + sizes::size_text(p.total_bytes) + " · "@
                + sizes::size_text(fig.rate as nat) + "/s"@ + if fig.levels@.len() >= 2 {
                " "@ + layout::sparkline_of(fig.levels@)
            } else {
                ""@
            },
        ),
        layout::boxed(
            if final_draw {
                "elapsed "@ + layout::duration_text(fig.elapsed as nat)
            } else {
                eta_text(fig.eta)
            },
        ),
        bottom_edge(),
    ]
}

/// The state of a connection; one that nothing is known of is idle.
pub open spec fn state_of(p: Progress, idx: int) -> ConnState {
    if 0 <= idx < p.conn_state.len() {
        p.conn_state[idx]
    } else {
        ConnState::Idle
    }
}

/// The cell of a connection.
pub open spec fn cell_of(p: Progress, idx: int, colour: bool) -> Seq<char> {
    layout::cell_text(idx as nat, p.conn_files[idx], state_of(p, idx), colour)
}

/// The connection grid: two connections per line.
#[verifier::opaque]
pub open spec fn grid(p: Progress, colour: bool) -> Seq<Seq<char>> {
    Seq::new(
        ((p.conn_files.len() + 1) / 2) as nat,
        |row: int|
            if 2 * row + 1 < p.conn_files.len() {
                cell_of(p, 2 * row, colour) + cell_of(p, 2 * row + 1, colour)
            } else {
                cell_of(p, 2 * row, colour)
            },
    )
}

/// The number of connections that post a file.
pub open spec fn active_count(conn_files: Seq<Option<Seq<char>>>) -> nat
    decreases conn_files.len(),
{
    if conn_files.len() == 0 {
        0
    } else {
        active_count(conn_files.drop_last()) + if conn_files.last() is Some {
            1nat
        } else {
            0
        }
    }
}

/// The number of connections that retry a segment.
pub open spec fn retrying_count(conn_state: Seq<ConnState>) -> nat
    decreases conn_state.len(),
{
    if conn_state.len() == 0 {
        0
    } else {
        retrying_count(conn_state.drop_last()) + if conn_state.last() == ConnState::Retrying {
            1nat
        } else {
            0
        }
    }
}

/// The one line that stands for many connections.
#[verifier::opaque]
pub open spec fn connections_summary(p: Progress, colour: bool) -> Seq<char> {
    text::decimal(p.conn_files.len()) + " connections · "@ + text::decimal(
        active_count(p.conn_files),
    ) + " active"@ + if retrying_count(p.conn_state) > 0 {
        " · "@ + layout::coloured(
            text::decimal(retrying_count(p.conn_state)),
            "31"@,
            colour,
        ) + " retrying"@
    } else {
        ""@
    }
}

/// The lines on the connections.
pub open spec fn connection_lines(p: Progress, colour: bool) -> Seq<Seq<char>> {
    if p.conn_files.len() <= GRID_LIMIT {
        grid(p, colour)
    } else {
        seq![connections_summary(p, colour)]
    }
}

/// The line on files and failures.
#[verifier::opaque]
pub open spec fn tally_text(p: Progress, colour: bool) -> Seq<char> {
    "files ✓"@ + text::decimal(files::complete_files(p.files).len()) + " ⤵"@ + text::decimal(
        files::files_in_flight(p.files).len(),
    ) + " · "@ + layout::coloured(
        "failures "@ + text::decimal(p.failures),
        "31"@,
        colour && p.failures > 0,
    )
}

/// Whether the buffer pool is under pressure: less than a quarter is free.
pub open spec fn short_of_buffers(p: Progress) -> bool {
    p.buf_total > 0 && p.buf_free * 4 < p.buf_total
}

/// The line on the buffer pool.
#[verifier::opaque]
pub open spec fn buffer_text(p: Progress, fig: Figures, colour: bool) -> Seq<char> {
    layout::coloured(
        "buf ["@ + layout::bar_of(fig.buffer_eighths as nat, 10) + "] "@ + text::decimal(
            (p.buf_total - p.buf_free) as nat,
        ) + "/"@ + text::decimal(p.buf_total) + " used"@,
        "33"@,
        colour,
    )
}

/// Everything on posting, once files are known.
pub open spec fn posting_lines(p: Progress, fig: Figures, final_draw: bool, colour: bool) -> Seq<
    Seq<char>,
> {
    if p.files.len() == 0 {
        Seq::empty()
    } else {
        overall_box(p, fig, final_draw) + connection_lines(p, colour) + seq![tally_text(p, colour)]
            + if short_of_buffers(p) {
            seq![buffer_text(p, fig, colour)]
        } else {
            Seq::empty()
        }
    }
}

/// Whether the panel shows how far the recovery slices are.
pub open spec fn shows_par2(p: Progress, final_draw: bool) -> bool {
    p.par2_write_active || (final_draw && p.par2_write_total > 0)
}

/// The line on the recovery slices.
#[verifier::opaque]
pub open spec fn par2_text(p: Progress, fig: Figures, final_draw: bool) -> Seq<char> {
    "▸ PAR2 ["@ + layout::bar_of(fig.par2_eighths as nat, 10) + "] "@ + text::decimal(
        p.par2_write_done,
    ) + "/"@ + text::decimal(p.par2_write_total) + " slices"@ + if final_draw {
        " · elapsed "@ + layout::duration_text(fig.par2_elapsed as nat)
    } else {
        match fig.par2_eta {
            Some(secs) => " · ETA "@ + layout::duration_text(secs as nat),
            None => ""@,
        }
    }
}

/// The line on the process.
#[verifier::opaque]
pub open spec fn process_text(rss: nat, fig: Figures, colour: bool) -> Seq<char> {
    layout::coloured(
        "process  ram "@ + sizes::size_text(rss) + "  cpu "@ + fig.cpu@ + "%"@,
        "2"@,
        colour,
    )
}

/// The note at the end of the panel.
#[verifier::opaque]
pub open spec fn note_lines(p: Progress, fig: Figures) -> Seq<Seq<char>> {
    if p.interrupted {
        seq!["⚠ interrupt received — finishing in-flight segments"@]
    } else if p.status.len() > 0 {
        seq![
            "▸ "@ + p.status + if p.status_since is Some {
                " · "@ + layout::duration_text(fig.status_elapsed as nat)
            } else {
                ""@
            },
        ]
    } else {
        Seq::empty()
    }
}

/// The lines of the panel.
pub open spec fn panel(
    p: Progress,
    rss: nat,
    fig: Figures,
    final_draw: bool,
    colour: bool,
) -> Seq<Seq<char>> {
    seq![header_text(p)] + (if shows_compression(p, final_draw) {
        compress_box(p, fig, final_draw)
    } else {
        Seq::empty()
    }) + posting_lines(p, fig, final_draw, colour) + (if shows_par2(p, final_draw) {
        seq![par2_text(p, fig, final_draw)]
    } else {
        Seq::empty()
    }) + (if rss > 0 {
        seq![process_text(rss, fig, colour)]
    } else {
        Seq::empty()
    }) + note_lines(p, fig)
}

/// Every line ended.
pub open spec fn ended(lines: Seq<Seq<char>>) -> Seq<char>
    decreases lines.len(),
{
    if lines.len() == 0 {
        Seq::empty()
    } else {
        ended(lines.drop_last()) + lines.last() + "\n"@
    }
}

/// What is written to draw a panel in place of one of `drawn` lines: back to
/// its top, clear everything below, and the lines.
pub open spec fn redrawn(drawn: nat, lines: Seq<Seq<char>>) -> Seq<char> {
    (if drawn > 0 {
        "\x1b["@ + text::decimal(drawn) + "F"@
    } else {
        ""@
    }) + "\x1b[0J"@ + ended(lines)
}

/// The frames of the spinner.
pub open spec fn spinner_char(frame: int) -> char {
    seq!['⠋', '⠙', '⠹', '⠸', '⠼', '⠴', '⠦', '⠧', '⠇', '⠏'][frame % 10]
}

/// The quiet line.
pub open spec fn quiet_text(
    frame: int,
    percent: nat,
    elapsed: nat,
    eta: Eta,
    final_draw: bool,
) -> Seq<char> {
    seq![
        if final_draw {
            '✓'
        } else {
            spinner_char(frame)
        },
    ] + "  "@ + percent_text(percent) + " · "@ + if final_draw {
        "done "@ + layout::duration_text(elapsed)
    } else {
        eta_text(eta)
    }
}

/// The plain line, where there is anything to say.
pub open spec fn plain_text(
    p: Progress,
    rate: nat,
    compress_rate: nat,
    elapsed: nat,
    final_draw: bool,
) -> Option<Seq<char>> {
    if p.compress_active {
        Some(
            "compressing: "@ + sizes::size_text(p.compress_written) + "/"@ + sizes::size_text(
                p.compress_total,
            ) + " · "@ + sizes::size_text(compress_rate) + "/s"@,
        )
    } else if p.par2_write_active {
        Some(
            "par2: "@ + text::decimal(p.par2_write_done) + "/"@ + text::decimal(p.par2_write_total)
                + " slices"@,
        )
    } else if p.files.len() == 0 {
        None
    } else if final_draw {
        Some(
            "done: "@ + text::decimal(p.done_segments) + "/"@ + text::decimal(p.total_segments)
                + " segments · "@ + sizes::size_text(p.done_bytes) + " · "@ + text::decimal(
                p.failures,
            ) + " failures · "@ + layout::duration_text(elapsed),
        )
    } else {
        Some(
            "posting: "@ + text::decimal(p.done_segments) + "/"@ + text::decimal(p.total_segments)
                + " segments · "@ + sizes::size_text(p.done_bytes) + " · "@ + sizes::size_text(rate)
                + "/s"@,
        )
    }
}

fn push_line(lines: &mut Vec<String>, line: String)
    ensures
        text::texts(final(lines)@) == text::texts(old(lines)@).push(line@),
        text::texts(final(lines)@) == text::texts(old(lines)@) + seq![line@],
{
    let ghost before = text::texts(lines@);
    let ghost added = line@;
    lines.push(line);
    assert(text::texts(lines@) =~= before.push(added));
    assert(text::texts(lines@) =~= before + seq![added]);
}

fn push_percent(out: &mut String, percent: u64)
    ensures
        final(out)@ == old(out)@ + percent_text(percent as nat),
{
    let ghost before = out@;
    text::push_left_filled(out, text::decimal_string(percent).as_str(), ' ', 3);
    out.append("%");
    assert(out@ =~= before + percent_text(percent as nat));
}

fn format_eta(eta: Eta) -> (s: String)
    ensures
        s@ == eta_text(eta),
{
    match eta {
        Eta::Unknown => String::from_str("ETA —"),
        Eta::At { secs, unstable } => {
            let mut s: String = String::from_str("ETA ");
            s.append(
                if unstable {
                    "~"
                } else {
                    ""
                },
            );
            s.append(layout::format_duration(secs).as_str());
            s
        },
        Eta::Between { low, high, unstable } => {
            let mut s: String = String::from_str("ETA ");
            s.append(
                if unstable {
                    "~"
                } else {
                    ""
                },
            );
            s.append(layout::format_duration(low).as_str());
            s.append("–");
            s.append(layout::format_duration(high).as_str());
            s
        },
    }
}

fn draw_top_edge(title: &str) -> (s: String)
    requires
        title@.len() < layout::BODY_W,
    ensures
        s@ == top_edge(title@),
{
    let mut s: String = String::from_str("┌─ ");
    s.append(title);
    s.append(" ");
    text::push_repeated(&mut s, '─', layout::BODY_W - 1 - title.unicode_len());
    s.append("┐");
    s
}

fn draw_bottom_edge() -> (s: String)
    ensures
        s@ == bottom_edge(),
{
    let mut s: String = String::from_str("└");
    text::push_repeated(&mut s, '─', layout::BODY_W + 2);
    s.append("┘");
    s
}

fn draw_header(st: &RenderState) -> (s: String)
    ensures
        s@ == header_text(st@),
{
    proof {
        reveal(header_text);
    }
    if st.compress_active && st.files.is_empty() {
        return String::from_str("pesto · compressing");
    }
    let mut s: String = String::from_str("pesto · ");
    s.append(
        match st.mode {
            RunMode::Post => "posting",
            RunMode::DryRun => "dry run",
            RunMode::Par2Only => "par2",
        },
    );
    s.append(" ");
    text::push_decimal(&mut s, st.files.len() as u64);
    s.append(" file(s)");
    match &st.target {
        Some(t) => {
            let mut arrow: String = String::from_str(" → ");
            arrow.append(t.as_str());
            s.append(arrow.as_str());
        },
        None => {
            s.append("");
        },
    }
    s
}

fn push_compress_box(lines: &mut Vec<String>, st: &RenderState, fig: &Figures, final_draw: bool)
    ensures
        text::texts(final(lines)@) == text::texts(old(lines)@) + compress_box(st@, *fig, final_draw),
{
    proof {
        reveal(compress_box);
    }
    let ghost before = text::texts(lines@);
    let mut line1: String = String::from_str("[");
    line1.append(layout::render_bar(fig.compress_eighths, 18).as_str());
    line1.append("] ");
    push_percent(&mut line1, fig.compress_percent);
    line1.append("  ");
    line1.append(sizes::format_size(st.compress_written).as_str());
    line1.append("/");
    line1.append(sizes::format_size(st.compress_total).as_str());
    let mut line2: String = sizes::format_size(fig.compress_rate);
    line2.append("/s · ");
    let mut eta: String = String::from_str(
        if final_draw {
            "elapsed "
        } else if fig.compress_eta.is_some() {
            "ETA "
        } else {
            "ETA —"
        },
    );
    if final_draw {
        eta.append(layout::format_duration(fig.compress_elapsed).as_str());
    } else {
        match fig.compress_eta {
            Some(secs) => {
                eta.append(layout::format_duration(secs).as_str());
            },
            None => {},
        }
    }
    line2.append(eta.as_str());
    proof {
        reveal_strlit("compressing");
    }
    push_line(lines, draw_top_edge("compressing"));
    push_line(lines, layout::box_line(line1.as_str()));
    push_line(lines, layout::box_line(line2.as_str()));
    push_line(lines, draw_bottom_edge());
    assert(text::texts(lines@) =~= before + compress_box(st@, *fig, final_draw));
}

fn push_overall_box(lines: &mut Vec<String>, st: &RenderState, fig: &Figures, final_draw: bool)
    ensures
        text::texts(final(lines)@) == text::texts(old(lines)@) + overall_box(st@, *fig, final_draw),
{
    proof {
        reveal(overall_box);
    }
    let ghost before = text::texts(lines@);
    let mut line1: String = String::from_str("[");
    line1.append(layout::render_bar(fig.overall_eighths, 26).as_str());
    line1.append("] ");
    push_percent(&mut line1, fig.overall_percent);
    line1.append("  ");
    text::push_decimal(&mut line1, st.done_segments);
    line1.append("/");
    text::push_decimal(&mut line1, st.total_segments);
    line1.append(" seg");
    let mut line2: String = sizes::format_size(st.done_bytes);
    line2.append("/");
    line2.append(sizes::format_size(st.total_bytes).as_str());
    line2.append(" · ");
    line2.append(sizes::format_size(fig.rate).as_str());
    line2.append("/s");
    if fig.levels.len() >= 2 {
        let mut spark: String = String::from_str(" ");
        spark.append(layout::render_sparkline(fig.levels.as_slice()).as_str());
        line2.append(spark.as_str());
    } else {
        line2.append("");
    }
    let line3: String = if final_draw {
        let mut s: String = String::from_str("elapsed ");
        s.append(layout::format_duration(fig.elapsed).as_str());
        s
    } else {
        format_eta(fig.eta)
    };
    proof {
        reveal_strlit("overall");
    }
    push_line(lines, draw_top_edge("overall"));
    push_line(lines, layout::box_line(line1.as_str()));
    push_line(lines, layout::box_line(line2.as_str()));
    push_line(lines, layout::box_line(line3.as_str()));
    push_line(lines, draw_bottom_edge());
    assert(text::texts(lines@) =~= before + overall_box(st@, *fig, final_draw));
}

fn draw_cell(st: &RenderState, idx: usize, colour: bool) -> (s: String)
    requires
        idx < st.conn_files@.len(),
    ensures
        s@ == cell_of(st@, idx as int, colour),
{
    let conns: usize = st.conn_files.len();
    let state: ConnState = if idx < st.conn_state.len() {
        st.conn_state[idx]
    } else {
        ConnState::Idle
    };
    layout::conn_cell(idx, &st.conn_files[idx], state, colour)
}

fn push_grid(lines: &mut Vec<String>, st: &RenderState, colour: bool)
    requires
        st.conn_files@.len() <= GRID_LIMIT,
    ensures
        text::texts(final(lines)@) == text::texts(old(lines)@) + grid(st@, colour),
{
    proof {
        reveal(grid);
    }
    let ghost before = text::texts(lines@);
    let conns: usize = st.conn_files.len();
    let mut row: usize = 0;
    assert(before =~= before + grid(st@, colour).take(0));
    while 2 * row < conns
        invariant
            conns == st.conn_files@.len(),
            conns <= GRID_LIMIT,
            row <= (conns + 1) / 2,
            text::texts(lines@) == before + grid(st@, colour).take(row as int),
        decreases conns - row,
    {
        proof {
            reveal(grid);
        }
        let mut line: String = draw_cell(st, 2 * row, colour);
        if 2 * row + 1 < conns {
            line.append(draw_cell(st, 2 * row + 1, colour).as_str());
        }
        push_line(lines, line);
        assert(text::texts(lines@) =~= before + grid(st@, colour).take(row + 1));
        row = row + 1;
    }
    assert(grid(st@, colour).take(row as int) =~= grid(st@, colour));
}

fn count_active(conn_files: &[Option<String>]) -> (n: usize)
    ensures
        n == active_count(
            Seq::new(conn_files@.len(), |i: int| state::chars_in(conn_files@[i])),
        ),
{
    let conns: usize = conn_files.len();
    let ghost all = Seq::new(conn_files@.len(), |i: int| state::chars_in(conn_files@[i]));
    let mut n: usize = 0;
    let mut i: usize = 0;
    while i < conns
        invariant
            i <= conns,
            conns == conn_files@.len(),
            n <= i,
            all == Seq::new(conn_files@.len(), |i: int| state::chars_in(conn_files@[i])),
            n == active_count(all.take(i as int)),
        decreases conns - i,
    {
        assert(all.take(i + 1).drop_last() =~= all.take(i as int));
        if conn_files[i].is_some() {
            n = n + 1;
        }
        i = i + 1;
    }
    assert(all.take(conns as int) =~= all);
    n
}

fn count_retrying(conn_state: &[ConnState]) -> (n: usize)
    ensures
        n == retrying_count(conn_state@),
{
    let conns: usize = conn_state.len();
    let mut n: usize = 0;
    let mut i: usize = 0;
    while i < conns
        invariant
            i <= conns,
            conns == conn_state@.len(),
            n <= i,
            n == retrying_count(conn_state@.take(i as int)),
        decreases conns - i,
    {
        assert(conn_state@.take(i + 1).drop_last() =~= conn_state@.take(i as int));
        if conn_state[i] == ConnState::Retrying {
            n = n + 1;
        }
        i = i + 1;
    }
    assert(conn_state@.take(conns as int) =~= conn_state@);
    n
}

fn draw_summary(st: &RenderState, colour: bool) -> (s: String)
    ensures
        s@ == connections_summary(st@, colour),
{
    proof {
        reveal(connections_summary);
    }
    let active: usize = count_active(st.conn_files.as_slice());
    let retrying: usize = count_retrying(st.conn_state.as_slice());
    let mut s: String = text::decimal_string(st.conn_files.len() as u64);
    s.append(" connections · ");
    text::push_decimal(&mut s, active as u64);
    s.append(" active");
    if retrying > 0 {
        let mut retry: String = String::from_str(" · ");
        retry.append(
            layout::ansi(text::decimal_string(retrying as u64).as_str(), "31", colour).as_str(),
        );
        retry.append(" retrying");
        s.append(retry.as_str());
    } else {
        s.append("");
    }
    s
}

fn draw_tally(st: &RenderState, colour: bool) -> (s: String)
    ensures
        s@ == tally_text(st@, colour),
{
    proof {
        reveal(tally_text);
    }
    let (done, in_flight): (usize, usize) = st.file_tally();
    let mut failures: String = String::from_str("failures ");
    text::push_decimal(&mut failures, st.failures);
    let mut s: String = String::from_str("files ✓");
    text::push_decimal(&mut s, done as u64);
    s.append(" ⤵");
    text::push_decimal(&mut s, in_flight as u64);
    s.append(" · ");
    s.append(layout::ansi(failures.as_str(), "31", colour && st.failures > 0).as_str());
    s
}

fn draw_buffers(st: &RenderState, fig: &Figures, colour: bool) -> (s: String)
    requires
        short_of_buffers(st@),
    ensures
        s@ == buffer_text(st@, *fig, colour),
{
    proof {
        reveal(buffer_text);
    }
    let mut s: String = String::from_str("buf [");
    s.append(layout::render_bar(fig.buffer_eighths, 10).as_str());
    s.append("] ");
    text::push_decimal(&mut s, (st.buf_total - st.buf_free) as u64);
    s.append("/");
    text::push_decimal(&mut s, st.buf_total as u64);
    s.append(" used");
    layout::ansi(s.as_str(), "33", colour)
}

fn push_posting(
    lines: &mut Vec<String>,
    st: &RenderState,
    fig: &Figures,
    final_draw: bool,
    colour: bool,
)
    ensures
        text::texts(final(lines)@) == text::texts(old(lines)@) + posting_lines(st@, *fig, final_draw, colour),
{
    let ghost before = text::texts(lines@);
    if st.files.is_empty() {
        assert(text::texts(lines@) =~= before + posting_lines(st@, *fig, final_draw, colour));
        return;
    }
    push_overall_box(lines, st, fig, final_draw);
    let ghost one = text::texts(lines@);
    if st.conn_files.len() <= GRID_LIMIT {
        push_grid(lines, st, colour);
    } else {
        push_line(lines, draw_summary(st, colour));
    }
    assert(text::texts(lines@) == one + connection_lines(st@, colour));
    push_line(lines, draw_tally(st, colour));
    if st.buf_total > 0 && st.buf_free <= (st.buf_total - 1) / 4 {
        push_line(lines, draw_buffers(st, fig, colour));
    }
    assert(text::texts(lines@) =~= before + posting_lines(st@, *fig, final_draw, colour));
}

fn draw_par2(st: &RenderState, fig: &Figures, final_draw: bool) -> (s: String)
    ensures
        s@ == par2_text(st@, *fig, final_draw),
{
    proof {
        reveal(par2_text);
    }
    let mut s: String = String::from_str("▸ PAR2 [");
    s.append(layout::render_bar(fig.par2_eighths, 10).as_str());
    s.append("] ");
    text::push_decimal(&mut s, st.par2_write_done as u64);
    s.append("/");
    text::push_decimal(&mut s, st.par2_write_total as u64);
    s.append(" slices");
    if final_draw {
        let mut tail: String = String::from_str(" · elapsed ");
        tail.append(layout::format_duration(fig.par2_elapsed).as_str());
        s.append(tail.as_str());
    } else {
        match fig.par2_eta {
            Some(secs) => {
                let mut tail: String = String::from_str(" · ETA ");
                tail.append(layout::format_duration(secs).as_str());
                s.append(tail.as_str());
            },
            None => {
                s.append("");
            },
        }
    }
    s
}

fn draw_process(st: &RenderState, fig: &Figures, colour: bool) -> (s: String)
    ensures
        s@ == process_text(st.proc_rss_bytes as nat, *fig, colour),
{
    proof {
        reveal(process_text);
    }
    let mut s: String = String::from_str("process  ram ");
    s.append(sizes::format_size(st.proc_rss_bytes).as_str());
    s.append("  cpu ");
    s.append(fig.cpu.as_str());
    s.append("%");
    layout::ansi(s.as_str(), "2", colour)
}

fn push_note(lines: &mut Vec<String>, st: &RenderState, fig: &Figures)
    ensures
        text::texts(final(lines)@) == text::texts(old(lines)@) + note_lines(st@, *fig),
{
    proof {
        reveal(note_lines);
    }
    let ghost before = text::texts(lines@);
    if st.interrupted {
        push_line(lines, String::from_str("⚠ interrupt received — finishing in-flight segments"));
    } else if st.status.as_str().unicode_len() > 0 {
        let mut s: String = String::from_str("▸ ");
        s.append(st.status.as_str());
        if st.status_since.is_some() {
            let mut tail: String = String::from_str(" · ");
            tail.append(layout::format_duration(fig.status_elapsed).as_str());
            s.append(tail.as_str());
        } else {
            s.append("");
        }
        push_line(lines, s);
    }
    assert(text::texts(lines@) =~= before + note_lines(st@, *fig));
}

fn end_lines(lines: &[String]) -> (s: String)
    ensures
        s@ == ended(text::texts(lines@)),
{
    let n: usize = lines.len();
    let mut s: String = String::new();
    let mut i: usize = 0;
    assert(s@ =~= ended(text::texts(lines@).take(0)));
    while i < n
        invariant
            i <= n,
            n == lines@.len(),
            s@ == ended(text::texts(lines@).take(i as int)),
        decreases n - i,
    {
        assert(text::texts(lines@).take(i + 1).drop_last() =~= text::texts(lines@).take(i as int));
        s.append(lines[i].as_str());
        s.append("\n");
        i = i + 1;
    }
    assert(text::texts(lines@).take(n as int) =~= text::texts(lines@));
    s
}

fn spinner(frame: usize) -> (c: char)
    ensures
        c == spinner_char(frame as int),
{
    match frame % 10 {
        0 => '⠋',
        1 => '⠙',
        2 => '⠹',
        3 => '⠸',
        4 => '⠼',
        5 => '⠴',
        6 => '⠦',
        7 => '⠧',
        8 => '⠇',
        _ => '⠏',
    }
}

impl RenderState {
    /// The lines of the panel.
    pub fn panel_lines(&self, fig: &Figures, final_draw: bool, colour: bool) -> (lines: Vec<String>)
        ensures
            text::texts(lines@) == panel(
                self@,
                self.proc_rss_bytes as nat,
                *fig,
                final_draw,
                colour,
            ),
    {
        let mut lines: Vec<String> = Vec::new();
        push_line(&mut lines, draw_header(self));
        assert(text::texts(lines@) =~= seq![header_text(self@)]);
        let ghost one = text::texts(lines@);
        if self.compress_active || (final_draw && self.compress_total > 0 && self.files.is_empty()) {
            push_compress_box(&mut lines, self, fig, final_draw);
        }
        assert(text::texts(lines@) =~= one + (if shows_compression(self@, final_draw) {
            compress_box(self@, *fig, final_draw)
        } else {
            Seq::empty()
        }));
        push_posting(&mut lines, self, fig, final_draw, colour);
        let ghost two = text::texts(lines@);
        if self.par2_write_active || (final_draw && self.par2_write_total > 0) {
            push_line(&mut lines, draw_par2(self, fig, final_draw));
        }
        assert(text::texts(lines@) =~= two + (if shows_par2(self@, final_draw) {
            seq![par2_text(self@, *fig, final_draw)]
        } else {
            Seq::empty()
        }));
        let ghost three = text::texts(lines@);
        if self.proc_rss_bytes > 0 {
            push_line(&mut lines, draw_process(self, fig, colour));
        }
        assert(text::texts(lines@) =~= three + (if self.proc_rss_bytes > 0 {
            seq![process_text(self.proc_rss_bytes as nat, *fig, colour)]
        } else {
            Seq::empty()
        }));
        push_note(&mut lines, self, fig);
        lines
    }

    /// What to write to draw the panel in place of the one drawn before;
    /// nothing before the run has started.
    pub fn draw_panel(&mut self, fig: &Figures, final_draw: bool, colour: bool) -> (out: Option<
        String,
    >)
        ensures
            final(self)@ == old(self)@,
            out is Some <==> old(self).started,
            match out {
                Some(s) => {
                    let lines = panel(
                        old(self)@,
                        old(self).proc_rss_bytes as nat,
                        *fig,
                        final_draw,
                        colour,
                    );
                    &&& s@ == redrawn(old(self).lines_drawn as nat, lines)
                    &&& final(self).drawing() == (Drawing {
                        lines_drawn: lines.len() as usize,
                        ..old(self).drawing()
                    })
                },
                None => final(self).drawing() == old(self).drawing(),
            },
    {
        if !self.started {
            return None;
        }
        let lines: Vec<String> = self.panel_lines(fig, final_draw, colour);
        let mut out: String = if self.lines_drawn > 0 {
            let mut back: String = String::from_str("\x1b[");
            text::push_decimal(&mut back, self.lines_drawn as u64);
            back.append("F");
            back
        } else {
            String::from_str("")
        };
        out.append("\x1b[0J");
        out.append(end_lines(lines.as_slice()).as_str());
        self.lines_drawn = lines.len();
        Some(out)
    }

    /// What to write to draw the quiet line in place of the one drawn before;
    /// nothing before the run has started.
    pub fn draw_quiet(&mut self, percent: u64, elapsed: u64, eta: Eta, final_draw: bool) -> (out:
        Option<String>)
        ensures
            final(self)@ == old(self)@,
            out is Some <==> old(self).started,
            match out {
                Some(s) => {
                    &&& s@ == (if old(self).lines_drawn > 0 {
                        "\x1b[1F\x1b[2K"@
                    } else {
                        ""@
                    }) + quiet_text(
                        old(self).spinner_frame as int,
                        percent as nat,
                        elapsed as nat,
                        eta,
                        final_draw,
                    ) + "\n"@
                    &&& final(self).drawing() == (Drawing {
                        lines_drawn: 1,
                        spinner_frame: if final_draw {
                            old(self).spinner_frame
                        } else {
                            ((old(self).spinner_frame + 1) % 10) as usize
                        },
                        ..old(self).drawing()
                    })
                },
                None => final(self).drawing() == old(self).drawing(),
            },
    {
        if !self.started {
            return None;
        }
        let mut line: String = String::new();
        if final_draw {
            line.push('✓');
            assert(line@ =~= seq!['✓']);
        } else {
            line.push(spinner(self.spinner_frame));
            assert(line@ =~= seq![spinner_char(self.spinner_frame as int)]);
            self.spinner_frame = (self.spinner_frame % 10 + 1) % 10;
        }
        line.append("  ");
        push_percent(&mut line, percent);
        line.append(" · ");
        if final_draw {
            let mut tail: String = String::from_str("done ");
            tail.append(layout::format_duration(elapsed).as_str());
            line.append(tail.as_str());
        } else {
            line.append(format_eta(eta).as_str());
        }
        let mut out: String = String::from_str(
            if self.lines_drawn > 0 {
                "\x1b[1F\x1b[2K"
            } else {
                ""
            },
        );
        out.append(line.as_str());
        out.append("\n");
        self.lines_drawn = 1;
        Some(out)
    }

    /// The plain line of a tick, every tenth tick and at the end; nothing
    /// before the run has started.
    pub fn draw_plain(
        &mut self,
        rate: u64,
        compress_rate: u64,
        elapsed: u64,
        final_draw: bool,
    ) -> (out: Option<String>)
        ensures
            final(self)@ == old(self)@,
            final(self).drawing() == (Drawing {
                plain_ticks: if old(self).started {
                    ((old(self).plain_ticks + 1) % 10) as u32
                } else {
                    old(self).plain_ticks
                },
                ..old(self).drawing()
            }),
            state::chars_in(out) == if old(self).started && (final_draw || (old(self).plain_ticks
                + 1) % 10 == 0) {
                plain_text(
                    old(self)@,
                    rate as nat,
                    compress_rate as nat,
                    elapsed as nat,
                    final_draw,
                )
            } else {
                None
            },
    {
        if !self.started {
            return None;
        }
        self.plain_ticks = (self.plain_ticks % 10 + 1) % 10;
        if !final_draw && self.plain_ticks != 0 {
            return None;
        }
        if self.compress_active {
            let mut s: String = String::from_str("compressing: ");
            s.append(sizes::format_size(self.compress_written).as_str());
            s.append("/");
            s.append(sizes::format_size(self.compress_total).as_str());
            s.append(" · ");
            s.append(sizes::format_size(compress_rate).as_str());
            s.append("/s");
            return Some(s);
        }
        if self.par2_write_active {
            let mut s: String = String::from_str("par2: ");
            text::push_decimal(&mut s, self.par2_write_done as u64);
            s.append("/");
            text::push_decimal(&mut s, self.par2_write_total as u64);
            s.append(" slices");
            return Some(s);
        }
        if self.files.is_empty() {
            return None;
        }
        let mut s: String = String::from_str(
            if final_draw {
                "done: "
            } else {
                "posting: "
            },
        );
        text::push_decimal(&mut s, self.done_segments);
        s.append("/");
        text::push_decimal(&mut s, self.total_segments);
        s.append(" segments · ");
        s.append(sizes::format_size(self.done_bytes).as_str());
        s.append(" · ");
        if final_draw {
            text::push_decimal(&mut s, self.failures);
            s.append(" failures · ");
            s.append(layout::format_duration(elapsed).as_str());
        } else {
            s.append(sizes::format_size(rate).as_str());
            s.append("/s");
        }
        Some(s)
    }
}

/// Every line of a box is as wide as the others.
pub proof fn law_boxes_are_rectangular(title: Seq<char>, body: Seq<char>)
    requires
        title.len() < layout::BODY_W,
    ensures
        top_edge(title).len() == layout::BODY_W + 4,
        layout::boxed(body).len() == layout::BODY_W + 4,
        bottom_edge().len() == layout::BODY_W + 4,
{
    reveal_strlit("┌─ ");
    reveal_strlit(" ");
    reveal_strlit("┐");
    reveal_strlit("└");
    reveal_strlit("┘");
    reveal_strlit("│ ");
    reveal_strlit(" │");
}

proof fn lemma_section_heights(p: Progress, fig: Figures, final_draw: bool, colour: bool)
    ensures
        compress_box(p, fig, final_draw).len() == 4,
        overall_box(p, fig, final_draw).len() == 5,
        grid(p, colour).len() == (p.conn_files.len() + 1) / 2,
        note_lines(p, fig).len() <= 1,
{
    reveal(compress_box);
    reveal(overall_box);
    reveal(grid);
    reveal(note_lines);
}

/// The panel never grows beyond a fixed height, whatever the run.
pub proof fn law_panel_height_is_bounded(
    p: Progress,
    rss: nat,
    fig: Figures,
    final_draw: bool,
    colour: bool,
)
    ensures
        1 <= panel(p, rss, fig, final_draw, colour).len() <= 21,
{
    lemma_section_heights(p, fig, final_draw, colour);
}

} // verus!

//! Reading the panel: which figures a user finds in it, and where.

use vstd::prelude::*;
use vstd::string::*;

use crate::reading;
use crate::scan;
use crate::sizes;
use crate::text;

use super::files;
use super::layout;
use super::panel;
use super::panel::{Eta, Figures};
use super::state::Progress;
use super::RunMode;

verus! {

/// A line taken apart at some digits.
pub open spec fn is_line(
    line: Seq<char>,
    front: Seq<char>,
    before: Seq<char>,
    digits: Seq<char>,
    after: Seq<char>,
    back: Seq<char>,
) -> bool {
    line == front + before + digits + after + back
}

/// A line shows a number between two texts.
pub open spec fn shows_number(
    line: Seq<char>,
    before: Seq<char>,
    n: nat,
    after: Seq<char>,
) -> bool {
    exists|front: Seq<char>, digits: Seq<char>, back: Seq<char>|
        {
            &&& #[trigger] is_line(line, front, before, digits, after, back)
            &&& digits.len() > 0
            &&& scan::all_digits(digits)
            &&& scan::digits_value(digits) == n
        }
}

/// A line ends with a text behind another.
pub open spec fn shows_last(line: Seq<char>, before: Seq<char>, s: Seq<char>) -> bool {
    reading::ends_with(line, before + s)
}

proof fn lemma_shows_number(
    line: Seq<char>,
    front: Seq<char>,
    before: Seq<char>,
    n: nat,
    after: Seq<char>,
    back: Seq<char>,
)
    requires
        line == front + before + text::decimal(n) + after + back,
    ensures
        shows_number(line, before, n, after),
{
    reading::law_decimals_read_back(n);
    assert(is_line(line, front, before, text::decimal(n), after, back));
}

proof fn lemma_shows_last(line: Seq<char>, front: Seq<char>, before: Seq<char>, s: Seq<char>)
    requires
        line == front + before + s,
    ensures
        shows_last(line, before, s),
{
    assert(line.skip(line.len() - (before + s).len()) =~= before + s);
}

/// The line on the files shows how many are complete, how many are under way, and
/// how many segments failed.
pub proof fn law_the_tally_shows_its_counts(p: Progress, colour: bool)
    ensures
        ({
            let line = panel::tally_text(p, colour);
            &&& shows_number(line, "✓"@, files::complete_files(p.files).len(), " ⤵"@)
            &&& shows_number(line, " ⤵"@, files::files_in_flight(p.files).len(), " · "@)
            &&& shows_number(line, "failures "@, p.failures, Seq::empty())
        }),
{
    reveal(panel::tally_text);
    reveal_strlit("files ✓");
    reveal_strlit("✓");
    reveal_strlit("files ");
    assert("files ✓"@ =~= "files "@ + "✓"@);
    let line = panel::tally_text(p, colour);
    let none = Seq::<char>::empty();
    let a = text::decimal(files::complete_files(p.files).len());
    let b = text::decimal(files::files_in_flight(p.files).len());
    let f = text::decimal(p.failures);
    let last = layout::coloured("failures "@ + f, "31"@, colour && p.failures > 0);
    let head = "files "@ + "✓"@ + a + " ⤵"@ + b + " · "@;
    assert(line == head + last);
    assert(line =~= "files "@ + "✓"@ + a + " ⤵"@ + (b + " · "@ + last));
    lemma_shows_number(
        line,
        "files "@,
        "✓"@,
        files::complete_files(p.files).len(),
        " ⤵"@,
        b + " · "@ + last,
    );
    assert(line =~= ("files "@ + "✓"@ + a) + " ⤵"@ + b + " · "@ + last);
    lemma_shows_number(
        line,
        "files "@ + "✓"@ + a,
        " ⤵"@,
        files::files_in_flight(p.files).len(),
        " · "@,
        last,
    );
    if colour && p.failures > 0 {
        let code = "\x1b["@ + "31"@ + "m"@;
        assert(line =~= (head + code) + "failures "@ + f + none + "\x1b[0m"@);
        lemma_shows_number(line, head + code, "failures "@, p.failures, none, "\x1b[0m"@);
    } else {
        assert(line =~= head + "failures "@ + f + none + none);
        lemma_shows_number(line, head, "failures "@, p.failures, none, none);
    }
}

/// A percentage stands behind a space or a bracket.
proof fn lemma_percent(percent: nat, front: Seq<char>, back: Seq<char>)
    ensures
        shows_number(front + "] "@ + panel::percent_text(percent) + back, " "@, percent, "%"@),
{
    reveal_strlit("] ");
    reveal_strlit(" ");
    reveal_strlit("]");
    assert("] "@ =~= "]"@ + " "@);
    let d = text::decimal(percent);
    let line = front + "] "@ + panel::percent_text(percent) + back;
    if d.len() >= 3 {
        assert(line =~= (front + "]"@) + " "@ + d + "%"@ + back);
        lemma_shows_number(line, front + "]"@, " "@, percent, "%"@, back);
    } else {
        let fill = text::repeated(' ', (3 - d.len()) as nat);
        let less = text::repeated(' ', (2 - d.len()) as nat);
        assert(fill =~= less + " "@);
        assert(line =~= (front + "] "@ + less) + " "@ + d + "%"@ + back);
        lemma_shows_number(line, front + "] "@ + less, " "@, percent, "%"@, back);
    }
}

/// The box of the run shows the share and the segments that are done, their bytes and
/// the rate, and the time that is left or was taken.
pub proof fn law_the_overall_box_shows_the_run(p: Progress, fig: Figures, final_draw: bool)
    ensures
        ({
            let lines = panel::overall_box(p, fig, final_draw);
            &&& lines.len() == 5
            &&& exists|first: Seq<char>, second: Seq<char>, third: Seq<char>|
                {
                    &&& #[trigger] are_boxed(lines, first, second, third)
                    &&& shows_number(first, " "@, fig.overall_percent as nat, "%"@)
                    &&& shows_number(first, "  "@, p.done_segments, "/"@)
                    &&& shows_number(first, "/"@, p.total_segments, " seg"@)
                    &&& scan::starts_with(
                        second,
                        sizes::size_text(p.done_bytes) + "/"@ + sizes::size_text(p.total_bytes)
                            + " · "@ + sizes::size_text(fig.rate as nat) + "/s"@,
                    )
                    &&& final_draw ==> third == "elapsed "@ + layout::duration_text(
                        fig.elapsed as nat,
                    )
                    &&& !final_draw ==> third == panel::eta_text(fig.eta)
                }
        }),
{
    reveal(panel::overall_box);
    let bar = layout::bar_of(fig.overall_eighths as nat, 26);
    let percent = panel::percent_text(fig.overall_percent as nat);
    let done = text::decimal(p.done_segments);
    let total = text::decimal(p.total_segments);
    let first = "["@ + bar + "] "@ + percent + "  "@ + done + "/"@ + total + " seg"@;
    let figures = sizes::size_text(p.done_bytes) + "/"@ + sizes::size_text(p.total_bytes) + " · "@
        + sizes::size_text(fig.rate as nat) + "/s"@;
    let spark = if fig.levels@.len() >= 2 {
        " "@ + layout::sparkline_of(fig.levels@)
    } else {
        ""@
    };
    let second = figures + spark;
    let third = if final_draw {
        "elapsed "@ + layout::duration_text(fig.elapsed as nat)
    } else {
        panel::eta_text(fig.eta)
    };
    let lines = panel::overall_box(p, fig, final_draw);
    assert(are_boxed(lines, first, second, third));
    lemma_overall_line(bar, fig.overall_percent as nat, p.done_segments, p.total_segments);
    assert(second.subrange(0, figures.len() as int) =~= figures);
}

proof fn lemma_overall_line(bar: Seq<char>, percent: nat, done: nat, total: nat)
    ensures
        ({
            let line = "["@ + bar + "] "@ + panel::percent_text(percent) + "  "@ + text::decimal(
                done,
            ) + "/"@ + text::decimal(total) + " seg"@;
            &&& shows_number(line, " "@, percent, "%"@)
            &&& shows_number(line, "  "@, done, "/"@)
            &&& shows_number(line, "/"@, total, " seg"@)
        }),
{
    let p = panel::percent_text(percent);
    let d = text::decimal(done);
    let t = text::decimal(total);
    let line = "["@ + bar + "] "@ + p + "  "@ + d + "/"@ + t + " seg"@;
    let none = Seq::<char>::empty();
    let back = "  "@ + d + "/"@ + t + " seg"@;
    assert(line =~= ("["@ + bar) + "] "@ + p + back);
    lemma_percent(percent, "["@ + bar, back);
    let front = "["@ + bar + "] "@ + p;
    assert(line =~= front + "  "@ + d + "/"@ + (t + " seg"@));
    lemma_shows_number(line, front, "  "@, done, "/"@, t + " seg"@);
    assert(line =~= (front + "  "@ + d) + "/"@ + t + " seg"@ + none);
    lemma_shows_number(line, front + "  "@ + d, "/"@, total, " seg"@, none);
}

/// Three lines of a box, below its top edge.
pub open spec fn are_boxed(
    lines: Seq<Seq<char>>,
    first: Seq<char>,
    second: Seq<char>,
    third: Seq<char>,
) -> bool {
    &&& lines[1] == layout::boxed(first)
    &&& lines[2] == layout::boxed(second)
    &&& lines[3] == layout::boxed(third)
}

/// Two lines of a box, below its top edge.
pub open spec fn are_both_boxed(
    lines: Seq<Seq<char>>,
    first: Seq<char>,
    second: Seq<char>,
) -> bool {
    &&& lines[1] == layout::boxed(first)
    &&& lines[2] == layout::boxed(second)
}

/// The box of an archive shows the share and the bytes that are written, the rate,
/// and the time that is left or was taken.
pub proof fn law_the_archive_box_shows_the_archive(p: Progress, fig: Figures, final_draw: bool)
    ensures
        ({
            let lines = panel::compress_box(p, fig, final_draw);
            &&& lines.len() == 4
            &&& exists|first: Seq<char>, second: Seq<char>|
                {
                    &&& #[trigger] are_both_boxed(lines, first, second)
                    &&& shows_number(first, " "@, fig.compress_percent as nat, "%"@)
                    &&& shows_last(
                        first,
                        "  "@,
                        sizes::size_text(p.compress_written) + "/"@ + sizes::size_text(
                            p.compress_total,
                        ),
                    )
                    &&& scan::starts_with(
                        second,
                        sizes::size_text(fig.compress_rate as nat) + "/s · "@,
                    )
                    &&& final_draw ==> shows_last(
                        second,
                        "elapsed "@,
                        layout::duration_text(fig.compress_elapsed as nat),
                    )
                    &&& !final_draw && fig.compress_eta is Some ==> shows_last(
                        second,
                        "ETA "@,
                        layout::duration_text(fig.compress_eta->0 as nat),
                    )
                }
        }),
{
    reveal(panel::compress_box);
    let bar = layout::bar_of(fig.compress_eighths as nat, 18);
    let percent = panel::percent_text(fig.compress_percent as nat);
    let ratio = sizes::size_text(p.compress_written) + "/"@ + sizes::size_text(p.compress_total);
    let first = "["@ + bar + "] "@ + percent + "  "@ + sizes::size_text(p.compress_written) + "/"@
        + sizes::size_text(p.compress_total);
    let rate = sizes::size_text(fig.compress_rate as nat) + "/s · "@;
    let time = if final_draw {
        "elapsed "@ + layout::duration_text(fig.compress_elapsed as nat)
    } else {
        match fig.compress_eta {
            Some(secs) => "ETA "@ + layout::duration_text(secs as nat),
            None => "ETA —"@,
        }
    };
    let second = rate + time;
    let lines = panel::compress_box(p, fig, final_draw);
    assert(are_both_boxed(lines, first, second));
    let front = "["@ + bar + "] "@ + percent;
    assert(first =~= ("["@ + bar) + "] "@ + percent + ("  "@ + ratio));
    lemma_percent(fig.compress_percent as nat, "["@ + bar, "  "@ + ratio);
    assert(first =~= front + "  "@ + ratio);
    lemma_shows_last(first, front, "  "@, ratio);
    assert(second.subrange(0, rate.len() as int) =~= rate);
    if final_draw {
        let d = layout::duration_text(fig.compress_elapsed as nat);
        assert(second =~= rate + "elapsed "@ + d);
        lemma_shows_last(second, rate, "elapsed "@, d);
    } else if fig.compress_eta is Some {
        let d = layout::duration_text(fig.compress_eta->0 as nat);
        assert(second =~= rate + "ETA "@ + d);
        lemma_shows_last(second, rate, "ETA "@, d);
    }
}

/// The line on the recovery slices shows how many are written, of how many, and the
/// time that is left or was taken.
pub proof fn law_the_recovery_line_shows_the_slices(p: Progress, fig: Figures, final_draw: bool)
    ensures
        ({
            let line = panel::par2_text(p, fig, final_draw);
            &&& shows_number(line, "] "@, p.par2_write_done, "/"@)
            &&& shows_number(line, "/"@, p.par2_write_total, " slices"@)
            &&& final_draw ==> shows_last(
                line,
                " · elapsed "@,
                layout::duration_text(fig.par2_elapsed as nat),
            )
            &&& !final_draw && fig.par2_eta is Some ==> shows_last(
                line,
                " · ETA "@,
                layout::duration_text(fig.par2_eta->0 as nat),
            )
            &&& !final_draw && fig.par2_eta is None ==> shows_last(
                line,
                " slices"@,
                Seq::empty(),
            )
        }),
{
    reveal(panel::par2_text);
    reveal_strlit("");
    let line = panel::par2_text(p, fig, final_draw);
    let bar = "▸ PAR2 ["@ + layout::bar_of(fig.par2_eighths as nat, 10);
    let done = text::decimal(p.par2_write_done);
    let total = text::decimal(p.par2_write_total);
    let time = if final_draw {
        " · elapsed "@ + layout::duration_text(fig.par2_elapsed as nat)
    } else {
        match fig.par2_eta {
            Some(secs) => " · ETA "@ + layout::duration_text(secs as nat),
            None => ""@,
        }
    };
    let front = bar + "] "@ + done + "/"@ + total + " slices"@;
    assert(line == front + time);
    assert(line =~= bar + "] "@ + done + "/"@ + (total + " slices"@ + time));
    lemma_shows_number(line, bar, "] "@, p.par2_write_done, "/"@, total + " slices"@ + time);
    assert(line =~= (bar + "] "@ + done) + "/"@ + total + " slices"@ + time);
    lemma_shows_number(line, bar + "] "@ + done, "/"@, p.par2_write_total, " slices"@, time);
    if final_draw {
        let d = layout::duration_text(fig.par2_elapsed as nat);
        assert(line =~= front + " · elapsed "@ + d);
        lemma_shows_last(line, front, " · elapsed "@, d);
    } else if fig.par2_eta is Some {
        let d = layout::duration_text(fig.par2_eta->0 as nat);
        assert(line =~= front + " · ETA "@ + d);
        lemma_shows_last(line, front, " · ETA "@, d);
    } else {
        let none = Seq::<char>::empty();
        let most = bar + "] "@ + done + "/"@ + total;
        assert(line =~= most + " slices"@ + none);
        lemma_shows_last(line, most, " slices"@, none);
    }
}

/// The line that stands for many connections shows how many there are, how many of
/// them post a file, and how many try again where any do.
pub proof fn law_the_summary_counts_the_connections(p: Progress, colour: bool)
    ensures
        ({
            let line = panel::connections_summary(p, colour);
            let retrying = panel::retrying_count(p.conn_state);
            &&& shows_number(line, Seq::empty(), p.conn_files.len(), " connections"@)
            &&& shows_number(line, " · "@, panel::active_count(p.conn_files), " active"@)
            &&& retrying > 0 ==> shows_last(
                line,
                layout::coloured(text::decimal(retrying), "31"@, colour),
                " retrying"@,
            )
            &&& retrying == 0 ==> shows_last(line, " active"@, Seq::empty())
        }),
{
    reveal(panel::connections_summary);
    reveal_strlit(" connections · ");
    reveal_strlit(" connections");
    reveal_strlit(" · ");
    reveal_strlit("");
    assert(" connections · "@ =~= " connections"@ + " · "@);
    let none = Seq::<char>::empty();
    let line = panel::connections_summary(p, colour);
    let n = text::decimal(p.conn_files.len());
    let a = text::decimal(panel::active_count(p.conn_files));
    let retrying = panel::retrying_count(p.conn_state);
    let r = layout::coloured(text::decimal(retrying), "31"@, colour);
    let last = if retrying > 0 {
        " · "@ + r + " retrying"@
    } else {
        ""@
    };
    assert(line == n + (" connections"@ + " · "@) + a + " active"@ + last);
    assert(line =~= none + none + n + " connections"@ + (" · "@ + a + " active"@ + last));
    lemma_shows_number(
        line,
        none,
        none,
        p.conn_files.len(),
        " connections"@,
        " · "@ + a + " active"@ + last,
    );
    assert(line =~= (n + " connections"@) + " · "@ + a + " active"@ + last);
    lemma_shows_number(
        line,
        n + " connections"@,
        " · "@,
        panel::active_count(p.conn_files),
        " active"@,
        last,
    );
    let most = n + " connections"@ + " · "@ + a;
    if retrying > 0 {
        assert(line =~= (most + " active"@ + " · "@) + r + " retrying"@);
        lemma_shows_last(line, most + " active"@ + " · "@, r, " retrying"@);
    } else {
        assert(line =~= most + " active"@ + none);
        lemma_shows_last(line, most, " active"@, none);
    }
}

/// Texts behind each other.
pub open spec fn concatenated(lines: Seq<Seq<char>>) -> Seq<char>
    decreases lines.len(),
{
    if lines.len() == 0 {
        Seq::empty()
    } else {
        concatenated(lines.drop_last()) + lines.last()
    }
}

/// The cells of the first `n` connections.
spec fn cells(p: Progress, colour: bool, n: nat) -> Seq<Seq<char>> {
    Seq::new(n, |i: int| panel::cell_of(p, i, colour))
}

proof fn lemma_rows(p: Progress, colour: bool, k: nat)
    requires
        k <= (p.conn_files.len() + 1) / 2,
    ensures
        concatenated(panel::grid(p, colour).take(k as int)) == concatenated(
            cells(
                p,
                colour,
                if 2 * k <= p.conn_files.len() {
                    2 * k
                } else {
                    p.conn_files.len()
                },
            ),
        ),
    decreases k,
{
    reveal(panel::grid);
    let g = panel::grid(p, colour);
    let n = p.conn_files.len();
    if k == 0 {
        assert(g.take(0) =~= cells(p, colour, 0));
    } else {
        lemma_rows(p, colour, (k - 1) as nat);
        let row = k - 1;
        assert(g.take(k as int).drop_last() =~= g.take(row));
        let before = cells(p, colour, (2 * row) as nat);
        let one = panel::cell_of(p, 2 * row, colour);
        let c1 = cells(p, colour, (2 * row + 1) as nat);
        assert(c1.drop_last() =~= before);
        assert(c1.last() == one);
        assert(g.take(k as int).last() == g[row]);
        assert(concatenated(g.take(k as int)) == concatenated(g.take(row)) + g[row]);
        assert(concatenated(c1) == concatenated(before) + one);
        if 2 * row + 1 < n {
            let two = panel::cell_of(p, 2 * row + 1, colour);
            let c2 = cells(p, colour, (2 * row + 2) as nat);
            assert(c2.drop_last() =~= c1);
            assert(c2.last() == two);
            assert(concatenated(c2) == concatenated(c1) + two);
            assert(g[row] == one + two);
            assert(concatenated(before) + (one + two) =~= concatenated(before) + one + two);
        }
    }
}

/// The grid lists every connection once, in order, two in a line.
pub proof fn law_the_grid_lists_every_connection(p: Progress, colour: bool)
    ensures
        concatenated(panel::grid(p, colour)) == concatenated(
            Seq::new(
                p.conn_files.len(),
                |i: int|
                    layout::cell_text(
                        i as nat,
                        p.conn_files[i],
                        panel::state_of(p, i),
                        colour,
                    ),
            ),
        ),
        2 * panel::grid(p, colour).len() <= p.conn_files.len() + 1,
        p.conn_files.len() <= 2 * panel::grid(p, colour).len(),
{
    reveal(panel::grid);
    let g = panel::grid(p, colour);
    let n = p.conn_files.len();
    lemma_rows(p, colour, g.len());
    assert(g.take(g.len() as int) =~= g);
    assert(cells(p, colour, n) =~= Seq::new(
        n,
        |i: int|
            layout::cell_text(i as nat, p.conn_files[i], panel::state_of(p, i), colour),
    ));
}

/// The first line of the panel says what is done, with how many files, and where to.
pub proof fn law_the_first_line_names_the_run(p: Progress)
    requires
        !(p.compress_active && p.files.len() == 0),
    ensures
        ({
            let line = panel::header_text(p);
            &&& shows_number(line, " "@, p.files.len(), " file(s)"@)
            &&& p.mode == RunMode::Post ==> scan::starts_with(line, "pesto · posting "@)
            &&& p.mode == RunMode::DryRun ==> scan::starts_with(line, "pesto · dry run "@)
            &&& p.mode == RunMode::Par2Only ==> scan::starts_with(line, "pesto · par2 "@)
            &&& p.target matches Some(t) ==> shows_last(line, " → "@, t)
            &&& p.target is None ==> shows_last(line, " file(s)"@, Seq::empty())
        }),
{
    reveal(panel::header_text);
    reveal_strlit("pesto · ");
    reveal_strlit("posting");
    reveal_strlit("dry run");
    reveal_strlit("par2");
    reveal_strlit(" ");
    reveal_strlit("");
    reveal_strlit("pesto · posting ");
    reveal_strlit("pesto · dry run ");
    reveal_strlit("pesto · par2 ");
    let none = Seq::<char>::empty();
    let line = panel::header_text(p);
    let word = match p.mode {
        RunMode::Post => "posting"@,
        RunMode::DryRun => "dry run"@,
        RunMode::Par2Only => "par2"@,
    };
    let n = text::decimal(p.files.len());
    let last = match p.target {
        Some(t) => " → "@ + t,
        None => ""@,
    };
    let front = "pesto · "@ + word;
    assert(line == front + " "@ + n + " file(s)"@ + last);
    lemma_shows_number(line, front, " "@, p.files.len(), " file(s)"@, last);
    let start = front + " "@;
    assert(line.subrange(0, start.len() as int) =~= start);
    assert("pesto · "@ + "posting"@ + " "@ =~= "pesto · posting "@);
    assert("pesto · "@ + "dry run"@ + " "@ =~= "pesto · dry run "@);
    assert("pesto · "@ + "par2"@ + " "@ =~= "pesto · par2 "@);
    match p.target {
        Some(t) => {
            assert(line =~= (front + " "@ + n + " file(s)"@) + " → "@ + t);
            lemma_shows_last(line, front + " "@ + n + " file(s)"@, " → "@, t);
        },
        None => {
            assert(line =~= (front + " "@ + n) + " file(s)"@ + none);
            lemma_shows_last(line, front + " "@ + n, " file(s)"@, none);
        },
    }
}

/// A time of arrival shows its seconds, or both ends of a range, and is marked
/// exactly where it varies much.
pub proof fn law_arrivals_show_their_time(eta: Eta)
    ensures
        match eta {
            Eta::Unknown => panel::eta_text(eta) == "ETA —"@,
            Eta::At { secs, unstable } => shows_last(
                panel::eta_text(eta),
                if unstable {
                    "ETA ~"@
                } else {
                    "ETA "@
                },
                layout::duration_text(secs as nat),
            ) && (!unstable ==> panel::eta_text(eta) == "ETA "@ + layout::duration_text(
                secs as nat,
            )),
            Eta::Between { low, high, unstable } => shows_last(
                panel::eta_text(eta),
                if unstable {
                    "ETA ~"@
                } else {
                    "ETA "@
                },
                layout::duration_text(low as nat) + "–"@ + layout::duration_text(high as nat),
            ),
        },
{
    reveal_strlit("ETA ");
    reveal_strlit("~");
    reveal_strlit("");
    reveal_strlit("ETA ~");
    let none = Seq::<char>::empty();
    assert("ETA "@ + "~"@ =~= "ETA ~"@);
    assert("ETA "@ + ""@ =~= "ETA "@);
    match eta {
        Eta::Unknown => {},
        Eta::At { secs, unstable } => {
            let d = layout::duration_text(secs as nat);
            let mark = "ETA "@ + panel::unstable_mark(unstable);
            assert(panel::eta_text(eta) =~= none + mark + d);
            lemma_shows_last(panel::eta_text(eta), none, mark, d);
        },
        Eta::Between { low, high, unstable } => {
            let d = layout::duration_text(low as nat) + "–"@ + layout::duration_text(high as nat);
            let mark = "ETA "@ + panel::unstable_mark(unstable);
            assert(panel::eta_text(eta) =~= none + mark + d);
            lemma_shows_last(panel::eta_text(eta), none, mark, d);
        },
    }
}

/// The line on the buffers shows how many are in use, of how many.
pub proof fn law_the_buffer_line_shows_its_counts(p: Progress, fig: Figures, colour: bool)
    requires
        p.buf_free <= p.buf_total,
    ensures
        ({
            let line = panel::buffer_text(p, fig, colour);
            &&& shows_number(line, "] "@, (p.buf_total - p.buf_free) as nat, "/"@)
            &&& shows_number(line, "/"@, p.buf_total, " used"@)
        }),
{
    reveal(panel::buffer_text);
    let line = panel::buffer_text(p, fig, colour);
    let bar = "buf ["@ + layout::bar_of(fig.buffer_eighths as nat, 10);
    let used = text::decimal((p.buf_total - p.buf_free) as nat);
    let total = text::decimal(p.buf_total);
    let (front, end) = if colour {
        ("\x1b["@ + "33"@ + "m"@, "\x1b[0m"@)
    } else {
        (Seq::<char>::empty(), Seq::<char>::empty())
    };
    assert(line =~= front + (bar + "] "@ + used + "/"@ + total + " used"@) + end);
    let back = total + " used"@ + end;
    assert(line =~= (front + bar) + "] "@ + used + "/"@ + back);
    lemma_shows_number(
        line,
        front + bar,
        "] "@,
        (p.buf_total - p.buf_free) as nat,
        "/"@,
        back,
    );
    let most = front + bar + "] "@ + used;
    assert(line =~= most + "/"@ + total + " used"@ + end);
    lemma_shows_number(line, most, "/"@, p.buf_total, " used"@, end);
}

/// The plain line shows what is under way: an archive, the recovery files, or the
/// segments; and in the end how many of them failed.
pub proof fn law_plain_lines_show_what_is_under_way(
    p: Progress,
    rate: nat,
    compress_rate: nat,
    elapsed: nat,
    final_draw: bool,
)
    ensures
        match panel::plain_text(p, rate, compress_rate, elapsed, final_draw) {
            None => !p.compress_active && !p.par2_write_active && p.files.len() == 0,
            Some(line) => if p.compress_active {
                line == "compressing: "@ + sizes::size_text(p.compress_written) + "/"@
                    + sizes::size_text(p.compress_total) + " · "@ + sizes::size_text(compress_rate)
                    + "/s"@
            } else if p.par2_write_active {
                &&& shows_number(line, "par2: "@, p.par2_write_done, "/"@)
                &&& shows_number(line, "/"@, p.par2_write_total, " slices"@)
            } else if final_draw {
                &&& shows_number(line, "done: "@, p.done_segments, "/"@)
                &&& shows_number(line, "/"@, p.total_segments, " segments"@)
                &&& shows_number(line, " · "@, p.failures, " failures"@)
                &&& shows_last(line, " · "@, layout::duration_text(elapsed))
            } else {
                &&& shows_number(line, "posting: "@, p.done_segments, "/"@)
                &&& shows_number(line, "/"@, p.total_segments, " segments"@)
                &&& shows_last(
                    line,
                    " · "@,
                    sizes::size_text(p.done_bytes) + " · "@ + sizes::size_text(rate) + "/s"@,
                )
            },
        },
{
    reveal_strlit(" segments · ");
    reveal_strlit(" failures · ");
    reveal_strlit(" segments");
    reveal_strlit(" failures");
    reveal_strlit(" · ");
    assert(" segments · "@ =~= " segments"@ + " · "@);
    assert(" failures · "@ =~= " failures"@ + " · "@);
    let none = Seq::<char>::empty();
    if let Some(line) = panel::plain_text(p, rate, compress_rate, elapsed, final_draw) {
        if p.compress_active {
        } else if p.par2_write_active {
            let a = text::decimal(p.par2_write_done);
            let b = text::decimal(p.par2_write_total);
            assert(line =~= none + "par2: "@ + a + "/"@ + (b + " slices"@));
            lemma_shows_number(line, none, "par2: "@, p.par2_write_done, "/"@, b + " slices"@);
            assert(line =~= ("par2: "@ + a) + "/"@ + b + " slices"@ + none);
            lemma_shows_number(line, "par2: "@ + a, "/"@, p.par2_write_total, " slices"@, none);
        } else if final_draw {
            lemma_last_plain_line(p, elapsed, line);
        } else {
            lemma_plain_line(p, rate, line);
        }
    }
}

proof fn lemma_plain_line(p: Progress, rate: nat, line: Seq<char>)
    requires
        line == "posting: "@ + text::decimal(p.done_segments) + "/"@ + text::decimal(
            p.total_segments,
        ) + (" segments"@ + " · "@) + sizes::size_text(p.done_bytes) + " · "@ + sizes::size_text(
            rate,
        ) + "/s"@,
    ensures
        shows_number(line, "posting: "@, p.done_segments, "/"@),
        shows_number(line, "/"@, p.total_segments, " segments"@),
        shows_last(
            line,
            " · "@,
            sizes::size_text(p.done_bytes) + " · "@ + sizes::size_text(rate) + "/s"@,
        ),
{
    let none = Seq::<char>::empty();
    let a = text::decimal(p.done_segments);
    let b = text::decimal(p.total_segments);
    let figures = sizes::size_text(p.done_bytes) + " · "@ + sizes::size_text(rate) + "/s"@;
    let back = b + " segments"@ + " · "@ + figures;
    assert(line =~= none + "posting: "@ + a + "/"@ + back);
    lemma_shows_number(line, none, "posting: "@, p.done_segments, "/"@, back);
    assert(line =~= ("posting: "@ + a) + "/"@ + b + " segments"@ + (" · "@ + figures));
    lemma_shows_number(
        line,
        "posting: "@ + a,
        "/"@,
        p.total_segments,
        " segments"@,
        " · "@ + figures,
    );
    let most = "posting: "@ + a + "/"@ + b + " segments"@;
    assert(line =~= most + " · "@ + figures);
    lemma_shows_last(line, most, " · "@, figures);
}

proof fn lemma_last_plain_line(p: Progress, elapsed: nat, line: Seq<char>)
    requires
        line == "done: "@ + text::decimal(p.done_segments) + "/"@ + text::decimal(
            p.total_segments,
        ) + (" segments"@ + " · "@) + sizes::size_text(p.done_bytes) + " · "@ + text::decimal(
            p.failures,
        ) + (" failures"@ + " · "@) + layout::duration_text(elapsed),
    ensures
        shows_number(line, "done: "@, p.done_segments, "/"@),
        shows_number(line, "/"@, p.total_segments, " segments"@),
        shows_number(line, " · "@, p.failures, " failures"@),
        shows_last(line, " · "@, layout::duration_text(elapsed)),
{
    let none = Seq::<char>::empty();
    let a = text::decimal(p.done_segments);
    let b = text::decimal(p.total_segments);
    let c = text::decimal(p.failures);
    let bytes = sizes::size_text(p.done_bytes);
    let d = layout::duration_text(elapsed);
    let tail = " · "@ + bytes + " · "@ + c + " failures"@ + " · "@ + d;
    assert(line =~= none + "done: "@ + a + "/"@ + (b + " segments"@ + tail));
    lemma_shows_number(line, none, "done: "@, p.done_segments, "/"@, b + " segments"@ + tail);
    assert(line =~= ("done: "@ + a) + "/"@ + b + " segments"@ + tail);
    lemma_shows_number(line, "done: "@ + a, "/"@, p.total_segments, " segments"@, tail);
    let front = "done: "@ + a + "/"@ + b + " segments"@ + " · "@ + bytes;
    assert(line =~= front + " · "@ + c + " failures"@ + (" · "@ + d));
    lemma_shows_number(line, front, " · "@, p.failures, " failures"@, " · "@ + d);
    let most = front + " · "@ + c + " failures"@;
    assert(line =~= most + " · "@ + d);
    lemma_shows_last(line, most, " · "@, d);
}

} // verus!

//! Progress: the view of a run, the panel and the JSON lines.

use pesto::progress::format_size;
use pesto::progress::layout::{
    ansi, box_line, conn_cell, format_duration, pad, render_bar, render_sparkline, truncate, BODY_W,
};
use pesto::progress::lines::EmitterTotals;
use pesto::progress::panel::{Eta, Figures};
use pesto::progress::process::{parse_cpu_ticks, parse_resident_kib};
use pesto::progress::state::{RenderState, SpeedHistory};
use pesto::progress::{ConnState, FileEntry, ProgressEvent, RendererOptions, RunMode};

/// Eighths of a cell that a share of a bar fills.
fn eighths(frac: f64, width: usize) -> usize {
    (frac.clamp(0.0, 1.0) * width as f64 * 8.0).round() as usize
}

/// Heights of the columns of a sparkline.
fn levels(samples: &[f64]) -> Vec<usize> {
    let max = samples.iter().cloned().fold(0.0_f64, f64::max);
    samples
        .iter()
        .map(|&v| ((v / max) * 8.0).round() as usize)
        .collect()
}

#[test]
fn format_size_uses_binary_units() {
    assert_eq!(format_size(512), "512 B");
    assert_eq!(format_size(1024), "1.0 KiB");
    assert_eq!(format_size(1024 * 1024), "1.0 MiB");
}

#[test]
fn format_size_rounds_as_double_precision_does() {
    for bytes in [
        1023u64,
        1075,
        1126,
        1_048_575,
        1_572_864,
        5_368_709_120,
        123_456_789_012,
        u64::MAX,
    ] {
        let (mut value, mut unit) = (bytes as f64, 0);
        while value >= 1024.0 && unit < 3 {
            value /= 1024.0;
            unit += 1;
        }
        let expected = if unit == 0 {
            format!("{bytes} B")
        } else {
            format!("{value:.1} {}", ["B", "KiB", "MiB", "GiB"][unit])
        };
        assert_eq!(format_size(bytes), expected);
    }
}

#[test]
fn format_duration_splits_minutes_and_hours() {
    assert_eq!(format_duration(5), "0:05");
    assert_eq!(format_duration(125), "2:05");
    assert_eq!(format_duration(3661), "1:01:01");
}

#[test]
fn render_bar_is_proportional() {
    assert_eq!(render_bar(eighths(0.0, 4), 4), "░░░░");
    assert_eq!(render_bar(eighths(1.0, 4), 4), "████");
    // 0.5 of 4 cells = 2 full blocks exactly (no fractional remainder)
    assert_eq!(render_bar(eighths(0.5, 4), 4), "██░░");
    // Sub-character: 0.125 of 8 cells = 1 eighth → ▏ then 7 empty
    assert_eq!(render_bar(eighths(0.125 / 8.0, 8), 8), "▏░░░░░░░");
    // Ensure visual width equals `width` (each char is one column)
    assert_eq!(render_bar(eighths(0.3, 10), 10).chars().count(), 10);
}

#[test]
fn render_bar_uses_every_block() {
    let bars: String = (0..=8).map(|e| render_bar(e, 1)).collect();
    assert_eq!(bars, "░▏▎▍▌▋▊▉█");
    assert_eq!(render_bar(99, 2), "██");
    assert_eq!(render_bar(3, 0), "");
}

#[test]
fn render_sparkline_maps_to_nine_levels() {
    let samples = vec![0.0, 50.0, 100.0];
    let spark = render_sparkline(&levels(&samples));
    let chars: Vec<char> = spark.chars().collect();
    assert_eq!(chars.len(), 3);
    assert_eq!(chars[0], ' '); // min → space
    assert_eq!(chars[2], '█'); // max → full block
    assert_eq!(render_sparkline(&[0, 1, 2, 3, 4, 5, 6, 7, 8]), " ▁▂▃▄▅▆▇█");
}

#[test]
fn truncate_marks_the_cut() {
    assert_eq!(truncate("short", 10), "short");
    assert_eq!(truncate("a-very-long-name", 8), "a-very-…");
}

#[test]
fn box_line_is_exact_width() {
    let line = box_line("hello");
    // `│ ` + BODY_W chars + ` │`
    assert_eq!(line.chars().count(), BODY_W + 4);
    assert_eq!(box_line(&"x".repeat(99)).chars().count(), BODY_W + 4);
    assert_eq!(pad("é", 3), "é  ");
    assert_eq!(pad("é", 0), "");
    assert_eq!(pad("", 0), "");
    assert_eq!(truncate("é", 0), "");
    assert_eq!(truncate("abc", 1), "…");
}

#[test]
fn cells_are_coloured_by_state() {
    assert_eq!(ansi("x", "31", true), "\x1b[31mx\x1b[0m");
    assert_eq!(ansi("x", "31", false), "x");
    let file = Some("a-rather-long-name.bin".to_string());
    assert_eq!(
        conn_cell(0, &file, ConnState::Busy, false),
        "conn 1  ▸ a-rather-long…  "
    );
    assert_eq!(
        conn_cell(11, &None, ConnState::Idle, true),
        format!("\x1b[2mconn 12 ▸ idle\x1b[0m{}", " ".repeat(12))
    );
    assert!(conn_cell(0, &file, ConnState::Auth, true).starts_with("\x1b[33m"));
    assert!(conn_cell(0, &file, ConnState::Retrying, true).starts_with("\x1b[31m"));
    assert!(conn_cell(0, &file, ConnState::Busy, true).starts_with("\x1b[32m"));
}

#[test]
fn file_tally_counts_done_and_in_flight() {
    let mut st = RenderState::new(0);
    st.files.insert("a".into(), (10, 10));
    st.files.insert("b".into(), (3, 10));
    st.files.insert("c".into(), (0, 10));
    assert_eq!(st.file_tally(), (1, 1));
}

fn started(connections: usize) -> ProgressEvent {
    ProgressEvent::Started {
        mode: RunMode::Post,
        files: vec![FileEntry {
            name: "a".into(),
            segments: 2,
            bytes: 100,
        }],
        connections,
        target: Some("host:563".into()),
    }
}

fn done(bytes: u64, ok: bool) -> ProgressEvent {
    ProgressEvent::SegmentDone {
        file: "a".into(),
        bytes,
        ok,
    }
}

#[test]
fn segment_done_updates_totals_and_failures() {
    let mut st = RenderState::new(0);
    st.apply(
        ProgressEvent::Started {
            mode: RunMode::Post,
            files: vec![FileEntry {
                name: "a".into(),
                segments: 2,
                bytes: 100,
            }],
            connections: 1,
            target: None,
        },
        1,
    );
    st.apply(
        ProgressEvent::SegmentDone {
            file: "a".into(),
            bytes: 60,
            ok: true,
        },
        2,
    );
    st.apply(
        ProgressEvent::SegmentDone {
            file: "a".into(),
            bytes: 40,
            ok: false,
        },
        3,
    );
    assert_eq!(st.done_segments, 2);
    assert_eq!(st.done_bytes, 100);
    assert_eq!(st.failures, 1);
    assert_eq!(st.file_tally(), (1, 0));
}

#[test]
fn events_change_the_view() {
    let mut st = RenderState::new(5);
    assert!(!st.started);
    st.apply(started(2), 10);
    assert!(st.started);
    assert_eq!(st.start, 10);
    assert_eq!(st.conn_state, [ConnState::Idle, ConnState::Idle]);
    st.apply(
        ProgressEvent::ConnectionBusy {
            conn: 1,
            file: "a".into(),
        },
        11,
    );
    assert_eq!(st.conn_files[1].as_deref(), Some("a"));
    assert_eq!(st.conn_state[1], ConnState::Busy);
    st.apply(ProgressEvent::ConnectionRetrying { conn: 1 }, 12);
    assert_eq!(st.conn_state[1], ConnState::Retrying);
    st.apply(ProgressEvent::ConnectionAuth { conn: 0 }, 12);
    assert_eq!(st.conn_state[0], ConnState::Auth);
    // A connection that does not exist changes nothing.
    st.apply(ProgressEvent::ConnectionIdle { conn: 7 }, 12);
    st.apply(ProgressEvent::ConnectionIdle { conn: 1 }, 13);
    assert_eq!(st.conn_files[1], None);
    st.apply(
        ProgressEvent::QueueExtended {
            file: "a.par2".into(),
            segments: 3,
            bytes: 30,
        },
        14,
    );
    assert_eq!((st.total_segments, st.total_bytes), (5, 130));
    assert_eq!(st.files.get(&"a.par2".to_string()), Some((0, 3)));
    assert_eq!(st.files.len(), 2);
    st.apply(ProgressEvent::BufferPoolStats { total: 9, free: 2 }, 15);
    assert_eq!((st.buf_total, st.buf_free), (9, 2));
    st.apply(ProgressEvent::Failed { description: "x".into() }, 15);
    st.apply(ProgressEvent::Interrupted, 16);
    st.apply(ProgressEvent::Finished, 17);
    assert!(st.interrupted && st.finished);
}

#[test]
fn a_status_keeps_its_time() {
    let mut st = RenderState::new(0);
    let status = |text: &str| ProgressEvent::Status { text: text.into() };
    st.apply(status("one"), 10);
    st.apply(status("one"), 20);
    assert_eq!(st.status_since, Some(10));
    st.apply(status("two"), 30);
    assert_eq!(st.status_since, Some(30));
    st.apply(status(""), 40);
    assert_eq!(st.status_since, None);
    assert_eq!(st.status, "");
}

#[test]
fn phases_open_and_close() {
    let mut st = RenderState::new(0);
    st.apply(ProgressEvent::CompressStarted { total_bytes: 100 }, 1);
    st.apply(ProgressEvent::CompressProgress { bytes_written: 40 }, 2);
    assert!(st.compress_active && st.started);
    assert_eq!(st.compress_written, 40);
    st.apply(ProgressEvent::CompressDone, 3);
    assert!(!st.compress_active);
    assert_eq!(st.compress_written, 100);
    st.apply(ProgressEvent::Par2WriteStarted { total: 2 }, 4);
    st.apply(ProgressEvent::Par2SliceWritten, 5);
    assert!(st.par2_write_active);
    st.apply(ProgressEvent::Par2SliceWritten, 6);
    assert!(!st.par2_write_active);
    assert_eq!(st.par2_write_done, 2);
}

#[test]
fn counters_do_not_overflow() {
    let mut st = RenderState::new(0);
    assert!(st.has_room_for(&done(1, true)));
    st.done_bytes = u64::MAX;
    assert!(!st.has_room_for(&done(1, true)));
    assert!(st.has_room_for(&done(0, true)));
    st.total_segments = u64::MAX - 1;
    assert!(!st.has_room_for(&started(1)));
    let mut totals = EmitterTotals::new();
    assert!(totals.has_room_for(&started(1)));
    totals.total_bytes = u64::MAX - 99;
    assert!(!totals.has_room_for(&started(1)));
}

#[test]
fn the_last_ten_speeds_are_kept() {
    let mut history = SpeedHistory::new();
    assert!(history.samples().is_empty());
    for v in 1..=13 {
        history.push(v);
    }
    assert_eq!(history.samples(), (4..=13).collect::<Vec<u64>>());
    let mut st = RenderState::new(0);
    st.record_tick(false);
    st.done_bytes = 70;
    st.record_tick(false);
    st.done_bytes = 100;
    st.record_tick(true);
    st.done_bytes = 150;
    st.record_tick(false);
    assert_eq!(st.speed_history.samples(), [70, 50]);
}

fn figures() -> Figures {
    Figures {
        compress_eighths: 72,
        compress_percent: 50,
        compress_rate: 1024,
        compress_elapsed: 9,
        compress_eta: Some(61),
        overall_eighths: 104,
        overall_percent: 50,
        rate: 2048,
        levels: vec![0, 8],
        elapsed: 75,
        eta: Eta::Between {
            low: 60,
            high: 90,
            unstable: true,
        },
        buffer_eighths: 70,
        par2_eighths: 40,
        par2_elapsed: 3,
        par2_eta: None,
        cpu: "12.5".into(),
        status_elapsed: 4,
    }
}

#[test]
fn the_panel_is_exact() {
    let mut st = RenderState::new(0);
    assert_eq!(st.draw_panel(&figures(), false, false), None);
    st.apply(started(1), 1);
    st.apply(done(50, false), 2);
    st.apply(ProgressEvent::Status { text: "busy".into() }, 3);
    let lines = st.panel_lines(&figures(), false, false);
    assert_eq!(
        lines,
        [
            "pesto · posting 1 file(s) → host:563".to_string(),
            format!("┌─ overall {}┐", "─".repeat(48)),
            box_line("[█████████████░░░░░░░░░░░░░]  50%  1/2 seg"),
            box_line("50 B/100 B · 2.0 KiB/s  █"),
            box_line("ETA ~1:00–1:30"),
            format!("└{}┘", "─".repeat(58)),
            "conn 1  ▸ idle            ".to_string(),
            "files ✓0 ⤵1 · failures 1".to_string(),
            "▸ busy · 0:04".to_string(),
        ]
    );
    let drawn = st.draw_panel(&figures(), false, false).unwrap();
    assert_eq!(drawn, format!("\x1b[0J{}\n", lines.join("\n")));
    assert!(st.draw_panel(&figures(), false, false).unwrap().starts_with("\x1b[9F\x1b[0J"));
}

#[test]
fn the_panel_shows_what_is_under_way() {
    let mut st = RenderState::new(0);
    st.apply(ProgressEvent::CompressStarted { total_bytes: 2048 }, 1);
    st.apply(ProgressEvent::CompressProgress { bytes_written: 1024 }, 2);
    assert_eq!(
        st.panel_lines(&figures(), false, false),
        [
            "pesto · compressing".to_string(),
            format!("┌─ compressing {}┐", "─".repeat(44)),
            box_line("[█████████░░░░░░░░░]  50%  1.0 KiB/2.0 KiB"),
            box_line("1.0 KiB/s · ETA 1:01"),
            format!("└{}┘", "─".repeat(58)),
        ]
    );
    st.apply(ProgressEvent::CompressDone, 3);
    st.apply(started(13), 4);
    st.apply(ProgressEvent::ConnectionRetrying { conn: 2 }, 4);
    st.apply(ProgressEvent::BufferPoolStats { total: 8, free: 1 }, 4);
    st.apply(ProgressEvent::Par2WriteStarted { total: 4 }, 4);
    st.apply(ProgressEvent::Interrupted, 4);
    st.proc_rss_bytes = 3 << 20;
    let lines = st.panel_lines(&figures(), true, true);
    assert_eq!(lines[4], box_line("elapsed 1:15"));
    assert_eq!(lines[6], "13 connections · 0 active · \x1b[31m1\x1b[0m retrying");
    assert_eq!(lines[7], "files ✓0 ⤵0 · failures 0");
    assert_eq!(lines[8], "\x1b[33mbuf [████████▊░] 7/8 used\x1b[0m");
    assert_eq!(lines[9], "▸ PAR2 [█████░░░░░] 0/4 slices · elapsed 0:03");
    assert_eq!(lines[10], "\x1b[2mprocess  ram 3.0 MiB  cpu 12.5%\x1b[0m");
    assert_eq!(lines[11], "⚠ interrupt received — finishing in-flight segments");
    assert_eq!(lines.len(), 12);
}

#[test]
fn the_quiet_line_spins() {
    let mut st = RenderState::new(0);
    assert_eq!(st.draw_quiet(0, 0, Eta::Unknown, false), None);
    st.apply(started(1), 1);
    assert_eq!(st.draw_quiet(7, 0, Eta::Unknown, false).unwrap(), "⠋    7% · ETA —\n");
    let eta = Eta::At {
        secs: 65,
        unstable: false,
    };
    assert_eq!(
        st.draw_quiet(50, 0, eta, false).unwrap(),
        "\x1b[1F\x1b[2K⠙   50% · ETA 1:05\n"
    );
    assert_eq!(
        st.draw_quiet(100, 12, eta, true).unwrap(),
        "\x1b[1F\x1b[2K✓  100% · done 0:12\n"
    );
}

#[test]
fn plain_lines_come_every_tenth_tick() {
    let mut st = RenderState::new(0);
    st.apply(started(1), 1);
    st.apply(done(50, true), 2);
    for _ in 0..9 {
        assert_eq!(st.draw_plain(1024, 0, 0, false), None);
    }
    assert_eq!(
        st.draw_plain(1024, 0, 0, false).unwrap(),
        "posting: 1/2 segments · 50 B · 1.0 KiB/s"
    );
    assert_eq!(
        st.draw_plain(1024, 0, 61, true).unwrap(),
        "done: 1/2 segments · 50 B · 0 failures · 1:01"
    );
    st.apply(ProgressEvent::Par2WriteStarted { total: 4 }, 3);
    assert_eq!(st.draw_plain(0, 0, 0, true).unwrap(), "par2: 0/4 slices");
    st.apply(ProgressEvent::CompressStarted { total_bytes: 2048 }, 4);
    assert_eq!(
        st.draw_plain(0, 512, 0, true).unwrap(),
        "compressing: 0 B/2.0 KiB · 512 B/s"
    );
}

#[test]
fn json_lines_are_exact() {
    let mut totals = EmitterTotals::new();
    let mut line = |ev: ProgressEvent, percent: &str| {
        assert!(totals.has_room_for(&ev));
        totals.count(&ev);
        totals.line(&ev, percent)
    };
    assert_eq!(
        line(started(3), "").unwrap(),
        r#"{"type":"started","total_files":1,"total_bytes":100,"total_segments":2,"connections":3,"target":"host:563"}"#
    );
    assert_eq!(
        line(done(60, false), "50.0").unwrap(),
        r#"{"type":"segment_done","file":"a","bytes":60,"ok":false,"done_segments":1,"total_segments":2,"done_bytes":60,"total_bytes":100,"progress_pct":50.0}"#
    );
    assert_eq!(
        line(
            ProgressEvent::QueueExtended {
                file: "q\"".into(),
                segments: 1,
                bytes: 5
            },
            ""
        )
        .unwrap(),
        r#"{"type":"queue_extended","file":"q\"","segments":1,"bytes":5,"total_segments":3,"total_bytes":105}"#
    );
    assert_eq!(
        line(ProgressEvent::Status { text: "a\\\"".into() }, "").unwrap(),
        r#"{"type":"status","text":"a\\\""}"#
    );
    assert_eq!(
        line(ProgressEvent::Failed { description: "d".into() }, "").unwrap(),
        r#"{"type":"failed","description":"d"}"#
    );
    assert_eq!(line(ProgressEvent::Interrupted, "").unwrap(), r#"{"type":"interrupted"}"#);
    assert_eq!(
        line(ProgressEvent::CompressStarted { total_bytes: 9 }, "").unwrap(),
        r#"{"type":"compress_started","total_bytes":9}"#
    );
    assert_eq!(
        line(ProgressEvent::CompressProgress { bytes_written: 4 }, "").unwrap(),
        r#"{"type":"compress_progress","bytes_written":4}"#
    );
    assert_eq!(line(ProgressEvent::CompressDone, "").unwrap(), r#"{"type":"compress_done"}"#);
    assert_eq!(
        line(ProgressEvent::Par2WriteStarted { total: 7 }, "").unwrap(),
        r#"{"type":"par2_write_started","total":7}"#
    );
    assert_eq!(
        line(ProgressEvent::Par2SliceWritten, "").unwrap(),
        r#"{"type":"par2_slice_written"}"#
    );
    assert_eq!(line(ProgressEvent::ConnectionIdle { conn: 0 }, ""), None);
    assert_eq!(
        totals.finished_line("33.3"),
        r#"{"type":"finished","segments":1,"failures":1,"progress_pct":33.3,"ok":false}"#
    );
}

#[test]
fn process_figures_are_read() {
    let status = "Name:\tpesto\nVmPeak:\t  9 kB\nVmRSS:\t   1234 kB\nVmRSS:\t1 kB\n";
    assert_eq!(parse_resident_kib(status), Some(1234));
    assert_eq!(parse_resident_kib("VmRSS: x kB\n"), None);
    assert_eq!(parse_resident_kib(""), None);
    let stat = "42 (a (b) c) S 1 2 3 4 5 6 7 8 9 10 77 88 0 0";
    assert_eq!(parse_cpu_ticks(stat), Some((77, 88)));
    assert_eq!(parse_cpu_ticks("1 (a) S 1 2"), None);
    assert_eq!(parse_cpu_ticks(""), None);
}

#[test]
fn nothing_is_quiet_or_rings_by_default() {
    let opts = RendererOptions::default();
    assert!(!opts.quiet && !opts.bell);
}

#[test]
fn json_lines_take_one_line() {
    let mut totals = EmitterTotals::new();
    let ev = ProgressEvent::QueueExtended {
        file: "a\\b\nc\td\u{1}".into(),
        segments: 1,
        bytes: 5,
    };
    assert!(totals.has_room_for(&ev));
    totals.count(&ev);
    assert_eq!(
        totals.line(&ev, "").unwrap(),
        r#"{"type":"queue_extended","file":"a\\b\nc\td\u0001","segments":1,"bytes":5,"total_segments":1,"total_bytes":5}"#
    );
    let failed = ProgressEvent::Failed {
        description: "x\ny".into(),
    };
    assert_eq!(
        totals.line(&failed, "").unwrap(),
        r#"{"type":"failed","description":"x\ny"}"#
    );
}

//! Progress as JSON: one object per line for machine-readable consumers.

use vstd::prelude::*;
use vstd::string::*;

use crate::json;
use crate::text;

use super::state;
use super::ProgressEvent;

verus! {

/// What the emitter has counted.
#[derive(Debug, Clone, Copy, PartialEq, Eq, Structural)]
pub struct EmitterTotals {
    pub total_segments: u64,
    pub total_bytes: u64,
    pub done_segments: u64,
    pub done_bytes: u64,
    pub failures: u64,
}

/// The totals after one more event.
pub open spec fn totals_after(t: EmitterTotals, ev: ProgressEvent) -> EmitterTotals {
    match ev {
        ProgressEvent::Started { files, .. } => EmitterTotals {
            total_segments: (t.total_segments + state::segments_of(files@)) as u64,
            total_bytes: (t.total_bytes + state::bytes_of(files@)) as u64,
            ..t
        },
        ProgressEvent::SegmentDone { bytes, ok, .. } => EmitterTotals {
            done_segments: (t.done_segments + 1) as u64,
            done_bytes: (t.done_bytes + bytes) as u64,
            failures: if ok {
                t.failures
            } else {
                (t.failures + 1) as u64
            },
            ..t
        },
        ProgressEvent::QueueExtended { segments, bytes, .. } => EmitterTotals {
            total_segments: (t.total_segments + segments) as u64,
            total_bytes: (t.total_bytes + bytes) as u64,
            ..t
        },
        _ => t,
    }
}

/// No total overflows on the event.
pub open spec fn totals_fit(t: EmitterTotals, ev: ProgressEvent) -> bool {
    match ev {
        ProgressEvent::Started { files, .. } => {
            &&& t.total_segments + state::segments_of(files@) <= u64::MAX
            &&& t.total_bytes + state::bytes_of(files@) <= u64::MAX
        },
        ProgressEvent::SegmentDone { bytes, ok, .. } => {
            &&& t.done_segments < u64::MAX
            &&& t.done_bytes + bytes <= u64::MAX
            &&& !ok ==> t.failures < u64::MAX
        },
        ProgressEvent::QueueExtended { segments, bytes, .. } => {
            &&& t.total_segments + segments <= u64::MAX
            &&& t.total_bytes + bytes <= u64::MAX
        },
        _ => true,
    }
}

/// The line of an event, given the totals with the event counted and the share
/// that is done, in percent with one decimal. Events on connections and
/// buffers, and the end, have none.
pub open spec fn event_text(t: EmitterTotals, ev: ProgressEvent, percent: Seq<char>) -> Option<
    Seq<char>,
> {
    match ev {
        ProgressEvent::Started { files, connections, target, .. } => Some(
            "{\"type\":\"started\",\"total_files\":"@ + text::decimal(files@.len())
                + ",\"total_bytes\":"@ + text::decimal(t.total_bytes as nat)
                + ",\"total_segments\":"@ + text::decimal(t.total_segments as nat)
                + ",\"connections\":"@ + text::decimal(connections as nat) + ",\"target\":"@
                + match target {
                Some(s) => json::json_quoted(s@),
                None => "null"@,
            } + "}"@,
        ),
        ProgressEvent::SegmentDone { file, bytes, ok } => Some(
            "{\"type\":\"segment_done\",\"file\":\""@ + json::json_escaped(file@) + "\",\"bytes\":"@
                + text::decimal(bytes as nat) + ",\"ok\":"@ + json::bool_text(ok)
                + ",\"done_segments\":"@ + text::decimal(t.done_segments as nat)
                + ",\"total_segments\":"@ + text::decimal(t.total_segments as nat)
                + ",\"done_bytes\":"@ + text::decimal(t.done_bytes as nat) + ",\"total_bytes\":"@
                + text::decimal(t.total_bytes as nat) + ",\"progress_pct\":"@ + percent + "}"@,
        ),
        ProgressEvent::QueueExtended { file, segments, bytes } => Some(
            "{\"type\":\"queue_extended\",\"file\":\""@ + json::json_escaped(file@)
                + "\",\"segments\":"@ + text::decimal(segments as nat) + ",\"bytes\":"@
                + text::decimal(bytes as nat) + ",\"total_segments\":"@ + text::decimal(
                t.total_segments as nat,
            ) + ",\"total_bytes\":"@ + text::decimal(t.total_bytes as nat) + "}"@,
        ),
        ProgressEvent::Status { text } => Some(
            "{\"type\":\"status\",\"text\":\""@ + json::json_escaped(text@) + "\"}"@,
        ),
        ProgressEvent::Failed { description } => Some(
            "{\"type\":\"failed\",\"description\":\""@ + json::json_escaped(description@) + "\"}"@,
        ),
        ProgressEvent::Interrupted => Some("{\"type\":\"interrupted\"}"@),
        ProgressEvent::CompressStarted { total_bytes } => Some(
            "{\"type\":\"compress_started\",\"total_bytes\":"@ + text::decimal(total_bytes as nat)
                + "}"@,
        ),
        ProgressEvent::CompressProgress { bytes_written } => Some(
            "{\"type\":\"compress_progress\",\"bytes_written\":"@ + text::decimal(
                bytes_written as nat,
            ) + "}"@,
        ),
        ProgressEvent::CompressDone => Some("{\"type\":\"compress_done\"}"@),
        ProgressEvent::Par2WriteStarted { total } => Some(
            "{\"type\":\"par2_write_started\",\"total\":"@ + text::decimal(total as nat) + "}"@,
        ),
        ProgressEvent::Par2SliceWritten => Some("{\"type\":\"par2_slice_written\"}"@),
        _ => None,
    }
}

/// The line of the end. The run went well exactly when nothing failed.
pub open spec fn finished_text(t: EmitterTotals, percent: Seq<char>) -> Seq<char> {
    "{\"type\":\"finished\",\"segments\":"@ + text::decimal(t.done_segments as nat)
        + ",\"failures\":"@ + text::decimal(t.failures as nat) + ",\"progress_pct\":"@ + percent
        + ",\"ok\":"@ + json::bool_text(t.failures == 0) + "}"@
}

impl EmitterTotals {
    /// Nothing counted.
    pub fn new() -> (t: EmitterTotals)
        ensures
            t == (EmitterTotals {
                total_segments: 0,
                total_bytes: 0,
                done_segments: 0,
                done_bytes: 0,
                failures: 0,
            }),
    {
        EmitterTotals {
            total_segments: 0,
            total_bytes: 0,
            done_segments: 0,
            done_bytes: 0,
            failures: 0,
        }
    }

    /// Whether no total overflows on the event.
    pub fn has_room_for(&self, ev: &ProgressEvent) -> (r: bool)
        ensures
            r == totals_fit(*self, *ev),
    {
        match ev {
            ProgressEvent::Started { files, .. } => {
                match state::sums(files.as_slice()) {
                    Some((segments, bytes)) => segments <= u64::MAX - self.total_segments && bytes
                        <= u64::MAX - self.total_bytes,
                    None => false,
                }
            },
            ProgressEvent::SegmentDone { bytes, ok, .. } => {
                self.done_segments < u64::MAX && *bytes <= u64::MAX - self.done_bytes && (*ok
                    || self.failures < u64::MAX)
            },
            ProgressEvent::QueueExtended { segments, bytes, .. } => {
                *segments <= u64::MAX - self.total_segments && *bytes <= u64::MAX - self.total_bytes
            },
            _ => true,
        }
    }

    /// Count an event.
    pub fn count(&mut self, ev: &ProgressEvent)
        requires
            totals_fit(*old(self), *ev),
        ensures
            *final(self) == totals_after(*old(self), *ev),
    {
        match ev {
            ProgressEvent::Started { files, .. } => {
                match state::sums(files.as_slice()) {
                    Some((segments, bytes)) => {
                        self.total_segments = self.total_segments + segments;
                        self.total_bytes = self.total_bytes + bytes;
                    },
                    None => {},
                }
            },
            ProgressEvent::SegmentDone { bytes, ok, .. } => {
                self.done_segments = self.done_segments + 1;
                self.done_bytes = self.done_bytes + *bytes;
                if !*ok {
                    self.failures = self.failures + 1;
                }
            },
            ProgressEvent::QueueExtended { segments, bytes, .. } => {
                self.total_segments = self.total_segments + *segments;
                self.total_bytes = self.total_bytes + *bytes;
            },
            _ => {},
        }
    }

    /// The line of an event that was counted, without the line end. `percent`
    /// is the share that is done, with one decimal.
    pub fn line(&self, ev: &ProgressEvent, percent: &str) -> (line: Option<String>)
        ensures
            state::chars_in(line) == event_text(*self, *ev, percent@),
    {
        match ev {
            ProgressEvent::Started { files, connections, target, .. } => {
                let mut s: String = String::from_str("{\"type\":\"started\",\"total_files\":");
                text::push_decimal(&mut s, files.len() as u64);
                s.append(",\"total_bytes\":");
                text::push_decimal(&mut s, self.total_bytes);
                s.append(",\"total_segments\":");
                text::push_decimal(&mut s, self.total_segments);
                s.append(",\"connections\":");
                text::push_decimal(&mut s, *connections as u64);
                s.append(",\"target\":");
                match target {
                    Some(t) => {
                        s.append(json::json_string(t.as_str()).as_str());
                    },
                    None => {
                        s.append("null");
                    },
                }
                s.append("}");
                Some(s)
            },
            ProgressEvent::SegmentDone { file, bytes, ok } => {
                let mut s: String = String::from_str("{\"type\":\"segment_done\",\"file\":\"");
                s.append(json::json_str(file.as_str()).as_str());
                s.append("\",\"bytes\":");
                text::push_decimal(&mut s, *bytes);
                s.append(",\"ok\":");
                s.append(json::bool_str(*ok));
                s.append(",\"done_segments\":");
                text::push_decimal(&mut s, self.done_segments);
                s.append(",\"total_segments\":");
                text::push_decimal(&mut s, self.total_segments);
                s.append(",\"done_bytes\":");
                text::push_decimal(&mut s, self.done_bytes);
                s.append(",\"total_bytes\":");
                text::push_decimal(&mut s, self.total_bytes);
                s.append(",\"progress_pct\":");
                s.append(percent);
                s.append("}");
                Some(s)
            },
            ProgressEvent::QueueExtended { file, segments, bytes } => {
                let mut s: String = String::from_str("{\"type\":\"queue_extended\",\"file\":\"");
                s.append(json::json_str(file.as_str()).as_str());
                s.append("\",\"segments\":");
                text::push_decimal(&mut s, *segments);
                s.append(",\"bytes\":");
                text::push_decimal(&mut s, *bytes);
                s.append(",\"total_segments\":");
                text::push_decimal(&mut s, self.total_segments);
                s.append(",\"total_bytes\":");
                text::push_decimal(&mut s, self.total_bytes);
                s.append("}");
                Some(s)
            },
            ProgressEvent::Status { text } => {
                let mut s: String = String::from_str("{\"type\":\"status\",\"text\":\"");
                s.append(json::json_str(text.as_str()).as_str());
                s.append("\"}");
                Some(s)
            },
            ProgressEvent::Failed { description } => {
                let mut s: String = String::from_str("{\"type\":\"failed\",\"description\":\"");
                s.append(json::json_str(description.as_str()).as_str());
                s.append("\"}");
                Some(s)
            },
            ProgressEvent::Interrupted => Some(String::from_str("{\"type\":\"interrupted\"}")),
            ProgressEvent::CompressStarted { total_bytes } => {
                let mut s: String = String::from_str(
                    "{\"type\":\"compress_started\",\"total_bytes\":",
                );
                text::push_decimal(&mut s, *total_bytes);
                s.append("}");
                Some(s)
            },
            ProgressEvent::CompressProgress { bytes_written } => {
                let mut s: String = String::from_str(
                    "{\"type\":\"compress_progress\",\"bytes_written\":",
                );
                text::push_decimal(&mut s, *bytes_written);
                s.append("}");
                Some(s)
            },
            ProgressEvent::CompressDone => Some(String::from_str("{\"type\":\"compress_done\"}")),
            ProgressEvent::Par2WriteStarted { total } => {
                let mut s: String = String::from_str("{\"type\":\"par2_write_started\",\"total\":");
                text::push_decimal(&mut s, *total as u64);
                s.append("}");
                Some(s)
            },
            ProgressEvent::Par2SliceWritten => Some(
                String::from_str("{\"type\":\"par2_slice_written\"}"),
            ),
            _ => None,
        }
    }

    /// The line of the end, without the line end. The run went well exactly
    /// when nothing failed.
    pub fn finished_line(&self, percent: &str) -> (line: String)
        ensures
            line@ == finished_text(*self, percent@),
    {
        let mut s: String = String::from_str("{\"type\":\"finished\",\"segments\":");
        text::push_decimal(&mut s, self.done_segments);
        s.append(",\"failures\":");
        text::push_decimal(&mut s, self.failures);
        s.append(",\"progress_pct\":");
        s.append(percent);
        s.append(",\"ok\":");
        s.append(json::bool_str(self.failures == 0));
        s.append("}");
        s
    }
}

/// The emitter counts as the panel does: their totals agree after every event.
pub proof fn law_emitter_agrees_with_panel(
    t: EmitterTotals,
    p: state::Progress,
    ev: ProgressEvent,
    now: u64,
)
    requires
        agree(t, p),
        totals_fit(t, ev),
    ensures
        agree(totals_after(t, ev), p.after(ev, now)),
{
}

/// The totals of the emitter are those of the panel.
pub open spec fn agree(t: EmitterTotals, p: state::Progress) -> bool {
    &&& t.total_segments == p.total_segments
    &&& t.total_bytes == p.total_bytes
    &&& t.done_segments == p.done_segments
    &&& t.done_bytes == p.done_bytes
    &&& t.failures == p.failures
}

/// A text without control characters, line breaks among them.
#[verifier::opaque]
pub open spec fn one_line(s: Seq<char>) -> bool {
    forall|i: int| 0 <= i < s.len() ==> #[trigger] s[i] >= ' '
}

broadcast proof fn lemma_joined_lines(a: Seq<char>, b: Seq<char>)
    requires
        one_line(a),
        one_line(b),
    ensures
        #[trigger] one_line(a + b),
{
    reveal(one_line);
    assert forall|i: int| 0 <= i < (a + b).len() implies #[trigger] (a + b)[i] >= ' ' by {
        if i < a.len() {
            assert((a + b)[i] == a[i]);
        } else {
            assert((a + b)[i] == b[i - a.len()]);
        }
    }
}

broadcast proof fn lemma_decimal_line(n: nat)
    ensures
        #[trigger] one_line(text::decimal(n)),
    decreases n,
{
    reveal(one_line);
    if n >= 10 {
        lemma_decimal_line(n / 10);
    }
}

broadcast proof fn lemma_escaped_line(s: Seq<char>)
    ensures
        #[trigger] one_line(json::json_escaped(s)),
{
    reveal(one_line);
    assert forall|i: int| 0 <= i < json::json_escaped(s).len() implies #[trigger] json::json_escaped(
        s,
    )[i] >= ' ' by {
        json::law_json_escaping_is_closed(s, i);
    }
}

proof fn lemma_literal_lines()
    ensures
        one_line("\""@),
        one_line("null"@),
        one_line("true"@),
        one_line("false"@),
        one_line("{\"type\":\"started\",\"total_files\":"@),
        one_line(",\"total_bytes\":"@),
        one_line(",\"total_segments\":"@),
        one_line(",\"connections\":"@),
        one_line(",\"target\":"@),
        one_line("}"@),
        one_line("{\"type\":\"segment_done\",\"file\":\""@),
        one_line("\",\"bytes\":"@),
        one_line(",\"ok\":"@),
        one_line(",\"done_segments\":"@),
        one_line(",\"done_bytes\":"@),
        one_line(",\"progress_pct\":"@),
        one_line("{\"type\":\"queue_extended\",\"file\":\""@),
        one_line("\",\"segments\":"@),
        one_line(",\"bytes\":"@),
        one_line("{\"type\":\"status\",\"text\":\""@),
        one_line("\"}"@),
        one_line("{\"type\":\"failed\",\"description\":\""@),
        one_line("{\"type\":\"interrupted\"}"@),
        one_line("{\"type\":\"compress_started\",\"total_bytes\":"@),
        one_line("{\"type\":\"compress_progress\",\"bytes_written\":"@),
        one_line("{\"type\":\"compress_done\"}"@),
        one_line("{\"type\":\"par2_write_started\",\"total\":"@),
        one_line("{\"type\":\"par2_slice_written\"}"@),
        one_line("{\"type\":\"finished\",\"segments\":"@),
        one_line(",\"failures\":"@),
{
    reveal(one_line);
    reveal_strlit("\"");
    reveal_strlit("null");
    reveal_strlit("true");
    reveal_strlit("false");
    reveal_strlit("{\"type\":\"started\",\"total_files\":");
    reveal_strlit(",\"total_bytes\":");
    reveal_strlit(",\"total_segments\":");
    reveal_strlit(",\"connections\":");
    reveal_strlit(",\"target\":");
    reveal_strlit("}");
    reveal_strlit("{\"type\":\"segment_done\",\"file\":\"");
    reveal_strlit("\",\"bytes\":");
    reveal_strlit(",\"ok\":");
    reveal_strlit(",\"done_segments\":");
    reveal_strlit(",\"done_bytes\":");
    reveal_strlit(",\"progress_pct\":");
    reveal_strlit("{\"type\":\"queue_extended\",\"file\":\"");
    reveal_strlit("\",\"segments\":");
    reveal_strlit(",\"bytes\":");
    reveal_strlit("{\"type\":\"status\",\"text\":\"");
    reveal_strlit("\"}");
    reveal_strlit("{\"type\":\"failed\",\"description\":\"");
    reveal_strlit("{\"type\":\"interrupted\"}");
    reveal_strlit("{\"type\":\"compress_started\",\"total_bytes\":");
    reveal_strlit("{\"type\":\"compress_progress\",\"bytes_written\":");
    reveal_strlit("{\"type\":\"compress_done\"}");
    reveal_strlit("{\"type\":\"par2_write_started\",\"total\":");
    reveal_strlit("{\"type\":\"par2_slice_written\"}");
    reveal_strlit("{\"type\":\"finished\",\"segments\":");
    reveal_strlit(",\"failures\":");
}

/// Every event is shown on one line, whatever the names and texts in it hold.
pub proof fn law_events_take_one_line(t: EmitterTotals, ev: ProgressEvent, percent: Seq<char>)
    requires
        one_line(percent),
    ensures
        event_text(t, ev, percent) is Some ==> one_line(event_text(t, ev, percent)->0),
        one_line(finished_text(t, percent)),
{
    broadcast use {lemma_joined_lines, lemma_decimal_line, lemma_escaped_line};

    lemma_literal_lines();
}

} // verus!

//! The view of a run that its events build up.

use vstd::prelude::*;
use vstd::string::*;

use super::files;
use super::files::FileTable;
use super::{ConnState, FileEntry, ProgressEvent, RunMode};

verus! {

/// Number of speed samples that are kept.
pub const SPEED_SAMPLES: usize = 10;

/// The last speed samples, oldest first.
pub struct SpeedHistory {
    slots: [u64; 10],
    pos: usize,
    len: usize,
}

impl View for SpeedHistory {
    type V = Seq<u64>;

    closed spec fn view(&self) -> Seq<u64> {
        let start = if self.len < SPEED_SAMPLES {
            0
        } else {
            self.pos as int
        };
        Seq::new(self.len as nat, |i: int| self.slots@[(start + i) % 10])
    }
}

impl SpeedHistory {
    #[verifier::type_invariant]
    closed spec fn inv(&self) -> bool {
        &&& self.pos < SPEED_SAMPLES
        &&& self.len <= SPEED_SAMPLES
        &&& self.len < SPEED_SAMPLES ==> self.pos == self.len
    }

    /// No samples.
    pub fn new() -> (history: SpeedHistory)
        ensures
            history@ == Seq::<u64>::empty(),
    {
        let history: SpeedHistory = SpeedHistory { slots: [0; 10], pos: 0, len: 0 };
        assert(history@ =~= Seq::<u64>::empty());
        history
    }

    /// Record a sample; the oldest one leaves when there are too many.
    pub fn push(&mut self, sample: u64)
        ensures
            final(self)@ == if old(self)@.len() < SPEED_SAMPLES {
                old(self)@.push(sample)
            } else {
                old(self)@.drop_first().push(sample)
            },
    {
        proof {
            use_type_invariant(&*self);
        }
        let ghost before = self@;
        let mut slots: [u64; 10] = self.slots;
        slots[self.pos] = sample;
        let len: usize = if self.len < SPEED_SAMPLES {
            self.len + 1
        } else {
            self.len
        };
        let ghost old_len = self.len;
        *self = SpeedHistory { slots, pos: (self.pos + 1) % SPEED_SAMPLES, len };
        proof {
            if old_len < SPEED_SAMPLES {
                assert(self@ =~= before.push(sample));
            } else {
                assert(self@ =~= before.drop_first().push(sample));
            }
        }
    }

    /// The samples in chronological order.
    pub fn samples(&self) -> (samples: Vec<u64>)
        ensures
            samples@ == self@,
    {
        proof {
            use_type_invariant(self);
        }
        let start: usize = if self.len < SPEED_SAMPLES {
            0
        } else {
            self.pos
        };
        let mut samples: Vec<u64> = Vec::new();
        let mut i: usize = 0;
        while i < self.len
            invariant
                i <= self.len <= SPEED_SAMPLES,
                start == if self.len < SPEED_SAMPLES {
                    0
                } else {
                    self.pos
                },
                self.pos < SPEED_SAMPLES,
                samples@ == self@.take(i as int),
            decreases self.len - i,
        {
            samples.push(self.slots[(start + i) % SPEED_SAMPLES]);
            assert(samples@ =~= self@.take(i + 1));
            i = i + 1;
        }
        assert(samples@ =~= self@);
        samples
    }
}

/// What is known of a run.
pub struct Progress {
    pub started: bool,
    pub finished: bool,
    pub mode: RunMode,
    pub target: Option<Seq<char>>,
    /// When the run started, in milliseconds.
    pub start: u64,
    pub total_segments: nat,
    pub total_bytes: nat,
    pub done_segments: nat,
    pub done_bytes: nat,
    pub failures: nat,
    pub interrupted: bool,
    pub status: Seq<char>,
    /// When the current status was first set.
    pub status_since: Option<u64>,
    /// The file that each connection posts.
    pub conn_files: Seq<Option<Seq<char>>>,
    pub conn_state: Seq<ConnState>,
    /// Segments done and in all, by file name.
    pub files: Map<Seq<char>, (u64, u64)>,
    pub buf_total: nat,
    pub buf_free: nat,
    pub compress_active: bool,
    pub compress_total: nat,
    pub compress_written: nat,
    pub compress_start: u64,
    pub par2_write_active: bool,
    pub par2_write_total: nat,
    pub par2_write_done: nat,
    pub par2_write_start: u64,
}

/// The segments of all files.
pub open spec fn segments_of(entries: Seq<FileEntry>) -> nat
    decreases entries.len(),
{
    if entries.len() == 0 {
        0
    } else {
        segments_of(entries.drop_last()) + entries.last().segments as nat
    }
}

/// The bytes of all files.
pub open spec fn bytes_of(entries: Seq<FileEntry>) -> nat
    decreases entries.len(),
{
    if entries.len() == 0 {
        0
    } else {
        bytes_of(entries.drop_last()) + entries.last().bytes as nat
    }
}

/// The counts with every file of a plan entered anew; of two files of one name
/// the later counts.
pub open spec fn enrolled(
    counts: Map<Seq<char>, (u64, u64)>,
    entries: Seq<FileEntry>,
) -> Map<Seq<char>, (u64, u64)>
    decreases entries.len(),
{
    if entries.len() == 0 {
        counts
    } else {
        enrolled(counts, entries.drop_last()).insert(
            entries.last().name@,
            (0, entries.last().segments),
        )
    }
}

/// The characters of a string that may be missing.
pub open spec fn chars_in(s: Option<String>) -> Option<Seq<char>> {
    match s {
        Some(t) => Some(t@),
        None => None,
    }
}

/// A list with one place changed, or the list itself where there is no such
/// place.
pub open spec fn changed<A>(list: Seq<A>, at: int, value: A) -> Seq<A> {
    if 0 <= at < list.len() {
        list.update(at, value)
    } else {
        list
    }
}

impl Progress {
    /// Before any event.
    pub open spec fn fresh(now: u64) -> Progress {
        Progress {
            started: false,
            finished: false,
            mode: RunMode::Post,
            target: None,
            start: now,
            total_segments: 0,
            total_bytes: 0,
            done_segments: 0,
            done_bytes: 0,
            failures: 0,
            interrupted: false,
            status: Seq::empty(),
            status_since: None,
            conn_files: Seq::empty(),
            conn_state: Seq::empty(),
            files: Map::empty(),
            buf_total: 0,
            buf_free: 0,
            compress_active: false,
            compress_total: 0,
            compress_written: 0,
            compress_start: now,
            par2_write_active: false,
            par2_write_total: 0,
            par2_write_done: 0,
            par2_write_start: now,
        }
    }

    /// What is known after one more event, which comes at `now`.
    pub open spec fn after(self, ev: ProgressEvent, now: u64) -> Progress {
        match ev {
            ProgressEvent::Started { mode, files, connections, target } => Progress {
                started: true,
                mode,
                target: chars_in(target),
                start: now,
                conn_files: Seq::new(connections as nat, |i: int| None),
                conn_state: Seq::new(connections as nat, |i: int| ConnState::Idle),
                total_segments: self.total_segments + segments_of(files@),
                total_bytes: self.total_bytes + bytes_of(files@),
                files: enrolled(self.files, files@),
                ..self
            },
            ProgressEvent::ConnectionBusy { conn, file } => Progress {
                conn_files: changed(self.conn_files, conn as int, Some(file@)),
                conn_state: changed(self.conn_state, conn as int, ConnState::Busy),
                ..self
            },
            ProgressEvent::ConnectionIdle { conn } => Progress {
                conn_files: changed(self.conn_files, conn as int, None),
                conn_state: changed(self.conn_state, conn as int, ConnState::Idle),
                ..self
            },
            ProgressEvent::ConnectionAuth { conn } => Progress {
                conn_state: changed(self.conn_state, conn as int, ConnState::Auth),
                ..self
            },
            ProgressEvent::ConnectionRetrying { conn } => Progress {
                conn_state: changed(self.conn_state, conn as int, ConnState::Retrying),
                ..self
            },
            ProgressEvent::BufferPoolStats { total, free } => Progress {
                buf_total: total as nat,
                buf_free: free as nat,
                ..self
            },
            ProgressEvent::SegmentDone { file, bytes, ok } => Progress {
                done_segments: self.done_segments + 1,
                done_bytes: self.done_bytes + bytes as nat,
                failures: if ok {
                    self.failures
                } else {
                    self.failures + 1
                },
                files: if self.files.dom().contains(file@) {
                    self.files.insert(
                        file@,
                        ((self.files[file@].0 + 1) as u64, self.files[file@].1),
                    )
                } else {
                    self.files
                },
                ..self
            },
            ProgressEvent::QueueExtended { file, segments, bytes } => Progress {
                total_segments: self.total_segments + segments as nat,
                total_bytes: self.total_bytes + bytes as nat,
                files: if self.files.dom().contains(file@) {
                    self.files.insert(
                        file@,
                        (self.files[file@].0, (self.files[file@].1 + segments) as u64),
                    )
                } else {
                    self.files.insert(file@, (0, segments))
                },
                ..self
            },
            ProgressEvent::Status { text } => Progress {
                status: text@,
                status_since: if text@.len() == 0 {
                    None
                } else if self.status == text@ {
                    self.status_since
                } else {
                    Some(now)
                },
                ..self
            },
            ProgressEvent::Failed { description } => self,
            ProgressEvent::Interrupted => Progress { interrupted: true, ..self },
            ProgressEvent::Finished => Progress { finished: true, ..self },
            ProgressEvent::CompressStarted { total_bytes } => Progress {
                started: true,
                compress_active: true,
                compress_total: total_bytes as nat,
                compress_written: 0,
                compress_start: now,
                ..self
            },
            ProgressEvent::CompressProgress { bytes_written } => Progress {
                compress_written: bytes_written as nat,
                ..self
            },
            ProgressEvent::CompressDone => Progress {
                compress_written: self.compress_total,
                compress_active: false,
                ..self
            },
            ProgressEvent::Par2WriteStarted { total } => Progress {
                par2_write_active: true,
                par2_write_total: total as nat,
                par2_write_done: 0,
                par2_write_start: now,
                ..self
            },
            ProgressEvent::Par2SliceWritten => {
                let done = if self.par2_write_done < u32::MAX {
                    self.par2_write_done + 1
                } else {
                    self.par2_write_done
                };
                Progress {
                    par2_write_done: done,
                    par2_write_active: self.par2_write_active && done < self.par2_write_total,
                    ..self
                }
            },
        }
    }

    /// No counter overflows on the event.
    pub open spec fn has_room_for(self, ev: ProgressEvent) -> bool {
        match ev {
            ProgressEvent::Started { files, .. } => {
                &&& self.total_segments + segments_of(files@) <= u64::MAX
                &&& self.total_bytes + bytes_of(files@) <= u64::MAX
            },
            ProgressEvent::SegmentDone { file, bytes, ok } => {
                &&& self.done_segments < u64::MAX
                &&& self.done_bytes + bytes <= u64::MAX
                &&& !ok ==> self.failures < u64::MAX
                &&& self.files.dom().contains(file@) ==> self.files[file@].0 < u64::MAX
            },
            ProgressEvent::QueueExtended { file, segments, bytes } => {
                &&& self.total_segments + segments <= u64::MAX
                &&& self.total_bytes + bytes <= u64::MAX
                &&& self.files.dom().contains(file@) ==> self.files[file@].1 + segments <= u64::MAX
            },
            _ => true,
        }
    }

    /// What is known after a sequence of events, each with its time.
    pub open spec fn after_all(self, events: Seq<(ProgressEvent, u64)>) -> Progress
        decreases events.len(),
    {
        if events.len() == 0 {
            self
        } else {
            self.after_all(events.drop_last()).after(events.last().0, events.last().1)
        }
    }
}

/// The view the renderer builds up from the event stream. Times are in
/// milliseconds of some clock.
pub struct RenderState {
    pub started: bool,
    pub finished: bool,
    pub mode: RunMode,
    pub target: Option<String>,
    pub start: u64,
    pub total_segments: u64,
    pub total_bytes: u64,
    pub done_segments: u64,
    pub done_bytes: u64,
    pub failures: u64,
    pub interrupted: bool,
    pub status: String,
    /// When the current non-empty status text was first set.
    pub status_since: Option<u64>,
    /// File currently posted by each worker connection (`None` = idle).
    pub conn_files: Vec<Option<String>>,
    /// State of each worker connection.
    pub conn_state: Vec<ConnState>,
    /// Per-file `(done, total)` segment counts, for the file tally.
    pub files: FileTable,
    /// Buffer pool snapshot.
    pub buf_total: usize,
    pub buf_free: usize,
    pub compress_active: bool,
    pub compress_total: u64,
    pub compress_written: u64,
    pub compress_start: u64,
    pub par2_write_active: bool,
    pub par2_write_total: u32,
    pub par2_write_done: u32,
    pub par2_write_start: u64,
    /// Bytes per tick, over the last ticks.
    pub speed_history: SpeedHistory,
    /// Bytes done at the last tick, for computing per-tick delta.
    pub prev_done_bytes: u64,
    /// Lines emitted by the previous panel draw, to be cleared on the next.
    pub lines_drawn: usize,
    /// Tick counter that paces the plain output.
    pub plain_ticks: u32,
    /// Spinner frame index for quiet mode.
    pub spinner_frame: usize,
    /// Resident memory of the process, where it is known.
    pub proc_rss_bytes: u64,
}

proof fn lemma_enrolled_step(
    counts: Map<Seq<char>, (u64, u64)>,
    entries: Seq<FileEntry>,
    i: int,
)
    requires
        0 <= i < entries.len(),
    ensures
        enrolled(counts, entries.take(i + 1)) == enrolled(counts, entries.take(i)).insert(
            entries[i].name@,
            (0, entries[i].segments),
        ),
        segments_of(entries.take(i + 1)) == segments_of(entries.take(i)) + entries[i].segments,
        bytes_of(entries.take(i + 1)) == bytes_of(entries.take(i)) + entries[i].bytes,
{
    assert(entries.take(i + 1).drop_last() =~= entries.take(i));
}

proof fn lemma_partial_sums(entries: Seq<FileEntry>, i: int)
    requires
        0 <= i <= entries.len(),
    ensures
        segments_of(entries.take(i)) <= segments_of(entries),
        bytes_of(entries.take(i)) <= bytes_of(entries),
    decreases entries.len() - i,
{
    if i < entries.len() {
        lemma_partial_sums(entries, i + 1);
        lemma_enrolled_step(Map::empty(), entries, i);
    } else {
        assert(entries.take(i) =~= entries);
    }
}

/// Segments and bytes of all files, unless one of the sums overflows.
pub fn sums(entries: &[FileEntry]) -> (r: Option<(u64, u64)>)
    ensures
        match r {
            Some(t) => t.0 == segments_of(entries@) && t.1 == bytes_of(entries@),
            None => segments_of(entries@) > u64::MAX || bytes_of(entries@) > u64::MAX,
        },
{
    let n: usize = entries.len();
    let mut segments: u64 = 0;
    let mut bytes: u64 = 0;
    let mut i: usize = 0;
    assert(entries@.take(0) =~= Seq::empty());
    while i < n
        invariant
            i <= n,
            n == entries@.len(),
            segments == segments_of(entries@.take(i as int)),
            bytes == bytes_of(entries@.take(i as int)),
        decreases n - i,
    {
        proof {
            lemma_enrolled_step(Map::empty(), entries@, i as int);
            lemma_partial_sums(entries@, i + 1);
        }
        if entries[i].segments > u64::MAX - segments || entries[i].bytes > u64::MAX - bytes {
            return None;
        }
        segments = segments + entries[i].segments;
        bytes = bytes + entries[i].bytes;
        i = i + 1;
    }
    assert(entries@.take(n as int) =~= entries@);
    Some((segments, bytes))
}

impl View for RenderState {
    type V = Progress;

    open spec fn view(&self) -> Progress {
        Progress {
            started: self.started,
            finished: self.finished,
            mode: self.mode,
            target: chars_in(self.target),
            start: self.start,
            total_segments: self.total_segments as nat,
            total_bytes: self.total_bytes as nat,
            done_segments: self.done_segments as nat,
            done_bytes: self.done_bytes as nat,
            failures: self.failures as nat,
            interrupted: self.interrupted,
            status: self.status@,
            status_since: self.status_since,
            conn_files: Seq::new(self.conn_files@.len(), |i: int| chars_in(self.conn_files@[i])),
            conn_state: self.conn_state@,
            files: self.files@,
            buf_total: self.buf_total as nat,
            buf_free: self.buf_free as nat,
            compress_active: self.compress_active,
            compress_total: self.compress_total as nat,
            compress_written: self.compress_written as nat,
            compress_start: self.compress_start,
            par2_write_active: self.par2_write_active,
            par2_write_total: self.par2_write_total as nat,
            par2_write_done: self.par2_write_done as nat,
            par2_write_start: self.par2_write_start,
        }
    }
}

/// What drawing keeps, apart from the view of the run.
pub struct Drawing {
    pub speed_history: Seq<u64>,
    pub prev_done_bytes: u64,
    pub lines_drawn: usize,
    pub plain_ticks: u32,
    pub spinner_frame: usize,
    pub proc_rss_bytes: u64,
}

impl RenderState {
    /// What drawing keeps.
    pub open spec fn drawing(&self) -> Drawing {
        Drawing {
            speed_history: self.speed_history@,
            prev_done_bytes: self.prev_done_bytes,
            lines_drawn: self.lines_drawn,
            plain_ticks: self.plain_ticks,
            spinner_frame: self.spinner_frame,
            proc_rss_bytes: self.proc_rss_bytes,
        }
    }

    /// The view of a run that has not started.
    pub fn new(now: u64) -> (state: RenderState)
        ensures
            state@ == Progress::fresh(now),
            state.drawing() == (Drawing {
                speed_history: Seq::empty(),
                prev_done_bytes: 0,
                lines_drawn: 0,
                plain_ticks: 0,
                spinner_frame: 0,
                proc_rss_bytes: 0,
            }),
    {
        let state: RenderState = RenderState {
            started: false,
            finished: false,
            mode: RunMode::Post,
            target: None,
            start: now,
            total_segments: 0,
            total_bytes: 0,
            done_segments: 0,
            done_bytes: 0,
            failures: 0,
            interrupted: false,
            status: String::new(),
            status_since: None,
            conn_files: Vec::new(),
            conn_state: Vec::new(),
            files: FileTable::new(),
            buf_total: 0,
            buf_free: 0,
            compress_active: false,
            compress_total: 0,
            compress_written: 0,
            compress_start: now,
            par2_write_active: false,
            par2_write_total: 0,
            par2_write_done: 0,
            par2_write_start: now,
            speed_history: SpeedHistory::new(),
            prev_done_bytes: 0,
            lines_drawn: 0,
            plain_ticks: 0,
            spinner_frame: 0,
            proc_rss_bytes: 0,
        };
        proof {
            assert(state@.conn_files =~= Seq::empty());
            assert(state@.conn_state =~= Seq::empty());
        }
        state
    }

    /// Whether no counter overflows on the event.
    pub fn has_room_for(&self, ev: &ProgressEvent) -> (r: bool)
        ensures
            r == self@.has_room_for(*ev),
    {
        match ev {
            ProgressEvent::Started { files, .. } => {
                match sums(files.as_slice()) {
                    Some((segments, bytes)) => segments <= u64::MAX - self.total_segments && bytes
                        <= u64::MAX - self.total_bytes,
                    None => false,
                }
            },
            ProgressEvent::SegmentDone { file, bytes, ok } => {
                let counted: bool = match self.files.get(file) {
                    Some(c) => c.0 < u64::MAX,
                    None => true,
                };
                self.done_segments < u64::MAX && *bytes <= u64::MAX - self.done_bytes && (*ok
                    || self.failures < u64::MAX) && counted
            },
            ProgressEvent::QueueExtended { file, segments, bytes } => {
                let counted: bool = match self.files.get(file) {
                    Some(c) => *segments <= u64::MAX - c.1,
                    None => true,
                };
                *segments <= u64::MAX - self.total_segments && *bytes <= u64::MAX - self.total_bytes
                    && counted
            },
            _ => true,
        }
    }

    fn start_run(
        &mut self,
        mode: RunMode,
        files: Vec<FileEntry>,
        connections: usize,
        target: Option<String>,
        now: u64,
    )
        requires
            old(self)@.has_room_for(
                (ProgressEvent::Started { mode, files, connections, target }),
            ),
        ensures
            final(self)@ == old(self)@.after(
                (ProgressEvent::Started { mode, files, connections, target }),
                now,
            ),
            final(self).drawing() == old(self).drawing(),
    {
        let ghost before = self@;
        let ghost want = before.after(
            (ProgressEvent::Started { mode, files, connections, target }),
            now,
        );
        self.started = true;
        self.mode = mode;
        self.target = target;
        self.start = now;
        let mut conn_files: Vec<Option<String>> = Vec::new();
        let mut conn_state: Vec<ConnState> = Vec::new();
        let mut c: usize = 0;
        while c < connections
            invariant
                c <= connections,
                conn_files@.len() == c,
                conn_state@.len() == c,
                forall|k: int| 0 <= k < c ==> #[trigger] conn_files@[k] is None,
                forall|k: int| 0 <= k < c ==> #[trigger] conn_state@[k] == ConnState::Idle,
            decreases connections - c,
        {
            conn_files.push(None);
            conn_state.push(ConnState::Idle);
            c = c + 1;
        }
        self.conn_files = conn_files;
        self.conn_state = conn_state;
        proof {
            assert(self@.conn_files =~= want.conn_files);
            assert(self@.conn_state =~= want.conn_state);
            assert(files@.take(0) =~= Seq::empty());
        }
        let n: usize = files.len();
        let mut i: usize = 0;
        while i < n
            invariant
                i <= n,
                n == files@.len(),
                before.total_segments + segments_of(files@) <= u64::MAX,
                before.total_bytes + bytes_of(files@) <= u64::MAX,
                want.total_segments == before.total_segments + segments_of(files@),
                want.total_bytes == before.total_bytes + bytes_of(files@),
                want.files == enrolled(before.files, files@),
                self.drawing() == old(self).drawing(),
                self@ == (Progress {
                    total_segments: before.total_segments + segments_of(files@.take(i as int)),
                    total_bytes: before.total_bytes + bytes_of(files@.take(i as int)),
                    files: enrolled(before.files, files@.take(i as int)),
                    ..want
                }),
            decreases n - i,
        {
            proof {
                lemma_enrolled_step(before.files, files@, i as int);
                lemma_partial_sums(files@, i + 1);
            }
            self.total_segments = self.total_segments + files[i].segments;
            self.total_bytes = self.total_bytes + files[i].bytes;
            self.files.insert(files[i].name.clone(), (0, files[i].segments));
            i = i + 1;
        }
        assert(files@.take(n as int) =~= files@);
    }

    fn set_conn_file(&mut self, conn: usize, file: Option<String>)
        ensures
            final(self)@ == (Progress {
                conn_files: changed(old(self)@.conn_files, conn as int, chars_in(file)),
                ..old(self)@
            }),
            final(self).drawing() == old(self).drawing(),
    {
        let ghost before = self@;
        let ghost name = chars_in(file);
        if conn < self.conn_files.len() {
            self.conn_files.set(conn, file);
        }
        assert(self@.conn_files =~= changed(before.conn_files, conn as int, name));
    }

    fn set_conn_state(&mut self, conn: usize, state: ConnState)
        ensures
            final(self)@ == (Progress {
                conn_state: changed(old(self)@.conn_state, conn as int, state),
                ..old(self)@
            }),
            final(self).drawing() == old(self).drawing(),
    {
        let ghost before = self@;
        if conn < self.conn_state.len() {
            self.conn_state.set(conn, state);
        }
        assert(self@.conn_files =~= before.conn_files);
    }

    /// Take one more event into account, which comes at `now`.
    pub fn apply(&mut self, ev: ProgressEvent, now: u64)
        requires
            old(self)@.has_room_for(ev),
        ensures
            final(self)@ == old(self)@.after(ev, now),
            final(self).drawing() == old(self).drawing(),
    {
        let ghost before = self@;
        match ev {
            ProgressEvent::Started { mode, files, connections, target } => {
                self.start_run(mode, files, connections, target, now);
            },
            ProgressEvent::ConnectionBusy { conn, file } => {
                self.set_conn_file(conn, Some(file));
                self.set_conn_state(conn, ConnState::Busy);
            },
            ProgressEvent::ConnectionIdle { conn } => {
                self.set_conn_file(conn, None);
                self.set_conn_state(conn, ConnState::Idle);
            },
            ProgressEvent::ConnectionAuth { conn } => {
                self.set_conn_state(conn, ConnState::Auth);
            },
            ProgressEvent::ConnectionRetrying { conn } => {
                self.set_conn_state(conn, ConnState::Retrying);
            },
            ProgressEvent::BufferPoolStats { total, free } => {
                self.buf_total = total;
                self.buf_free = free;
            },
            ProgressEvent::SegmentDone { file, bytes, ok } => {
                self.done_segments = self.done_segments + 1;
                self.done_bytes = self.done_bytes + bytes;
                if !ok {
                    self.failures = self.failures + 1;
                }
                match self.files.get(&file) {
                    Some(c) => {
                        self.files.insert(file, (c.0 + 1, c.1));
                    },
                    None => {},
                }
            },
            ProgressEvent::QueueExtended { file, segments, bytes } => {
                self.total_segments = self.total_segments + segments;
                self.total_bytes = self.total_bytes + bytes;
                match self.files.get(&file) {
                    Some(c) => {
                        self.files.insert(file, (c.0, c.1 + segments));
                    },
                    None => {
                        self.files.insert(file, (0, segments));
                    },
                }
            },
            ProgressEvent::Status { text } => {
                if text.as_str().unicode_len() == 0 {
                    self.status_since = None;
                } else if self.status != text {
                    self.status_since = Some(now);
                }
                self.status = text;
            },
            ProgressEvent::Failed { .. } => {},
            ProgressEvent::Interrupted => {
                self.interrupted = true;
            },
            ProgressEvent::Finished => {
                self.finished = true;
            },
            ProgressEvent::CompressStarted { total_bytes } => {
                self.compress_active = true;
                self.compress_total = total_bytes;
                self.compress_written = 0;
                self.compress_start = now;
                self.started = true;
            },
            ProgressEvent::CompressProgress { bytes_written } => {
                self.compress_written = bytes_written;
            },
            ProgressEvent::CompressDone => {
                self.compress_written = self.compress_total;
                self.compress_active = false;
            },
            ProgressEvent::Par2WriteStarted { total } => {
                self.par2_write_active = true;
                self.par2_write_total = total;
                self.par2_write_done = 0;
                self.par2_write_start = now;
            },
            ProgressEvent::Par2SliceWritten => {
                self.par2_write_done = self.par2_write_done.saturating_add(1);
                if self.par2_write_done >= self.par2_write_total {
                    self.par2_write_active = false;
                }
            },
        }
        assert(self@ =~= before.after(ev, now));
    }

    /// Files that have every segment done, and files partially in flight.
    pub fn file_tally(&self) -> (t: (usize, usize))
        ensures
            t.0 == files::complete_files(self@.files).len(),
            t.1 == files::files_in_flight(self@.files).len(),
    {
        self.files.tally()
    }

    /// Close a tick: what was done since the last one becomes a speed sample,
    /// unless nothing was ever done or this is the last draw.
    pub fn record_tick(&mut self, final_draw: bool)
        ensures
            final(self)@ == old(self)@,
            final(self).drawing() == (Drawing {
                prev_done_bytes: old(self).done_bytes,
                speed_history: if final_draw || old(self).done_bytes == 0 {
                    old(self).speed_history@
                } else {
                    let sample = if old(self).done_bytes >= old(self).prev_done_bytes {
                        (old(self).done_bytes - old(self).prev_done_bytes) as u64
                    } else {
                        0
                    };
                    if old(self).speed_history@.len() < SPEED_SAMPLES {
                        old(self).speed_history@.push(sample)
                    } else {
                        old(self).speed_history@.drop_first().push(sample)
                    }
                },
                ..old(self).drawing()
            }),
    {
        let delta: u64 = self.done_bytes.saturating_sub(self.prev_done_bytes);
        self.prev_done_bytes = self.done_bytes;
        if !final_draw && self.done_bytes > 0 {
            self.speed_history.push(delta);
        }
    }
}

/// The number of segments that a sequence of events reports done.
pub open spec fn segments_reported(events: Seq<(ProgressEvent, u64)>) -> nat
    decreases events.len(),
{
    if events.len() == 0 {
        0
    } else {
        segments_reported(events.drop_last()) + if events.last().0 is SegmentDone {
            1nat
        } else {
            0
        }
    }
}

/// The number of segments that a sequence of events reports failed.
pub open spec fn failures_reported(events: Seq<(ProgressEvent, u64)>) -> nat
    decreases events.len(),
{
    if events.len() == 0 {
        0
    } else {
        failures_reported(events.drop_last()) + match events.last().0 {
            ProgressEvent::SegmentDone { ok, .. } => if ok {
                0nat
            } else {
                1
            },
            _ => 0,
        }
    }
}

/// The counters say what was reported: every segment done counts once, failed
/// ones count as failures besides, and each connection has one state and at
/// most one file.
pub proof fn law_counters_say_what_was_reported(now: u64, events: Seq<(ProgressEvent, u64)>)
    ensures
        Progress::fresh(now).after_all(events).done_segments == segments_reported(events),
        Progress::fresh(now).after_all(events).failures == failures_reported(events),
        failures_reported(events) <= segments_reported(events),
        Progress::fresh(now).after_all(events).conn_files.len() == Progress::fresh(now).after_all(
            events,
        ).conn_state.len(),
    decreases events.len(),
{
    if events.len() > 0 {
        law_counters_say_what_was_reported(now, events.drop_last());
    }
}

/// The segments and bytes that an event announces.
pub open spec fn announced_by(ev: ProgressEvent) -> (nat, nat) {
    match ev {
        ProgressEvent::Started { files, .. } => (segments_of(files@), bytes_of(files@)),
        ProgressEvent::QueueExtended { segments, bytes, .. } => (segments as nat, bytes as nat),
        _ => (0, 0),
    }
}

/// The segments and bytes that a sequence of events announces.
pub open spec fn announced(events: Seq<(ProgressEvent, u64)>) -> (nat, nat)
    decreases events.len(),
{
    if events.len() == 0 {
        (0, 0)
    } else {
        let before = announced(events.drop_last());
        let now = announced_by(events.last().0);
        (before.0 + now.0, before.1 + now.1)
    }
}

/// The bytes of the segments that a sequence of events reports done.
pub open spec fn bytes_reported(events: Seq<(ProgressEvent, u64)>) -> nat
    decreases events.len(),
{
    if events.len() == 0 {
        0
    } else {
        bytes_reported(events.drop_last()) + match events.last().0 {
            ProgressEvent::SegmentDone { bytes, .. } => bytes as nat,
            _ => 0,
        }
    }
}

/// What there is to do is what was announced, and what is done what was reported,
/// failed or not.
pub proof fn law_totals_say_what_was_announced(now: u64, events: Seq<(ProgressEvent, u64)>)
    ensures
        Progress::fresh(now).after_all(events).total_segments == announced(events).0,
        Progress::fresh(now).after_all(events).total_bytes == announced(events).1,
        Progress::fresh(now).after_all(events).done_bytes == bytes_reported(events),
    decreases events.len(),
{
    if events.len() > 0 {
        law_totals_say_what_was_announced(now, events.drop_last());
    }
}

/// The connection that an event is about.
pub open spec fn connection_of(ev: ProgressEvent) -> Option<usize> {
    match ev {
        ProgressEvent::ConnectionBusy { conn, .. } => Some(conn),
        ProgressEvent::ConnectionIdle { conn } => Some(conn),
        ProgressEvent::ConnectionAuth { conn } => Some(conn),
        ProgressEvent::ConnectionRetrying { conn } => Some(conn),
        _ => None,
    }
}

/// An event about one connection leaves all others and all counters as they are.
/// A busy connection posts the file of the event, an idle one none, and one that
/// logs in or tries again the file that it had.
pub proof fn law_connections_are_told_apart(state: Progress, ev: ProgressEvent, now: u64, i: int)
    requires
        connection_of(ev) is Some,
        state.conn_files.len() == state.conn_state.len(),
        0 <= i < state.conn_state.len(),
    ensures
        ({
            let next = state.after(ev, now);
            let here = connection_of(ev)->0 == i;
            &&& next.conn_state.len() == state.conn_state.len()
            &&& next.conn_files.len() == state.conn_files.len()
            &&& !here ==> next.conn_state[i] == state.conn_state[i] && next.conn_files[i]
                == state.conn_files[i]
            &&& here ==> match ev {
                ProgressEvent::ConnectionBusy { file, .. } => next.conn_state[i] == ConnState::Busy
                    && next.conn_files[i] == Some(file@),
                ProgressEvent::ConnectionIdle { .. } => next.conn_state[i] == ConnState::Idle
                    && next.conn_files[i] is None,
                ProgressEvent::ConnectionAuth { .. } => next.conn_state[i] == ConnState::Auth
                    && next.conn_files[i] == state.conn_files[i],
                _ => next.conn_state[i] == ConnState::Retrying && next.conn_files[i]
                    == state.conn_files[i],
            }
            &&& next.done_segments == state.done_segments
            &&& next.done_bytes == state.done_bytes
            &&& next.total_segments == state.total_segments
            &&& next.total_bytes == state.total_bytes
            &&& next.failures == state.failures
            &&& next.files == state.files
            &&& next.status == state.status
        }),
{
}

/// A segment counts for its own file and for no other, and leaves all totals as
/// they are; so does work that is added.
pub proof fn law_files_are_told_apart(
    state: Progress,
    ev: ProgressEvent,
    now: u64,
    name: Seq<char>,
)
    requires
        state.has_room_for(ev),
        ev is SegmentDone || ev is QueueExtended,
    ensures
        ({
            let next = state.after(ev, now);
            let known = state.files.dom().contains(name);
            match ev {
                ProgressEvent::SegmentDone { file, .. } => {
                    &&& next.files.dom() == state.files.dom()
                    &&& known && file@ == name ==> next.files[name].0 == state.files[name].0 + 1
                        && next.files[name].1 == state.files[name].1
                    &&& known && file@ != name ==> next.files[name] == state.files[name]
                    &&& next.total_segments == state.total_segments
                    &&& next.total_bytes == state.total_bytes
                },
                ProgressEvent::QueueExtended { file, segments, .. } => {
                    &&& next.files.dom().contains(file@)
                    &&& file@ == name && known ==> next.files[name].0 == state.files[name].0
                        && next.files[name].1 == state.files[name].1 + segments
                    &&& file@ == name && !known ==> next.files[name] == (0u64, segments)
                    &&& known && file@ != name ==> next.files[name] == state.files[name]
                    &&& next.done_segments == state.done_segments
                    &&& next.done_bytes == state.done_bytes
                    &&& next.failures == state.failures
                },
                _ => false,
            }
        }),
{
    let next = state.after(ev, now);
    match ev {
        ProgressEvent::SegmentDone { file, .. } => {
            assert(next.files.dom() =~= state.files.dom());
        },
        _ => {},
    }
}

/// Writing recovery files ends with the last slice that was announced.
pub proof fn law_recovery_writing_ends(state: Progress, total: u32, n: nat, now: u64)
    requires
        total > 0,
        n <= total,
    ensures
        ({
            let started = state.after(ProgressEvent::Par2WriteStarted { total }, now);
            let slices = Seq::new(n, |i: int| (ProgressEvent::Par2SliceWritten, now));
            let end = started.after_all(slices);
            &&& end.par2_write_done == n
            &&& end.par2_write_total == total
            &&& end.par2_write_active == (n < total)
            &&& end.par2_write_start == now
        }),
    decreases n,
{
    if n > 0 {
        law_recovery_writing_ends(state, total, (n - 1) as nat, now);
        let slices = Seq::new(n, |i: int| (ProgressEvent::Par2SliceWritten, now));
        let fewer = Seq::new((n - 1) as nat, |i: int| (ProgressEvent::Par2SliceWritten, now));
        assert(slices.drop_last() =~= fewer);
    }
}

/// The time of a status is when its text was first shown: the same text keeps it,
/// another text starts anew, and no text has none.
pub proof fn law_statuses_keep_their_time(state: Progress, text: String, now: u64, later: u64)
    ensures
        ({
            let ev = ProgressEvent::Status { text };
            let once = state.after(ev, now);
            let twice = once.after(ev, later);
            &&& once.status == text@ && twice.status == text@
            &&& text@.len() == 0 ==> once.status_since is None
            &&& text@.len() > 0 && state.status != text@ ==> once.status_since == Some(now)
            &&& twice.status_since == once.status_since
            &&& once.done_segments == state.done_segments && once.files == state.files
        }),
{
}

/// Nothing takes back an interrupt, the start or the end of a run.
pub proof fn law_marks_stay(state: Progress, ev: ProgressEvent, now: u64)
    ensures
        state.started ==> state.after(ev, now).started,
        state.finished ==> state.after(ev, now).finished,
        state.interrupted ==> state.after(ev, now).interrupted,
{
}

} // verus!

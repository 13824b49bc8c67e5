//! Progress reporting: the events of a run, the view that they build up and
//! how it is shown.

pub mod files;
pub mod layout;
pub mod line_reading;
pub mod lines;
pub mod panel;
pub mod panel_reading;
pub mod process;
pub mod state;

use vstd::prelude::*;

pub use crate::sizes::format_size;

verus! {

/// What kind of run is producing events.
#[derive(Debug, Clone, Copy, PartialEq, Eq, Structural)]
pub enum RunMode {
    /// Files are encoded and posted over NNTP.
    Post,
    /// Files are processed but never sent over the network.
    DryRun,
    /// Only PAR2 parity files are generated, written next to the sources.
    Par2Only,
}

/// One file in the run, as announced by [`ProgressEvent::Started`].
#[derive(Debug, Clone)]
pub struct FileEntry {
    pub name: String,
    pub segments: u64,
    pub bytes: u64,
}

/// An observable step of a posting run.
///
/// The stream always opens with [`Started`](ProgressEvent::Started) and ends
/// with [`Finished`](ProgressEvent::Finished); everything in between is
/// incremental. The stream ending is equivalent to `Finished`.
#[derive(Debug, Clone)]
pub enum ProgressEvent {
    /// The run begins. Carries the full work plan.
    Started {
        mode: RunMode,
        files: Vec<FileEntry>,
        /// Number of NNTP connections / worker threads (0 for `--par2-only`).
        connections: usize,
        /// `host:port` of the NNTP server, or `None` when not posting.
        target: Option<String>,
    },
    /// Worker connection `conn` started posting a segment of `file`.
    ConnectionBusy { conn: usize, file: String },
    /// Worker connection `conn` drained the queue and stopped.
    ConnectionIdle { conn: usize },
    /// One segment of `file` finished; `bytes` is its raw payload size.
    /// `ok` is false when the segment failed every retry.
    SegmentDone { file: String, bytes: u64, ok: bool },
    /// Extra work was appended to the queue: the PAR2 files, which only
    /// exist once the data pass has computed parity.
    QueueExtended { file: String, segments: u64, bytes: u64 },
    /// A short human-readable status note (empty string clears it).
    Status { text: String },
    /// A segment failed permanently after exhausting its retries.
    Failed { description: String },
    /// Ctrl-C was received; the run is winding down.
    Interrupted,
    /// Terminal event: the run is over.
    Finished,
    /// Archive compression has started. `total_bytes` is the sum of raw input
    /// sizes.
    CompressStarted { total_bytes: u64 },
    /// Archive file on disk has grown to `bytes_written` bytes.
    CompressProgress { bytes_written: u64 },
    /// Compression finished; the archive file is complete.
    CompressDone,
    /// PAR2 recovery slice writing has started; `total` slices will be written.
    Par2WriteStarted { total: u32 },
    /// One PAR2 recovery slice has been appended to its volume file on disk.
    Par2SliceWritten,
    /// Worker connection `conn` is authenticating (shown in yellow).
    ConnectionAuth { conn: usize },
    /// Worker connection `conn` is retrying a failed segment (shown in red).
    ConnectionRetrying { conn: usize },
    /// Snapshot of the buffer pool: `total` pre-allocated buffers, `free` available.
    BufferPoolStats { total: usize, free: usize },
}

/// Options controlling the built-in terminal renderer.
#[derive(Debug, Clone)]
pub struct RendererOptions {
    /// Show only a single spinning line instead of the full panel.
    pub quiet: bool,
    /// Ring the terminal bell (`\a`) when the run finishes.
    pub bell: bool,
}

impl Default for RendererOptions {
    fn default() -> (opts: RendererOptions)
        ensures
            !opts.quiet,
            !opts.bell,
    {
        RendererOptions { quiet: false, bell: false }
    }
}

/// Visual state of a single NNTP connection worker.
#[derive(Debug, Clone, Copy, PartialEq, Eq, Structural)]
pub enum ConnState {
    /// Nothing to do.
    Idle,
    /// Posting a segment.
    Busy,
    /// Authenticating.
    Auth,
    /// Posting a segment once more.
    Retrying,
}

} // verus!

//! The decisions behind a posting run: how files are cut into PAR2 slices and
//! passes, what each worker does next, and what is reported at the end.

use vstd::prelude::*;

pub mod buffers;
pub mod check;
pub mod geometry;
pub mod machine;
pub mod order;
pub mod par2_worker;
pub mod plan;
pub mod recovery_set;
pub mod slices;
pub mod worker;

verus! {

/// A posted segment, retained for later `.nzb` generation.
#[derive(Debug, Clone)]
pub struct PostedSegment {
    pub file_name: String,
    pub subject_name: String,
    pub file_size: u64,
    pub part: u32,
    pub total: u32,
    pub message_id: String,
    pub bytes: u64,
}

/// The result of a posting run.
#[derive(Debug)]
pub struct PostOutcome {
    pub segments: Vec<PostedSegment>,
    pub failures: Vec<String>,
    pub cancelled: bool,
}

} // verus!

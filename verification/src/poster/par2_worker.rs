//! The work of the thread that computes recovery data.

use vstd::prelude::*;

use crate::par2::encoder::{EncoderState, RecoveryEncoder};

verus! {

/// A unit of work for the recovery thread.
pub enum Par2Work {
    /// A completed input slice to be added to the recovery set.
    Slice(Vec<u8>),
}

/// Do one unit of work, and hand back the buffers that the encoder is done with.
pub fn perform(enc: &mut RecoveryEncoder, work: Par2Work) -> (free: Vec<Vec<u8>>)
    requires
        old(enc).wf(),
        old(enc)@.inputs().len() < old(enc)@.total,
        match work {
            Par2Work::Slice(slice) => slice@.len() == old(enc)@.slice_size,
        },
    ensures
        final(enc).wf(),
        match work {
            Par2Work::Slice(slice) => {
                &&& final(enc)@ == (EncoderState { free: 0, ..old(enc)@.fed(slice@) })
                &&& free@.len() == old(enc)@.fed(slice@).free
            },
        },
        forall|i: int| 0 <= i < free@.len() ==> (#[trigger] free@[i])@.len() == 0,
{
    match work {
        Par2Work::Slice(slice) => {
            enc.add_slice(slice);
            enc.drain_free_buffers()
        },
    }
}

} // verus!

//! Reusable article buffers.

use vstd::prelude::*;

use super::slices;

verus! {

/// Asks `Vec::capacity` how many bytes a vector holds without allocating: at
/// least as many as it has. What it is beyond that, the allocator decides.
#[verifier::external_body]
fn capacity_of(buffer: &Vec<u8>) -> (capacity: usize)
    ensures
        capacity >= buffer@.len(),
{
    buffer.capacity()
}

/// Article byte buffers that have served and wait to serve again.
pub struct BufferPool {
    pub buffers: Vec<Vec<u8>>,
    pub article_size: usize,
}

/// The pool after a buffer of a given capacity came back: it is kept when it has
/// capacity, and no more than two articles need.
pub open spec fn after_release(
    buffers: Seq<Vec<u8>>,
    article_size: nat,
    buffer: Vec<u8>,
    capacity: nat,
) -> Seq<Vec<u8>> {
    if 0 < capacity <= 2 * article_size {
        buffers.push(buffer)
    } else {
        buffers
    }
}

impl BufferPool {
    /// A pool of `count` buffers, each of the size of an article.
    pub fn new(count: usize, article_size: usize) -> (pool: BufferPool)
        ensures
            pool.article_size == article_size,
            pool.buffers@.len() == count,
            forall|i: int|
                0 <= i < count ==> (#[trigger] pool.buffers@[i])@ == slices::resized(
                    Seq::empty(),
                    article_size as nat,
                ),
    {
        let mut buffers: Vec<Vec<u8>> = Vec::new();
        let mut i: usize = 0;
        while i < count
            invariant
                i <= count,
                buffers@.len() == i,
                forall|k: int|
                    0 <= k < i ==> (#[trigger] buffers@[k])@ == slices::resized(
                        Seq::empty(),
                        article_size as nat,
                    ),
            decreases count - i,
        {
            let mut buffer: Vec<u8> = Vec::new();
            slices::resize(&mut buffer, article_size);
            buffers.push(buffer);
            i = i + 1;
        }
        BufferPool { buffers, article_size }
    }

    /// Take a buffer from the pool, or allocate a fresh one. It is exactly
    /// `size` bytes long; one from the pool keeps what it held.
    pub fn acquire_buffer(&mut self, size: usize) -> (buffer: Vec<u8>)
        ensures
            final(self).article_size == old(self).article_size,
            buffer@.len() == size,
            buffer@ == slices::resized(
                if old(self).buffers@.len() > 0 {
                    old(self).buffers@.last()@
                } else {
                    Seq::empty()
                },
                size as nat,
            ),
            final(self).buffers@ == if old(self).buffers@.len() > 0 {
                old(self).buffers@.drop_last()
            } else {
                old(self).buffers@
            },
    {
        let mut buffer: Vec<u8> = match self.buffers.pop() {
            Some(buffer) => buffer,
            None => Vec::new(),
        };
        slices::resize(&mut buffer, size);
        buffer
    }

    /// Return a buffer of a given capacity to the pool. Oversized or empty
    /// buffers are dropped: those without capacity, and those whose capacity is
    /// more than two articles.
    pub fn release_sized(&mut self, buffer: Vec<u8>, capacity: usize)
        ensures
            final(self).article_size == old(self).article_size,
            final(self).buffers@ == after_release(
                old(self).buffers@,
                old(self).article_size as nat,
                buffer,
                capacity as nat,
            ),
    {
        if capacity > 0 && (capacity - 1) / 2 < self.article_size {
            self.buffers.push(buffer);
        }
    }

    /// Return a buffer to the pool, as [`BufferPool::release_sized`] does with
    /// the capacity that the buffer has. That is at least its length; what it is
    /// beyond that, the allocator has decided.
    pub fn release_buffer(&mut self, buffer: Vec<u8>)
        ensures
            final(self).article_size == old(self).article_size,
            exists|capacity: usize|
                capacity >= buffer@.len() && final(self).buffers@ == #[trigger] after_release(
                    old(self).buffers@,
                    old(self).article_size as nat,
                    buffer,
                    capacity as nat,
                ),
            buffer@.len() > 2 * old(self).article_size ==> final(self).buffers@ == old(
                self,
            ).buffers@,
    {
        let capacity: usize = capacity_of(&buffer);
        self.release_sized(buffer, capacity);
    }
}

} // verus!

//! Batching and admission decisions for the bounded fan-out of
//! sender workers.
//!
//! The dispatcher owns only bookkeeping: the partial batch being
//! filled and the configured limits.  The caller runs the workers,
//! keeps the active-worker count, and blocks where a decision here
//! says it must: it launches a worker only when [`BatchDispatcher::can_launch`]
//! allows it, and after flushing with [`BatchDispatcher::finish`] it
//! waits until [`BatchDispatcher::is_drained`] holds, so that no pixel
//! is still in flight when a dispatch run returns.

use vstd::prelude::*;

use crate::pixel::Pixel;

verus! {

/// Splits a submitted pixel stream into bounded batches and decides
/// admission and drain for the workers that send them.
#[derive(Debug)]
pub struct BatchDispatcher {
    /// A batch is handed out as soon as it reaches this many pixels.
    pub batch_size: usize,
    /// At most this many workers may run at once.
    pub max_workers: usize,
    /// The partial batch still being filled.
    pub pending: Vec<Pixel>,
}

impl BatchDispatcher {
    /// The dispatcher's invariant: both limits are at least one, and
    /// the partial batch is strictly below the batch size (a full
    /// batch never stays pending).
    pub open spec fn wf(self) -> bool {
        &&& self.batch_size >= 1
        &&& self.max_workers >= 1
        &&& self.pending@.len() < self.batch_size
    }

    /// A dispatcher with the given limits and an empty partial batch.
    /// A limit of zero is treated as one, never as unbounded.
    pub fn new(batch_size: usize, max_workers: usize) -> (r: BatchDispatcher)
        ensures
            r.wf(),
            r.batch_size == (if batch_size == 0 {
                1usize
            } else {
                batch_size
            }),
            r.max_workers == (if max_workers == 0 {
                1usize
            } else {
                max_workers
            }),
            r.pending@ == Seq::<Pixel>::empty(),
    {
        BatchDispatcher {
            batch_size: if batch_size == 0 {
                1
            } else {
                batch_size
            },
            max_workers: if max_workers == 0 {
                1
            } else {
                max_workers
            },
            pending: Vec::new(),
        }
    }

    /// Appends one pixel to the partial batch; exactly when that
    /// fills it to the batch size, the full batch is handed back for
    /// launching and the partial batch starts over empty.
    pub fn submit(&mut self, pixel: Pixel) -> (r: Option<Vec<Pixel>>)
        requires
            old(self).wf(),
        ensures
            final(self).wf(),
            final(self).batch_size == old(self).batch_size,
            final(self).max_workers == old(self).max_workers,
            match r {
                Some(batch) => {
                    &&& old(self).pending@.len() + 1 == old(self).batch_size
                    &&& batch@ == old(self).pending@.push(pixel)
                    &&& final(self).pending@ == Seq::<Pixel>::empty()
                },
                None => {
                    &&& old(self).pending@.len() + 1 < old(self).batch_size
                    &&& final(self).pending@ == old(self).pending@.push(pixel)
                },
            },
    {
        self.pending.push(pixel);
        if self.pending.len() >= self.batch_size {
            let mut batch: Vec<Pixel> = Vec::new();
            core::mem::swap(&mut batch, &mut self.pending);
            Some(batch)
        } else {
            None
        }
    }

    /// Flushes the trailing partial batch: hands it back when it is
    /// nonempty, and leaves nothing pending either way.  Once the
    /// caller has launched what this returns and waited for
    /// [`Self::is_drained`], no pixel of the run is still in flight,
    /// and no further batch can appear without a new submission.
    pub fn finish(&mut self) -> (r: Option<Vec<Pixel>>)
        requires
            old(self).wf(),
        ensures
            final(self).wf(),
            final(self).batch_size == old(self).batch_size,
            final(self).max_workers == old(self).max_workers,
            final(self).pending@ == Seq::<Pixel>::empty(),
            match r {
                Some(batch) => {
                    &&& old(self).pending@.len() > 0
                    &&& batch@ == old(self).pending@
                },
                None => old(self).pending@.len() == 0,
            },
    {
        if self.pending.len() > 0 {
            let mut batch: Vec<Pixel> = Vec::new();
            core::mem::swap(&mut batch, &mut self.pending);
            Some(batch)
        } else {
            None
        }
    }

    /// Admission control: a new worker may start exactly while the
    /// count of running workers is below the configured limit.
    pub fn can_launch(&self, active_workers: usize) -> (r: bool)
        ensures
            r == (active_workers < self.max_workers),
    {
        active_workers < self.max_workers
    }

    /// The drain barrier's condition: the run is drained exactly when
    /// the active-worker count has returned to zero.
    pub fn is_drained(&self, active_workers: usize) -> (r: bool)
        ensures
            r == (active_workers == 0),
    {
        active_workers == 0
    }
}

} // verus!

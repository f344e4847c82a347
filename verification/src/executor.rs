//! The batching policy of the execution pipeline: operations accumulate in
//! arrival order and come out as a batch exactly when the size threshold
//! is reached, or on demand when the deadline outside fires. The channel,
//! the timer and the egress live outside the library.

use vstd::prelude::*;

use crate::models::Operation;

verus! {

/// The micro-batching buffer of the executor.
#[derive(Debug)]
pub struct Batcher {
    /// Operations waiting, in arrival order.
    batch: Vec<Operation>,
    /// Flush as soon as this many wait.
    batch_size: usize,
}

impl Batcher {
    /// The waiting operations, in arrival order.
    pub closed spec fn pending(self) -> Seq<Operation> {
        self.batch@
    }

    /// The flush threshold.
    pub closed spec fn spec_batch_size(self) -> usize {
        self.batch_size
    }

    /// An empty buffer with the given threshold.
    pub fn new(batch_size: usize) -> (r: Batcher)
        ensures
            r.pending().len() == 0,
            r.spec_batch_size() == batch_size,
    {
        Batcher { batch: Vec::new(), batch_size }
    }

    /// Appends one operation. When the threshold is reached the whole
    /// batch comes back, in arrival order, and the buffer empties; below
    /// it the operation just waits.
    pub fn push(&mut self, operation: Operation) -> (r: Option<Vec<Operation>>)
        ensures
            final(self).spec_batch_size() == old(self).spec_batch_size(),
            match r {
                Some(batch) => {
                    &&& batch@ == old(self).pending().push(operation)
                    &&& batch@.len() >= old(self).spec_batch_size()
                    &&& final(self).pending().len() == 0
                },
                None => {
                    &&& final(self).pending() == old(self).pending().push(operation)
                    &&& old(self).pending().len() + 1 < old(self).spec_batch_size()
                },
            },
    {
        self.batch.push(operation);
        if self.batch.len() >= self.batch_size {
            let out = self.batch.split_off(0);
            proof {
                assert(out@ =~= old(self).pending().push(operation));
                assert(self.batch@ =~= Seq::<Operation>::empty());
            }
            Some(out)
        } else {
            None
        }
    }

    /// Takes whatever waits, for the deadline flush: the batch in arrival
    /// order when anything waits, nothing otherwise.
    pub fn drain(&mut self) -> (r: Option<Vec<Operation>>)
        ensures
            final(self).spec_batch_size() == old(self).spec_batch_size(),
            final(self).pending().len() == 0,
            match r {
                Some(batch) => batch@ == old(self).pending() && batch@.len() > 0,
                None => old(self).pending().len() == 0,
            },
    {
        if self.batch.len() == 0 {
            None
        } else {
            let out = self.batch.split_off(0);
            proof {
                assert(out@ =~= old(self).pending());
                assert(self.batch@ =~= Seq::<Operation>::empty());
            }
            Some(out)
        }
    }
}

} // verus!

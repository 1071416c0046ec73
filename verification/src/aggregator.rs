//! The shared result of a run.

use vstd::prelude::*;
use crate::error::RunError;

verus! {

/// The one collection into which every worker merges its local result.
///
/// The value itself knows nothing of locks: a caller that runs its workers
/// on threads keeps it behind one mutual exclusion and holds that only for
/// the call of [`SharedResult::merge`]. Its view is the sequence of merged
/// items, in the order in which the merges came.
pub struct SharedResult {
    items: Vec<usize>,
    merges: usize,
}

impl View for SharedResult {
    type V = Seq<usize>;

    closed spec fn view(&self) -> Seq<usize> {
        self.items@
    }
}

impl SharedResult {
    /// How many local results have been merged so far.
    pub closed spec fn merges(&self) -> nat {
        self.merges as nat
    }

    /// What [`SharedResult::report`] answers when `workers` merges are due.
    pub open spec fn report_spec(&self, workers: usize) -> Result<usize, RunError> {
        if self.merges() == workers {
            Ok(self@.len() as usize)
        } else {
            Err(RunError::WorkerLost)
        }
    }

    /// An empty result with no merge behind it.
    pub fn new() -> (shared: Self)
        ensures
            shared@ == Seq::<usize>::empty(),
            shared.merges() == 0,
    {
        SharedResult { items: Vec::new(), merges: 0 }
    }

    /// Appends the whole of `local` behind what is already there and counts
    /// the merge. Nothing that was merged before is touched.
    pub fn merge(&mut self, local: Vec<usize>)
        requires
            old(self).merges() < usize::MAX,
        ensures
            final(self)@ == old(self)@ + local@,
            final(self).merges() == old(self).merges() + 1,
    {
        let mut local = local;
        self.items.append(&mut local);
        self.merges = self.merges + 1;
    }

    /// The number of items merged so far.
    pub fn len(&self) -> (count: usize)
        ensures
            count == self@.len(),
    {
        self.items.len()
    }

    /// The number of merges so far.
    pub fn merge_count(&self) -> (count: usize)
        ensures
            count == self.merges(),
    {
        self.merges
    }

    /// The merged items, in merge order.
    pub fn items(&self) -> (items: &[usize])
        ensures
            items@ == self@,
    {
        self.items.as_slice()
    }

    /// Reads the result once all workers have ended: the number of matches
    /// if as many merges came as there are workers, and the loss of a worker
    /// otherwise.
    pub fn report(&self, workers: usize) -> (outcome: Result<usize, RunError>)
        ensures
            outcome == self.report_spec(workers),
    {
        if self.merges == workers {
            Ok(self.items.len())
        } else {
            Err(RunError::WorkerLost)
        }
    }
}

} // verus!

//! Why a run can fail.

use vstd::prelude::*;

verus! {

/// The failures of a run. Either one ends the run as a whole: nothing is
/// retried and no partial count is reported.
#[derive(Clone, Copy, Debug, PartialEq, Eq, Structural)]
pub enum RunError {
    /// The number of workers came out as zero. Found before any work starts.
    NoWorkers,
    /// The number of merges differs from the number of workers: a worker
    /// ended without merging, so the count would be short.
    WorkerLost,
}

} // verus!

//! Partitioned prime search: the work-distribution and result-aggregation
//! core of a batch job that finds the primes below a bound with a fixed
//! number of workers.
//!
//! The crate holds the pieces that decide what a run computes:
//!
//! * [`predicate`]: the test applied to every item;
//! * [`domain`]: the domain `[0, n)` and the reference count over it;
//! * [`partition`]: the two slicing policies, and [`cover`]: the proof that
//!   either hands every item to exactly one worker;
//! * [`worker`]: the task that turns a chunk into a local result;
//! * [`aggregator`]: the shared result into which the local results merge;
//! * [`run`]: a whole run, and the proof that its count does not depend on
//!   the policy, the number of workers or the order of the merges.
//!
//! Every function is verified against a mathematical model of the run. The
//! run in [`run`] takes its workers one after another; a caller that wants
//! them on threads spawns and joins them itself and uses the same pieces.
//! What comes from outside the crate is declared, and taken on trust, in
//! [`host`].

pub mod aggregator;
pub mod cover;
pub mod domain;
pub mod error;
pub mod host;
pub mod partition;
pub mod predicate;
pub mod run;
pub mod sequences;
pub mod worker;

pub use crate::aggregator::SharedResult;
pub use crate::domain::{build_domain, sequential_count};
pub use crate::error::RunError;
pub use crate::partition::{
    block_boundary, block_chunks, deal_rows, distribute, interleaved_chunks, partition, rows,
    shuffle_items, SlicePolicy,
};
pub use crate::predicate::is_prime;
pub use crate::run::{
    gather, merge_joined, resolve_worker_count, run, run_with_workers, worker_count, RunReport,
};
pub use crate::worker::collect_matches;

//! A whole run: settle the number of workers, lay out the domain, slice it,
//! let every worker collect and merge, and report the count.
//!
//! The run here takes the workers one after another on the calling thread.
//! That is one of the orders in which a parallel run may come to pass; what
//! holds of every order is stated by [`lemma_any_merge_order`].

use vstd::prelude::*;
use vstd::seq_lib::to_multiset_len;
use vstd::slice::slice_to_vec;
use crate::aggregator::SharedResult;
use crate::cover::{covers, lemma_partition_covers};
use crate::domain::{
    build_domain, domain_seq, lemma_local_results_flatten, lemma_matches_of_permutation,
    local_results, matches_of, reference_count,
};
use crate::error::RunError;
use crate::partition::{distribute, views_of, SlicePolicy};
use crate::sequences::lemma_flatten_any_order;
use crate::worker::collect_matches;

verus! {

/// What a run reports: how many items matched, and how long the workers took
/// from the moment the domain stood ready to the moment the last of them had
/// merged.
#[derive(Clone, Copy, Debug)]
pub struct RunReport {
    pub match_count: usize,
    pub elapsed: core::time::Duration,
}

/// The number of workers that a hint and the host's answer resolve to: the
/// hint where one is given, else the host's answer; zero is refused.
pub open spec fn resolved_workers(hint: Option<usize>, available: usize) -> Result<
    usize,
    RunError,
> {
    let workers = match hint {
        Some(wanted) => wanted,
        None => available,
    };
    if workers >= 1 {
        Ok(workers)
    } else {
        Err(RunError::NoWorkers)
    }
}

/// Settles the number of workers from the caller's hint and the number of
/// processors that the host reported.
pub fn resolve_worker_count(hint: Option<usize>, available: usize) -> (resolved: Result<
    usize,
    RunError,
>)
    ensures
        resolved == resolved_workers(hint, available),
{
    let workers = match hint {
        Some(wanted) => wanted,
        None => available,
    };
    if workers >= 1 {
        Ok(workers)
    } else {
        Err(RunError::NoWorkers)
    }
}

/// Settles the number of workers, asking the host only where the caller
/// gave no hint.
///
/// With a hint the answer is fixed. Without one it is whatever the host
/// reports, and zero is refused there too.
pub fn worker_count(hint: Option<usize>) -> (resolved: Result<usize, RunError>)
    ensures
        hint is Some ==> resolved == resolved_workers(hint, 0),
        hint is None ==> exists|available: usize| resolved == resolved_workers(hint, available),
{
    match hint {
        Some(_) => resolve_worker_count(hint, 0),
        None => {
            let available = num_cpus::get();
            resolve_worker_count(hint, available)
        },
    }
}

/// Lets a worker collect the matches of each chunk and merges the local
/// results, worker by worker, into one shared result.
pub fn gather(chunks: &Vec<Vec<usize>>) -> (shared: SharedResult)
    ensures
        shared@ == local_results(views_of(chunks@)).flatten(),
        shared.merges() == chunks@.len(),
{
    let mut shared = SharedResult::new();
    let ghost locals = local_results(views_of(chunks@));
    assert(locals.take(0).flatten() =~= Seq::<usize>::empty());
    for k in 0..chunks.len()
        invariant
            locals == local_results(views_of(chunks@)),
            shared@ == locals.take(k as int).flatten(),
            shared.merges() == k,
    {
        let local = collect_matches(chunks[k].as_slice());
        proof {
            assert(views_of(chunks@)[k as int] == chunks@[k as int]@);
            assert(locals.take(k + 1) =~= locals.take(k as int).push(local@));
            locals.take(k as int).lemma_flatten_push(local@);
        }
        shared.merge(local);
    }
    assert(locals.take(chunks@.len() as int) =~= locals);
    shared
}

/// The local results that the workers handed back, worker by worker; a
/// worker that handed nothing back stands as an empty result.
pub open spec fn handed_back(outcomes: Seq<Option<Vec<usize>>>) -> Seq<Seq<usize>> {
    Seq::new(
        outcomes.len(),
        |k: int|
            match outcomes[k] {
                Some(local) => local@,
                None => Seq::empty(),
            },
    )
}

/// Merges what the workers handed back when they were joined, in the order
/// of the workers.
///
/// A worker that ended without a result stands as `None`. One such worker
/// fails the whole run: no count is reported that could be short.
pub fn merge_joined(outcomes: &Vec<Option<Vec<usize>>>) -> (merged: Result<SharedResult, RunError>)
    ensures
        merged is Ok <==> forall|k: int| 0 <= k < outcomes@.len() ==> outcomes@[k] is Some,
        merged matches Ok(shared) ==> shared@ == handed_back(outcomes@).flatten()
            && shared.merges() == outcomes@.len(),
        merged matches Err(failure) ==> failure == RunError::WorkerLost,
{
    let mut shared = SharedResult::new();
    assert(handed_back(outcomes@).take(0).flatten() =~= Seq::<usize>::empty());
    for k in 0..outcomes.len()
        invariant
            forall|j: int| 0 <= j < k ==> outcomes@[j] is Some,
            shared@ == handed_back(outcomes@).take(k as int).flatten(),
            shared.merges() == k,
    {
        match &outcomes[k] {
            Some(local) => {
                let copy = slice_to_vec(local.as_slice());
                proof {
                    let all = handed_back(outcomes@);
                    assert(all.take(k + 1) =~= all.take(k as int).push(copy@));
                    all.take(k as int).lemma_flatten_push(copy@);
                }
                shared.merge(copy);
            },
            None => {
                return Err(RunError::WorkerLost);
            },
        }
    }
    assert(handed_back(outcomes@).take(outcomes@.len() as int) =~= handed_back(outcomes@));
    Ok(shared)
}

/// Runs over `[0, domain_size)` with a settled number of workers.
///
/// The clock is read once the domain stands and again once the last worker
/// has merged, so the time covers shuffling, slicing, collecting and merging.
pub fn run_with_workers(domain_size: usize, workers: usize, policy: SlicePolicy) -> (outcome:
    Result<RunReport, RunError>)
    requires
        workers >= 1,
    ensures
        outcome matches Ok(report) && report.match_count == reference_count(domain_size as nat),
{
    let mut items = build_domain(domain_size);
    let start = std::time::Instant::now();
    let chunks = distribute(&mut items, workers, policy);
    let shared = gather(&chunks);
    let elapsed = start.elapsed();
    proof {
        lemma_partition_covers(items@, workers as nat, policy);
        lemma_any_merge_order(
            domain_size as nat,
            views_of(chunks@),
            local_results(views_of(chunks@)),
        );
    }
    match shared.report(workers) {
        Ok(match_count) => Ok(RunReport { match_count, elapsed }),
        Err(lost) => Err(lost),
    }
}

/// What [`run`] promises of its outcome.
///
/// With a hint of at least one worker the run succeeds; with a hint of zero
/// it fails for want of workers. Without a hint the host decides between the
/// two. Whenever the run succeeds, its count is the reference count of the
/// domain, whatever the policy and the number of workers.
pub open spec fn run_spec(
    domain_size: usize,
    worker_count_hint: Option<usize>,
    outcome: Result<RunReport, RunError>,
) -> bool {
    &&& worker_count_hint matches Some(wanted) ==> (outcome is Ok <==> wanted >= 1)
    &&& outcome matches Ok(report) ==> report.match_count == reference_count(domain_size as nat)
    &&& outcome matches Err(failure) ==> failure == RunError::NoWorkers
}

/// Counts the matches in `[0, domain_size)` with the number of workers that
/// the hint, or else the host, gives.
///
/// The number of workers is settled first; if it is zero the run fails
/// before any work is done.
pub fn run(domain_size: usize, worker_count_hint: Option<usize>, policy: SlicePolicy) -> (outcome:
    Result<RunReport, RunError>)
    ensures
        run_spec(domain_size, worker_count_hint, outcome),
{
    match worker_count(worker_count_hint) {
        Ok(workers) => run_with_workers(domain_size, workers, policy),
        Err(failure) => Err(failure),
    }
}

/// Running again with the same domain size and the same number of workers
/// gives the same outcome, the time apart: the same count, or the same
/// failure. The policies may differ and the shuffles fall as they will.
pub proof fn lemma_run_is_repeatable(
    domain_size: usize,
    workers: usize,
    first: Result<RunReport, RunError>,
    second: Result<RunReport, RunError>,
)
    requires
        run_spec(domain_size, Some(workers), first),
        run_spec(domain_size, Some(workers), second),
    ensures
        first is Ok <==> second is Ok,
        first is Ok ==> first->Ok_0.match_count == second->Ok_0.match_count,
        first is Err ==> first->Err_0 == second->Err_0,
{
}

/// Chunks that cover the items hold, in their local results, the matches of
/// the items: each match as often as it occurs among the items, and nothing
/// else.
pub proof fn lemma_local_results_cover_matches(chunks: Seq<Seq<usize>>, items: Seq<usize>)
    requires
        covers(chunks, items),
    ensures
        local_results(chunks).flatten().to_multiset() == matches_of(items).to_multiset(),
        local_results(chunks).flatten().len() == matches_of(items).len(),
{
    lemma_local_results_flatten(chunks);
    lemma_matches_of_permutation(chunks.flatten(), items);
}

/// However the domain `[0, n)` is cut into chunks that cover it, and
/// whatever order the workers merge in, the shared result ends up holding
/// the matches of the domain, each once, and so the reference count of them.
///
/// `chunks` are the chunks that the workers got, `merged` their local
/// results in the order in which they were merged.
pub proof fn lemma_any_merge_order(n: nat, chunks: Seq<Seq<usize>>, merged: Seq<Seq<usize>>)
    requires
        covers(chunks, domain_seq(n)),
        merged.to_multiset() == local_results(chunks).to_multiset(),
    ensures
        merged.flatten().to_multiset() == matches_of(domain_seq(n)).to_multiset(),
        merged.flatten().len() == reference_count(n),
{
    lemma_flatten_any_order(merged, local_results(chunks));
    lemma_local_results_cover_matches(chunks, domain_seq(n));
    to_multiset_len(merged.flatten());
    to_multiset_len(local_results(chunks).flatten());
}

} // verus!

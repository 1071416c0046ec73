//! The task that one worker runs on its chunk.

use vstd::prelude::*;
use crate::domain::{lemma_matches_of_empty, lemma_matches_of_take_next, matches_of};
use crate::predicate::is_prime;

verus! {

/// Applies the predicate to every item of `chunk` and returns the matches in
/// the order in which they were met.
///
/// The result is private to the caller until it is merged; an empty chunk
/// gives an empty result.
pub fn collect_matches(chunk: &[usize]) -> (local: Vec<usize>)
    ensures
        local@ == matches_of(chunk@),
{
    let mut local: Vec<usize> = Vec::new();
    proof {
        assert(chunk@.take(0) =~= Seq::<usize>::empty());
        lemma_matches_of_empty();
    }
    for i in 0..chunk.len()
        invariant
            local@ == matches_of(chunk@.take(i as int)),
    {
        proof {
            lemma_matches_of_take_next(chunk@, i as int);
        }
        let item = chunk[i];
        if is_prime(item) {
            local.push(item);
        }
    }
    assert(chunk@.take(chunk@.len() as int) =~= chunk@);
    local
}

} // verus!

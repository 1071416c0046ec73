//! The domain of a run and the reference answer over it.

use vstd::prelude::*;
use vstd::seq_lib::{to_multiset_build, to_multiset_len};
use crate::predicate::{divides, is_prime, is_prime_spec};

verus! {

/// The ordered domain `[0, n)`.
pub open spec fn domain_seq(n: nat) -> Seq<usize> {
    Seq::new(n, |i: int| i as usize)
}

/// The items of `items` that satisfy the predicate, in the order in which
/// they occur.
pub open spec fn matches_of(items: Seq<usize>) -> Seq<usize> {
    items.filter(|x: usize| is_prime_spec(x as nat))
}

/// The number of matches in `[0, n)`: what every run over that domain must
/// report.
pub open spec fn reference_count(n: nat) -> nat {
    matches_of(domain_seq(n)).len()
}

/// Taking one more item of `items` adds it to the matches exactly when it
/// satisfies the predicate.
pub proof fn lemma_matches_of_take_next(items: Seq<usize>, i: int)
    requires
        0 <= i < items.len(),
    ensures
        matches_of(items.take(i + 1)) == if is_prime_spec(items[i] as nat) {
            matches_of(items.take(i)).push(items[i])
        } else {
            matches_of(items.take(i))
        },
{
    assert(items.take(i + 1) =~= items.take(i).push(items[i]));
    items.take(i).lemma_filter_push(items[i], |x: usize| is_prime_spec(x as nat));
}

/// The matches of a concatenation are the matches of its parts, in order.
pub proof fn lemma_matches_of_concat(a: Seq<usize>, b: Seq<usize>)
    ensures
        matches_of(a + b) == matches_of(a) + matches_of(b),
{
    Seq::filter_distributes_over_add(a, b, |x: usize| is_prime_spec(x as nat));
}

/// Nothing matches in an empty sequence.
pub proof fn lemma_matches_of_empty()
    ensures
        matches_of(Seq::<usize>::empty()) == Seq::<usize>::empty(),
{
    reveal(Seq::filter);
}

/// The matches of the domain `[0, n)` are the primes below `n`, each once and
/// in ascending order; the reference count is their number.
pub proof fn lemma_reference_matches(n: nat)
    requires
        n <= usize::MAX,
    ensures
        forall|x: usize|
            #[trigger] matches_of(domain_seq(n)).contains(x) <==> x < n && is_prime_spec(
                x as nat,
            ),
        forall|a: int, b: int|
            #![trigger matches_of(domain_seq(n))[a], matches_of(domain_seq(n))[b]]
            0 <= a < b < matches_of(domain_seq(n)).len() ==> matches_of(domain_seq(n))[a]
                < matches_of(domain_seq(n))[b],
    decreases n,
{
    let found = matches_of(domain_seq(n));
    if n == 0 {
        assert(domain_seq(0) =~= Seq::<usize>::empty());
        lemma_matches_of_empty();
    } else {
        let below = (n - 1) as nat;
        let last = below as usize;
        let before = matches_of(domain_seq(below));
        lemma_reference_matches(below);
        assert(domain_seq(n).take(below as int) =~= domain_seq(below));
        assert(domain_seq(n).take(n as int) =~= domain_seq(n));
        lemma_matches_of_take_next(domain_seq(n), below as int);
        assert forall|x: usize| #[trigger] found.contains(x) <==> x < n && is_prime_spec(
            x as nat,
        ) by {
            if is_prime_spec(last as nat) {
                assert(found == before.push(last));
                assert(found[before.len() as int] == last);
                if found.contains(x) && x != last {
                    let i = choose|i: int| 0 <= i < found.len() && found[i] == x;
                    assert(before[i] == x);
                }
                if before.contains(x) {
                    let i = choose|i: int| 0 <= i < before.len() && before[i] == x;
                    assert(found[i] == x);
                }
            }
        }
        assert forall|a: int, b: int| 0 <= a < b < found.len() implies #[trigger] found[a]
            < #[trigger] found[b] by {
            assert(before.contains(found[a]));
            if b < before.len() {
                assert(before[a] < before[b]);
            }
        }
    }
}

/// Neither zero nor one is a match, so a domain of at most two items holds
/// no match at all.
pub proof fn lemma_reference_count_of_small_domains(n: nat)
    requires
        n <= 2,
    ensures
        reference_count(n) == 0,
{
    let keep = |x: usize| is_prime_spec(x as nat);
    reveal_with_fuel(Seq::filter, 3);
    assert(domain_seq(0) =~= Seq::<usize>::empty());
    assert(domain_seq(1).drop_last() =~= domain_seq(0));
    assert(domain_seq(2).drop_last() =~= domain_seq(1));
    assert(!keep(0usize));
    assert(!keep(1usize));
}

/// The domain `[0, 10)` holds the four matches 2, 3, 5 and 7.
pub proof fn lemma_reference_count_of_ten()
    ensures
        matches_of(domain_seq(10)) == seq![2usize, 3usize, 5usize, 7usize],
        reference_count(10) == 4,
{
    let ten = domain_seq(10);
    assert(!is_prime_spec(0) && !is_prime_spec(1));
    assert(is_prime_spec(2));
    assert(is_prime_spec(3)) by {
        assert forall|d: nat| 2 <= d < 3 implies !#[trigger] divides(d, 3) by {}
    }
    assert(!is_prime_spec(4)) by {
        assert(divides(2, 4));
    }
    assert(is_prime_spec(5)) by {
        assert forall|d: nat| 2 <= d < 5 implies !#[trigger] divides(d, 5) by {
            assert(d == 2 || d == 3 || d == 4);
        }
    }
    assert(!is_prime_spec(6)) by {
        assert(divides(2, 6));
    }
    assert(is_prime_spec(7)) by {
        assert forall|d: nat| 2 <= d < 7 implies !#[trigger] divides(d, 7) by {
            assert(d == 2 || d == 3 || d == 4 || d == 5 || d == 6);
        }
    }
    assert(!is_prime_spec(8)) by {
        assert(divides(2, 8));
    }
    assert(!is_prime_spec(9)) by {
        assert(divides(3, 9));
    }
    assert(matches_of(ten.take(0)) == Seq::<usize>::empty()) by {
        assert(ten.take(0) =~= Seq::<usize>::empty());
        lemma_matches_of_empty();
    }
    lemma_matches_of_take_next(ten, 0);
    lemma_matches_of_take_next(ten, 1);
    lemma_matches_of_take_next(ten, 2);
    lemma_matches_of_take_next(ten, 3);
    lemma_matches_of_take_next(ten, 4);
    lemma_matches_of_take_next(ten, 5);
    lemma_matches_of_take_next(ten, 6);
    lemma_matches_of_take_next(ten, 7);
    lemma_matches_of_take_next(ten, 8);
    lemma_matches_of_take_next(ten, 9);
    assert(ten.take(10) =~= ten);
    assert(matches_of(ten) =~= seq![2usize, 3usize, 5usize, 7usize]);
}

/// The local results of a set of chunks: for each chunk its matches.
pub open spec fn local_results(chunks: Seq<Seq<usize>>) -> Seq<Seq<usize>> {
    Seq::new(chunks.len(), |k: int| matches_of(chunks[k]))
}

/// The matches of `items`, as a multiset, are the items of `items` that
/// satisfy the predicate, each as often as it occurs.
pub proof fn lemma_matches_of_multiset(items: Seq<usize>)
    ensures
        matches_of(items).to_multiset() == items.to_multiset().filter(
            |x: usize| is_prime_spec(x as nat),
        ),
    decreases items.len(),
{
    broadcast use vstd::multiset::group_multiset_axioms;

    let keep = |x: usize| is_prime_spec(x as nat);
    if items.len() == 0 {
        lemma_matches_of_empty();
        to_multiset_len(items);
        to_multiset_len(matches_of(items));
        assert(matches_of(items).to_multiset() =~= items.to_multiset().filter(keep));
    } else {
        let rest = items.drop_last();
        let last = items.last();
        lemma_matches_of_multiset(rest);
        assert(items =~= rest.push(last));
        rest.lemma_filter_push(last, keep);
        to_multiset_build(rest, last);
        to_multiset_build(matches_of(rest), last);
        assert(matches_of(items).to_multiset() =~= items.to_multiset().filter(keep));
    }
}

/// Reordering the items reorders the matches and changes nothing else: the
/// same items match, as often, and so as many.
pub proof fn lemma_matches_of_permutation(a: Seq<usize>, b: Seq<usize>)
    requires
        a.to_multiset() == b.to_multiset(),
    ensures
        matches_of(a).to_multiset() == matches_of(b).to_multiset(),
        matches_of(a).len() == matches_of(b).len(),
{
    lemma_matches_of_multiset(a);
    lemma_matches_of_multiset(b);
    to_multiset_len(matches_of(a));
    to_multiset_len(matches_of(b));
}

/// The local results of the chunks, laid end to end, are the matches of the
/// chunks laid end to end.
pub proof fn lemma_local_results_flatten(chunks: Seq<Seq<usize>>)
    ensures
        local_results(chunks).flatten() == matches_of(chunks.flatten()),
    decreases chunks.len(),
{
    if chunks.len() == 0 {
        lemma_matches_of_empty();
        assert(local_results(chunks).flatten() =~= Seq::<usize>::empty());
        assert(chunks.flatten() =~= Seq::<usize>::empty());
    } else {
        let rest = chunks.drop_last();
        let last = chunks.last();
        lemma_local_results_flatten(rest);
        assert(chunks =~= rest.push(last));
        assert(local_results(chunks) =~= local_results(rest).push(matches_of(last)));
        rest.lemma_flatten_push(last);
        local_results(rest).lemma_flatten_push(matches_of(last));
        lemma_matches_of_concat(rest.flatten(), last);
    }
}

/// Builds the domain `[0, n)` in ascending order.
pub fn build_domain(n: usize) -> (items: Vec<usize>)
    ensures
        items@ == domain_seq(n as nat),
{
    let mut items: Vec<usize> = Vec::new();
    for i in 0..n
        invariant
            items@ == domain_seq(i as nat),
    {
        items.push(i);
        assert(items@ =~= domain_seq((i + 1) as nat));
    }
    items
}

/// Counts the matches in `[0, n)` by walking the domain once, in order, on
/// the calling thread.
pub fn sequential_count(n: usize) -> (count: usize)
    ensures
        count == reference_count(n as nat),
{
    let mut count: usize = 0;
    proof {
        assert(domain_seq(0) =~= Seq::<usize>::empty());
        lemma_matches_of_empty();
    }
    for i in 0..n
        invariant
            count == reference_count(i as nat),
            count <= i,
    {
        proof {
            let next = domain_seq((i + 1) as nat);
            assert(next.take(i as int) =~= domain_seq(i as nat));
            assert(next.take(i + 1) =~= next);
            lemma_matches_of_take_next(next, i as int);
        }
        if is_prime(i) {
            count += 1;
        }
    }
    count
}

} // verus!

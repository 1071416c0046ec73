//! Facts about sequences of sequences and their multisets that the slicing
//! and merging proofs share.

use vstd::prelude::*;
use vstd::seq_lib::{
    lemma_flatten_concat, lemma_multiset_commutative, to_multiset_build, to_multiset_contains,
    to_multiset_len, to_multiset_remove,
};

verus! {

/// Flattening a sequence whose members are all empty gives the empty
/// sequence.
pub proof fn lemma_flatten_of_empties<A>(s: Seq<Seq<A>>)
    requires
        forall|i: int| 0 <= i < s.len() ==> (#[trigger] s[i]).len() == 0,
    ensures
        s.flatten() == Seq::<A>::empty(),
    decreases s.len(),
{
    if s.len() > 0 {
        lemma_flatten_of_empties(s.drop_last());
        assert(s =~= s.drop_last().push(s.last()));
        s.drop_last().lemma_flatten_push(s.last());
        assert(s.flatten() =~= Seq::<A>::empty());
    }
}

/// A sequence of non-empty members is, flattened, at least as long as it has
/// members.
pub proof fn lemma_flatten_len_of_nonempty<A>(s: Seq<Seq<A>>)
    requires
        forall|i: int| 0 <= i < s.len() ==> (#[trigger] s[i]).len() >= 1,
    ensures
        s.flatten().len() >= s.len(),
    decreases s.len(),
{
    if s.len() > 0 {
        lemma_flatten_len_of_nonempty(s.drop_last());
        assert(s =~= s.drop_last().push(s.last()));
        s.drop_last().lemma_flatten_push(s.last());
    }
}

/// Taking member `i` out of `s` takes its items, and no others, out of the
/// flattened sequence.
pub proof fn lemma_flatten_remove<A>(s: Seq<Seq<A>>, i: int)
    requires
        0 <= i < s.len(),
    ensures
        s.flatten().to_multiset() == s.remove(i).flatten().to_multiset().add(s[i].to_multiset()),
{
    broadcast use vstd::multiset::group_multiset_axioms;

    let before = s.take(i);
    let after = s.skip(i + 1);
    assert(s =~= before.push(s[i]) + after);
    assert(s.remove(i) =~= before + after);
    lemma_flatten_concat(before.push(s[i]), after);
    lemma_flatten_concat(before, after);
    before.lemma_flatten_push(s[i]);
    lemma_multiset_commutative(before.flatten() + s[i], after.flatten());
    lemma_multiset_commutative(before.flatten(), s[i]);
    lemma_multiset_commutative(before.flatten(), after.flatten());
    assert(s.flatten().to_multiset() =~= s.remove(i).flatten().to_multiset().add(
        s[i].to_multiset(),
    ));
}

/// Appending `extra` to member `i` of `s` adds the items of `extra`, and no
/// others, to the flattened sequence.
pub proof fn lemma_flatten_append_at<A>(s: Seq<Seq<A>>, i: int, extra: Seq<A>)
    requires
        0 <= i < s.len(),
    ensures
        s.update(i, s[i] + extra).flatten().to_multiset() == s.flatten().to_multiset().add(
            extra.to_multiset(),
        ),
{
    broadcast use vstd::multiset::group_multiset_axioms;

    let grown = s.update(i, s[i] + extra);
    lemma_flatten_remove(s, i);
    lemma_flatten_remove(grown, i);
    assert(grown.remove(i) =~= s.remove(i));
    lemma_multiset_commutative(s[i], extra);
    assert(grown.flatten().to_multiset() =~= s.flatten().to_multiset().add(extra.to_multiset()));
}

/// Flattening does not depend on the order of the members, as far as the
/// multiset of items goes.
pub proof fn lemma_flatten_any_order<A>(a: Seq<Seq<A>>, b: Seq<Seq<A>>)
    requires
        a.to_multiset() == b.to_multiset(),
    ensures
        a.flatten().to_multiset() == b.flatten().to_multiset(),
    decreases a.len(),
{
    broadcast use vstd::multiset::group_multiset_axioms;

    to_multiset_len(a);
    to_multiset_len(b);
    if a.len() == 0 {
        assert(a.flatten() =~= b.flatten());
    } else {
        let last = a.last();
        let rest = a.drop_last();
        assert(a =~= rest.push(last));
        to_multiset_build(rest, last);
        to_multiset_contains(b, last);
        assert(b.to_multiset().count(last) > 0);
        let i = choose|i: int| 0 <= i < b.len() && b[i] == last;
        to_multiset_remove(b, i);
        assert(rest.to_multiset() =~= b.remove(i).to_multiset());
        lemma_flatten_any_order(rest, b.remove(i));
        lemma_flatten_remove(b, i);
        rest.lemma_flatten_push(last);
        lemma_multiset_commutative(rest.flatten(), last);
    }
}

} // verus!

//! The predicate applied to every item of the domain.

use vstd::prelude::*;

verus! {

/// `d` divides `n` evenly.
pub open spec fn divides(d: nat, n: nat) -> bool {
    d != 0 && n % d == 0
}

/// The items that a run looks for: `n` is at least two and no `d` with
/// `2 <= d < n` divides it.
pub open spec fn is_prime_spec(n: nat) -> bool {
    n >= 2 && forall|d: nat| 2 <= d < n ==> !#[trigger] divides(d, n)
}

/// Tests `n` by trial division with every candidate divisor below it.
///
/// The cost grows with `n`: a prime `n` takes `n - 2` divisions. Nothing here
/// is shared, so any number of workers may call it at once.
pub fn is_prime(n: usize) -> (result: bool)
    ensures
        result == is_prime_spec(n as nat),
{
    if n <= 1 {
        false
    } else {
        for div in 2..n
            invariant
                forall|d: nat| 2 <= d < div ==> !#[trigger] divides(d, n as nat),
        {
            if n % div == 0 {
                assert(divides(div as nat, n as nat));
                return false;
            }
        }
        true
    }
}

} // verus!

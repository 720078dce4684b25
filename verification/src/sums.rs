//! Sums of whole numbers.

use vstd::prelude::*;

verus! {

/// The sum of the first `n` terms.
pub open spec fn total(term: spec_fn(int) -> int, n: nat) -> int
    decreases n,
{
    if n == 0 {
        0
    } else {
        total(term, (n - 1) as nat) + term(n - 1)
    }
}

/// A sum depends on its terms only.
pub proof fn lemma_total_of_equal_terms(a: spec_fn(int) -> int, b: spec_fn(int) -> int, n: nat)
    requires
        forall|i: int| 0 <= i < n ==> #[trigger] a(i) == b(i),
    ensures
        total(a, n) == total(b, n),
    decreases n,
{
    if n > 0 {
        lemma_total_of_equal_terms(a, b, (n - 1) as nat);
        assert(a(n - 1) == b(n - 1));
    }
}

} // verus!

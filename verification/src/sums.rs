//! Sums over the filters of a growing filter.
use vstd::prelude::*;

verus! {

/// The sum of the first `n` numbers of `values`.
pub open spec fn sum_to(values: Seq<nat>, n: int) -> nat
    decreases n,
{
    if n <= 0 {
        0
    } else {
        sum_to(values, n - 1) + values[n - 1]
    }
}

/// A sum depends on the numbers that are added alone.
pub proof fn lemma_sum_same(a: Seq<nat>, b: Seq<nat>, n: int)
    requires
        forall|k: int| 0 <= k < n ==> a[k] == b[k],
    ensures
        sum_to(a, n) == sum_to(b, n),
    decreases n,
{
    if n > 0 {
        lemma_sum_same(a, b, n - 1);
    }
}

/// A sum of fewer numbers is smaller.
pub proof fn lemma_sum_grows(a: Seq<nat>, i: int, n: int)
    requires
        i <= n,
    ensures
        sum_to(a, i) <= sum_to(a, n),
    decreases n - i,
{
    if i < n {
        lemma_sum_grows(a, i, n - 1);
    }
}

/// Where one number differs, the sums differ as the two numbers do.
pub proof fn lemma_sum_one_differs(a: Seq<nat>, b: Seq<nat>, at: int, n: int)
    requires
        0 <= at < n,
        forall|k: int| 0 <= k < n && k != at ==> a[k] == b[k],
    ensures
        sum_to(a, n) + b[at] == sum_to(b, n) + a[at],
    decreases n,
{
    if at == n - 1 {
        lemma_sum_same(a, b, n - 1);
    } else {
        lemma_sum_one_differs(a, b, at, n - 1);
    }
}

/// A sum is above `0` exactly when one of the numbers is.
pub proof fn lemma_sum_positive(values: Seq<nat>, n: int)
    ensures
        sum_to(values, n) > 0 <==> exists|k: int| 0 <= k < n && values[k] > 0,
    decreases n,
{
    if n > 0 {
        lemma_sum_positive(values, n - 1);
        if sum_to(values, n - 1) > 0 {
            let k = choose|k: int| 0 <= k < n - 1 && values[k] > 0;
            assert(0 <= k < n && values[k] > 0);
        } else if values[n - 1] > 0 {
            assert(0 <= n - 1 < n && values[n - 1] > 0);
        }
    }
}

} // verus!

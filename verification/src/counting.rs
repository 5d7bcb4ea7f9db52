//! Generic bounded sums and counts over index predicates, with the lemmas the
//! engine needs to track how one mutation moves a count.

use vstd::prelude::*;

verus! {

/// Sum of `f(0) + f(1) + ... + f(k - 1)`.
pub open spec fn sum_upto(f: spec_fn(int) -> nat, k: int) -> nat
    decreases k,
{
    if k <= 0 {
        0
    } else {
        sum_upto(f, k - 1) + f(k - 1)
    }
}

/// Number of indices `i < k` with `f(i)`.
pub open spec fn count_upto(f: spec_fn(int) -> bool, k: int) -> nat
    decreases k,
{
    if k <= 0 {
        0
    } else {
        count_upto(f, k - 1) + if f(k - 1) {
            1nat
        } else {
            0nat
        }
    }
}

/// Two predicates that agree below `k` count the same.
pub proof fn lemma_count_congruence(f: spec_fn(int) -> bool, g: spec_fn(int) -> bool, k: int)
    requires
        forall|i: int| 0 <= i < k ==> #[trigger] f(i) == g(i),
    ensures
        count_upto(f, k) == count_upto(g, k),
    decreases k,
{
    if k > 0 {
        lemma_count_congruence(f, g, k - 1);
    }
}

/// Two functions that agree below `k` sum the same.
pub proof fn lemma_sum_congruence(f: spec_fn(int) -> nat, g: spec_fn(int) -> nat, k: int)
    requires
        forall|i: int| 0 <= i < k ==> #[trigger] f(i) == g(i),
    ensures
        sum_upto(f, k) == sum_upto(g, k),
    decreases k,
{
    if k > 0 {
        lemma_sum_congruence(f, g, k - 1);
    }
}

/// A count is zero exactly when no index below `k` satisfies the predicate.
pub proof fn lemma_count_zero(f: spec_fn(int) -> bool, k: int)
    ensures
        count_upto(f, k) == 0 <==> (forall|i: int| 0 <= i < k ==> !(#[trigger] f(i))),
    decreases k,
{
    if k > 0 {
        lemma_count_zero(f, k - 1);
    }
}

/// A satisfied index below `k` makes the count at least one.
pub proof fn lemma_count_at_least_one(f: spec_fn(int) -> bool, k: int, a: int)
    requires
        0 <= a < k,
        f(a),
    ensures
        count_upto(f, k) >= 1,
    decreases k,
{
    if a < k - 1 {
        lemma_count_at_least_one(f, k - 1, a);
    }
}

/// Two distinct satisfied indices below `k` make the count at least two.
pub proof fn lemma_count_at_least_two(f: spec_fn(int) -> bool, k: int, a: int, b: int)
    requires
        0 <= a < b < k,
        f(a),
        f(b),
    ensures
        count_upto(f, k) >= 2,
    decreases k,
{
    if b < k - 1 {
        lemma_count_at_least_two(f, k - 1, a, b);
    } else {
        lemma_count_at_least_one(f, k - 1, a);
    }
}

/// A count of one pins down the single satisfied index.
pub proof fn lemma_count_one_unique(f: spec_fn(int) -> bool, k: int, a: int, b: int)
    requires
        count_upto(f, k) == 1,
        0 <= a < k,
        0 <= b < k,
        f(a),
        f(b),
    ensures
        a == b,
{
    if a < b {
        lemma_count_at_least_two(f, k, a, b);
    } else if b < a {
        lemma_count_at_least_two(f, k, b, a);
    }
}

/// A positive count exhibits a satisfied index.
pub proof fn lemma_count_pos_exists(f: spec_fn(int) -> bool, k: int)
    requires
        count_upto(f, k) >= 1,
    ensures
        exists|i: int| 0 <= i < k && #[trigger] f(i),
    decreases k,
{
    if k > 0 && !f(k - 1) {
        lemma_count_pos_exists(f, k - 1);
    }
}

/// A count never exceeds the range it scans.
pub proof fn lemma_count_bound(f: spec_fn(int) -> bool, k: int)
    requires
        k >= 0,
    ensures
        count_upto(f, k) <= k,
    decreases k,
{
    if k > 0 {
        lemma_count_bound(f, k - 1);
    }
}

/// A sum of terms each at most `m` is at most `k * m`.
pub proof fn lemma_sum_bound(f: spec_fn(int) -> nat, k: int, m: nat)
    requires
        k >= 0,
        forall|i: int| 0 <= i < k ==> #[trigger] f(i) <= m,
    ensures
        sum_upto(f, k) <= k * m,
    decreases k,
{
    if k > 0 {
        lemma_sum_bound(f, k - 1, m);
        assert((k - 1) * m + m == k * m) by (nonlinear_arith);
    }
}

/// How a sum moves when the function changes at exactly one index below `k`.
pub proof fn lemma_sum_frame(f: spec_fn(int) -> nat, g: spec_fn(int) -> nat, k: int, j: int)
    requires
        0 <= j < k,
        forall|i: int| 0 <= i < k && i != j ==> #[trigger] f(i) == g(i),
    ensures
        sum_upto(g, k) + f(j) == sum_upto(f, k) + g(j),
    decreases k,
{
    if j < k - 1 {
        lemma_sum_frame(f, g, k - 1, j);
    } else {
        lemma_sum_congruence(f, g, k - 1);
    }
}

/// How a count moves when the predicate changes at exactly one index below `k`.
pub proof fn lemma_count_frame(f: spec_fn(int) -> bool, g: spec_fn(int) -> bool, k: int, j: int)
    requires
        0 <= j < k,
        forall|i: int| 0 <= i < k && i != j ==> #[trigger] f(i) == g(i),
    ensures
        count_upto(g, k) + (if f(j) {
            1nat
        } else {
            0nat
        }) == count_upto(f, k) + (if g(j) {
            1nat
        } else {
            0nat
        }),
    decreases k,
{
    if j < k - 1 {
        lemma_count_frame(f, g, k - 1, j);
    } else {
        lemma_count_congruence(f, g, k - 1);
    }
}

} // verus!

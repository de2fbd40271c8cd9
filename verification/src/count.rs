//! Counting the indices below a bound at which a predicate holds.

use vstd::prelude::*;

verus! {

/// How many `i` in `0..n` satisfy `p`.
pub open spec fn count_upto(n: int, p: spec_fn(int) -> bool) -> int
    decreases n,
{
    if n <= 0 {
        0
    } else {
        count_upto(n - 1, p) + if p(n - 1) {
            1int
        } else {
            0int
        }
    }
}

/// The count is at least zero and at most the bound.
pub proof fn lemma_count_bounds(n: int, p: spec_fn(int) -> bool)
    requires
        0 <= n,
    ensures
        0 <= count_upto(n, p) <= n,
    decreases n,
{
    if n > 0 {
        lemma_count_bounds(n - 1, p);
    }
}

/// Two predicates that agree below `n` have the same count.
pub proof fn lemma_count_agree(n: int, p: spec_fn(int) -> bool, q: spec_fn(int) -> bool)
    requires
        forall|i: int| 0 <= i < n ==> #[trigger] p(i) == q(i),
    ensures
        count_upto(n, p) == count_upto(n, q),
    decreases n,
{
    if n > 0 {
        lemma_count_agree(n - 1, p, q);
    }
}

/// Two predicates that agree below `n` except at `at` differ in count by what they say there.
pub proof fn lemma_count_change(n: int, p: spec_fn(int) -> bool, q: spec_fn(int) -> bool, at: int)
    requires
        0 <= at < n,
        forall|i: int| 0 <= i < n && i != at ==> #[trigger] p(i) == q(i),
    ensures
        count_upto(n, q) == count_upto(n, p) - (if p(at) {
            1int
        } else {
            0int
        }) + (if q(at) {
            1int
        } else {
            0int
        }),
    decreases n,
{
    if at == n - 1 {
        lemma_count_agree(n - 1, p, q);
    } else {
        lemma_count_change(n - 1, p, q, at);
    }
}

/// The count reaches the bound exactly when the predicate holds everywhere below it.
pub proof fn lemma_count_full(n: int, p: spec_fn(int) -> bool)
    requires
        0 <= n,
    ensures
        count_upto(n, p) == n <==> (forall|i: int| 0 <= i < n ==> #[trigger] p(i)),
    decreases n,
{
    if n > 0 {
        lemma_count_full(n - 1, p);
        lemma_count_bounds(n - 1, p);
        if count_upto(n, p) == n {
            assert forall|i: int| 0 <= i < n implies #[trigger] p(i) by {
                if i < n - 1 {
                } else {
                    assert(i == n - 1);
                }
            }
        }
    }
}

/// Where the predicate fails at some index, the count stays below the bound.
pub proof fn lemma_count_room(n: int, p: spec_fn(int) -> bool, at: int)
    requires
        0 <= at < n,
        !p(at),
    ensures
        count_upto(n, p) < n,
{
    lemma_count_full(n, p);
    lemma_count_bounds(n, p);
}

/// Where the predicate holds at some index, the count is positive.
pub proof fn lemma_count_positive(n: int, p: spec_fn(int) -> bool, at: int)
    requires
        0 <= at < n,
        p(at),
    ensures
        count_upto(n, p) > 0,
    decreases n,
{
    if at == n - 1 {
        lemma_count_bounds(n - 1, p);
    } else {
        lemma_count_positive(n - 1, p, at);
    }
}

/// A predicate that holds nowhere below `n` counts nothing.
pub proof fn lemma_count_none(n: int, p: spec_fn(int) -> bool)
    requires
        forall|i: int| 0 <= i < n ==> !#[trigger] p(i),
    ensures
        count_upto(n, p) == 0,
    decreases n,
{
    if n > 0 {
        lemma_count_none(n - 1, p);
    }
}

} // verus!

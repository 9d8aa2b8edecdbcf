//! Counting the indices of a prefix `0..n` at which a predicate holds, with
//! the facts about such counts that the solver's proofs rely on.
use vstd::prelude::*;

verus! {

/// Number of indices `k` with `0 <= k < n` at which `f(k)` holds.
pub open spec fn count_upto(f: spec_fn(int) -> bool, n: int) -> nat
    decreases n,
{
    if n <= 0 {
        0
    } else {
        count_upto(f, n - 1) + if f(n - 1) {
            1nat
        } else {
            0nat
        }
    }
}

/// A count over `0..n` is at most `n`.
pub proof fn lemma_count_bounded(f: spec_fn(int) -> bool, n: int)
    requires
        n >= 0,
    ensures
        count_upto(f, n) <= n,
    decreases n,
{
    if n > 0 {
        lemma_count_bounded(f, n - 1);
    }
}

/// Counting a weaker predicate gives at least as much.
pub proof fn lemma_count_mono(f: spec_fn(int) -> bool, g: spec_fn(int) -> bool, n: int)
    requires
        forall|k: int| 0 <= k < n && #[trigger] f(k) ==> g(k),
    ensures
        count_upto(f, n) <= count_upto(g, n),
    decreases n,
{
    if n > 0 {
        lemma_count_mono(f, g, n - 1);
    }
}

/// Counting a weaker predicate that holds at one more index gives strictly more.
pub proof fn lemma_count_strict(f: spec_fn(int) -> bool, g: spec_fn(int) -> bool, n: int, w: int)
    requires
        forall|k: int| 0 <= k < n && #[trigger] f(k) ==> g(k),
        0 <= w < n,
        g(w),
        !f(w),
    ensures
        count_upto(f, n) < count_upto(g, n),
    decreases n,
{
    if w == n - 1 {
        lemma_count_mono(f, g, n - 1);
    } else {
        lemma_count_strict(f, g, n - 1, w);
    }
}

/// Predicates that agree on `0..n` have the same count there.
pub proof fn lemma_count_ext(f: spec_fn(int) -> bool, g: spec_fn(int) -> bool, n: int)
    requires
        forall|k: int| 0 <= k < n ==> #[trigger] f(k) == g(k),
    ensures
        count_upto(f, n) == count_upto(g, n),
    decreases n,
{
    if n > 0 {
        lemma_count_ext(f, g, n - 1);
    }
}

/// An index of `0..n` at which the predicate fails lowers the count below `n`.
pub proof fn lemma_count_missing_one(f: spec_fn(int) -> bool, n: int, a: int)
    requires
        0 <= a < n,
        !f(a),
    ensures
        count_upto(f, n) + 1 <= n,
    decreases n,
{
    if a == n - 1 {
        lemma_count_bounded(f, n - 1);
    } else {
        lemma_count_missing_one(f, n - 1, a);
    }
}

/// Two distinct indices of `0..n` at which the predicate fails lower the count to `n - 2`.
pub proof fn lemma_count_missing_two(f: spec_fn(int) -> bool, n: int, a: int, b: int)
    requires
        0 <= a < n,
        0 <= b < n,
        a != b,
        !f(a),
        !f(b),
    ensures
        count_upto(f, n) + 2 <= n,
    decreases n,
{
    if a == n - 1 {
        lemma_count_missing_one(f, n - 1, b);
    } else if b == n - 1 {
        lemma_count_missing_one(f, n - 1, a);
    } else {
        lemma_count_missing_two(f, n - 1, a, b);
    }
}

/// A positive count has a witness.
pub proof fn lemma_count_witness(f: spec_fn(int) -> bool, n: int) -> (w: int)
    requires
        count_upto(f, n) > 0,
    ensures
        0 <= w < n,
        f(w),
    decreases n,
{
    if f(n - 1) {
        n - 1
    } else {
        lemma_count_witness(f, n - 1)
    }
}

/// A count of at least two has two distinct witnesses.
pub proof fn lemma_count_two_witnesses(f: spec_fn(int) -> bool, n: int) -> (ws: (int, int))
    requires
        count_upto(f, n) >= 2,
    ensures
        0 <= ws.0 < n,
        0 <= ws.1 < n,
        ws.0 != ws.1,
        f(ws.0),
        f(ws.1),
    decreases n,
{
    if f(n - 1) {
        let w = lemma_count_witness(f, n - 1);
        (w, n - 1)
    } else {
        lemma_count_two_witnesses(f, n - 1)
    }
}

/// A predicate that holds on all of `0..n` counts `n`.
pub proof fn lemma_count_all(f: spec_fn(int) -> bool, n: int)
    requires
        n >= 0,
        forall|k: int| 0 <= k < n ==> #[trigger] f(k),
    ensures
        count_upto(f, n) == n,
    decreases n,
{
    if n > 0 {
        lemma_count_all(f, n - 1);
    }
}

/// A witness makes the count positive.
pub proof fn lemma_count_positive(f: spec_fn(int) -> bool, n: int, w: int)
    requires
        0 <= w < n,
        f(w),
    ensures
        count_upto(f, n) >= 1,
    decreases n,
{
    if w < n - 1 {
        lemma_count_positive(f, n - 1, w);
    }
}

/// Two distinct witnesses make the count at least two.
pub proof fn lemma_count_two_positive(f: spec_fn(int) -> bool, n: int, a: int, b: int)
    requires
        0 <= a < n,
        0 <= b < n,
        a != b,
        f(a),
        f(b),
    ensures
        count_upto(f, n) >= 2,
    decreases n,
{
    if a == n - 1 {
        lemma_count_positive(f, n - 1, b);
    } else if b == n - 1 {
        lemma_count_positive(f, n - 1, a);
    } else {
        lemma_count_two_positive(f, n - 1, a, b);
    }
}

} // verus!

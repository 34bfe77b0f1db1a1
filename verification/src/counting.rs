//! Counting the integers below a bound that satisfy a predicate.

use vstd::prelude::*;

verus! {

/// The number of `x` with `0 <= x < k` for which `f(x)` holds.
pub open spec fn count_upto(k: int, f: spec_fn(int) -> bool) -> nat
    decreases k,
{
    if k <= 0 {
        0
    } else {
        count_upto(k - 1, f) + if f(k - 1) {
            1nat
        } else {
            0nat
        }
    }
}

/// A predicate that holds wherever another does counts at least as many.
pub proof fn lemma_count_monotone(k: int, f: spec_fn(int) -> bool, g: spec_fn(int) -> bool)
    requires
        forall|x: int| 0 <= x < k && #[trigger] f(x) ==> g(x),
    ensures
        count_upto(k, f) <= count_upto(k, g),
    decreases k,
{
    if k > 0 {
        lemma_count_monotone(k - 1, f, g);
    }
}

/// If moreover it holds at one more point, it counts strictly more.
pub proof fn lemma_count_strict(k: int, f: spec_fn(int) -> bool, g: spec_fn(int) -> bool, w: int)
    requires
        forall|x: int| 0 <= x < k && #[trigger] f(x) ==> g(x),
        0 <= w < k,
        g(w),
        !f(w),
    ensures
        count_upto(k, f) < count_upto(k, g),
    decreases k,
{
    if w == k - 1 {
        lemma_count_monotone(k - 1, f, g);
    } else {
        lemma_count_strict(k - 1, f, g, w);
    }
}

} // verus!

//! Counting facts over integer ranges, shared by the sliding-window and
//! histogram proofs.

use vstd::prelude::*;

verus! {

/// Number of `i` in `lo..hi` with `f(i)`.
pub open spec fn count_in(f: spec_fn(int) -> bool, lo: int, hi: int) -> nat
    decreases hi - lo,
{
    if hi <= lo {
        0
    } else {
        count_in(f, lo, hi - 1) + if f(hi - 1) { 1nat } else { 0nat }
    }
}

/// Number of `true` entries in a sequence of flags.
pub open spec fn count_true(s: Seq<bool>) -> nat {
    count_in(|i: int| s[i], 0, s.len() as int)
}

pub proof fn lemma_count_bounds(f: spec_fn(int) -> bool, lo: int, hi: int)
    ensures
        count_in(f, lo, hi) <= if hi <= lo { 0 } else { hi - lo },
    decreases hi - lo,
{
    if hi > lo {
        lemma_count_bounds(f, lo, hi - 1);
    }
}

pub proof fn lemma_count_pos(f: spec_fn(int) -> bool, lo: int, hi: int)
    ensures
        count_in(f, lo, hi) > 0 <==> exists|i: int| lo <= i < hi && #[trigger] f(i),
    decreases hi - lo,
{
    if hi > lo {
        lemma_count_pos(f, lo, hi - 1);
        if f(hi - 1) {
            assert(lo <= hi - 1 < hi && f(hi - 1));
        } else if count_in(f, lo, hi) > 0 {
            let i = choose|i: int| lo <= i < hi - 1 && #[trigger] f(i);
            assert(lo <= i < hi && f(i));
        }
    }
}

pub proof fn lemma_count_front(f: spec_fn(int) -> bool, lo: int, hi: int)
    requires
        lo < hi,
    ensures
        count_in(f, lo, hi) == count_in(f, lo + 1, hi) + if f(lo) { 1nat } else { 0nat },
    decreases hi - lo,
{
    if hi - 1 > lo {
        lemma_count_front(f, lo, hi - 1);
    } else {
        assert(count_in(f, lo, hi - 1) == 0);
        assert(count_in(f, lo + 1, hi) == 0);
    }
}

/// Counting is extensional: two predicates that agree on the range count alike.
pub proof fn lemma_count_ext(f: spec_fn(int) -> bool, g: spec_fn(int) -> bool, lo: int, hi: int)
    requires
        forall|i: int| lo <= i < hi ==> #[trigger] f(i) == g(i),
    ensures
        count_in(f, lo, hi) == count_in(g, lo, hi),
    decreases hi - lo,
{
    if hi > lo {
        lemma_count_ext(f, g, lo, hi - 1);
    }
}

/// Sum of `f(i)` over `i` in `lo..hi`.
pub open spec fn sum_in(f: spec_fn(int) -> nat, lo: int, hi: int) -> nat
    decreases hi - lo,
{
    if hi <= lo {
        0
    } else {
        sum_in(f, lo, hi - 1) + f(hi - 1)
    }
}

pub proof fn lemma_sum_bounds(f: spec_fn(int) -> nat, lo: int, hi: int, bound: nat)
    requires
        forall|i: int| lo <= i < hi ==> #[trigger] f(i) <= bound,
    ensures
        sum_in(f, lo, hi) <= if hi <= lo { 0 } else { (hi - lo) * bound },
    decreases hi - lo,
{
    if hi > lo {
        lemma_sum_bounds(f, lo, hi - 1, bound);
        assert((hi - 1 - lo) * bound + bound == (hi - lo) * bound) by (nonlinear_arith);
    }
}

/// Pointwise implication between predicates bounds their counts, strictly
/// when some point of the range satisfies only the larger one.
pub proof fn lemma_count_mono(f: spec_fn(int) -> bool, g: spec_fn(int) -> bool, lo: int, hi: int)
    requires
        forall|i: int| lo <= i < hi && #[trigger] f(i) ==> g(i),
    ensures
        count_in(f, lo, hi) <= count_in(g, lo, hi),
        (exists|i: int| lo <= i < hi && #[trigger] g(i) && !f(i)) ==> count_in(f, lo, hi) < count_in(
            g,
            lo,
            hi,
        ),
    decreases hi - lo,
{
    if hi > lo {
        lemma_count_mono(f, g, lo, hi - 1);
        if exists|i: int| lo <= i < hi && #[trigger] g(i) && !f(i) {
            let i = choose|i: int| lo <= i < hi && #[trigger] g(i) && !f(i);
            if i < hi - 1 {
                assert(lo <= i < hi - 1 && g(i) && !f(i));
            }
        }
    }
}


/// A sum of naturals is positive exactly when one of its terms is.
pub proof fn lemma_sum_pos(f: spec_fn(int) -> nat, lo: int, hi: int)
    ensures
        sum_in(f, lo, hi) > 0 <==> exists|i: int| lo <= i < hi && #[trigger] f(i) > 0,
    decreases hi - lo,
{
    if hi > lo {
        lemma_sum_pos(f, lo, hi - 1);
        if f(hi - 1) > 0 {
            assert(lo <= hi - 1 < hi && f(hi - 1) > 0);
        } else if sum_in(f, lo, hi) > 0 {
            let i = choose|i: int| lo <= i < hi - 1 && #[trigger] f(i) > 0;
            assert(lo <= i < hi && f(i) > 0);
        }
    }
}

/// Summing is extensional: two functions that agree on the range sum alike.
pub proof fn lemma_sum_ext(f: spec_fn(int) -> nat, g: spec_fn(int) -> nat, lo: int, hi: int)
    requires
        forall|i: int| lo <= i < hi ==> #[trigger] f(i) == g(i),
    ensures
        sum_in(f, lo, hi) == sum_in(g, lo, hi),
    decreases hi - lo,
{
    if hi > lo {
        lemma_sum_ext(f, g, lo, hi - 1);
    }
}

/// Changing one term of a sum changes the sum by the same amount.
pub proof fn lemma_sum_point(f: spec_fn(int) -> nat, g: spec_fn(int) -> nat, lo: int, hi: int, k: int)
    requires
        lo <= k < hi,
        forall|i: int| lo <= i < hi && i != k ==> #[trigger] f(i) == g(i),
    ensures
        sum_in(f, lo, hi) + g(k) == sum_in(g, lo, hi) + f(k),
    decreases hi - lo,
{
    if hi - 1 == k {
        lemma_sum_ext(f, g, lo, hi - 1);
    } else {
        lemma_sum_point(f, g, lo, hi - 1, k);
    }
}

/// Turning one point of a predicate from false to true adds one to its count.
pub proof fn lemma_count_point(f: spec_fn(int) -> bool, g: spec_fn(int) -> bool, lo: int, hi: int, k: int)
    requires
        lo <= k < hi,
        !f(k),
        g(k),
        forall|i: int| lo <= i < hi && i != k ==> #[trigger] f(i) == g(i),
    ensures
        count_in(g, lo, hi) == count_in(f, lo, hi) + 1,
    decreases hi - lo,
{
    if hi - 1 == k {
        lemma_count_ext(f, g, lo, hi - 1);
    } else {
        lemma_count_point(f, g, lo, hi - 1, k);
    }
}


/// A sum of pointwise sums is the sum of the two sums.
pub proof fn lemma_sum_add(f: spec_fn(int) -> nat, g: spec_fn(int) -> nat, fg: spec_fn(int) -> nat, lo: int, hi: int)
    requires
        forall|i: int| lo <= i < hi ==> #[trigger] fg(i) == f(i) + g(i),
    ensures
        sum_in(fg, lo, hi) == sum_in(f, lo, hi) + sum_in(g, lo, hi),
    decreases hi - lo,
{
    if hi > lo {
        lemma_sum_add(f, g, fg, lo, hi - 1);
    }
}

/// Summing the indicator of a predicate counts it.
pub proof fn lemma_sum_indicator(f: spec_fn(int) -> bool, g: spec_fn(int) -> nat, lo: int, hi: int)
    requires
        forall|i: int| lo <= i < hi ==> #[trigger] g(i) == if f(i) { 1nat } else { 0nat },
    ensures
        sum_in(g, lo, hi) == count_in(f, lo, hi),
    decreases hi - lo,
{
    if hi > lo {
        lemma_sum_indicator(f, g, lo, hi - 1);
    }
}

/// A count over `lo..hi` splits at any `mid` between.
pub proof fn lemma_count_split(f: spec_fn(int) -> bool, lo: int, mid: int, hi: int)
    requires
        lo <= mid <= hi,
    ensures
        count_in(f, lo, hi) == count_in(f, lo, mid) + count_in(f, mid, hi),
    decreases hi - mid,
{
    if hi > mid {
        lemma_count_split(f, lo, mid, hi - 1);
    }
}

/// Counting a shifted predicate counts the original over the shifted range.
pub proof fn lemma_count_shift(f: spec_fn(int) -> bool, g: spec_fn(int) -> bool, lo: int, hi: int, d: int)
    requires
        forall|i: int| lo <= i < hi ==> #[trigger] g(i) == f(i + d),
    ensures
        count_in(g, lo, hi) == count_in(f, lo + d, hi + d),
    decreases hi - lo,
{
    if hi > lo {
        lemma_count_shift(f, g, lo, hi - 1, d);
    }
}


/// Length of the part of `a..c` that lies in `lo..hi`.
pub open spec fn clipped_len(a: int, c: int, lo: int, hi: int) -> int {
    let s = if a >= lo { a } else { lo };
    let e = if c <= hi { c } else { hi };
    if s < e { e - s } else { 0 }
}

/// Counting membership of an interval counts its clipped length.
pub proof fn lemma_count_interval(f: spec_fn(int) -> bool, a: int, c: int, lo: int, hi: int)
    requires
        forall|i: int| lo <= i < hi ==> #[trigger] f(i) == (a <= i < c),
    ensures
        count_in(f, lo, hi) == clipped_len(a, c, lo, hi),
    decreases hi - lo,
{
    if hi > lo {
        lemma_count_interval(f, a, c, lo, hi - 1);
    }
}

/// Summing a function that is `v` on an interval and 0 elsewhere gives `v`
/// times the clipped length.
pub proof fn lemma_sum_interval(g: spec_fn(int) -> nat, a: int, c: int, v: nat, lo: int, hi: int)
    requires
        forall|i: int| lo <= i < hi ==> #[trigger] g(i) == if a <= i < c { v } else { 0nat },
    ensures
        sum_in(g, lo, hi) == clipped_len(a, c, lo, hi) * v,
    decreases hi - lo,
{
    if hi > lo {
        lemma_sum_interval(g, a, c, v, lo, hi - 1);
        let n = clipped_len(a, c, lo, hi - 1);
        assert(n * v + v == (n + 1) * v) by (nonlinear_arith);
    }
}

} // verus!

//! Sums over the integers below a bound, for totals kept over a map's keys.

use vstd::prelude::*;

verus! {

/// The sum of `f` over the integers from `from` up to, not including, `to`.
pub open spec fn sum(f: spec_fn(int) -> nat, from: int, to: int) -> nat
    decreases to - from,
{
    if to <= from {
        0
    } else {
        sum(f, from, to - 1) + f(to - 1)
    }
}

pub proof fn lemma_sum_same(f: spec_fn(int) -> nat, g: spec_fn(int) -> nat, from: int, to: int)
    requires
        forall|i: int| from <= i < to ==> #[trigger] f(i) == g(i),
    ensures
        sum(f, from, to) == sum(g, from, to),
    decreases to - from,
{
    if from < to {
        lemma_sum_same(f, g, from, to - 1);
        assert(f(to - 1) == g(to - 1));
    }
}

/// A sum falls into the part below `mid` and the part from it on.
pub proof fn lemma_sum_split(f: spec_fn(int) -> nat, from: int, mid: int, to: int)
    requires
        from <= mid <= to,
    ensures
        sum(f, from, to) == sum(f, from, mid) + sum(f, mid, to),
    decreases to - mid,
{
    if mid < to {
        lemma_sum_split(f, from, mid, to - 1);
    }
}

pub proof fn lemma_sum_zero(f: spec_fn(int) -> nat, from: int, to: int)
    requires
        forall|i: int| from <= i < to ==> #[trigger] f(i) == 0,
    ensures
        sum(f, from, to) == 0,
    decreases to - from,
{
    if from < to {
        lemma_sum_zero(f, from, to - 1);
        assert(f(to - 1) == 0);
    }
}

/// Two sums that agree everywhere but at `at` differ by what they differ there.
pub proof fn lemma_sum_change(
    f: spec_fn(int) -> nat,
    g: spec_fn(int) -> nat,
    from: int,
    at: int,
    to: int,
)
    requires
        from <= at < to,
        forall|i: int| from <= i < to && i != at ==> #[trigger] f(i) == g(i),
    ensures
        sum(g, from, to) == sum(f, from, to) - f(at) + g(at),
{
    lemma_sum_split(f, from, at, to);
    lemma_sum_split(g, from, at, to);
    lemma_sum_split(f, at, at + 1, to);
    lemma_sum_split(g, at, at + 1, to);
    lemma_sum_same(f, g, from, at);
    lemma_sum_same(f, g, at + 1, to);
    reveal_with_fuel(sum, 2);
}

/// A stretch of a sum is no more than the whole of it.
pub proof fn lemma_sum_part(f: spec_fn(int) -> nat, from: int, a: int, b: int, to: int)
    requires
        from <= a <= b <= to,
    ensures
        sum(f, a, b) <= sum(f, from, to),
{
    lemma_sum_split(f, from, a, to);
    lemma_sum_split(f, a, b, to);
}

} // verus!

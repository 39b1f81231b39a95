//! Finite sums of integer-valued functions.

use vstd::prelude::*;

verus! {

/// The sum of `f(0)`, `f(1)`, ..., `f(n - 1)`.
pub open spec fn sum_upto(f: spec_fn(int) -> int, n: int) -> int
    decreases n,
{
    if n <= 0 {
        0
    } else {
        sum_upto(f, n - 1) + f(n - 1)
    }
}

/// Two functions that agree below `n` have the same sum.
pub proof fn lemma_sum_equal(f: spec_fn(int) -> int, g: spec_fn(int) -> int, n: int)
    requires
        forall|i: int| 0 <= i < n ==> #[trigger] f(i) == g(i),
    ensures
        sum_upto(f, n) == sum_upto(g, n),
    decreases n,
{
    if n > 0 {
        lemma_sum_equal(f, g, n - 1);
    }
}

/// A sum of non-negative terms is non-negative and grows with the number of
/// terms.
pub proof fn lemma_sum_monotonic(f: spec_fn(int) -> int, m: int, n: int)
    requires
        forall|i: int| 0 <= i < n ==> #[trigger] f(i) >= 0,
        0 <= m <= n,
    ensures
        0 <= sum_upto(f, m) <= sum_upto(f, n),
    decreases n,
{
    if m < n {
        lemma_sum_monotonic(f, m, n - 1);
    } else if n > 0 {
        lemma_sum_monotonic(f, m - 1, n - 1);
    }
}

/// The sum of `f + g` is the sum of `f` plus the sum of `g`.
pub proof fn lemma_sum_add(
    f: spec_fn(int) -> int,
    g: spec_fn(int) -> int,
    h: spec_fn(int) -> int,
    n: int,
)
    requires
        forall|i: int| 0 <= i < n ==> #[trigger] h(i) == f(i) + g(i),
    ensures
        sum_upto(h, n) == sum_upto(f, n) + sum_upto(g, n),
    decreases n,
{
    if n > 0 {
        lemma_sum_add(f, g, h, n - 1);
    }
}

/// A function that is `x` at `t` and zero elsewhere sums to `x` if `t` is
/// below `n`, and to zero otherwise.
pub proof fn lemma_sum_single(f: spec_fn(int) -> int, n: int, t: int, x: int)
    requires
        forall|i: int| 0 <= i < n ==> #[trigger] f(i) == if i == t { x } else { 0 },
    ensures
        sum_upto(f, n) == if 0 <= t < n { x } else { 0 },
    decreases n,
{
    if n > 0 {
        lemma_sum_single(f, n - 1, t, x);
    }
}

/// A function that is zero below `n` sums to zero.
pub proof fn lemma_sum_zero(f: spec_fn(int) -> int, n: int)
    requires
        forall|i: int| 0 <= i < n ==> #[trigger] f(i) == 0,
    ensures
        sum_upto(f, n) == 0,
    decreases n,
{
    if n > 0 {
        lemma_sum_zero(f, n - 1);
    }
}

/// A sum over `m + n` terms is the sum over the first `m` plus the sum over
/// the `n` that follow, counted from zero by `g`.
pub proof fn lemma_sum_split(f: spec_fn(int) -> int, g: spec_fn(int) -> int, m: int, n: int)
    requires
        0 <= m,
        0 <= n,
        forall|i: int| 0 <= i < n ==> #[trigger] g(i) == f(m + i),
    ensures
        sum_upto(f, m + n) == sum_upto(f, m) + sum_upto(g, n),
    decreases n,
{
    if n > 0 {
        lemma_sum_split(f, g, m, n - 1);
        assert(g(n - 1) == f(m + (n - 1)));
    }
}

/// A sum whose every term is `c` times the term of another is `c` times
/// that other sum.
pub proof fn lemma_sum_scale(f: spec_fn(int) -> int, g: spec_fn(int) -> int, c: int, n: int)
    requires
        forall|i: int| 0 <= i < n ==> #[trigger] g(i) == f(i) * c,
    ensures
        sum_upto(g, n) == sum_upto(f, n) * c,
    decreases n,
{
    if n > 0 {
        lemma_sum_scale(f, g, c, n - 1);
        let a = sum_upto(f, n - 1);
        let b = f(n - 1);
        assert((a + b) * c == a * c + b * c) by (nonlinear_arith);
    } else {
        assert(0 * c == 0) by (nonlinear_arith);
    }
}

} // verus!

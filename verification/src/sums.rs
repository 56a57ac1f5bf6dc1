//! Finite sums of integers.

use vstd::prelude::*;

use crate::modular::lemma_mod_add;

verus! {

/// `f(0) + f(1) + ... + f(n - 1)`.
pub open spec fn sum(f: spec_fn(int) -> int, n: nat) -> int
    decreases n,
{
    if n == 0 {
        0
    } else {
        sum(f, (n - 1) as nat) + f(n - 1)
    }
}

/// Sums of equal terms are equal.
pub proof fn lemma_sum_ext(f: spec_fn(int) -> int, g: spec_fn(int) -> int, n: nat)
    requires
        forall|i: int| 0 <= i < n ==> #[trigger] f(i) == g(i),
    ensures
        sum(f, n) == sum(g, n),
    decreases n,
{
    if n > 0 {
        lemma_sum_ext(f, g, (n - 1) as nat);
        assert(f(n - 1) == g(n - 1));
    }
}

/// Sums of congruent terms are congruent.
pub proof fn lemma_sum_mod_ext(f: spec_fn(int) -> int, g: spec_fn(int) -> int, n: nat, p: int)
    requires
        p > 0,
        forall|i: int| 0 <= i < n ==> #[trigger] f(i) % p == g(i) % p,
    ensures
        sum(f, n) % p == sum(g, n) % p,
    decreases n,
{
    if n > 0 {
        let m = (n - 1) as nat;
        lemma_sum_mod_ext(f, g, m, p);
        assert(f(n - 1) % p == g(n - 1) % p);
        lemma_mod_add(sum(f, m), sum(g, m), f(n - 1), g(n - 1), p);
    }
}

/// A sum of terms that vanish vanishes.
pub proof fn lemma_sum_zero(f: spec_fn(int) -> int, n: nat)
    requires
        forall|i: int| 0 <= i < n ==> #[trigger] f(i) == 0,
    ensures
        sum(f, n) == 0,
    decreases n,
{
    if n > 0 {
        lemma_sum_zero(f, (n - 1) as nat);
        assert(f(n - 1) == 0);
    }
}

/// Sums add term by term.
pub proof fn lemma_sum_add(
    f: spec_fn(int) -> int,
    g: spec_fn(int) -> int,
    h: spec_fn(int) -> int,
    n: nat,
)
    requires
        forall|i: int| 0 <= i < n ==> #[trigger] h(i) == f(i) + g(i),
    ensures
        sum(h, n) == sum(f, n) + sum(g, n),
    decreases n,
{
    if n > 0 {
        lemma_sum_add(f, g, h, (n - 1) as nat);
        assert(h(n - 1) == f(n - 1) + g(n - 1));
    }
}

/// A common factor moves out of a sum.
pub proof fn lemma_sum_scale(c: int, f: spec_fn(int) -> int, g: spec_fn(int) -> int, n: nat)
    requires
        forall|i: int| 0 <= i < n ==> #[trigger] g(i) == c * f(i),
    ensures
        sum(g, n) == c * sum(f, n),
    decreases n,
{
    if n == 0 {
        assert(c * 0 == 0) by (nonlinear_arith);
    } else {
        let m = (n - 1) as nat;
        lemma_sum_scale(c, f, g, m);
        assert(g(n - 1) == c * f(n - 1));
        let a = sum(f, m);
        let b = f(n - 1);
        assert(c * (a + b) == c * a + c * b) by (nonlinear_arith);
    }
}

/// The order of two summations may be exchanged.
pub proof fn lemma_sum_exchange(t: spec_fn(int, int) -> int, m: nat, n: nat)
    ensures
        sum(|i: int| sum(|j: int| t(i, j), n), m) == sum(|j: int| sum(|i: int| t(i, j), m), n),
    decreases m,
{
    let outer = |i: int| sum(|j: int| t(i, j), n);
    let swapped = |j: int| sum(|i: int| t(i, j), m);
    if m == 0 {
        lemma_sum_zero(swapped, n);
    } else {
        let k = (m - 1) as nat;
        lemma_sum_exchange(t, k, n);
        let rest = |j: int| sum(|i: int| t(i, j), k);
        let last = |j: int| t(k as int, j);
        assert forall|j: int| 0 <= j < n implies #[trigger] swapped(j) == rest(j) + last(j) by {
            let col = |i: int| t(i, j);
            assert(sum(col, m) == sum(col, k) + col(m - 1));
        }
        lemma_sum_add(rest, last, swapped, n);
    }
}

/// A sum splits at any point.
pub proof fn lemma_sum_split(
    f: spec_fn(int) -> int,
    g: spec_fn(int) -> int,
    a: nat,
    b: nat,
)
    requires
        forall|i: int| 0 <= i < b ==> #[trigger] g(i) == f(a + i),
    ensures
        sum(f, a + b) == sum(f, a) + sum(g, b),
    decreases b,
{
    if b > 0 {
        lemma_sum_split(f, g, a, (b - 1) as nat);
        assert(g(b - 1) == f(a + (b - 1)));
    }
}

/// A sum may be taken two terms at a time.
pub proof fn lemma_sum_pairs(f: spec_fn(int) -> int, g: spec_fn(int) -> int, n: nat)
    requires
        forall|i: int| 0 <= i < n ==> #[trigger] g(i) == f(2 * i) + f(2 * i + 1),
    ensures
        sum(f, 2 * n) == sum(g, n),
    decreases n,
{
    if n > 0 {
        lemma_sum_pairs(f, g, (n - 1) as nat);
        assert(g(n - 1) == f(2 * (n - 1)) + f(2 * (n - 1) + 1));
        reveal_with_fuel(sum, 3);
    }
}

/// A sum whose only nonzero term is the one at `k`.
pub proof fn lemma_sum_single(f: spec_fn(int) -> int, n: nat, k: int)
    requires
        0 <= k < n,
        forall|i: int| 0 <= i < n && i != k ==> #[trigger] f(i) == 0,
    ensures
        sum(f, n) == f(k),
    decreases n,
{
    if k == n - 1 {
        lemma_sum_zero(f, (n - 1) as nat);
    } else {
        lemma_sum_single(f, (n - 1) as nat, k);
        assert(f(n - 1) == 0);
    }
}

} // verus!

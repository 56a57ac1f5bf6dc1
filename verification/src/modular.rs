//! Congruences modulo a positive integer.

use vstd::arithmetic::div_mod::*;
use vstd::arithmetic::power::*;
use vstd::prelude::*;

verus! {

/// Congruent terms may be added.
pub proof fn lemma_mod_add(a: int, b: int, c: int, d: int, p: int)
    requires
        p > 0,
        a % p == b % p,
        c % p == d % p,
    ensures
        (a + c) % p == (b + d) % p,
{
    lemma_add_mod_noop(a, c, p);
    lemma_add_mod_noop(b, d, p);
}

/// Congruent terms may be subtracted.
pub proof fn lemma_mod_sub(a: int, b: int, c: int, d: int, p: int)
    requires
        p > 0,
        a % p == b % p,
        c % p == d % p,
    ensures
        (a - c) % p == (b - d) % p,
{
    lemma_sub_mod_noop(a, c, p);
    lemma_sub_mod_noop(b, d, p);
}

/// Congruent factors may be multiplied.
pub proof fn lemma_mod_mul(a: int, b: int, c: int, d: int, p: int)
    requires
        p > 0,
        a % p == b % p,
        c % p == d % p,
    ensures
        (a * c) % p == (b * d) % p,
{
    lemma_mul_mod_noop_general(a, c, p);
    lemma_mul_mod_noop_general(b, d, p);
}

/// Congruent bases have congruent powers.
pub proof fn lemma_mod_pow(a: int, b: int, e: nat, p: int)
    requires
        p > 0,
        a % p == b % p,
    ensures
        pow(a, e) % p == pow(b, e) % p,
{
    lemma_pow_mod_noop(a, e, p);
    lemma_pow_mod_noop(b, e, p);
}

/// Reducing twice is reducing once.
pub proof fn lemma_mod_idem(a: int, p: int)
    requires
        p > 0,
    ensures
        (a % p) % p == a % p,
        0 <= a % p < p,
{
    lemma_mod_twice(a, p);
    lemma_mod_bound(a, p);
}

/// A value already in `[0, p)` is its own residue.
pub proof fn lemma_mod_small(a: int, p: int)
    requires
        0 <= a < p,
    ensures
        a % p == a,
{
    lemma_small_mod(a as nat, p as nat);
}

/// Adding a multiple of the modulus changes nothing.
pub proof fn lemma_mod_shift(a: int, k: int, p: int)
    requires
        p > 0,
    ensures
        (a + k * p) % p == a % p,
        (a - k * p) % p == a % p,
{
    assert(a + k * p == p * k + a) by (nonlinear_arith);
    assert(a - k * p == p * (-k) + a) by (nonlinear_arith);
    lemma_mod_multiples_vanish(k, a, p);
    lemma_mod_multiples_vanish(-k, a, p);
}

/// Congruence is divisibility of the difference.
pub proof fn lemma_mod_eq_iff(a: int, b: int, p: int)
    requires
        p > 0,
    ensures
        (a % p == b % p) == ((a - b) % p == 0),
{
    lemma_mod_equivalence(a, b, p);
}

} // verus!

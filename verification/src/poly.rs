//! Polynomials as coefficient sequences, and their values.

use vstd::arithmetic::power::*;
use vstd::prelude::*;

use crate::modular::{lemma_mod_add, lemma_mod_mul};
use crate::sums::sum;

verus! {

/// The integers that a sequence of unsigned words stands for.
pub open spec fn u32_ints(s: Seq<u32>) -> Seq<int> {
    Seq::new(s.len(), |i: int| s[i] as int)
}

/// The integers that a sequence of signed words stands for.
pub open spec fn i32_ints(s: Seq<i32>) -> Seq<int> {
    Seq::new(s.len(), |i: int| s[i] as int)
}

/// The value of a polynomial at `x`.
pub open spec fn poly_eval(f: Seq<int>, x: int) -> int {
    sum(|i: int| f[i] * pow(x, i as nat), f.len())
}

/// `f[j] + f[j + m] x + f[j + 2m] x^2 + ...`: the value at `x` of the
/// coefficients from `j` on that stand `m` apart.
pub open spec fn strided(f: Seq<int>, j: int, m: int, x: int) -> int
    decreases if j < f.len() { f.len() - j } else { 0 },
{
    if m <= 0 || j >= f.len() {
        0
    } else {
        f[j] + x * strided(f, j + m, m, x)
    }
}

/// Taking every coefficient gives the whole polynomial.
proof fn lemma_strided_suffix(f: Seq<int>, j: nat, x: int)
    requires
        j <= f.len(),
    ensures
        sum(|i: int| f[i] * pow(x, i as nat), j) + pow(x, j) * strided(f, j as int, 1, x)
            == poly_eval(f, x),
    decreases f.len() - j,
{
    let term = |i: int| f[i] * pow(x, i as nat);
    let y = pow(x, j);
    if j == f.len() {
        assert(y * 0 == 0) by (nonlinear_arith);
    } else {
        lemma_strided_suffix(f, j + 1, x);
        let s = strided(f, j as int + 1, 1, x);
        let c = f[j as int];
        assert(sum(term, j + 1) == sum(term, j) + term(j as int));
        lemma_pow_adds(x, j, 1);
        lemma_pow1(x);
        assert(y * (c + x * s) == c * y + (y * x) * s) by (nonlinear_arith);
    }
}

/// Taking every coefficient gives the whole polynomial.
pub proof fn lemma_strided_whole(f: Seq<int>, x: int)
    ensures
        strided(f, 0, 1, x) == poly_eval(f, x),
{
    lemma_strided_suffix(f, 0, x);
    lemma_pow0(x);
    let s = strided(f, 0, 1, x);
    assert(1 * s == s);
}

/// The coefficients `l` apart split into those at even and at odd steps.
pub proof fn lemma_strided_split(f: Seq<int>, j: int, l: int, z: int)
    requires
        l > 0,
    ensures
        strided(f, j, l, z) == strided(f, j, 2 * l, z * z) + z * strided(f, j + l, 2 * l, z * z),
    decreases if j < f.len() { f.len() - j } else { 0 },
{
    let zz = z * z;
    if j >= f.len() {
        assert(z * 0 == 0) by (nonlinear_arith);
    } else {
        lemma_strided_split(f, j + l, l, z);
        let a = strided(f, j + l, 2 * l, zz);
        let b = strided(f, j + 2 * l, 2 * l, zz);
        assert(j + l + l == j + 2 * l);
        assert(strided(f, j, l, z) == f[j] + z * (a + z * b));
        assert(strided(f, j, 2 * l, zz) == f[j] + zz * b);
        assert(z * (a + z * b) == z * a + zz * b) by (nonlinear_arith)
            requires
                zz == z * z,
        ;
    }
}

/// Congruent coefficients at congruent points give congruent values.
pub proof fn lemma_strided_mod(f: Seq<int>, g: Seq<int>, j: int, m: int, x: int, y: int, p: int)
    requires
        p > 0,
        j >= 0,
        x % p == y % p,
        f.len() == g.len(),
        forall|i: int| 0 <= i < f.len() ==> #[trigger] f[i] % p == g[i] % p,
    ensures
        strided(f, j, m, x) % p == strided(g, j, m, y) % p,
    decreases if j < f.len() { f.len() - j } else { 0 },
{
    if m > 0 && j < f.len() {
        lemma_strided_mod(f, g, j + m, m, x, y, p);
        let a = strided(f, j + m, m, x);
        let b = strided(g, j + m, m, y);
        lemma_mod_mul(x, y, a, b, p);
        assert(f[j] % p == g[j] % p);
        lemma_mod_add(f[j], g[j], x * a, y * b, p);
    }
}

} // verus!

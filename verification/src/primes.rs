//! The two moduli are prime, and what follows: inverses, the absence of zero
//! divisors, and Fermat's little theorem.

use vstd::arithmetic::div_mod::*;
use vstd::arithmetic::power::*;
use vstd::prelude::*;
use vstd::seq_lib::*;
use vstd::set_lib::*;

use crate::modular::{lemma_mod_eq_iff, lemma_mod_idem, lemma_mod_mul, lemma_mod_shift, lemma_mod_small};

verus! {

/// `p` has no divisor strictly between one and itself.
pub open spec fn is_prime(p: int) -> bool {
    &&& p > 1
    &&& forall|d: int| 1 < d < p ==> #[trigger] (p % d) != 0
}

/// A divisor and its cofactor cannot both exceed the square root.
proof fn lemma_small_divisor(p: int, d: int, s: int) -> (r: int)
    requires
        1 < d < p,
        p % d == 0,
        s > 0,
        p < s * s,
    ensures
        1 < r < s,
        r < p,
        p % r == 0,
        p == r * (p / r),
        1 < p / r < p,
{
    let k = p / d;
    lemma_fundamental_div_mod(p, d);
    assert(p == d * k);
    assert(1 < k < p) by (nonlinear_arith)
        requires
            p == d * k,
            1 < d < p,
    ;
    if d < s {
        d
    } else {
        assert(k < s) by (nonlinear_arith)
            requires
                p == d * k,
                p < s * s,
                d >= s,
                k > 1,
                s > 0,
        ;
        assert(p == k * d) by (nonlinear_arith)
            requires
                p == d * k,
        ;
        lemma_fundamental_div_mod_converse(p, k, d, 0);
        k
    }
}

#[verifier::rlimit(100)]
proof fn lemma_p1_no_factor(d: u32, k: u32)
    requires
        2 <= d < 46341,
        k <= 1073741824,
    ensures
        d as u64 * k as u64 != 2147473409u64,
{
    assert(d as u64 * k as u64 != 2147473409u64) by (bit_vector)
        requires
            2 <= d < 46341,
            k <= 1073741824,
    ;
}

#[verifier::rlimit(100)]
proof fn lemma_p2_no_factor(d: u32, k: u32)
    requires
        2 <= d < 46341,
        k <= 1073741824,
    ensures
        d as u64 * k as u64 != 2147389441u64,
{
    assert(d as u64 * k as u64 != 2147389441u64) by (bit_vector)
        requires
            2 <= d < 46341,
            k <= 1073741824,
    ;
}

/// The first modulus is prime.
pub proof fn lemma_p1_prime()
    ensures
        is_prime(2147473409),
{
    let p: int = 2147473409;
    assert forall|d: int| 1 < d < p implies #[trigger] (p % d) != 0 by {
        if p % d == 0 {
            assert(p < 46341 * 46341);
            let r = lemma_small_divisor(p, d, 46341);
            let k = p / r;
            assert(k <= 1073741824) by (nonlinear_arith)
                requires
                    p == r * k,
                    r >= 2,
                    p == 2147473409,
            ;
            lemma_p1_no_factor(r as u32, k as u32);
        }
    }
}

/// The second modulus is prime.
pub proof fn lemma_p2_prime()
    ensures
        is_prime(2147389441),
{
    let p: int = 2147389441;
    assert forall|d: int| 1 < d < p implies #[trigger] (p % d) != 0 by {
        if p % d == 0 {
            assert(p < 46341 * 46341);
            let r = lemma_small_divisor(p, d, 46341);
            let k = p / r;
            assert(k <= 1073741824) by (nonlinear_arith)
                requires
                    p == r * k,
                    r >= 2,
                    p == 2147389441,
            ;
            lemma_p2_no_factor(r as u32, k as u32);
        }
    }
}

/// Every residue in `(0, p)` has an inverse modulo a prime `p`.
pub proof fn lemma_inverse_exists(a: int, p: int) -> (v: int)
    requires
        is_prime(p),
        0 < a < p,
    ensures
        0 < v < p,
        (a * v) % p == 1,
    decreases a,
{
    if a == 1 {
        lemma_mod_small(1, p);
        1
    } else {
        let q = p / a;
        let r = p % a;
        lemma_fundamental_div_mod(p, a);
        lemma_mod_bound(p, a);
        assert(r != 0);
        let u = lemma_inverse_exists(r, p);
        let w = (-q) * u;
        // r = p - q a, so a * (-q u) = r u - p u.
        assert(a * w == r * u - u * p) by (nonlinear_arith)
            requires
                p == a * q + r,
                w == (-q) * u,
        ;
        lemma_mod_shift(r * u, u, p);
        let v = w % p;
        lemma_mod_idem(w, p);
        lemma_mod_mul(a, a, v, w, p);
        if v == 0 {
            assert(a * v == 0) by (nonlinear_arith)
                requires
                    v == 0,
            ;
            lemma_mod_small(0, p);
        }
        v
    }
}

/// A product vanishes modulo a prime only if a factor does.
pub proof fn lemma_no_zero_divisors(a: int, b: int, p: int)
    requires
        is_prime(p),
    ensures
        ((a * b) % p == 0) == (a % p == 0 || b % p == 0),
{
    lemma_mod_idem(a, p);
    lemma_mod_idem(b, p);
    lemma_mod_small(0, p);
    if (a * b) % p == 0 && a % p != 0 {
        let v = lemma_inverse_exists(a % p, p);
        // b = (v a) b = v (a b) = 0.
        lemma_mod_mul(a, a % p, v, v, p);
        lemma_mod_small(1, p);
        lemma_mod_mul(a * v, 1, b, b, p);
        lemma_mod_mul(a * b, 0, v, v, p);
        assert((a * v) * b == (a * b) * v) by (nonlinear_arith);
    }
    if a % p == 0 {
        lemma_mod_mul(a, 0, b, b, p);
    }
    if b % p == 0 {
        lemma_mod_mul(a, a, b, 0, p);
    }
}

/// A factor that is not zero modulo a prime may be cancelled.
pub proof fn lemma_cancel(a: int, b: int, c: int, p: int)
    requires
        is_prime(p),
        c % p != 0,
        (a * c) % p == (b * c) % p,
    ensures
        a % p == b % p,
{
    lemma_mod_eq_iff(a * c, b * c, p);
    assert(a * c - b * c == (a - b) * c) by (nonlinear_arith);
    lemma_no_zero_divisors(a - b, c, p);
    lemma_mod_eq_iff(a, b, p);
}

/// The product of a sequence of integers.
spec fn product(s: Seq<int>) -> int {
    s.fold_left(1, |acc: int, x: int| acc * x)
}

/// The residues `1, 2, ..., n`.
spec fn residues(n: nat) -> Seq<int> {
    Seq::new(n, |i: int| i + 1)
}

/// The residues of `a, 2a, ..., na` modulo `p`.
spec fn multiples(a: int, n: nat, p: int) -> Seq<int> {
    Seq::new(n, |i: int| (a * (i + 1)) % p)
}

/// Multiplying every factor by `a` multiplies the product by a power of `a`.
proof fn lemma_product_of_multiples(a: int, n: nat, p: int)
    requires
        p > 1,
    ensures
        product(multiples(a, n, p)) % p == (pow(a, n) * product(residues(n))) % p,
    decreases n,
{
    reveal_with_fuel(Seq::fold_left, 2);
    reveal(pow);
    if n > 0 {
        let m = (n - 1) as nat;
        lemma_product_of_multiples(a, m, p);
        assert(multiples(a, n, p).drop_last() =~= multiples(a, m, p));
        assert(residues(n).drop_last() =~= residues(m));
        let q = product(multiples(a, m, p));
        let r = product(residues(m));
        let x = (a * (n as int)) % p;
        assert(product(multiples(a, n, p)) == q * x);
        assert(product(residues(n)) == r * (n as int));
        lemma_mod_idem(a * (n as int), p);
        lemma_mod_mul(q, pow(a, m) * r, x, a * (n as int), p);
        assert(pow(a, n) == a * pow(a, m));
        let w = pow(a, m);
        let k = n as int;
        assert((w * r) * (a * k) == (a * w) * (r * k)) by (nonlinear_arith);
    }
}

/// A product of nonzero residues is not zero modulo a prime.
proof fn lemma_product_of_residues(n: nat, p: int)
    requires
        is_prime(p),
        n < p,
    ensures
        product(residues(n)) % p != 0,
    decreases n,
{
    reveal_with_fuel(Seq::fold_left, 2);
    if n == 0 {
        lemma_mod_small(1, p);
    } else {
        let m = (n - 1) as nat;
        lemma_product_of_residues(m, p);
        assert(residues(n).drop_last() =~= residues(m));
        assert(product(residues(n)) == product(residues(m)) * (n as int));
        lemma_mod_small(n as int, p);
        lemma_no_zero_divisors(product(residues(m)), n as int, p);
    }
}

/// Multiplication by a nonzero residue permutes the nonzero residues.
proof fn lemma_multiples_permute(a: int, p: int)
    requires
        is_prime(p),
        a % p != 0,
    ensures
        multiples(a, (p - 1) as nat, p).to_multiset() == residues((p - 1) as nat).to_multiset(),
{
    let n = (p - 1) as nat;
    let s = residues(n);
    let t = multiples(a, n, p);
    assert(s.no_duplicates());
    assert forall|i: int, j: int| 0 <= i < n && 0 <= j < n && i != j implies t[i] != t[j] by {
        if t[i] == t[j] {
            assert(a * (i + 1) == (i + 1) * a) by (nonlinear_arith);
            assert(a * (j + 1) == (j + 1) * a) by (nonlinear_arith);
            lemma_cancel(i + 1, j + 1, a, p);
            lemma_mod_small(i + 1, p);
            lemma_mod_small(j + 1, p);
        }
    }
    assert(t.no_duplicates());
    assert forall|x: int| t.to_set().contains(x) implies s.to_set().contains(x) by {
        let i = choose|i: int| 0 <= i < n && t[i] == x;
        assert(t[i] == x);
        lemma_mod_idem(a * (i + 1), p);
        lemma_mod_small(i + 1, p);
        lemma_no_zero_divisors(a, i + 1, p);
        assert(s[x - 1] == x);
    }
    s.unique_seq_to_set();
    t.unique_seq_to_set();
    seq_to_set_is_finite(s);
    seq_to_set_is_finite(t);
    lemma_subset_equality(t.to_set(), s.to_set());
    s.lemma_multiset_has_no_duplicates();
    t.lemma_multiset_has_no_duplicates();
    s.to_multiset_ensures();
    t.to_multiset_ensures();
    assert forall|x: int| s.to_multiset().count(x) == t.to_multiset().count(x) by {
        assert(s.contains(x) == s.to_set().contains(x));
        assert(t.contains(x) == t.to_set().contains(x));
        if s.contains(x) {
            assert(s.to_multiset().contains(x));
            assert(t.to_multiset().contains(x));
        }
    }
    assert(t.to_multiset() =~= s.to_multiset());
}

/// Fermat's little theorem.
pub proof fn lemma_fermat(a: int, p: int)
    requires
        is_prime(p),
        a % p != 0,
    ensures
        pow(a, (p - 1) as nat) % p == 1,
{
    let n = (p - 1) as nat;
    let s = residues(n);
    let t = multiples(a, n, p);
    let f = |acc: int, x: int| acc * x;
    lemma_multiples_permute(a, p);
    assert forall|x: int, y: int, v: int| #[trigger] f(f(v, x), y) == f(f(v, y), x) by {
        assert((v * x) * y == (v * y) * x) by (nonlinear_arith);
    }
    lemma_fold_left_permutation(t, s, f, 1);
    lemma_product_of_multiples(a, n, p);
    lemma_product_of_residues(n, p);
    let r = product(s);
    assert(1 * r == r);
    lemma_cancel(pow(a, n), 1, r, p);
    lemma_mod_small(1, p);
}

} // verus!

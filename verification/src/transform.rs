//! What the number-theoretic transform computes, and why its levels compute it.

use vstd::arithmetic::div_mod::*;
use vstd::arithmetic::mul::lemma_mul_is_commutative;
use vstd::arithmetic::power::*;
use vstd::arithmetic::power2::*;
use vstd::prelude::*;

use crate::modular::{
    lemma_mod_add, lemma_mod_eq_iff, lemma_mod_idem, lemma_mod_mul, lemma_mod_small, lemma_mod_sub,
};
use crate::poly::{
    lemma_strided_mod, lemma_strided_split, lemma_strided_whole, poly_eval, strided, u32_ints,
};
use crate::roots::{is_modulus, lemma_root_order, root};

verus! {

/// The low `l` bits of `x` in reverse order.
pub open spec fn bit_reverse(x: nat, l: nat) -> nat
    decreases l,
{
    if l == 0 {
        0
    } else {
        (x % 2) * pow2((l - 1) as nat) + bit_reverse(x / 2, (l - 1) as nat)
    }
}

/// The point at which entry `k` of a transform holds the polynomial's value:
/// an odd power of the root of unity, so an `n`-th root of `-1`.
pub open spec fn eval_point(p: int, k: int) -> int {
    pow(root(p), 2 * bit_reverse(k as nat, 9) + 1)
}

/// The negacyclic transform: the values of `f` modulo `p` at the `n`-th roots
/// of `-1`, in bit-reversed order.
pub open spec fn transform(f: Seq<int>, p: int) -> Seq<int> {
    Seq::new(512, |k: int| poly_eval(f, eval_point(p, k)) % p)
}

/// A further bit joins a reversed number at its low end.
pub proof fn lemma_bit_reverse_step(x: nat, l: nat)
    ensures
        bit_reverse(x, l + 1) == 2 * bit_reverse(x, l) + (x / pow2(l)) % 2,
    decreases l,
{
    reveal_with_fuel(bit_reverse, 2);
    lemma_pow2_pos(l);
    if l == 0 {
        lemma2_to64();
    } else {
        let m = (l - 1) as nat;
        lemma_bit_reverse_step(x / 2, m);
        lemma_pow2_unfold(l);
        lemma_pow2_pos(m);
        lemma_div_denominator(x as int, 2, pow2(m) as int);
        let b = x % 2;
        let t = pow2(m);
        assert(b * (2 * t) == 2 * (b * t)) by (nonlinear_arith);
    }
}

/// A reversed number has no more bits than were reversed.
pub proof fn lemma_bit_reverse_bound(x: nat, l: nat)
    ensures
        bit_reverse(x, l) < pow2(l),
    decreases l,
{
    lemma_pow2_pos(l);
    if l > 0 {
        let m = (l - 1) as nat;
        lemma_bit_reverse_bound(x / 2, m);
        lemma_pow2_unfold(l);
        let b = x % 2;
        let t = pow2(m);
        assert(b * t <= t) by (nonlinear_arith)
            requires
                b <= 1,
        ;
    }
}

/// Only the low bits are reversed.
pub proof fn lemma_bit_reverse_low(x: nat, l: nat)
    ensures
        bit_reverse(pow2(l) + x, l) == bit_reverse(x, l),
    decreases l,
{
    if l > 0 {
        lemma_pow2_unfold(l);
        lemma_bit_reverse_low(x / 2, (l - 1) as nat);
    }
}

/// Bit `t` of a reversed number is the bit that stands as far from the other
/// end.
pub proof fn lemma_bit_reverse_bits(x: nat, l: nat, t: nat)
    requires
        t < l,
    ensures
        (bit_reverse(x, l) / pow2(t)) % 2 == (x / pow2((l - 1 - t) as nat)) % 2,
    decreases t,
{
    let m = (l - 1) as nat;
    let r = bit_reverse(x, m);
    lemma_bit_reverse_step(x, m);
    if t == 0 {
        lemma2_to64();
    } else {
        let n = (t - 1) as nat;
        lemma_bit_reverse_bits(x, m, n);
        lemma_pow2_unfold(t);
        lemma_pow2_pos(n);
        let b = (x / pow2(m)) % 2;
        lemma_div_denominator((2 * r + b) as int, 2, pow2(n) as int);
        assert((2 * r + b) / 2 == r);
    }
}

/// Complementing the bits before reversing them complements them after.
pub proof fn lemma_bit_reverse_complement(x: nat, l: nat)
    requires
        x < pow2(l),
    ensures
        bit_reverse((pow2(l) - 1 - x) as nat, l) == pow2(l) - 1 - bit_reverse(x, l),
    decreases l,
{
    lemma2_to64();
    if l > 0 {
        let m = (l - 1) as nat;
        lemma_pow2_unfold(l);
        lemma_bit_reverse_complement(x / 2, m);
        let t = pow2(m);
        assert((pow2(l) - 1 - x) / 2 == t - 1 - x / 2);
        assert((pow2(l) - 1 - x) % 2 == 1 - x % 2);
        let b = x % 2;
        assert((1 - b) * t == t - b * t) by (nonlinear_arith);
    }
}

/// The exponent at node `c` of the tree of blocks: half that of its parent,
/// plus `n` at a right child.
pub proof fn lemma_node_exponents(c: nat)
    requires
        c < 512,
    ensures
        bit_reverse(c, 10) == 2 * bit_reverse(c, 9),
        bit_reverse(2 * c, 10) == bit_reverse(c, 9),
        bit_reverse(2 * c + 1, 10) == bit_reverse(c, 9) + 512,
        bit_reverse(512 + c, 10) == 2 * bit_reverse(c, 9) + 1,
{
    lemma2_to64();
    lemma_bit_reverse_step(c, 9);
    lemma_bit_reverse_step(512 + c, 9);
    lemma_bit_reverse_low(c, 9);
    assert((2 * c) / 2 == c);
    assert((2 * c + 1) / 2 == c);
}

/// What stands at index `i` when the blocks have size `m`: the coefficients
/// `m` apart, at the block's point.
pub open spec fn block_value(f: Seq<int>, p: int, m: int, i: int) -> int {
    strided(f, i % m, m, pow(root(p), bit_reverse((512int / m + i / m) as nat, 10)))
}

/// The state of a transform whose blocks have size `m`.
pub open spec fn at_level(a: Seq<u32>, f: Seq<int>, p: int, m: int) -> bool {
    &&& a.len() == 512
    &&& forall|i: int| 0 <= i < 512 ==> #[trigger] a[i] as int % p == block_value(f, p, m, i) % p
}

/// What one level, splitting blocks of size `2l`, writes at index `i`.
pub open spec fn butterfly(a: Seq<int>, p: int, l: int, i: int) -> int {
    let z = pow(root(p), bit_reverse((256int / l + i / (2 * l)) as nat, 9)) % p;
    if i % (2 * l) < l {
        a[i] + z * a[i + l]
    } else {
        a[i - l] - z * a[i]
    }
}

/// Before the first level there is one block, which holds the coefficients.
pub proof fn lemma_first_level(a: Seq<u32>, f: Seq<int>, p: int)
    requires
        is_modulus(p),
        a.len() == 512,
        f.len() == 512,
        forall|i: int| 0 <= i < 512 ==> #[trigger] a[i] as int % p == f[i] % p,
    ensures
        at_level(a, f, p, 512),
{
    assert forall|i: int| 0 <= i < 512 implies #[trigger] a[i] as int % p == block_value(
        f,
        p,
        512,
        i,
    ) % p by {
        let x = pow(root(p), bit_reverse((512int / 512 + i / 512) as nat, 10));
        assert(i % 512 == i);
        assert(strided(f, i + 512, 512, x) == 0);
        assert(x * 0 == 0) by (nonlinear_arith);
        assert(strided(f, i, 512, x) == f[i]);
    }
}

/// A level that splits the blocks of size `2l` leaves blocks of size `l`.
pub proof fn lemma_level(a: Seq<u32>, b: Seq<u32>, f: Seq<int>, p: int, l: int)
    requires
        is_modulus(p),
        f.len() == 512,
        l > 0,
        512 == (256int / l) * (2 * l),
        at_level(a, f, p, 2 * l),
        b.len() == 512,
        forall|i: int|
            0 <= i < 512 ==> #[trigger] b[i] as int % p == butterfly(
                u32_ints(a),
                p,
                l,
                i,
            ) % p,
    ensures
        at_level(b, f, p, l),
{
    let n = 256int / l;
    let g = root(p);
    assert(512int / (2 * l) == n) by (nonlinear_arith)
        requires
            512 == n * (2 * l),
            l > 0,
    ;
    assert(512int / l == 2 * n) by (nonlinear_arith)
        requires
            512 == n * (2 * l),
            l > 0,
    ;
    assert forall|i: int| 0 <= i < 512 implies #[trigger] b[i] as int % p == block_value(
        f,
        p,
        l,
        i,
    ) % p by {
        lemma_level_at(a, f, p, l, i);
    }
}

/// [`lemma_level`] at one index.
proof fn lemma_level_at(a: Seq<u32>, f: Seq<int>, p: int, l: int, i: int)
    requires
        is_modulus(p),
        f.len() == 512,
        l > 0,
        512 == (256int / l) * (2 * l),
        at_level(a, f, p, 2 * l),
        0 <= i < 512,
    ensures
        butterfly(u32_ints(a), p, l, i) % p == block_value(f, p, l, i) % p,
{
    let n = 256int / l;
    let g = root(p);
    let c = i / (2 * l);
    let r = i % (2 * l);
    lemma_fundamental_div_mod(i, 2 * l);
    assert(0 <= r < 2 * l);
    assert(0 <= c < n) by (nonlinear_arith)
        requires
            i == (2 * l) * c + r,
            0 <= r < 2 * l,
            0 <= i < 512,
            512 == n * (2 * l),
            l > 0,
    ;
    assert(512int / (2 * l) == n && 512int / l == 2 * n && n <= 256) by (nonlinear_arith)
        requires
            512 == n * (2 * l),
            l > 0,
    ;
    let e = bit_reverse((n + c) as nat, 9);
    let z = pow(g, e);
    let zr = z % p;
    lemma_node_exponents((n + c) as nat);
    lemma_pow_adds(g, e, e);
    assert(z * z == pow(g, bit_reverse((n + c) as nat, 10)));
    let s: int = if r < l {
        r
    } else {
        r - l
    };
    // The two entries of the parent block that are combined.
    let u = strided(f, s, 2 * l, z * z);
    let v = strided(f, s + l, 2 * l, z * z);
    let lo: int = (2 * l) * c + s;
    let hi: int = lo + l;
    lemma_mul_is_commutative(2 * l, c);
    assert(lo == c * (2 * l) + s);
    lemma_fundamental_div_mod_converse(lo, 2 * l, c, s);
    assert(hi == c * (2 * l) + (s + l));
    lemma_fundamental_div_mod_converse(hi, 2 * l, c, s + l);
    assert(hi < 512) by (nonlinear_arith)
        requires
            hi == (2 * l) * c + (s + l),
            s < l,
            c < n,
            512 == n * (2 * l),
            l > 0,
    ;
    assert(lo >= 0) by (nonlinear_arith)
        requires
            lo == (2 * l) * c + s,
            s >= 0,
            c >= 0,
            l > 0,
    ;
    let x = a[lo] as int;
    let y = a[hi] as int;
    assert(x % p == block_value(f, p, 2 * l, lo) % p);
    assert(y % p == block_value(f, p, 2 * l, hi) % p);
    assert(x % p == u % p);
    assert(y % p == v % p);
    lemma_mod_idem(z, p);
    lemma_mod_mul(zr, z, y, v, p);
    if r < l {
        assert(i == lo);
        lemma_strided_split(f, s, l, z);
        lemma_mod_add(x, u, zr * y, z * v, p);
        assert(i == (2 * c) * l + s) by (nonlinear_arith)
            requires
                i == (2 * l) * c + s,
        ;
        lemma_fundamental_div_mod_converse(i, l, 2 * c, s);
    } else {
        assert(i == hi);
        let t = pow(g, e + 512);
        lemma_pow_adds(g, e, 512);
        lemma_root_order(p);
        // t = -z modulo p.
        lemma_mod_small(p - 1, p);
        lemma_mod_eq_iff(p - 1, -1, p);
        assert(p - 1 - (-1) == p);
        lemma_mod_self_0(p);
        lemma_mod_mul(z, z, pow(g, 512), -1, p);
        assert(z * -1 == -z) by (nonlinear_arith);
        lemma_strided_split(f, s, l, -z);
        assert((-z) * (-z) == z * z) by (nonlinear_arith);
        assert((-z) * v == -(z * v)) by (nonlinear_arith);
        lemma_strided_mod(f, f, s, l, t, -z, p);
        lemma_mod_sub(x, u, zr * y, z * v, p);
        assert(i == (2 * c + 1) * l + s) by (nonlinear_arith)
            requires
                i == (2 * l) * c + (s + l),
        ;
        lemma_fundamental_div_mod_converse(i, l, 2 * c + 1, s);
    }
}

/// After the last level every block is one value of the polynomial.
pub proof fn lemma_last_level(a: Seq<u32>, f: Seq<int>, p: int)
    requires
        is_modulus(p),
        f.len() == 512,
        at_level(a, f, p, 1),
        forall|i: int| 0 <= i < 512 ==> #[trigger] a[i] < p,
    ensures
        u32_ints(a) == transform(f, p),
{
    assert forall|k: int| 0 <= k < 512 implies #[trigger] a[k] as int == transform(f, p)[k] by {
        lemma_node_exponents(k as nat);
        assert(k % 1 == 0 && k / 1 == k && 512int / 1 == 512);
        assert(a[k] as int % p == block_value(f, p, 1, k) % p);
        lemma_strided_whole(f, eval_point(p, k));
        lemma_mod_small(a[k] as int, p);
    }
}

} // verus!

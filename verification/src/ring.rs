//! The ring of integer polynomials modulo `x^n + 1`, and how the transform
//! carries its operations over.

use vstd::arithmetic::div_mod::lemma_mod_self_0;
use vstd::arithmetic::power::*;
use vstd::arithmetic::power2::*;
use vstd::prelude::*;

use crate::modular::{
    lemma_mod_add, lemma_mod_eq_iff, lemma_mod_idem, lemma_mod_mul, lemma_mod_pow, lemma_mod_small,
};
use crate::poly::poly_eval;
use crate::primes::{lemma_cancel, lemma_p1_prime, lemma_p2_prime};
use crate::roots::{is_modulus, lemma_root_order, root, P1};
use crate::sums::{
    lemma_sum_add, lemma_sum_exchange, lemma_sum_ext, lemma_sum_mod_ext, lemma_sum_pairs,
    lemma_sum_scale, lemma_sum_single, lemma_sum_split, sum,
};
use crate::transform::{
    bit_reverse, eval_point, lemma_bit_reverse_bound, lemma_bit_reverse_complement,
    lemma_node_exponents, transform,
};

verus! {

/// The coefficient of `b` at index `t`, where an index below zero wraps round
/// with a change of sign.
pub open spec fn wrapped(b: Seq<int>, t: int) -> int {
    if t >= 0 {
        b[t]
    } else {
        -b[t + 512]
    }
}

/// The product modulo `x^n + 1`.
pub open spec fn negacyclic(a: Seq<int>, b: Seq<int>) -> Seq<int> {
    Seq::new(512, |k: int| sum(|i: int| a[i] * wrapped(b, k - i), 512))
}

/// The sum of two polynomials.
pub open spec fn poly_sum(a: Seq<int>, b: Seq<int>) -> Seq<int> {
    Seq::new(512, |k: int| a[k] + b[k])
}

/// The constant polynomial one.
pub open spec fn poly_one() -> Seq<int> {
    Seq::new(
        512,
        |k: int|
            if k == 0 {
                1
            } else {
                0
            },
    )
}

/// The adjoint: `x` replaced by its inverse.
pub open spec fn adjoint(a: Seq<int>) -> Seq<int> {
    Seq::new(
        512,
        |k: int|
            if k == 0 {
                a[0]
            } else {
                -a[512 - k]
            },
    )
}

/// Multiplying by a power of `x` shifts the coefficients, with wrap-round.
proof fn lemma_shift(b: Seq<int>, i: nat, x: int, p: int)
    requires
        p > 1,
        i < 512,
        b.len() == 512,
        pow(x, 512) % p == p - 1,
    ensures
        sum(|k: int| wrapped(b, k - i) * pow(x, k as nat), 512) % p == (pow(x, i) * poly_eval(b, x))
            % p,
{
    let whole = |k: int| wrapped(b, k - i) * pow(x, k as nat);
    let term = |j: int| b[j] * pow(x, j as nat);
    let scaled = |j: int| pow(x, i) * term(j);
    let keep: nat = (512 - i) as nat;
    // The part that keeps its sign.
    let high = |j: int| whole(i + j);
    assert forall|j: int| 0 <= j < keep implies #[trigger] high(j) == scaled(j) by {
        lemma_pow_adds(x, i, j as nat);
        let c = b[j];
        let u = pow(x, i);
        let v = pow(x, j as nat);
        assert(c * (u * v) == u * (c * v)) by (nonlinear_arith);
    }
    lemma_sum_split(whole, high, i, keep);
    lemma_sum_ext(high, scaled, keep);
    // The part that wraps round.
    let tail = |j: int| scaled(keep + j);
    assert forall|j: int| 0 <= j < i implies #[trigger] whole(j) % p == tail(j) % p by {
        let c = b[keep + j];
        assert(j - i + 512 == keep + j);
        lemma_pow_adds(x, i, (keep + j) as nat);
        lemma_pow_adds(x, 512, j as nat);
        let u = pow(x, i);
        let v = pow(x, (keep + j) as nat);
        let w = pow(x, j as nat);
        let t = pow(x, 512);
        assert(u * v == t * w);
        assert(u * (c * v) == (c * t) * w) by (nonlinear_arith)
            requires
                u * v == t * w,
        ;
        lemma_mod_small(p - 1, p);
        lemma_mod_minus_one(p);
        lemma_mod_mul(c, c, t, -1, p);
        assert(c * -1 == -c) by (nonlinear_arith);
        lemma_mod_mul(c * t, -c, w, w, p);
    }
    lemma_sum_split(scaled, tail, keep, i);
    lemma_sum_mod_ext(whole, tail, i, p);
    lemma_mod_add(sum(whole, i), sum(tail, i), sum(scaled, keep), sum(scaled, keep), p);
    lemma_sum_scale(pow(x, i), term, scaled, 512);
}

/// `-1` and `p - 1` are congruent.
proof fn lemma_mod_minus_one(p: int)
    requires
        p > 1,
    ensures
        (p - 1) % p == (-1int) % p,
        (-1int) % p == p - 1,
{
    lemma_mod_small(p - 1, p);
    lemma_mod_eq_iff(p - 1, -1, p);
    assert(p - 1 - (-1) == p);
    lemma_mod_self_0(p);
}

/// At an `n`-th root of `-1` the value of a product is the product of the values.
pub proof fn lemma_eval_product(a: Seq<int>, b: Seq<int>, x: int, p: int)
    requires
        p > 1,
        a.len() == 512,
        b.len() == 512,
        pow(x, 512) % p == p - 1,
    ensures
        poly_eval(negacyclic(a, b), x) % p == (poly_eval(a, x) * poly_eval(b, x)) % p,
{
    let t = |k: int, i: int| (a[i] * wrapped(b, k - i)) * pow(x, k as nat);
    let c = negacyclic(a, b);
    let lhs = |k: int| c[k] * pow(x, k as nat);
    let rows = |k: int| sum(|i: int| t(k, i), 512);
    assert forall|k: int| 0 <= k < 512 implies #[trigger] lhs(k) == rows(k) by {
        let inner = |i: int| a[i] * wrapped(b, k - i);
        let row = |i: int| t(k, i);
        let y = pow(x, k as nat);
        assert forall|i: int| 0 <= i < 512 implies #[trigger] row(i) == y * inner(i) by {
            let u = inner(i);
            assert(u * y == y * u) by (nonlinear_arith);
        }
        lemma_sum_scale(y, inner, row, 512);
        let u = sum(inner, 512);
        assert(u * y == y * u) by (nonlinear_arith);
    }
    lemma_sum_ext(lhs, rows, 512);
    lemma_sum_exchange(t, 512, 512);
    let cols = |i: int| sum(|k: int| t(k, i), 512);
    assert(sum(rows, 512) == sum(cols, 512));
    let bx = poly_eval(b, x);
    let term = |i: int| a[i] * pow(x, i as nat);
    let rhs = |i: int| bx * term(i);
    assert forall|i: int| 0 <= i < 512 implies #[trigger] cols(i) % p == rhs(i) % p by {
        let col = |k: int| t(k, i);
        let shift = |k: int| wrapped(b, k - i) * pow(x, k as nat);
        assert forall|k: int| 0 <= k < 512 implies #[trigger] col(k) == a[i] * shift(k) by {
            let u = a[i];
            let v = wrapped(b, k - i);
            let w = pow(x, k as nat);
            assert((u * v) * w == u * (v * w)) by (nonlinear_arith);
        }
        lemma_sum_scale(a[i], shift, col, 512);
        lemma_shift(b, i as nat, x, p);
        assert(sum(shift, 512) % p == (pow(x, i as nat) * bx) % p) by {
            lemma_sum_ext(shift, |k: int| wrapped(b, k - (i as nat)) * pow(x, k as nat), 512);
        }
        lemma_mod_mul(a[i], a[i], sum(shift, 512), pow(x, i as nat) * bx, p);
        let u = a[i];
        let v = pow(x, i as nat);
        assert(u * (v * bx) == bx * (u * v)) by (nonlinear_arith);
    }
    lemma_sum_mod_ext(cols, rhs, 512, p);
    lemma_sum_scale(bx, term, rhs, 512);
    let ax = poly_eval(a, x);
    assert(bx * ax == ax * bx) by (nonlinear_arith);
}

/// Reading a sum backwards changes nothing.
proof fn lemma_sum_reverse(f: spec_fn(int) -> int, g: spec_fn(int) -> int, n: nat)
    requires
        forall|i: int| 0 <= i < n ==> #[trigger] g(i) == f(n - 1 - i),
    ensures
        sum(f, n) == sum(g, n),
    decreases n,
{
    if n > 0 {
        let m = (n - 1) as nat;
        let rest = |i: int| g(1 + i);
        assert forall|i: int| 0 <= i < m implies #[trigger] rest(i) == f(m - 1 - i) by {
            assert(g(1 + i) == f(n - 1 - (1 + i)));
        }
        lemma_sum_reverse(f, rest, m);
        lemma_sum_split(g, rest, 1, m);
        assert(sum(g, 1) == sum(g, 0) + g(0));
        assert(g(0) == f(n - 1));
    }
}

/// The value of the adjoint is the value at the inverse.
pub proof fn lemma_eval_adjoint(a: Seq<int>, x: int, y: int, p: int)
    requires
        p > 1,
        a.len() == 512,
        pow(x, 512) % p == p - 1,
        (x * y) % p == 1,
    ensures
        poly_eval(adjoint(a), x) % p == poly_eval(a, y) % p,
{
    let c = adjoint(a);
    let lhs = |k: int| c[k] * pow(x, k as nat);
    let rhs = |k: int| a[k] * pow(y, k as nat);
    let lrest = |k: int| lhs(1 + k);
    let rrest = |k: int| rhs(1 + k);
    let back = |k: int| rrest(510 - k);
    lemma_sum_split(lhs, lrest, 1, 511);
    lemma_sum_split(rhs, rrest, 1, 511);
    lemma_sum_reverse(rrest, back, 511);
    assert forall|k: int| 0 <= k < 511 implies #[trigger] lrest(k) % p == back(k) % p by {
        // The coefficient at `j = 511 - k`: x^(512 - j) = -y^j.
        let j = (511 - k) as nat;
        let u = pow(x, (1 + k) as nat);
        let v = pow(y, j);
        lemma_pow_adds(x, (1 + k) as nat, j);
        lemma_pow_distributes(x, y, j);
        lemma_mod_small(1, p);
        lemma_mod_pow(x * y, 1, j, p);
        lemma_pow_one(j);
        let w = pow(x, j);
        // u = u (w v) = (u w) v = -v.
        assert((w * v) % p == 1);
        lemma_mod_mul(u, u, w * v, 1, p);
        lemma_mod_minus_one(p);
        lemma_mod_mul(u * w, -1, v, v, p);
        assert(u * (w * v) == (u * w) * v) by (nonlinear_arith);
        assert(u * 1 == u);
        assert(-1 * v == -v);
        let b = a[j as int];
        lemma_mod_mul(-b, -b, u, -v, p);
        assert((-b) * (-v) == b * v) by (nonlinear_arith);
        assert(lrest(k) == (-b) * u);
        assert(back(k) == rhs(j as int));
    }
    lemma_sum_mod_ext(lrest, back, 511, p);
    assert(sum(lhs, 1) == sum(lhs, 0) + lhs(0));
    assert(sum(rhs, 1) == sum(rhs, 0) + rhs(0));
    lemma_pow0(x);
    lemma_pow0(y);
    lemma_mod_add(sum(lhs, 1), sum(rhs, 1), sum(lrest, 511), sum(back, 511), p);
}

/// Powers of one are one.
proof fn lemma_pow_one(e: nat)
    ensures
        pow(1, e) == 1,
    decreases e,
{
    reveal(pow);
    if e > 0 {
        lemma_pow_one((e - 1) as nat);
    }
}

/// The evaluation points are `n`-th roots of `-1`.
pub proof fn lemma_eval_point(p: int, k: int)
    requires
        is_modulus(p),
        0 <= k < 512,
    ensures
        pow(eval_point(p, k), 512) % p == p - 1,
        (eval_point(p, k) * eval_point(p, 511 - k)) % p == 1,
{
    let g = root(p);
    let r = bit_reverse(k as nat, 9);
    let e = 2 * r + 1;
    lemma_root_order(p);
    lemma_mod_small(1, p);
    // g^(512 (2r + 1)) = (g^1024)^r g^512.
    lemma_pow_multiplies(g, e, 512);
    lemma_pow_multiplies(g, 1024, r);
    lemma_pow_adds(g, 1024 * r, 512);
    assert(e * 512 == 1024 * r + 512);
    lemma_mod_pow(pow(g, 1024), 1, r, p);
    lemma_pow_one(r);
    lemma_mod_mul(pow(g, 1024 * r), 1, pow(g, 512), pow(g, 512), p);
    // The exponents of mirrored points add up to 1024.
    lemma2_to64();
    lemma_bit_reverse_bound(k as nat, 9);
    lemma_bit_reverse_complement(k as nat, 9);
    lemma_pow_adds(g, e, 2 * bit_reverse((511 - k) as nat, 9) + 1);
}

/// The transform of a product is the product of the transforms, entry by
/// entry: the transform turns negacyclic convolution into multiplication.
pub proof fn lemma_transform_product(a: Seq<int>, b: Seq<int>, p: int, k: int)
    requires
        is_modulus(p),
        a.len() == 512,
        b.len() == 512,
        0 <= k < 512,
    ensures
        transform(negacyclic(a, b), p)[k] == (transform(a, p)[k] * transform(b, p)[k]) % p,
{
    let x = eval_point(p, k);
    lemma_eval_point(p, k);
    lemma_eval_product(a, b, x, p);
    lemma_mod_idem(poly_eval(a, x), p);
    lemma_mod_idem(poly_eval(b, x), p);
    lemma_mod_mul(
        poly_eval(a, x) % p,
        poly_eval(a, x),
        poly_eval(b, x) % p,
        poly_eval(b, x),
        p,
    );
}

/// The transform of the adjoint is the transform read backwards.
pub proof fn lemma_transform_adjoint(a: Seq<int>, p: int, k: int)
    requires
        is_modulus(p),
        a.len() == 512,
        0 <= k < 512,
    ensures
        transform(adjoint(a), p)[k] == transform(a, p)[511 - k],
{
    lemma_eval_point(p, k);
    lemma_eval_adjoint(a, eval_point(p, k), eval_point(p, 511 - k), p);
}

/// The transform of a sum is the sum of the transforms.
pub proof fn lemma_transform_sum(a: Seq<int>, b: Seq<int>, p: int, k: int)
    requires
        is_modulus(p),
        a.len() == 512,
        b.len() == 512,
        0 <= k < 512,
    ensures
        transform(poly_sum(a, b), p)[k] == (transform(a, p)[k] + transform(b, p)[k]) % p,
{
    let x = eval_point(p, k);
    let c = poly_sum(a, b);
    let f = |i: int| a[i] * pow(x, i as nat);
    let g = |i: int| b[i] * pow(x, i as nat);
    let h = |i: int| c[i] * pow(x, i as nat);
    assert forall|i: int| 0 <= i < 512 implies #[trigger] h(i) == f(i) + g(i) by {
        let u = a[i];
        let v = b[i];
        let w = pow(x, i as nat);
        assert((u + v) * w == u * w + v * w) by (nonlinear_arith);
    }
    lemma_sum_add(f, g, h, 512);
    lemma_mod_idem(poly_eval(a, x), p);
    lemma_mod_idem(poly_eval(b, x), p);
    lemma_mod_add(
        poly_eval(a, x) % p,
        poly_eval(a, x),
        poly_eval(b, x) % p,
        poly_eval(b, x),
        p,
    );
}

/// The transform of one is one everywhere.
pub proof fn lemma_transform_one(p: int, k: int)
    requires
        is_modulus(p),
        0 <= k < 512,
    ensures
        transform(poly_one(), p)[k] == 1,
{
    let x = eval_point(p, k);
    let f = |i: int| poly_one()[i] * pow(x, i as nat);
    assert forall|i: int| 0 <= i < 512 && i != 0 implies #[trigger] f(i) == 0 by {
        let w = pow(x, i as nat);
        assert(0 * w == 0);
    }
    lemma_sum_single(f, 512, 0);
    lemma_pow0(x);
    lemma_mod_small(1, p);
}

/// The `t`-th power of the point of node `c`.
spec fn node_power(p: int, c: int, t: nat) -> int {
    pow(pow(root(p), bit_reverse(c as nat, 10)), t)
}

/// The sum of the `t`-th powers of the points of the `2^l` nodes at depth `l`.
spec fn power_sum(p: int, l: nat, t: nat) -> int {
    sum(|k: int| node_power(p, pow2(l) + k, t), pow2(l))
}

/// What the sums of powers are: zero unless `2^l` divides the exponent.
spec fn power_sum_value(l: nat, t: nat) -> int
    decreases l,
{
    if l == 0 {
        if t % 2 == 0 {
            1
        } else {
            -1
        }
    } else if t % 2 == 1 {
        0
    } else {
        2 * power_sum_value((l - 1) as nat, t / 2)
    }
}

/// The points at depth `l + 1` come in pairs of opposite sign, whose squares
/// are the points at depth `l`.
proof fn lemma_power_sum(p: int, l: nat, t: nat)
    requires
        is_modulus(p),
        l <= 9,
    ensures
        power_sum(p, l, t) % p == power_sum_value(l, t) % p,
    decreases l,
{
    lemma2_to64();
    let g = root(p);
    lemma_root_order(p);
    lemma_mod_minus_one(p);
    lemma_mod_small(1, p);
    if l == 0 {
        let f = |k: int| node_power(p, pow2(l) + k, t);
        assert(sum(f, 1) == sum(f, 0) + f(0));
        lemma_node_exponents(0);
        lemma_bit_reverse_zero(9);
        // The root's node holds g^512 = -1.
        assert(f(0) == pow(pow(g, 512), t));
        lemma_mod_pow(pow(g, 512), -1, t, p);
        lemma_pow_minus_one(t);
    } else {
        let m = (l - 1) as nat;
        lemma_pow2_unfold(l);
        lemma_power_sum(p, m, t / 2);
        let n = pow2(m);
        assert(n <= 256) by {
            if m < 8 {
                lemma_pow2_strictly_increases(m, 8);
            }
        }
        let f = |k: int| node_power(p, pow2(l) + k, t);
        let pair = |i: int| f(2 * i) + f(2 * i + 1);
        lemma_sum_pairs(f, pair, n);
        let up = |i: int| node_power(p, n + i, t / 2);
        let c: int = if t % 2 == 1 {
            0
        } else {
            2
        };
        let twice = |i: int| c * up(i);
        assert forall|i: int| 0 <= i < n implies #[trigger] pair(i) % p == twice(i) % p by {
            let e = bit_reverse((n + i) as nat, 9);
            let z = pow(g, e);
            lemma_node_exponents((n + i) as nat);
            assert(pow2(l) + 2 * i == 2 * (n + i));
            assert(f(2 * i) == pow(z, t));
            // The right point is the opposite of the left one.
            lemma_pow_adds(g, e, 512);
            let y = pow(g, e + 512);
            assert(f(2 * i + 1) == pow(y, t));
            lemma_mod_mul(z, z, pow(g, 512), -1, p);
            assert(z * -1 == -1 * z);
            lemma_mod_pow(y, -1 * z, t, p);
            lemma_pow_distributes(-1, z, t);
            lemma_pow_minus_one(t);
            lemma_mod_add(pow(z, t), pow(z, t), pow(y, t), pow(-1, t) * pow(z, t), p);
            let w = pow(z, t);
            if t % 2 == 1 {
                assert(w + -1 * w == 0) by (nonlinear_arith);
                assert(0 * up(i) == 0);
            } else {
                lemma_pow_multiplies(z, 2, t / 2);
                lemma_pow_adds(g, e, e);
                lemma_pow_adds(z, 1, 1);
                lemma_pow1(z);
                assert(up(i) == w);
                assert(w + 1 * w == 2 * w) by (nonlinear_arith);
            }
        }
        lemma_sum_mod_ext(pair, twice, n, p);
        lemma_sum_scale(c, up, twice, n);
        if t % 2 == 1 {
            assert(0 * sum(up, n) == 0);
        } else {
            assert(sum(up, n) == power_sum(p, m, t / 2));
            lemma_mod_mul(2, 2, sum(up, n), power_sum_value(m, t / 2), p);
        }
    }
}

/// Reversing no bits gives zero.
proof fn lemma_bit_reverse_zero(l: nat)
    ensures
        bit_reverse(0, l) == 0,
    decreases l,
{
    if l > 0 {
        lemma_bit_reverse_zero((l - 1) as nat);
        assert(0 * pow2((l - 1) as nat) == 0);
    }
}

/// Powers of `-1` alternate.
proof fn lemma_pow_minus_one(e: nat)
    ensures
        pow(-1, e) == if e % 2 == 0 { 1int } else { -1int },
    decreases e,
{
    reveal(pow);
    if e > 0 {
        lemma_pow_minus_one((e - 1) as nat);
    }
}

/// The sums of powers at full depth, for exponents up to `2n`.
proof fn lemma_power_sum_value(t: nat)
    requires
        t <= 1024,
    ensures
        power_sum_value(9, t) == if t == 0 || t == 1024 {
            512int
        } else if t == 512 {
            -512int
        } else {
            0
        },
{
    reveal_with_fuel(power_sum_value, 10);
}

/// The values at all points, each times the `s`-th power of its point, pick
/// out a coefficient.
proof fn lemma_weighted_sum(a: Seq<int>, p: int, s: nat, t: int)
    requires
        is_modulus(p),
        a.len() == 512,
        0 <= t < 512,
        (s == 0 && t == 0) || (s == 1024 - t),
    ensures
        sum(|k: int| poly_eval(a, eval_point(p, k)) * pow(eval_point(p, k), s), 512) % p == (512
            * a[t]) % p,
{
    let lhs = |k: int| poly_eval(a, eval_point(p, k)) * pow(eval_point(p, k), s);
    let cell = |k: int, i: int| a[i] * pow(eval_point(p, k), (i + s) as nat);
    let rows = |k: int| sum(|i: int| cell(k, i), 512);
    assert forall|k: int| 0 <= k < 512 implies #[trigger] lhs(k) == rows(k) by {
        let x = eval_point(p, k);
        let y = pow(x, s);
        let term = |i: int| a[i] * pow(x, i as nat);
        let row = |i: int| cell(k, i);
        assert forall|i: int| 0 <= i < 512 implies #[trigger] row(i) == y * term(i) by {
            lemma_pow_adds(x, i as nat, s);
            let u = a[i];
            let v = pow(x, i as nat);
            assert(u * (v * y) == y * (u * v)) by (nonlinear_arith);
        }
        lemma_sum_scale(y, term, row, 512);
        let w = poly_eval(a, x);
        assert(w * y == y * w) by (nonlinear_arith);
    }
    lemma_sum_ext(lhs, rows, 512);
    lemma_sum_exchange(cell, 512, 512);
    let cols = |i: int| sum(|k: int| cell(k, i), 512);
    let picked = |i: int|
        if i == t {
            512 * a[i]
        } else {
            0
        };
    lemma2_to64();
    assert forall|i: int| 0 <= i < 512 implies #[trigger] cols(i) % p == picked(i) % p by {
        let col = |k: int| cell(k, i);
        let e = (i + s) as nat;
        let f = |k: int| node_power(p, pow2(9) + k, e);
        assert forall|k: int| 0 <= k < 512 implies #[trigger] col(k) == a[i] * f(k) by {
            lemma_node_exponents(k as nat);
        }
        lemma_sum_scale(a[i], f, col, 512);
        assert(sum(f, 512) == power_sum(p, 9, e));
        lemma_power_sum(p, 9, e);
        if e <= 1024 {
            lemma_power_sum_value(e);
        } else {
            lemma_power_sum_beyond(e);
        }
        lemma_mod_mul(a[i], a[i], sum(f, 512), power_sum_value(9, e), p);
        let u = a[i];
        assert(u * 512 == 512 * u);
        assert(u * 0 == 0) by (nonlinear_arith);
    }
    lemma_sum_mod_ext(cols, picked, 512, p);
    lemma_sum_single(picked, 512, t);
}

/// The sums of powers between `2n` and `3n` vanish.
proof fn lemma_power_sum_beyond(t: nat)
    requires
        1024 < t < 1536,
    ensures
        power_sum_value(9, t) == 0,
{
    reveal_with_fuel(power_sum_value, 10);
}

/// The sum of all values is `n` times the constant coefficient.
pub proof fn lemma_transform_total(a: Seq<int>, p: int)
    requires
        is_modulus(p),
        a.len() == 512,
    ensures
        sum(|k: int| transform(a, p)[k], 512) % p == (512 * a[0]) % p,
{
    let f = |k: int| transform(a, p)[k];
    let g = |k: int| poly_eval(a, eval_point(p, k)) * pow(eval_point(p, k), 0);
    assert forall|k: int| 0 <= k < 512 implies #[trigger] f(k) % p == g(k) % p by {
        let v = poly_eval(a, eval_point(p, k));
        lemma_pow0(eval_point(p, k));
        assert(v * 1 == v);
        lemma_mod_idem(v, p);
    }
    lemma_sum_mod_ext(f, g, 512, p);
    lemma_weighted_sum(a, p, 0, 0);
}

/// Polynomials with the same transform are congruent: the transform loses
/// nothing modulo `p`.
pub proof fn lemma_transform_injective(a: Seq<int>, b: Seq<int>, p: int, t: int)
    requires
        is_modulus(p),
        a.len() == 512,
        b.len() == 512,
        transform(a, p) == transform(b, p),
        0 <= t < 512,
    ensures
        a[t] % p == b[t] % p,
{
    let s = (1024 - t) as nat;
    let f = |k: int| poly_eval(a, eval_point(p, k)) * pow(eval_point(p, k), s);
    let g = |k: int| poly_eval(b, eval_point(p, k)) * pow(eval_point(p, k), s);
    assert forall|k: int| 0 <= k < 512 implies #[trigger] f(k) % p == g(k) % p by {
        let x = eval_point(p, k);
        assert(transform(a, p)[k] == poly_eval(a, x) % p);
        assert(transform(b, p)[k] == poly_eval(b, x) % p);
        lemma_mod_mul(poly_eval(a, x), poly_eval(b, x), pow(x, s), pow(x, s), p);
    }
    lemma_sum_mod_ext(f, g, 512, p);
    lemma_weighted_sum(a, p, s, t);
    lemma_weighted_sum(b, p, s, t);
    if p == P1 {
        lemma_p1_prime();
    } else {
        lemma_p2_prime();
    }
    lemma_mod_small(512, p);
    lemma_cancel(a[t], b[t], 512, p);
}

} // verus!

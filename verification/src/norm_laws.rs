//! The norm computation returns `n` times the norm of a Hermitian form, modulo
//! `p`; and the two residues decide the bound on the norm itself.

use vstd::arithmetic::div_mod::*;
use vstd::arithmetic::power::pow;
use vstd::prelude::*;

use crate::modular::{lemma_mod_add, lemma_mod_eq_iff, lemma_mod_idem, lemma_mod_mul, lemma_mod_small};
use crate::norm::{
    has_zero, lemma_mod_inverse, mod_inverse, mod_inverses, norm_in_bound, norm_mod, norm_term,
};
use crate::poly::poly_eval;
use crate::primes::{is_prime, lemma_no_zero_divisors, lemma_p1_prime, lemma_p2_prime};
use crate::ring::{
    adjoint, lemma_transform_adjoint, lemma_transform_one, lemma_transform_product,
    lemma_transform_sum, lemma_transform_total, negacyclic, poly_one, poly_sum,
};
use crate::roots::{is_modulus, P1, P2};
use crate::sums::lemma_sum_mod_ext;
use crate::transform::{eval_point, transform};

verus! {

/// `w0* q00 w0 + w0* q01 w1 + w1* q01* w0 + w1* q11 w1`: the Hermitian form
/// with the matrix `[q00 q01; q01* q11]`.
pub open spec fn hermitian_form(
    q00: Seq<int>,
    q01: Seq<int>,
    q11: Seq<int>,
    w0: Seq<int>,
    w1: Seq<int>,
) -> Seq<int> {
    poly_sum(
        poly_sum(
            negacyclic(negacyclic(adjoint(w0), q00), w0),
            negacyclic(negacyclic(adjoint(w0), q01), w1),
        ),
        poly_sum(
            negacyclic(negacyclic(adjoint(w1), adjoint(q01)), w0),
            negacyclic(negacyclic(adjoint(w1), q11), w1),
        ),
    )
}

/// The squared norm of `(w0, w1)`: the constant coefficient of the form.
pub open spec fn squared_norm(
    q00: Seq<int>,
    q01: Seq<int>,
    q11: Seq<int>,
    w0: Seq<int>,
    w1: Seq<int>,
) -> int {
    hermitian_form(q00, q01, q11, w0, w1)[0]
}

/// `q11` completes `q00` and `q01` to a Hermitian matrix of determinant one.
pub open spec fn completes(q00: Seq<int>, q01: Seq<int>, q11: Seq<int>) -> bool {
    &&& q00.len() == 512
    &&& q01.len() == 512
    &&& q11.len() == 512
    &&& adjoint(q00) == q00
    &&& negacyclic(q00, q11) == poly_sum(poly_one(), negacyclic(q01, adjoint(q01)))
}

/// The algebra of one entry. A bar marks the value at the mirrored point.
proof fn lemma_entry(
    a: int,
    v: int,
    b: int,
    bb: int,
    c: int,
    cc: int,
    d: int,
    dd: int,
    g: int,
    p: int,
)
    requires
        p > 1,
        (a * v) % p == 1,
        (a * g) % p == (1 + b * bb) % p,
    ensures
        (a * (c + (d * v) * b) * (cc + (dd * v) * bb) + (d * v) * dd) % p == (((cc * a) * c + (cc
            * b) * d) + ((dd * bb) * c + (dd * g) * d)) % p,
{
    let s = c * dd * bb + d * b * cc;
    let e = d * dd;
    let y = b * bb;
    let one = a * v;
    assert(a * (c + (d * v) * b) * (cc + (dd * v) * bb) + (d * v) * dd == (a * c * cc + one * s) + e
        * (v * (one * y + 1))) by {
        lemma_expand(a, v, b, bb, c, cc, d, dd);
    }
    lemma_mod_small(1, p);
    lemma_mod_mul(one, 1, s, s, p);
    lemma_mod_add(a * c * cc, a * c * cc, one * s, 1 * s, p);
    lemma_mod_mul(one, 1, y, y, p);
    lemma_mod_add(one * y, 1 * y, 1, 1, p);
    assert(1 * y + 1 == 1 + y);
    lemma_mod_mul(v, v, one * y + 1, a * g, p);
    assert(v * (a * g) == one * g) by (nonlinear_arith)
        requires
            one == a * v,
    ;
    lemma_mod_mul(one, 1, g, g, p);
    assert(1 * g == g);
    lemma_mod_mul(e, e, v * (one * y + 1), g, p);
    lemma_mod_add(a * c * cc + one * s, a * c * cc + 1 * s, e * (v * (one * y + 1)), e * g, p);
    assert((a * c * cc + 1 * s) + e * g == ((cc * a) * c + (cc * b) * d) + ((dd * bb) * c + (dd
        * g) * d)) by (nonlinear_arith)
        requires
            s == c * dd * bb + d * b * cc,
            e == d * dd,
    ;
}

/// The expansion of one entry.
proof fn lemma_expand(a: int, v: int, b: int, bb: int, c: int, cc: int, d: int, dd: int)
    ensures
        a * (c + (d * v) * b) * (cc + (dd * v) * bb) + (d * v) * dd == (a * c * cc + (a * v) * (c
            * dd * bb + d * b * cc)) + (d * dd) * (v * ((a * v) * (b * bb) + 1)),
{
    let l = (d * v) * b;
    let r = (dd * v) * bb;
    assert(a * (c + l) * (cc + r) == a * c * cc + a * c * r + a * l * cc + a * l * r)
        by (nonlinear_arith);
    assert(a * c * r == (a * v) * (c * dd * bb)) by (nonlinear_arith)
        requires
            r == (dd * v) * bb,
    ;
    assert(a * l * cc == (a * v) * (d * b * cc)) by (nonlinear_arith)
        requires
            l == (d * v) * b,
    ;
    let x = a * v;
    let y = b * bb;
    let e = d * dd;
    let dv = d * v;
    let ddv = dd * v;
    let vv = v * v;
    assert((dv * b) * (ddv * bb) == (dv * ddv) * (b * bb)) by (nonlinear_arith);
    assert((d * v) * (dd * v) == (d * dd) * (v * v)) by (nonlinear_arith);
    assert((e * vv) * y == e * (vv * y)) by (nonlinear_arith);
    assert(l * r == e * (vv * y));
    let z = vv * y;
    assert(a * l * r == a * (l * r)) by (nonlinear_arith);
    assert(a * (e * z) == e * (a * z)) by (nonlinear_arith);
    assert(a * ((v * v) * y) == v * ((a * v) * y)) by (nonlinear_arith);
    assert(a * l * r == e * (v * (x * y)));
    assert((d * v) * dd == e * v) by (nonlinear_arith)
        requires
            e == d * dd,
    ;
    let q = x * y;
    assert(e * (v * (q + 1)) == e * (v * q) + e * v) by (nonlinear_arith);
    let s = c * dd * bb;
    let t = d * b * cc;
    assert(x * (s + t) == x * s + x * t) by (nonlinear_arith);
}

/// The transform of a product of three.
proof fn lemma_transform_triple(x: Seq<int>, y: Seq<int>, z: Seq<int>, p: int, k: int)
    requires
        is_modulus(p),
        x.len() == 512,
        y.len() == 512,
        z.len() == 512,
        0 <= k < 512,
    ensures
        transform(negacyclic(negacyclic(x, y), z), p)[k] % p == ((transform(x, p)[k] * transform(
            y,
            p,
        )[k]) * transform(z, p)[k]) % p,
{
    let a = transform(x, p)[k];
    let b = transform(y, p)[k];
    let c = transform(z, p)[k];
    lemma_transform_product(x, y, p, k);
    lemma_transform_product(negacyclic(x, y), z, p, k);
    lemma_mod_idem(a * b, p);
    lemma_mod_mul((a * b) % p, a * b, c, c, p);
    lemma_mod_idem(((a * b) % p) * c, p);
}

/// Each term of the norm is the value of the Hermitian form at its point.
proof fn lemma_norm_term(
    q00: Seq<int>,
    q01: Seq<int>,
    q11: Seq<int>,
    w0: Seq<int>,
    w1: Seq<int>,
    p: int,
    k: int,
)
    requires
        is_modulus(p),
        is_prime(p),
        completes(q00, q01, q11),
        w0.len() == 512,
        w1.len() == 512,
        !has_zero(transform(q00, p)),
        0 <= k < 512,
    ensures
        norm_term(
            transform(q00, p),
            mod_inverses(transform(q00, p), p),
            transform(q01, p),
            transform(w0, p),
            transform(w1, p),
            k,
        ) % p == transform(hermitian_form(q00, q01, q11, w0, w1), p)[k] % p,
{
    let ta = transform(q00, p);
    let tb = transform(q01, p);
    let tg = transform(q11, p);
    let tc = transform(w0, p);
    let td = transform(w1, p);
    let j = 511 - k;
    let a = ta[k];
    let b = tb[k];
    let bb = tb[j];
    let c = tc[k];
    let cc = tc[j];
    let d = td[k];
    let dd = td[j];
    let g = tg[k];
    let v = mod_inverse(a, p);
    // q00 is its own adjoint, so it takes the same value at the mirrored point.
    lemma_transform_adjoint(q00, p, k);
    assert(ta[j] == a);
    lemma_mod_idem(poly_eval(q00, eval_point(p, k)), p);
    lemma_mod_small(a, p);
    assert(a != 0);
    lemma_mod_inverse(a, p);
    // a g = 1 + b bb.
    lemma_transform_product(q00, q11, p, k);
    lemma_transform_sum(poly_one(), negacyclic(q01, adjoint(q01)), p, k);
    lemma_transform_one(p, k);
    lemma_transform_product(q01, adjoint(q01), p, k);
    lemma_transform_adjoint(q01, p, k);
    lemma_mod_idem(b * bb, p);
    lemma_mod_add(1, 1, (b * bb) % p, b * bb, p);
    assert((a * g) % p == (1 + b * bb) % p);
    lemma_entry(a, v, b, bb, c, cc, d, dd, g, p);
    assert(norm_term(ta, mod_inverses(ta, p), tb, tc, td, k) == a * (c + (d * v) * b) * (cc + (dd
        * v) * bb) + (d * v) * dd);
    // The form.
    let f1 = negacyclic(negacyclic(adjoint(w0), q00), w0);
    let f2 = negacyclic(negacyclic(adjoint(w0), q01), w1);
    let f3 = negacyclic(negacyclic(adjoint(w1), adjoint(q01)), w0);
    let f4 = negacyclic(negacyclic(adjoint(w1), q11), w1);
    lemma_transform_adjoint(w0, p, k);
    lemma_transform_adjoint(w1, p, k);
    lemma_transform_triple(adjoint(w0), q00, w0, p, k);
    lemma_transform_triple(adjoint(w0), q01, w1, p, k);
    lemma_transform_triple(adjoint(w1), adjoint(q01), w0, p, k);
    lemma_transform_triple(adjoint(w1), q11, w1, p, k);
    let t1 = transform(f1, p)[k];
    let t2 = transform(f2, p)[k];
    let t3 = transform(f3, p)[k];
    let t4 = transform(f4, p)[k];
    lemma_transform_sum(f1, f2, p, k);
    lemma_transform_sum(f3, f4, p, k);
    lemma_transform_sum(poly_sum(f1, f2), poly_sum(f3, f4), p, k);
    lemma_mod_idem(t1 + t2, p);
    lemma_mod_idem(t3 + t4, p);
    lemma_mod_add(t1, (cc * a) * c, t2, (cc * b) * d, p);
    lemma_mod_add(t3, (dd * bb) * c, t4, (dd * g) * d, p);
    lemma_mod_add(
        (t1 + t2) % p,
        (cc * a) * c + (cc * b) * d,
        (t3 + t4) % p,
        (dd * bb) * c + (dd * g) * d,
        p,
    );
    lemma_mod_idem((t1 + t2) % p + (t3 + t4) % p, p);
}

/// The norm computation returns `n` times the squared norm, modulo `p`.
pub proof fn lemma_norm_mod(
    q00: Seq<int>,
    q01: Seq<int>,
    q11: Seq<int>,
    w0: Seq<int>,
    w1: Seq<int>,
    p: int,
)
    requires
        is_modulus(p),
        completes(q00, q01, q11),
        w0.len() == 512,
        w1.len() == 512,
        norm_mod(q00, q01, w0, w1, p) is Some,
    ensures
        norm_mod(q00, q01, w0, w1, p) == Some(
            (512 * squared_norm(q00, q01, q11, w0, w1)) % p,
        ),
{
    if p == P1 {
        lemma_p1_prime();
    } else {
        lemma_p2_prime();
    }
    let a = transform(q00, p);
    let f = hermitian_form(q00, q01, q11, w0, w1);
    let term = |k: int|
        norm_term(
            a,
            mod_inverses(a, p),
            transform(q01, p),
            transform(w0, p),
            transform(w1, p),
            k,
        );
    let value = |k: int| transform(f, p)[k];
    assert forall|k: int| 0 <= k < 512 implies #[trigger] term(k) % p == value(k) % p by {
        lemma_norm_term(q00, q01, q11, w0, w1, p, k);
    }
    lemma_sum_mod_ext(term, value, 512, p);
    lemma_transform_total(f, p);
}

/// Whether there is a norm modulo `p` depends on `q00` alone: there is one if no
/// value of `q00` at the roots is zero.
pub proof fn lemma_norm_exists(
    q00: Seq<int>,
    q01: Seq<int>,
    w0: Seq<int>,
    w1: Seq<int>,
    p: int,
)
    requires
        is_modulus(p),
    ensures
        norm_mod(q00, q01, w0, w1, p) is Some <==> (forall|k: int|
            0 <= k < 512 ==> #[trigger] transform(q00, p)[k] != 0),
{
    let a = transform(q00, p);
    if has_zero(a) {
        let k = choose|k: int| 0 <= k < a.len() && #[trigger] a[k] == 0;
        assert(transform(q00, p)[k] == 0);
    }
}

/// Polynomials with congruent coefficients have the same transform.
proof fn lemma_transform_congruent(a: Seq<int>, b: Seq<int>, p: int, k: int)
    requires
        is_modulus(p),
        a.len() == 512,
        b.len() == 512,
        forall|t: int| 0 <= t < 512 ==> #[trigger] a[t] % p == b[t] % p,
        0 <= k < 512,
    ensures
        transform(a, p)[k] == transform(b, p)[k],
{
    let x = eval_point(p, k);
    let f = |i: int| a[i] * pow(x, i as nat);
    let g = |i: int| b[i] * pow(x, i as nat);
    assert forall|i: int| 0 <= i < 512 implies #[trigger] f(i) % p == g(i) % p by {
        assert(a[i] % p == b[i] % p);
        lemma_mod_mul(a[i], b[i], pow(x, i as nat), pow(x, i as nat), p);
    }
    lemma_sum_mod_ext(f, g, 512, p);
}

/// What the norm computation sums up, as a polynomial: `q00 e e* + d w1*`, where
/// `d` is the quotient of `w1` and `q00`, and `e = w0 + d q01`.
pub open spec fn quotient_form(
    q00: Seq<int>,
    q01: Seq<int>,
    w0: Seq<int>,
    w1: Seq<int>,
    d: Seq<int>,
) -> Seq<int> {
    let e = poly_sum(w0, negacyclic(d, q01));
    poly_sum(negacyclic(negacyclic(q00, e), adjoint(e)), negacyclic(d, adjoint(w1)))
}

/// The value of the quotient at a point.
proof fn lemma_quotient_value(a: int, v: int, d: int, w: int, p: int)
    requires
        p > 1,
        (a * v) % p == 1,
        (a * d) % p == w % p,
    ensures
        (w * v) % p == d % p,
{
    lemma_mod_small(1, p);
    lemma_mod_mul(a * d, w, v, v, p);
    assert((a * d) * v == (a * v) * d) by (nonlinear_arith);
    lemma_mod_mul(a * v, 1, d, d, p);
    assert(1 * d == d);
}

/// Each term of the norm is the value of the form at its point.
proof fn lemma_quotient_term(
    q00: Seq<int>,
    q01: Seq<int>,
    w0: Seq<int>,
    w1: Seq<int>,
    d: Seq<int>,
    p: int,
    k: int,
)
    requires
        is_modulus(p),
        is_prime(p),
        q00.len() == 512,
        q01.len() == 512,
        w0.len() == 512,
        w1.len() == 512,
        d.len() == 512,
        forall|t: int| 0 <= t < 512 ==> #[trigger] negacyclic(q00, d)[t] % p == w1[t] % p,
        !has_zero(transform(q00, p)),
        0 <= k < 512,
    ensures
        norm_term(
            transform(q00, p),
            mod_inverses(transform(q00, p), p),
            transform(q01, p),
            transform(w0, p),
            transform(w1, p),
            k,
        ) % p == transform(quotient_form(q00, q01, w0, w1, d), p)[k] % p,
{
    let ta = transform(q00, p);
    let tb = transform(q01, p);
    let tc = transform(w0, p);
    let tw = transform(w1, p);
    let td = transform(d, p);
    let e = poly_sum(w0, negacyclic(d, q01));
    let te = transform(e, p);
    let vs = mod_inverses(ta, p);
    let j = 511 - k;
    assert forall|i: int| 0 <= i < 512 implies (tw[i] * #[trigger] vs[i]) % p == td[i] % p && (tc[i]
        + (tw[i] * vs[i]) * tb[i]) % p == te[i] % p by {
        lemma_mod_idem(poly_eval(q00, eval_point(p, i)), p);
        lemma_mod_small(ta[i], p);
        assert(ta[i] != 0);
        lemma_mod_inverse(ta[i], p);
        lemma_transform_congruent(negacyclic(q00, d), w1, p, i);
        lemma_transform_product(q00, d, p, i);
        lemma_mod_idem(poly_eval(w1, eval_point(p, i)), p);
        lemma_mod_small(tw[i], p);
        lemma_quotient_value(ta[i], vs[i], td[i], tw[i], p);
        lemma_transform_product(d, q01, p, i);
        lemma_transform_sum(w0, negacyclic(d, q01), p, i);
        lemma_mod_mul(tw[i] * vs[i], td[i], tb[i], tb[i], p);
        lemma_mod_idem(td[i] * tb[i], p);
        lemma_mod_add(tc[i], tc[i], (tw[i] * vs[i]) * tb[i], (td[i] * tb[i]) % p, p);
        lemma_mod_idem(tc[i] + (td[i] * tb[i]) % p, p);
    }
    let (a, ek, ej) = (ta[k], tc[k] + (tw[k] * vs[k]) * tb[k], tc[j] + (tw[j] * vs[j]) * tb[j]);
    assert(vs[k] == vs[k] && vs[j] == vs[j]);
    assert(ek % p == te[k] % p && ej % p == te[j] % p);
    lemma_mod_mul(a, a, ek, te[k], p);
    lemma_mod_mul(a * ek, a * te[k], ej, te[j], p);
    lemma_mod_mul(tw[k] * vs[k], td[k], tw[j], tw[j], p);
    lemma_mod_add(a * ek * ej, a * te[k] * te[j], (tw[k] * vs[k]) * tw[j], td[k] * tw[j], p);
    // The form.
    let f1 = negacyclic(negacyclic(q00, e), adjoint(e));
    let f2 = negacyclic(d, adjoint(w1));
    lemma_transform_triple(q00, e, adjoint(e), p, k);
    lemma_transform_adjoint(e, p, k);
    lemma_transform_product(d, adjoint(w1), p, k);
    lemma_transform_adjoint(w1, p, k);
    lemma_transform_sum(f1, f2, p, k);
    let (t1, t2) = (transform(f1, p)[k], transform(f2, p)[k]);
    lemma_mod_idem(td[k] * tw[j], p);
    lemma_mod_add(t1, a * te[k] * te[j], t2, td[k] * tw[j], p);
    lemma_mod_idem(t1 + t2, p);
}

/// The norm computation for any key, with or without a matrix that completes it:
/// `n` times the constant coefficient of `q00 e e* + d w1*`, modulo `p`, for
/// every polynomial `d` with `q00 d = w1` modulo `p`, and `e = w0 + d q01`.
pub proof fn lemma_norm_of_quotient(
    q00: Seq<int>,
    q01: Seq<int>,
    w0: Seq<int>,
    w1: Seq<int>,
    d: Seq<int>,
    p: int,
)
    requires
        is_modulus(p),
        q00.len() == 512,
        q01.len() == 512,
        w0.len() == 512,
        w1.len() == 512,
        d.len() == 512,
        forall|t: int| 0 <= t < 512 ==> #[trigger] negacyclic(q00, d)[t] % p == w1[t] % p,
        norm_mod(q00, q01, w0, w1, p) is Some,
    ensures
        norm_mod(q00, q01, w0, w1, p) == Some(
            (512 * quotient_form(q00, q01, w0, w1, d)[0]) % p,
        ),
{
    if p == P1 {
        lemma_p1_prime();
    } else {
        lemma_p2_prime();
    }
    let a = transform(q00, p);
    let f = quotient_form(q00, q01, w0, w1, d);
    let term = |k: int|
        norm_term(
            a,
            mod_inverses(a, p),
            transform(q01, p),
            transform(w0, p),
            transform(w1, p),
            k,
        );
    let value = |k: int| transform(f, p)[k];
    assert forall|k: int| 0 <= k < 512 implies #[trigger] term(k) % p == value(k) % p by {
        lemma_quotient_term(q00, q01, w0, w1, d, p, k);
    }
    lemma_sum_mod_ext(term, value, 512, p);
    lemma_transform_total(f, p);
}

/// Two residues that agree modulo both primes come from one integer below the
/// product of the primes.
proof fn lemma_two_residues(x: int, r: int)
    requires
        0 <= x < P1 * P2,
        0 <= r < P2,
        x % (P1 as int) == r,
        x % (P2 as int) == r,
    ensures
        x == r,
{
    let p1 = P1 as int;
    let p2 = P2 as int;
    lemma_p2_prime();
    lemma_fundamental_div_mod(x, p1);
    let q = x / p1;
    assert(x - r == p1 * q);
    lemma_mod_small(r, p2);
    lemma_mod_eq_iff(x, r, p2);
    lemma_no_zero_divisors(p1, q, p2);
    lemma_mod_small(83968, p2);
    assert(p1 % p2 != 0);
    lemma_fundamental_div_mod(q, p2);
    assert(q < p2) by (nonlinear_arith)
        requires
            x - r == p1 * q,
            x < p1 * p2,
            r >= 0,
            p1 > 0,
    ;
    assert(q >= 0) by (nonlinear_arith)
        requires
            x - r == p1 * q,
            x >= 0,
            r < p1,
            p1 > 0,
    ;
    lemma_mod_small(q, p2);
}

/// Where `n` times the squared norm is below the product of the primes, the
/// bound check decides the bound on the squared norm itself.
pub proof fn lemma_norm_in_bound(
    q00: Seq<int>,
    q01: Seq<int>,
    q11: Seq<int>,
    w0: Seq<int>,
    w1: Seq<int>,
)
    requires
        completes(q00, q01, q11),
        w0.len() == 512,
        w1.len() == 512,
        norm_mod(q00, q01, w0, w1, P1 as int) is Some,
        norm_mod(q00, q01, w0, w1, P2 as int) is Some,
        0 <= 512 * squared_norm(q00, q01, q11, w0, w1) < P1 * P2,
    ensures
        norm_in_bound(q00, q01, w0, w1) <==> 1600 * squared_norm(q00, q01, q11, w0, w1) <= 13307904,
{
    let s = squared_norm(q00, q01, q11, w0, w1);
    let x = 512 * s;
    lemma_norm_mod(q00, q01, q11, w0, w1, P1 as int);
    lemma_norm_mod(q00, q01, q11, w0, w1, P2 as int);
    lemma_mod_idem(x, P2 as int);
    if 1600 * s <= 13307904 {
        lemma_mod_small(x, P1 as int);
        lemma_mod_small(x, P2 as int);
    }
    if norm_in_bound(q00, q01, w0, w1) {
        lemma_two_residues(x, x % (P2 as int));
    }
}

} // verus!

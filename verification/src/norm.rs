//! What the norm computation returns.

use vstd::prelude::*;

use crate::modular::{lemma_mod_idem, lemma_mod_mul, lemma_mod_small};
use crate::primes::{is_prime, lemma_cancel, lemma_inverse_exists};
use crate::roots::{P1, P2};
use crate::sums::sum;
use crate::transform::transform;

verus! {

/// `v` is the inverse of `x` modulo `p`.
pub open spec fn is_inverse(x: int, v: int, p: int) -> bool {
    0 <= v < p && (x * v) % p == 1
}

/// The inverse of `x` modulo `p`.
pub open spec fn mod_inverse(x: int, p: int) -> int {
    choose|v: int| is_inverse(x, v, p)
}

/// The inverses modulo `p`, entry by entry.
pub open spec fn mod_inverses(a: Seq<int>, p: int) -> Seq<int> {
    Seq::new(a.len(), |k: int| mod_inverse(a[k], p))
}

/// There is at most one inverse.
pub proof fn lemma_inverse_unique(x: int, v: int, p: int)
    requires
        is_prime(p),
        is_inverse(x, v, p),
    ensures
        v == mod_inverse(x, p),
{
    let u = mod_inverse(x, p);
    assert(is_inverse(x, u, p));
    if x % p == 0 {
        lemma_mod_small(0, p);
        lemma_mod_mul(x, 0, v, v, p);
    }
    assert(x * u == u * x && x * v == v * x) by (nonlinear_arith);
    lemma_cancel(u, v, x, p);
    lemma_mod_small(u, p);
    lemma_mod_small(v, p);
}

/// Every nonzero residue has an inverse.
pub proof fn lemma_mod_inverse(x: int, p: int)
    requires
        is_prime(p),
        x % p != 0,
    ensures
        is_inverse(x, mod_inverse(x, p), p),
{
    lemma_mod_idem(x, p);
    let v = lemma_inverse_exists(x % p, p);
    lemma_mod_mul(x % p, x, v, v, p);
    lemma_mod_small(v, p);
    assert(is_inverse(x, v, p));
}

/// Entry `k` of `d = w1 / q00`, from `w1` and the inverse of `q00`.
pub open spec fn quotient(inverse: Seq<int>, w1: Seq<int>, k: int) -> int {
    w1[k] * inverse[k]
}

/// Entry `k` of `e = w0 + d q01`.
pub open spec fn shifted(
    inverse: Seq<int>,
    q01: Seq<int>,
    w0: Seq<int>,
    w1: Seq<int>,
    k: int,
) -> int {
    w0[k] + quotient(inverse, w1, k) * q01[k]
}

/// Entry `k` of `q00 e e* + d w1*`. The star turns a value at a point into the
/// value at its inverse, which stands at the mirrored index.
pub open spec fn norm_term(
    q00: Seq<int>,
    inverse: Seq<int>,
    q01: Seq<int>,
    w0: Seq<int>,
    w1: Seq<int>,
    k: int,
) -> int {
    q00[k] * shifted(inverse, q01, w0, w1, k) * shifted(inverse, q01, w0, w1, 511 - k) + quotient(
        inverse,
        w1,
        k,
    ) * w1[511 - k]
}

/// The sum modulo `p` of the terms, all factors given in transformed form.
pub open spec fn norm_sum(
    q00: Seq<int>,
    inverse: Seq<int>,
    q01: Seq<int>,
    w0: Seq<int>,
    w1: Seq<int>,
    p: int,
) -> int {
    sum(|k: int| norm_term(q00, inverse, q01, w0, w1, k), 512) % p
}

/// Some entry is zero.
pub open spec fn has_zero(a: Seq<int>) -> bool {
    exists|k: int| 0 <= k < a.len() && #[trigger] a[k] == 0
}

/// The norm modulo `p`; none if `q00` is not invertible modulo `p`.
pub open spec fn norm_mod(
    q00: Seq<int>,
    q01: Seq<int>,
    w0: Seq<int>,
    w1: Seq<int>,
    p: int,
) -> Option<int> {
    let a = transform(q00, p);
    if has_zero(a) {
        None
    } else {
        Some(
            norm_sum(
                a,
                mod_inverses(a, p),
                transform(q01, p),
                transform(w0, p),
                transform(w1, p),
                p,
            ),
        )
    }
}

/// The two residues agree on a multiple of `n` that is at most `n` times the
/// bound `13307904 / 1600`.
pub open spec fn residues_in_bound(r1: int, r2: int) -> bool {
    &&& r1 == r2
    &&& r1 % 512 == 0
    &&& 1600 * (r1 / 512) <= 13307904
}

/// The norm exists modulo both primes and the two residues are in bound.
pub open spec fn norm_in_bound(q00: Seq<int>, q01: Seq<int>, w0: Seq<int>, w1: Seq<int>) -> bool {
    match (norm_mod(q00, q01, w0, w1, P1 as int), norm_mod(q00, q01, w0, w1, P2 as int)) {
        (Some(r1), Some(r2)) => residues_in_bound(r1, r2),
        _ => false,
    }
}

} // verus!

//! What the reconstruction of `w0` solves.

use vstd::arithmetic::div_mod::*;
use vstd::prelude::*;

use crate::accuracy::{
    back_unit, bounded, coefficient_at, lemma_forward_values, lemma_in_scale, lemma_inverse_values,
    near_entry, size, unit, value_at,
};
use crate::fixed_point::{
    bounds_of, divided, divisible, divisor, forward, inverse_levels, quotients_valid, rebuild,
    reconstruct, s0_entry, s0_in_range, trunc32, unfolded, Split,
};

verus! {

/// The coefficients of `q00` besides the constant one, of `q01` and of `w1` are
/// small enough for the scales. All that a key and a signature can hold are.
pub open spec fn within_scales(q00: Seq<int>, q01: Seq<int>, w1: Seq<int>) -> bool {
    &&& q00.len() == 512
    &&& q01.len() == 512
    &&& w1.len() == 512
    &&& forall|i: int| 0 < i < 512 ==> -1024 <= #[trigger] q00[i] <= 1024
    &&& forall|i: int| 0 <= i < 512 ==> -8192 <= #[trigger] q01[i] <= 8192
    &&& forall|i: int| 0 <= i < 512 ==> -2048 <= #[trigger] w1[i] <= 2048
}

/// `v` is `2^12` times the value of `q00` at the root with index `u`, up to 26
/// units.
pub open spec fn near_divisor(v: int, q00: Seq<int>, u: int) -> bool {
    -(26 * unit(1)) <= unit(1) * (v - 4096 * q00[0]) - 1048576 * value_at(
        q00.update(0, 0),
        u,
        0,
        1,
    ).re <= 26 * unit(1)
}

/// The divisors are the values of `q00` at the roots.
pub proof fn lemma_divisor_value(q00: Seq<int>, u: int)
    requires
        q00.len() == 512,
        forall|i: int| 0 < i < 512 ==> -1024 <= #[trigger] q00[i] <= 1024,
        0 <= u < 256,
    ensures
        near_divisor(divisor(q00, u), q00, u),
{
    let g = q00.update(0, 0);
    assert forall|j: int| 0 <= j < 512 implies -0x4000_0000 <= 1048576 * #[trigger] g[j]
        <= 0x4000_0000 by {
        if j > 0 {
            assert(g[j] == q00[j]);
        }
    }
    lemma_in_scale(g, 1048576);
    lemma_forward_values(q00, 1048576, true, u);
    assert(u % 1 == 0);
    assert(divisor(q00, u) - 4096 * q00[0] == forward(q00, 1048576, true).re[u]);
}

/// `y` is `x / v` rounded toward zero.
pub open spec fn is_quotient(y: int, x: int, v: int) -> bool {
    if x < 0 {
        y <= 0 && v * y - v < x <= v * y
    } else {
        y >= 0 && v * y <= x < v * y + v
    }
}

/// The real part of the product of the entries at `u`.
pub open spec fn cross_re(q: Split, w: Split, u: int) -> int {
    q.re[u] * w.re[u] - q.im[u] * w.im[u]
}

/// The imaginary part of the product of the entries at `u`.
pub open spec fn cross_im(q: Split, w: Split, u: int) -> int {
    q.re[u] * w.im[u] + q.im[u] * w.re[u]
}

/// The products of the values of `q01` and `w1` are below `m` times the
/// divisors.
pub open spec fn products_below(
    q00: Seq<int>,
    q01: Seq<int>,
    w1: Seq<int>,
    m: int,
) -> bool {
    let q = forward(q01, 131072, false);
    let w = forward(w1, 524288, false);
    forall|u: int|
        0 <= u < 256 ==> {
            &&& -(m * #[trigger] divisor(q00, u)) < cross_re(q, w, u) < m * divisor(q00, u)
            &&& -(m * divisor(q00, u)) < cross_im(q, w, u) < m * divisor(q00, u)
        }
}

/// Coefficient `i` of the polynomial that a split vector of coefficients holds.
pub open spec fn quotient_coefficient(y: Split, i: int) -> int {
    if i < 256 {
        coefficient_at(y, i, 128).re
    } else {
        coefficient_at(y, i - 256, 128).im
    }
}

/// A rounded quotient is one.
proof fn lemma_quotient(x: int, v: int)
    requires
        v > 0,
        -(0x4000_0000 * v) < x < 0x4000_0000 * v,
    ensures
        ({
            let y = if x < 0 { trunc32(-(-x / v)) } else { trunc32(x / v) };
            is_quotient(y, x, v) && -0x4000_0000 < y < 0x4000_0000
        }),
{
    let a = if x < 0 { -x } else { x };
    let y = a / v;
    lemma_fundamental_div_mod(a, v);
    lemma_mod_bound(a, v);
    assert(y >= 0 && y < 0x4000_0000) by (nonlinear_arith)
        requires
            a == v * y + a % v,
            0 <= a % v < v,
            0 <= a < 0x4000_0000 * v,
            v > 0,
    ;
    let z = -y;
    assert(v * z == -(v * y)) by (nonlinear_arith)
        requires
            z == -y,
    ;
}

/// What a reconstruction solves. There are divisors `v` close to the values of
/// `q00` at the roots, and entries `q` and `w` close to those of `q01` and `w1`,
/// scaled; quotients `y` of their products and the divisors, rounded toward
/// zero; and `w0` is the opposite of the polynomial with the values `y`, rounded
/// to the parity of `h0`: each coefficient is off by less than one and a quarter.
pub open spec fn solves(
    q00: Seq<int>,
    q01: Seq<int>,
    w1: Seq<int>,
    h0: Seq<int>,
    w0: Seq<int>,
    v: Seq<int>,
    q: Split,
    w: Split,
    y: Split,
) -> bool {
    &&& forall|u: int|
        0 <= u < 256 ==> {
            &&& 0 < #[trigger] v[u] < 0x4000_0000
            &&& near_divisor(v[u], q00, u)
            &&& near_entry(q, q01, 131072, 1, 26, u)
            &&& near_entry(w, w1, 524288, 1, 26, u)
            &&& is_quotient(y.re[u], cross_re(q, w, u), v[u])
            &&& is_quotient(y.im[u], cross_im(q, w, u), v[u])
        }
    &&& w0.len() == 512
    &&& forall|i: int|
        0 <= i < 512 ==> {
            &&& (#[trigger] w0[i] - h0[i]) % 2 == 0
            &&& -16384 < w0[i] - h0[i] <= 16384
            &&& -(316 * back_unit(128)) <= back_unit(128) * (256 * w0[i]) + quotient_coefficient(y, i)
                <= 316 * back_unit(128)
        }
}

/// The reconstruction solves for `w0`, for all keys and signatures that can be
/// encoded and every `h0`, as long as the quotients are below `2^30`.
pub proof fn lemma_rebuild_solves(
    q00: Seq<int>,
    q01: Seq<int>,
    w1: Seq<int>,
    h0: Seq<int>,
    w0: Seq<int>,
)
    requires
        within_scales(q00, q01, w1),
        products_below(q00, q01, w1, 0x4000_0000),
        rebuild(q00, q01, w1, h0) == Some(w0),
    ensures
        exists|v: Seq<int>, q: Split, w: Split, y: Split| #[trigger]
            solves(q00, q01, w1, h0, w0, v, q, w, y),
{
    let v = Seq::new(256, |u: int| divisor(q00, u));
    let q = forward(q01, 131072, false);
    let w = forward(w1, 524288, false);
    let bd = bounds_of(q00);
    let y = divided(q, w, bd);
    let t = inverse_levels(y, 1);
    lemma_in_scale(q01, 131072);
    lemma_in_scale(w1, 524288);
    assert forall|u: int| 0 <= u < 256 implies {
        &&& 0 < #[trigger] v[u] < 0x4000_0000
        &&& near_divisor(v[u], q00, u)
        &&& near_entry(q, q01, 131072, 1, 26, u)
        &&& near_entry(w, w1, 524288, 1, 26, u)
        &&& is_quotient(y.re[u], cross_re(q, w, u), v[u])
        &&& is_quotient(y.im[u], cross_im(q, w, u), v[u])
        &&& size(y, u) <= 0x3fff_fc00_0000_0000
    } by {
        lemma_forward_values(q01, 131072, false, u);
        lemma_forward_values(w1, 524288, false, u);
        lemma_divisor_value(q00, u);
        assert(0 < divisor(q00, u) < 0x4000_0000);
        assert(bd[u] / 0x1_0000_0000 == divisor(q00, u));
        lemma_quotient(cross_re(q, w, u), v[u]);
        lemma_quotient(cross_im(q, w, u), v[u]);
        let (a, b) = (y.re[u], y.im[u]);
        assert(a * a + b * b <= 0x3fff_fc00_0000_0000) by (nonlinear_arith)
            requires
                -0x4000_0000 < a < 0x4000_0000,
                -0x4000_0000 < b < 0x4000_0000,
        ;
    }
    assert(bounded(y, 0x3fff_fc00_0000_0000)) by {
        assert forall|u: int| 0 <= u < 256 implies #[trigger] size(y, u) <= 0x3fff_fc00_0000_0000 by {
            assert(0 < v[u]);
        }
    }
    assert forall|i: int| 0 <= i < 512 implies {
        &&& (#[trigger] w0[i] - h0[i]) % 2 == 0
        &&& -16384 < w0[i] - h0[i] <= 16384
        &&& -(316 * back_unit(128)) <= back_unit(128) * (256 * w0[i]) + quotient_coefficient(y, i)
            <= 316 * back_unit(128)
    } by {
        let s = s0_entry(t, h0, i);
        assert(-8192 <= s < 8192);
        let k = if i < 256 { i } else { i - 256 };
        lemma_inverse_values(y, k);
        let x = unfolded(t, i);
        assert(s == (256 * h0[i] + x + 256) / 512);
        assert(w0[i] == h0[i] - 2 * s);
        let z = 256 * w0[i] + x;
        assert(-256 <= z < 256);
        lemma_back_scale(z, x, w0[i]);
    }
    assert(solves(q00, q01, w1, h0, w0, v, q, w, y));
}

/// From a unit to the scale.
proof fn lemma_back_scale(z: int, x: int, w: int)
    requires
        z == 256 * w + x,
        -256 <= z < 256,
    ensures
        -(256 * back_unit(128)) <= back_unit(128) * (256 * w) + back_unit(128) * x <= 256 * back_unit(128),
{
    let b = back_unit(128);
    reveal_with_fuel(back_unit, 9);
    assert(b > 0);
    assert(b * (256 * w) + b * x == b * z) by (nonlinear_arith)
        requires
            z == 256 * w + x,
    ;
    assert(-(256 * b) <= b * z <= 256 * b) by (nonlinear_arith)
        requires
            b > 0,
            -256 <= z < 256,
    ;
}

/// `x / v` rounded toward zero, in a word of 32 bits.
pub open spec fn quotient_word(x: int, v: int) -> int {
    let y = if x < 0 {
        -(-x / v)
    } else {
        x / v
    };
    (y + 0x8000_0000) % 0x1_0000_0000 - 0x8000_0000
}

/// The quotients of the products of two vectors and the divisors.
pub open spec fn quotient_words(q: Split, w: Split, v: Seq<int>) -> Split {
    Split {
        re: Seq::new(256, |u: int| quotient_word(cross_re(q, w, u), v[u])),
        im: Seq::new(256, |u: int| quotient_word(cross_im(q, w, u), v[u])),
    }
}

/// Entry `i` of a split vector, real parts first.
pub open spec fn entry(t: Split, i: int) -> int {
    if i < 256 {
        t.re[i]
    } else {
        t.im[i - 256]
    }
}

/// The reconstruction with any words for the factors of a key. It succeeds
/// exactly if all products stay below their bounds, no divisor, the high word of
/// a bound, is zero, and every entry of `s0` has 13 bits and a sign; and then
/// `w0` is `h0 - 2 s0` in words of 32 bits.
pub proof fn lemma_reconstruct(q: Split, bound: Seq<int>, w: Split, h0: Seq<int>)
    requires
        bound.len() == 256,
    ensures
        ({
            let v = Seq::new(256, |u: int| bound[u] / 0x1_0000_0000);
            let t = inverse_levels(quotient_words(q, w, v), 1);
            let r = reconstruct(q, bound, w, h0);
            &&& r is Some <==> (forall|u: int|
                0 <= u < 256 ==> -#[trigger] bound[u] < cross_re(q, w, u) < bound[u] && -bound[u]
                    < cross_im(q, w, u) < bound[u] && bound[u] / 0x1_0000_0000 != 0) && (forall|i: int|
                0 <= i < 512 ==> -4194304 <= 256 * h0[i] + 256 + #[trigger] entry(t, i) < 4194304)
            &&& r is Some ==> r->0.len() == 512
            &&& r is Some ==> forall|i: int|
                0 <= i < 512 ==> #[trigger] r->0[i] == (h0[i] - 2 * ((256 * h0[i] + 256 + entry(t, i))
                    / 512) + 0x8000_0000) % 0x1_0000_0000 - 0x8000_0000
        }),
{
    let v = Seq::new(256, |u: int| bound[u] / 0x1_0000_0000);
    let y = divided(q, w, bound);
    let z = quotient_words(q, w, v);
    assert(y.re =~= z.re);
    assert(y.im =~= z.im);
    let t = inverse_levels(y, 1);
    if quotients_valid(q, bound, w) {
        assert forall|u: int| 0 <= u < 256 implies -#[trigger] bound[u] < cross_re(q, w, u) < bound[u]
            && -bound[u] < cross_im(q, w, u) < bound[u] && bound[u] / 0x1_0000_0000 != 0 by {
            assert(divisible(q, w, bound, u));
        }
    }
    if forall|u: int|
        0 <= u < 256 ==> -#[trigger] bound[u] < cross_re(q, w, u) < bound[u] && -bound[u] < cross_im(
            q,
            w,
            u,
        ) < bound[u] && bound[u] / 0x1_0000_0000 != 0 {
        assert forall|u: int| 0 <= u < 256 implies #[trigger] divisible(q, w, bound, u) by {
            assert(-bound[u] < cross_re(q, w, u));
        }
    }
    assert forall|i: int| 0 <= i < 512 implies #[trigger] s0_entry(t, h0, i) == (256 * h0[i] + 256
        + entry(t, i)) / 512 by {}
    if s0_in_range(t, h0) {
        assert forall|i: int| 0 <= i < 512 implies -4194304 <= 256 * h0[i] + 256 + #[trigger] entry(t, i)
            < 4194304 by {
            let n = 256 * h0[i] + 256 + entry(t, i);
            assert(s0_entry(t, h0, i) == n / 512);
            assert(-8192 <= s0_entry(t, h0, i) < 8192);
        }
    }
    if forall|i: int|
        0 <= i < 512 ==> -4194304 <= 256 * h0[i] + 256 + #[trigger] entry(t, i) < 4194304 {
        assert forall|i: int| 0 <= i < 512 implies -8192 <= #[trigger] s0_entry(t, h0, i) < 8192 by {
            assert(-4194304 <= 256 * h0[i] + 256 + entry(t, i) < 4194304);
        }
    }
    if reconstruct(q, bound, w, h0) is Some {
        let w0 = reconstruct(q, bound, w, h0)->0;
        assert forall|i: int| 0 <= i < 512 implies #[trigger] w0[i] == (h0[i] - 2 * ((256 * h0[i] + 256
            + entry(t, i)) / 512) + 0x8000_0000) % 0x1_0000_0000 - 0x8000_0000 by {
            assert(s0_entry(t, h0, i) == (256 * h0[i] + 256 + entry(t, i)) / 512);
        }
    }
}

/// The reconstruction from a key: there is none if the constant coefficient of
/// `q00` is negative or a divisor is not positive or reaches `2^30`, and
/// otherwise it is that with `2^32` times the divisors as bounds.
pub proof fn lemma_rebuild(q00: Seq<int>, q01: Seq<int>, w1: Seq<int>, h0: Seq<int>)
    ensures
        rebuild(q00, q01, w1, h0) == if q00[0] >= 0 && (forall|u: int|
            0 <= u < 256 ==> 0 < #[trigger] divisor(q00, u) < 0x4000_0000) {
            reconstruct(
                forward(q01, 131072, false),
                Seq::new(256, |u: int| 0x1_0000_0000 * divisor(q00, u)),
                forward(w1, 524288, false),
                h0,
            )
        } else {
            None
        },
{
    assert(bounds_of(q00) =~= Seq::new(256, |u: int| 0x1_0000_0000 * divisor(q00, u)));
}

} // verus!

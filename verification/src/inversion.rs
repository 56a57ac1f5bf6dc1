//! The exact inverse transform gives the polynomial that has given values at the
//! roots.

use vstd::arithmetic::div_mod::*;
use vstd::prelude::*;

use crate::accuracy::{
    back_unit, coefficient_at, is_half, lemma_bit, lemma_block_indices, lemma_level_circle,
    lemma_weighted, root_power, Complex,
};
use crate::circle::near_circle;
use crate::delta_table::{delta_im, delta_re};
use crate::fixed_point::{level_root, Split};

verus! {

/// The coefficients that values at the roots come to, after the levels up to
/// distance `h`.
pub open spec fn coefficients(y: Split, h: int) -> Split {
    Split {
        re: Seq::new(256, |i: int| coefficient_at(y, i, h).re),
        im: Seq::new(256, |i: int| coefficient_at(y, i, h).im),
    }
}

/// The value at the root with index `u` of the complex coefficients that stand
/// at `j` and multiples of `h` behind it: exact, and scaled by `2^31` for each
/// power.
pub open spec fn point_value(z: Split, u: int, j: int, h: int) -> Complex
    decreases 256 - h,
{
    if h <= 0 || h > 128 {
        Complex { re: z.re[j], im: z.im[j] }
    } else {
        let a = point_value(z, u, j, 2 * h);
        let b = point_value(z, u, j + h, 2 * h);
        let w = root_power(u, h);
        Complex {
            re: 0x8000_0000 * a.re + (w.re * b.re - w.im * b.im),
            im: 0x8000_0000 * a.im + (w.re * b.im + w.im * b.re),
        }
    }
}

/// The scale that evaluating after inverting adds: `2^63` for each level.
pub open spec fn lift(h: int) -> int
    decreases 256 - h,
{
    if h <= 0 || h > 128 {
        1
    } else {
        0x8000_0000_0000_0000 * lift(2 * h)
    }
}

/// The scales are positive.
proof fn lemma_scales_pos(h: int)
    ensures
        lift(h) > 0,
        back_unit(h) > 0,
{
    lemma_lift_pos(h);
    lemma_back_pos(h);
}

/// The lift is positive.
proof fn lemma_lift_pos(h: int)
    ensures
        lift(h) > 0,
    decreases 256 - h,
{
    if 0 < h <= 128 {
        lemma_lift_pos(2 * h);
    }
}

/// The scale of the coefficients is positive.
proof fn lemma_back_pos(h: int)
    ensures
        back_unit(h) > 0,
    decreases h,
{
    if h > 0 {
        lemma_back_pos(h / 2);
    }
}

/// A value depends on the index only from the bit on that the first power looks
/// at.
proof fn lemma_point_block(z: Split, u: int, v: int, j: int, h: int)
    requires
        is_half(h) || h == 256,
        0 <= u < 256,
        0 <= v < 256,
        u / h == v / h,
    ensures
        point_value(z, u, j, h) == point_value(z, v, j, h),
    decreases 256 - h,
{
    if h <= 128 {
        lemma_div_denominator(u, h, 2);
        lemma_div_denominator(v, h, 2);
        assert(h * 2 == 2 * h);
        assert(u / (2 * h) == v / (2 * h));
        lemma_point_block(z, u, v, j, 2 * h);
        lemma_point_block(z, u, v, j + h, 2 * h);
        lemma_bit(u, h);
        lemma_bit(v, h);
    }
}

/// A number is at most `t` either way.
pub open spec fn within(x: int, t: int) -> bool {
    -t <= x <= t
}

/// No part of the coefficients after the levels up to `h` is larger than `g m`,
/// scaled.
spec fn grown(y: Split, h: int, g: int, m: int) -> bool {
    forall|i: int|
        0 <= i < 256 ==> within((#[trigger] coefficient_at(y, i, h)).re, g * (back_unit(h) * m))
            && within(coefficient_at(y, i, h).im, g * (back_unit(h) * m))
}

/// How much one inverse level lets the coefficients grow.
proof fn lemma_growth(y: Split, h: int, g: int, e: int, m: int)
    requires
        is_half(h),
        m >= 0,
        g >= 1,
        2 * e >= 3 * g,
        grown(y, h / 2, g, m),
    ensures
        grown(y, h, e, m),
{
    let u = back_unit(h / 2) * m;
    lemma_scales_pos(h / 2);
    assert(u >= 0) by (nonlinear_arith)
        requires
            u == back_unit(h / 2) * m,
            back_unit(h / 2) > 0,
            m >= 0,
    ;
    let w = back_unit(h) * m;
    assert(w == 0x1_0000_0000 * u) by (nonlinear_arith)
        requires
            w == back_unit(h) * m,
            back_unit(h) == 0x1_0000_0000 * back_unit(h / 2),
            u == back_unit(h / 2) * m,
    ;
    let t = g * u;
    assert(t >= 0 && e * w >= 0x1_0000_0000 * t && e * w >= 3037000502 * (2 * t)) by (nonlinear_arith)
        requires
            2 * e >= 3 * g,
            w == 0x1_0000_0000 * u,
            t == g * u,
            u >= 0,
            g >= 1,
    ;
    assert forall|i: int| 0 <= i < 256 implies within(
        (#[trigger] coefficient_at(y, i, h)).re,
        e * w,
    ) && within(coefficient_at(y, i, h).im, e * w) by {
        lemma_block_indices(i, h);
        lemma_bit(i, h);
        lemma_mod_bound(i, h);
        let low = i % (2 * h) < h;
        let x = if low { i } else { i - h };
        let a = coefficient_at(y, x, h / 2);
        let b = coefficient_at(y, x + h, h / 2);
        if !low {
            lemma_pair_root(x, h);
            let r = root_power(x, h);
            let (p, q) = (a.re - b.re, a.im - b.im);
            lemma_weighted(r.re, r.im, p, q, 2 * t);
            lemma_weighted(r.re, -r.im, q, p, 2 * t);
            let n = r.im;
            assert((-n) * p == -(n * p)) by (nonlinear_arith);
        }
    }
}

/// The root of a pair lies on the circle.
proof fn lemma_pair_root(x: int, h: int)
    requires
        is_half(h),
        0 <= x < 256,
        x % (2 * h) < h,
    ensures
        near_circle(root_power(x, h).re, root_power(x, h).im),
        -3037000502 <= root_power(x, h).re + root_power(x, h).im <= 3037000502,
        -3037000502 <= root_power(x, h).re - root_power(x, h).im <= 3037000502,
{
    lemma_level_circle(h, x);
    assert(level_root(h, x) == 256int / h + x / (2 * h));
}

/// A difference times the conjugate of a root, turned back by the root.
proof fn lemma_turned_back(p: int, q: int, r: int, s: int)
    ensures
        r * (r * p + s * q) - s * (r * q - s * p) == (r * r + s * s) * p,
        r * (r * q - s * p) + s * (r * p + s * q) == (r * r + s * s) * q,
{
    let (rp, sq, rq, sp) = (r * p, s * q, r * q, s * p);
    assert(r * (rp + sq) == r * rp + r * sq && s * (rq - sp) == s * rq - s * sp && r * (rq - sp) == r
        * rq - r * sp && s * (rp + sq) == s * rp + s * sq) by (nonlinear_arith);
    assert(r * sq == s * rq && r * sp == s * rp) by (nonlinear_arith)
        requires
            rp == r * p,
            sq == s * q,
            rq == r * q,
            sp == s * p,
    ;
    assert((r * r + s * s) * p == r * rp + s * sp && (r * r + s * s) * q == r * rq + s * sq)
        by (nonlinear_arith)
        requires
            rp == r * p,
            sq == s * q,
            rq == r * q,
            sp == s * p,
    ;
}

/// The values of the coefficients, after the powers from `h` on, are those that
/// the levels up to half of `h` come to, up to `e` parts in `2^25` of the
/// largest value `m`.
spec fn turned_entry(y: Split, h: int, e: int, m: int, i: int) -> bool {
    let v = point_value(coefficients(y, 128), i, i % h, h);
    let c = coefficient_at(y, i, h / 2);
    let t = e * (lift(h) * (back_unit(h / 2) * m));
    &&& within(0x200_0000 * (v.re - lift(h) * c.re), t)
    &&& within(0x200_0000 * (v.im - lift(h) * c.im), t)
}

/// All of them are.
spec fn turned(y: Split, h: int, e: int, m: int) -> bool {
    forall|i: int| 0 <= i < 256 ==> #[trigger] turned_entry(y, h, e, m, i)
}

/// One part of the step from a pair of coefficients to their values: `va` and
/// `vb` parts of the values with weights `p` and `q`, `ka` and the others what
/// they should be, `n` what is wanted and `o` what the table is off by.
proof fn lemma_turned_part(
    va: int,
    vb: int,
    vc: int,
    ka: int,
    kb: int,
    kc: int,
    p: int,
    q: int,
    t: int,
    n: int,
    o: int,
    big: int,
)
    requires
        -3037000502 <= p + q <= 3037000502,
        -3037000502 <= p - q <= 3037000502,
        within(0x200_0000 * (va - ka), t),
        within(0x200_0000 * (vb - kb), t),
        within(0x200_0000 * (vc - kc), t),
        0x8000_0000 * ka + (p * kb + q * kc) == n + o,
        within(0x200_0000 * o, big),
    ensures
        within(
            0x200_0000 * (0x8000_0000 * va + (p * vb + q * vc) - n),
            0x8000_0000 * t + 3037000502 * t + big,
        ),
{
    let (a, b, c) = (0x200_0000 * (va - ka), 0x200_0000 * (vb - kb), 0x200_0000 * (vc - kc));
    lemma_weighted(p, q, b, c, t);
    assert(p * b == 0x200_0000 * (p * vb) - 0x200_0000 * (p * kb)) by (nonlinear_arith)
        requires
            b == 0x200_0000 * (vb - kb),
    ;
    assert(q * c == 0x200_0000 * (q * vc) - 0x200_0000 * (q * kc)) by (nonlinear_arith)
        requires
            c == 0x200_0000 * (vc - kc),
    ;
}

/// One level, for one entry.
proof fn lemma_turned_entry(y: Split, h: int, d: int, e: int, m: int, i: int)
    requires
        is_half(h),
        m >= 0,
        d >= 0,
        2 * e >= 5 * d + 4,
        grown(y, h / 2, 27, m),
        turned(y, 2 * h, d, m),
        0 <= i < 256,
    ensures
        turned_entry(y, h, e, m, i),
{
    let z = coefficients(y, 128);
    lemma_block_indices(i, h);
    lemma_bit(i, h);
    lemma_mod_bound(i, h);
    let low = i % (2 * h) < h;
    let x = if low { i } else { i - h };
    let k = x + h;
    let j = i % h;
    assert((2 * h) / 2 == h);
    assert(turned_entry(y, 2 * h, d, m, x));
    assert(turned_entry(y, 2 * h, d, m, k));
    lemma_point_block(z, i, x, j, 2 * h);
    lemma_point_block(z, i, k, j + h, 2 * h);
    let va = point_value(z, i, j, 2 * h);
    let vb = point_value(z, i, j + h, 2 * h);
    let a = coefficient_at(y, x, h / 2);
    let b = coefficient_at(y, k, h / 2);
    let ca = coefficient_at(y, x, h);
    let cb = coefficient_at(y, k, h);
    lemma_block_indices(x, h);
    let r = root_power(x, h);
    assert(root_power(k - h, h) == r);
    lemma_pair_root(x, h);
    let (p, q) = (a.re - b.re, a.im - b.im);
    assert(ca.re == 0x8000_0000 * (a.re + b.re) && ca.im == 0x8000_0000 * (a.im + b.im));
    assert(cb.re == r.re * p + r.im * q && cb.im == r.re * q - r.im * p);
    lemma_turned_back(p, q, r.re, r.im);
    let ne = r.re * r.re + r.im * r.im;
    let f = lift(2 * h);
    lemma_scales_pos(2 * h);
    lemma_scales_pos(h / 2);
    let u = back_unit(h / 2) * m;
    let t = d * (f * (back_unit(h) * m));
    let w = root_power(i, h);
    let g: int = if low { 1 } else { -1 };
    assert(w.re == g * r.re && w.im == g * r.im);
    let want = if low { a } else { b };
    // What the table is off by.
    let (o_re, o_im) = (f * (g * ((ne - 0x4000_0000_0000_0000) * p)), f * (g * ((ne
        - 0x4000_0000_0000_0000) * q)));
    let big = 0x200_0000 * (f * (0x2_0000_0000 * (54 * u)));
    lemma_off(f, g, ne, p, u);
    lemma_off(f, g, ne, q, u);
    lemma_recombine(f, g, r.re, r.im, a.re, b.re, p, ca.re, cb.re, cb.im, ne);
    lemma_recombine_im(f, g, r.re, r.im, a.im, b.im, q, ca.im, cb.re, cb.im, ne);
    let n_re = lift(h) * want.re;
    let n_im = lift(h) * want.im;
    lemma_turned_part(
        va.re,
        vb.re,
        vb.im,
        f * ca.re,
        f * cb.re,
        f * cb.im,
        w.re,
        -w.im,
        t,
        n_re,
        o_re,
        big,
    );
    lemma_turned_part(
        va.im,
        vb.im,
        vb.re,
        f * ca.im,
        f * cb.im,
        f * cb.re,
        w.re,
        w.im,
        t,
        n_im,
        o_im,
        big,
    );
    let (wi, vi) = (w.im, vb.im);
    assert((-wi) * vi == -(wi * vi)) by (nonlinear_arith);
    lemma_turned_bound(f, back_unit(h / 2), m, d, e, t, h);
}

/// How far the table is off, for one part.
proof fn lemma_off(f: int, g: int, ne: int, p: int, u: int)
    requires
        f > 0,
        g == 1 || g == -1,
        0x3fff_fffe_0000_0000 <= ne <= 0x4000_0002_0000_0000,
        within(p, 54 * u),
    ensures
        within(
            0x200_0000 * (f * (g * ((ne - 0x4000_0000_0000_0000) * p))),
            0x200_0000 * (f * (0x2_0000_0000 * (54 * u))),
        ),
{
    let c = ne - 0x4000_0000_0000_0000;
    let x = c * p;
    let s = 0x2_0000_0000 * (54 * u);
    assert(-s <= x <= s) by (nonlinear_arith)
        requires
            x == c * p,
            -0x2_0000_0000 <= c <= 0x2_0000_0000,
            -(54 * u) <= p <= 54 * u,
            s == 0x2_0000_0000 * (54 * u),
    ;
    let v = g * x;
    assert(-s <= v <= s) by (nonlinear_arith)
        requires
            v == g * x,
            g == 1 || g == -1,
            -s <= x <= s,
    ;
    assert(-(f * s) <= f * v <= f * s) by (nonlinear_arith)
        requires
            f > 0,
            -s <= v <= s,
    ;
}

/// The real part of a pair that is turned back.
proof fn lemma_recombine(
    f: int,
    g: int,
    r: int,
    s: int,
    a: int,
    b: int,
    p: int,
    ca: int,
    cb: int,
    cc: int,
    ne: int,
)
    requires
        g == 1 || g == -1,
        p == a - b,
        ca == 0x8000_0000 * (a + b),
        r * cb - s * cc == ne * p,
    ensures
        0x8000_0000 * (f * ca) + ((g * r) * (f * cb) + (-(g * s)) * (f * cc)) == (
        0x8000_0000_0000_0000 * f) * (if g == 1 { a } else { b }) + f * (g * ((ne
            - 0x4000_0000_0000_0000) * p)),
{
    let x = r * cb - s * cc;
    let (k, l) = (r * cb, s * cc);
    assert((g * r) * (f * cb) == f * (g * k)) by (nonlinear_arith)
        requires
            k == r * cb,
    ;
    assert((-(g * s)) * (f * cc) == -(f * (g * l))) by (nonlinear_arith)
        requires
            l == s * cc,
    ;
    assert(f * (g * x) == f * (g * k) - f * (g * l)) by (nonlinear_arith)
        requires
            x == k - l,
    ;
    let y = ne * p;
    assert((ne - 0x4000_0000_0000_0000) * p == y - 0x4000_0000_0000_0000 * p) by (nonlinear_arith)
        requires
            y == ne * p,
    ;
    let v = y - 0x4000_0000_0000_0000 * p;
    if g == 1 {
        assert(0x8000_0000 * (f * ca) + f * (1 * y) == (0x8000_0000_0000_0000 * f) * a + f * (1 * v))
            by (nonlinear_arith)
            requires
                p == a - b,
                ca == 0x8000_0000 * (a + b),
                v == y - 0x4000_0000_0000_0000 * p,
        ;
    } else {
        assert(0x8000_0000 * (f * ca) + f * (-1 * y) == (0x8000_0000_0000_0000 * f) * b + f * (-1 * v))
            by (nonlinear_arith)
            requires
                p == a - b,
                ca == 0x8000_0000 * (a + b),
                v == y - 0x4000_0000_0000_0000 * p,
        ;
    }
}

/// The imaginary part of a pair that is turned back.
proof fn lemma_recombine_im(
    f: int,
    g: int,
    r: int,
    s: int,
    a: int,
    b: int,
    q: int,
    ca: int,
    cb: int,
    cc: int,
    ne: int,
)
    requires
        g == 1 || g == -1,
        q == a - b,
        ca == 0x8000_0000 * (a + b),
        r * cc + s * cb == ne * q,
    ensures
        0x8000_0000 * (f * ca) + ((g * r) * (f * cc) + (g * s) * (f * cb)) == (0x8000_0000_0000_0000
            * f) * (if g == 1 { a } else { b }) + f * (g * ((ne - 0x4000_0000_0000_0000) * q)),
{
    let n = -s;
    assert(r * cc - n * cb == r * cc + s * cb) by (nonlinear_arith)
        requires
            n == -s,
    ;
    lemma_recombine(f, g, r, n, a, b, q, ca, cc, cb, ne);
    assert(-(g * n) == g * s) by (nonlinear_arith)
        requires
            n == -s,
    ;
}

/// The error after a level, in the units that come after it.
proof fn lemma_turned_bound(f: int, b: int, m: int, d: int, e: int, t: int, h: int)
    requires
        is_half(h),
        f == lift(2 * h),
        b == back_unit(h / 2),
        f > 0,
        b > 0,
        m >= 0,
        d >= 0,
        2 * e >= 5 * d + 4,
        t == d * (f * (back_unit(h) * m)),
    ensures
        0x8000_0000 * t + 3037000502 * t + 0x200_0000 * (f * (0x2_0000_0000 * (54 * (b * m)))) <= e * (
        lift(h) * (b * m)),
{
    let u = b * m;
    let x = f * u;
    assert(x >= 0) by (nonlinear_arith)
        requires
            x == f * u,
            u == b * m,
            f > 0,
            b > 0,
            m >= 0,
    ;
    assert(back_unit(h) == 0x1_0000_0000 * b);
    assert(t == 0x1_0000_0000 * (d * x)) by (nonlinear_arith)
        requires
            t == d * (f * (back_unit(h) * m)),
            back_unit(h) == 0x1_0000_0000 * b,
            x == f * u,
            u == b * m,
    ;
    assert(lift(h) == 0x8000_0000_0000_0000 * f);
    assert(lift(h) * u == 0x8000_0000_0000_0000 * x) by (nonlinear_arith)
        requires
            lift(h) == 0x8000_0000_0000_0000 * f,
            x == f * u,
    ;
    assert(f * (0x2_0000_0000 * (54 * u)) == 0x2_0000_0000 * (54 * x)) by (nonlinear_arith)
        requires
            x == f * u,
    ;
    let l = lift(h) * u;
    let dx = d * x;
    assert(e * l >= 0x4000_0000_0000_0000 * (5 * dx + 4 * x)) by (nonlinear_arith)
        requires
            l == 0x8000_0000_0000_0000 * x,
            2 * e >= 5 * d + 4,
            dx == d * x,
            x >= 0,
    ;
    assert(dx >= 0) by (nonlinear_arith)
        requires
            dx == d * x,
            d >= 0,
            x >= 0,
    ;
}

/// One level.
proof fn lemma_turned_level(y: Split, h: int, d: int, e: int, m: int)
    requires
        is_half(h),
        m >= 0,
        d >= 0,
        2 * e >= 5 * d + 4,
        grown(y, h / 2, 27, m),
        turned(y, 2 * h, d, m),
    ensures
        turned(y, h, e, m),
{
    assert forall|i: int| 0 <= i < 256 implies #[trigger] turned_entry(y, h, e, m, i) by {
        lemma_turned_entry(y, h, d, e, m, i);
    }
}

/// A looser bound on the growth.
proof fn lemma_grown_loosely(y: Split, h: int, g: int, m: int)
    requires
        m >= 0,
        g <= 27,
        grown(y, h, g, m),
    ensures
        grown(y, h, 27, m),
{
    lemma_scales_pos(h);
    let u = back_unit(h) * m;
    assert(g * u <= 27 * u) by (nonlinear_arith)
        requires
            g <= 27,
            u == back_unit(h) * m,
            back_unit(h) > 0,
            m >= 0,
    ;
}

/// The inverse transform inverts evaluation: the polynomial whose coefficients
/// the values `y` come to has the value `y[u]` at the root with index `u`, up to
/// the scale and to one part in `2^13` of the largest value `m`.
pub proof fn lemma_values_of_coefficients(y: Split, m: int, u: int)
    requires
        m >= 0,
        forall|i: int| 0 <= i < 256 ==> within(#[trigger] y.re[i], m) && within(y.im[i], m),
        0 <= u < 256,
    ensures
        ({
            let v = point_value(coefficients(y, 128), u, 0, 1);
            &&& within(0x2000 * (v.re - lift(1) * y.re[u]), lift(1) * m)
            &&& within(0x2000 * (v.im - lift(1) * y.im[u]), lift(1) * m)
        }),
{
    assert(back_unit(0) == 1);
    assert(grown(y, 0, 1, m)) by {
        assert forall|i: int| 0 <= i < 256 implies within(
            (#[trigger] coefficient_at(y, i, 0)).re,
            1 * (back_unit(0) * m),
        ) && within(coefficient_at(y, i, 0).im, 1 * (back_unit(0) * m)) by {
            assert(within(y.re[i], m) && within(y.im[i], m));
        }
    }
    lemma_growth(y, 1, 1, 2, m);
    lemma_growth(y, 2, 2, 3, m);
    lemma_growth(y, 4, 3, 5, m);
    lemma_growth(y, 8, 5, 8, m);
    lemma_growth(y, 16, 8, 12, m);
    lemma_growth(y, 32, 12, 18, m);
    lemma_growth(y, 64, 18, 27, m);
    lemma_grown_loosely(y, 0, 1, m);
    lemma_grown_loosely(y, 1, 2, m);
    lemma_grown_loosely(y, 2, 3, m);
    lemma_grown_loosely(y, 4, 5, m);
    lemma_grown_loosely(y, 8, 8, m);
    lemma_grown_loosely(y, 16, 12, m);
    lemma_grown_loosely(y, 32, 18, m);
    assert(turned(y, 256, 0, m)) by {
        assert forall|i: int| 0 <= i < 256 implies #[trigger] turned_entry(y, 256, 0, m, i) by {
            let c = coefficient_at(y, i, 128);
            assert(point_value(coefficients(y, 128), i, i % 256, 256) == c);
            assert(lift(256) == 1);
        }
    }
    lemma_turned_level(y, 128, 0, 2, m);
    lemma_turned_level(y, 64, 2, 7, m);
    lemma_turned_level(y, 32, 7, 20, m);
    lemma_turned_level(y, 16, 20, 52, m);
    lemma_turned_level(y, 8, 52, 132, m);
    lemma_turned_level(y, 4, 132, 332, m);
    lemma_turned_level(y, 2, 332, 832, m);
    lemma_turned_level(y, 1, 832, 2082, m);
    assert(turned_entry(y, 1, 2082, m, u));
    lemma_scales_pos(1);
    let l = lift(1) * m;
    assert(l >= 0) by (nonlinear_arith)
        requires
            l == lift(1) * m,
            lift(1) > 0,
            m >= 0,
    ;
    assert(lift(1) * (back_unit(0) * m) == l);
}

} // verus!

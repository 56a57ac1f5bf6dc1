//! How close the fixed-point transforms come to exact ones.

use vstd::arithmetic::div_mod::*;
use vstd::prelude::*;

use crate::circle::{lemma_root_pair, near_circle, root_pair};
use crate::delta_table::{delta_im, delta_re};
use crate::fixed_point::{
    forward, forward_levels, forward_pair, inverse_levels, level, level_root, pair, scaled,
    trunc32, Split,
};

verus! {

/// A complex number with integer parts.
#[verifier::ext_equal]
pub struct Complex {
    pub re: int,
    pub im: int,
}

/// What `X^h` stands for at the root with index `u`: a root of unity of the
/// table or its opposite, scaled by `2^31`.
pub open spec fn root_power(u: int, h: int) -> Complex {
    let k = 256int / h + u / (2 * h);
    if u % (2 * h) < h {
        Complex { re: delta_re(k), im: delta_im(k) }
    } else {
        Complex { re: -delta_re(k), im: -delta_im(k) }
    }
}

/// The value at the root with index `u` of the coefficients of `f` that stand at
/// `j` and multiples of `h` behind it, where `X^256` is `i` and each power
/// `X^h`, `X^2h` up to `X^128` is what [`root_power`] says: exact, and scaled by
/// `2^31` for each of these powers.
pub open spec fn value_at(f: Seq<int>, u: int, j: int, h: int) -> Complex
    decreases 256 - h,
{
    if h <= 0 || h > 128 {
        Complex { re: f[j], im: f[256 + j] }
    } else {
        let a = value_at(f, u, j, 2 * h);
        let b = value_at(f, u, j + h, 2 * h);
        let w = root_power(u, h);
        Complex {
            re: 0x8000_0000 * a.re + (w.re * b.re - w.im * b.im),
            im: 0x8000_0000 * a.im + (w.re * b.im + w.im * b.re),
        }
    }
}

/// The square of `w` is `v`, as complex numbers scaled by `2^31` and up to a few
/// units.
pub open spec fn square_is(w: Complex, v: Complex) -> bool {
    &&& -0x4_0000_0000 <= w.re * w.re - w.im * w.im - 0x8000_0000 * v.re <= 0x4_0000_0000
    &&& -0x4_0000_0000 <= 2 * (w.re * w.im) - 0x8000_0000 * v.im <= 0x4_0000_0000
}

/// The powers that a root stands for are powers of one number: each is the
/// square of the one before, and the square of the last is `i`. So the value of
/// a polynomial is that at one root of `X^512 + 1`.
pub proof fn lemma_root_powers(u: int, h: int)
    requires
        is_half(h),
        0 <= u < 256,
    ensures
        square_is(
            root_power(u, h),
            if h == 128 {
                Complex { re: 0, im: 0x8000_0000 }
            } else {
                root_power(u, 2 * h)
            },
        ),
{
    let k = 256int / h + u / (2 * h);
    let j = k / 2;
    lemma_block_count(h);
    lemma_level_circle(h, u);
    assert(1 <= j < 256);
    lemma_root_pair(j);
    let (x, y) = (delta_re(2 * j), delta_im(2 * j));
    let v = delta_re(2 * j + 1);
    lemma_opposite_square(x, y);
    lemma_turned_square(x, y, v);
    if h < 128 {
        lemma_bit(u, 2 * h);
        lemma_div_denominator(u, 2 * h, 2);
        assert((2 * h) * 2 == 2 * (2 * h));
        lemma_div_denominator(256, h, 2);
        assert(h * 2 == 2 * h);
        let n = 256int / h;
        let t = u / (2 * h);
        assert(k % 2 == t % 2 && k / 2 == n / 2 + t / 2);
        assert(j == 256int / (2 * h) + u / (2 * (2 * h)));
    } else {
        lemma_fundamental_div_mod_converse(u, 256, 0, u);
        assert(k == 2);
    }
}

/// How many entries of the table a level starts at.
proof fn lemma_block_count(h: int)
    requires
        is_half(h),
    ensures
        ({
            let n = 256int / h;
            n == 256 || n == 128 || n == 64 || n == 32 || n == 16 || n == 8 || n == 4 || (n == 2 && h
                == 128)
        }),
{
    let n: int = if h == 1 {
        256
    } else if h == 2 {
        128
    } else if h == 4 {
        64
    } else if h == 8 {
        32
    } else if h == 16 {
        16
    } else if h == 32 {
        8
    } else if h == 64 {
        4
    } else {
        2
    };
    lemma_fundamental_div_mod_converse(256, h, n, 0);
}

/// A number and its opposite have the same square.
proof fn lemma_opposite_square(x: int, y: int)
    ensures
        (-x) * (-x) == x * x,
        (-y) * (-y) == y * y,
        (-x) * (-y) == x * y,
{
    assert((-x) * (-x) == x * x) by (nonlinear_arith);
    assert((-y) * (-y) == y * y) by (nonlinear_arith);
    assert((-x) * (-y) == x * y) by (nonlinear_arith);
}

/// The square of `i` times a number, whose real part may be rounded up.
proof fn lemma_turned_square(x: int, y: int, v: int)
    requires
        0 < x <= 3037000502,
        0 < y <= 3037000502,
        -y <= v <= 1 - y,
    ensures
        -0x2_0000_0000 <= (v * v - x * x) + (x * x - y * y) <= 0x2_0000_0000,
        -0x2_0000_0000 <= 2 * (v * x) + 2 * (x * y) <= 0x2_0000_0000,
        (-v) * (-v) == v * v,
        (-v) * (-x) == v * x,
        (-x) * (-x) == x * x,
{
    lemma_opposite_square(v, x);
    if v == -y {
        assert(v * v == y * y && v * x == -(x * y)) by (nonlinear_arith)
            requires
                v == -y,
        ;
    } else {
        assert(v * v == y * y - 2 * y + 1 && v * x == x - x * y) by (nonlinear_arith)
            requires
                v == 1 - y,
        ;
    }
}

/// The distances that the levels of a transform pair entries at.
pub open spec fn is_half(h: int) -> bool {
    h == 1 || h == 2 || h == 4 || h == 8 || h == 16 || h == 32 || h == 64 || h == 128
}

/// The scale of [`value_at`], with a factor of two for each level.
pub open spec fn unit(h: int) -> int
    decreases 256 - h,
{
    if h <= 0 || h > 128 {
        1
    } else {
        0x1_0000_0000 * unit(2 * h)
    }
}

/// The scale is positive.
proof fn lemma_unit_pos(h: int)
    ensures
        unit(h) > 0,
    decreases 256 - h,
{
    if 0 < h <= 128 {
        lemma_unit_pos(2 * h);
    }
}

/// The value at a root depends on the index only from the bit on that the first
/// power looks at.
proof fn lemma_value_block(f: Seq<int>, u: int, v: int, j: int, h: int)
    requires
        is_half(h) || h == 256,
        0 <= u < 256,
        0 <= v < 256,
        u / h == v / h,
    ensures
        value_at(f, u, j, h) == value_at(f, v, j, h),
    decreases 256 - h,
{
    if h <= 128 {
        lemma_div_denominator(u, h, 2);
        lemma_div_denominator(v, h, 2);
        assert(h * 2 == 2 * h);
        assert(u / (2 * h) == v / (2 * h));
        lemma_value_block(f, u, v, j, 2 * h);
        lemma_value_block(f, u, v, j + h, 2 * h);
        lemma_bit(u, h);
        lemma_bit(v, h);
    }
}

/// Which half of its block an index stands in.
pub proof fn lemma_bit(u: int, h: int)
    requires
        h > 0,
        u >= 0,
    ensures
        u % (2 * h) < h <==> (u / h) % 2 == 0,
        u % (2 * h) < h ==> u % (2 * h) == u % h,
        u % (2 * h) >= h ==> u % (2 * h) == u % h + h,
{
    lemma_mod_breakdown(u, h, 2);
    assert(h * 2 == 2 * h);
    let b = (u / h) % 2;
    lemma_mod_bound(u, h);
    assert(h * b == if b == 1 { h } else { 0 }) by (nonlinear_arith)
        requires
            b == 0 || b == 1,
    ;
}

/// Entry `i` stands for the value that `f` times `c` has there, up to `d` units.
pub open spec fn near_entry(s: Split, f: Seq<int>, c: int, h: int, d: int, i: int) -> bool {
    let v = value_at(f, i, i % h, h);
    &&& -(d * unit(h)) <= unit(h) * s.re[i] - c * v.re <= d * unit(h)
    &&& -(d * unit(h)) <= unit(h) * s.im[i] - c * v.im <= d * unit(h)
}

/// All entries do.
spec fn near(s: Split, f: Seq<int>, c: int, h: int, d: int) -> bool {
    forall|i: int| 0 <= i < 256 ==> #[trigger] near_entry(s, f, c, h, d, i)
}

/// The squared absolute value of an entry.
pub open spec fn size(s: Split, i: int) -> int {
    s.re[i] * s.re[i] + s.im[i] * s.im[i]
}

/// No entry is larger than `m`, squared.
pub open spec fn bounded(s: Split, m: int) -> bool {
    forall|i: int| 0 <= i < 256 ==> #[trigger] size(s, i) <= m
}

/// A number whose square is below `2^62` has at most 31 bits and a sign.
proof fn lemma_square_small(x: int)
    requires
        x * x < 0x4000_0000_0000_0000,
    ensures
        -0x8000_0000 < x < 0x8000_0000,
        trunc32(x) == x,
{
    assert(-0x8000_0000 < x < 0x8000_0000) by (nonlinear_arith)
        requires
            x * x < 0x4000_0000_0000_0000,
    ;
}

/// A weighted sum of two errors.
pub proof fn lemma_weighted(p: int, q: int, a: int, b: int, t: int)
    requires
        -3037000502 <= p + q <= 3037000502,
        -3037000502 <= p - q <= 3037000502,
        -t <= a <= t,
        -t <= b <= t,
    ensures
        -(3037000502 * t) <= p * a + q * b <= 3037000502 * t,
{
    let x = if p < 0 { -p } else { p };
    let y = if q < 0 { -q } else { q };
    assert(-(x * t) <= p * a <= x * t) by (nonlinear_arith)
        requires
            -t <= a <= t,
            x == if p < 0 { -p } else { p },
    ;
    assert(-(y * t) <= q * b <= y * t) by (nonlinear_arith)
        requires
            -t <= b <= t,
            y == if q < 0 { -q } else { q },
    ;
    assert(x * t + y * t <= 3037000502 * t) by (nonlinear_arith)
        requires
            t >= 0,
            x + y <= 3037000502,
    ;
}

/// The error of `(2^31 x + p y + q z) / 2^32`, rounded down, from those of `x`,
/// `y` and `z`.
proof fn lemma_forward_error(
    x: int,
    y: int,
    z: int,
    vx: int,
    vy: int,
    vz: int,
    p: int,
    q: int,
    u: int,
    d: int,
    e: int,
)
    requires
        u > 0,
        d >= 0,
        4 * e >= 5 * d + 4,
        -3037000502 <= p + q <= 3037000502,
        -3037000502 <= p - q <= 3037000502,
        -(d * u) <= u * x - vx <= d * u,
        -(d * u) <= u * y - vy <= d * u,
        -(d * u) <= u * z - vz <= d * u,
    ensures
        ({
            let s = (x * 0x8000_0000 + (p * y + q * z)) / 0x1_0000_0000;
            let w = 0x1_0000_0000 * u;
            -(e * w) <= w * s - (0x8000_0000 * vx + (p * vy + q * vz)) <= e * w
        }),
{
    let n = x * 0x8000_0000 + (p * y + q * z);
    let s = n / 0x1_0000_0000;
    let r = n % 0x1_0000_0000;
    let w = 0x1_0000_0000 * u;
    let t = d * u;
    lemma_fundamental_div_mod(n, 0x1_0000_0000);
    lemma_mod_bound(n, 0x1_0000_0000);
    let (a, b, c) = (u * x - vx, u * y - vy, u * z - vz);
    lemma_weighted(p, q, b, c, t);
    assert(w * s == u * n - u * r) by (nonlinear_arith)
        requires
            n == 0x1_0000_0000 * s + r,
            w == 0x1_0000_0000 * u,
    ;
    assert(u * n == 0x8000_0000 * (u * x) + (p * (u * y) + q * (u * z))) by (nonlinear_arith)
        requires
            n == x * 0x8000_0000 + (p * y + q * z),
    ;
    assert(p * (u * y) == p * b + p * vy) by (nonlinear_arith)
        requires
            b == u * y - vy,
    ;
    assert(q * (u * z) == q * c + q * vz) by (nonlinear_arith)
        requires
            c == u * z - vz,
    ;
    assert(0 <= u * r <= w) by (nonlinear_arith)
        requires
            u > 0,
            0 <= r < 0x1_0000_0000,
            w == 0x1_0000_0000 * u,
    ;
    assert(e * w >= 0x8000_0000 * t + 3037000502 * t + w) by (nonlinear_arith)
        requires
            4 * e >= 5 * d + 4,
            w == 0x1_0000_0000 * u,
            t == d * u,
            u > 0,
            d >= 0,
    ;
    assert(-(0x8000_0000 * t) <= 0x8000_0000 * a <= 0x8000_0000 * t);
}

/// The size of a number that is divided by `2^32` and rounded down.
proof fn lemma_rounded_square(n: int, y: int)
    requires
        y == n / 0x1_0000_0000,
        -0x1_0000_0000_0000_0000 <= n <= 0x1_0000_0000_0000_0000,
    ensures
        0x1_0000_0000_0000_0000 * (y * y) <= n * n + 0x4_0000_0000_0000_0000_0000_0000,
{
    let r = n % 0x1_0000_0000;
    lemma_fundamental_div_mod(n, 0x1_0000_0000);
    lemma_mod_bound(n, 0x1_0000_0000);
    let m = n - r;
    assert(m * m <= n * n + 0x4_0000_0000_0000_0000_0000_0000) by (nonlinear_arith)
        requires
            m == n - r,
            0 <= r < 0x1_0000_0000,
            -0x1_0000_0000_0000_0000 <= n <= 0x1_0000_0000_0000_0000,
    ;
    assert(m * m == 0x1_0000_0000_0000_0000 * (y * y)) by (nonlinear_arith)
        requires
            m == 0x1_0000_0000 * y,
    ;
}

/// A number whose square is at most `2^127` is below `2^64`.
proof fn lemma_wide(n: int)
    requires
        n * n <= 0x8000_0000_0000_0000_0000_0000_0000_0000,
    ensures
        -0x1_0000_0000_0000_0000 <= n <= 0x1_0000_0000_0000_0000,
{
    assert(-0x1_0000_0000_0000_0000 <= n <= 0x1_0000_0000_0000_0000) by (nonlinear_arith)
        requires
            n * n <= 0x8000_0000_0000_0000_0000_0000_0000_0000,
    ;
}

/// The product of two complex numbers has the product of their sizes.
proof fn lemma_product_size(a: int, b: int, c: int, d: int)
    ensures
        (a * c - b * d) * (a * c - b * d) + (a * d + b * c) * (a * d + b * c) == (a * a + b * b) * (c
            * c + d * d),
{
    let (ac, bd, ad, bc) = (a * c, b * d, a * d, b * c);
    assert(ac * bd == ad * bc) by (nonlinear_arith)
        requires
            ac == a * c,
            bd == b * d,
            ad == a * d,
            bc == b * c,
    ;
    assert((ac - bd) * (ac - bd) == ac * ac - 2 * (ac * bd) + bd * bd) by (nonlinear_arith);
    assert((ad + bc) * (ad + bc) == ad * ad + 2 * (ad * bc) + bc * bc) by (nonlinear_arith);
    assert(ac * ac == (a * a) * (c * c)) by (nonlinear_arith)
        requires
            ac == a * c,
    ;
    assert(bd * bd == (b * b) * (d * d)) by (nonlinear_arith)
        requires
            bd == b * d,
    ;
    assert(ad * ad == (a * a) * (d * d)) by (nonlinear_arith)
        requires
            ad == a * d,
    ;
    assert(bc * bc == (b * b) * (c * c)) by (nonlinear_arith)
        requires
            bc == b * c,
    ;
    let (a2, b2, c2, d2) = (a * a, b * b, c * c, d * d);
    assert((a2 + b2) * (c2 + d2) == a2 * c2 + b2 * d2 + a2 * d2 + b2 * c2) by (nonlinear_arith);
}

/// A complex number whose parts are divided by `2^32` and rounded down.
proof fn lemma_rounded_size(a: int, b: int, m: int)
    requires
        0 <= m <= 0x3fff_ffff_ffff_ffff,
        a * a + b * b <= 0x1_0000_0010_0000_0000 * m,
    ensures
        ({
            let x = a / 0x1_0000_0000;
            let y = b / 0x1_0000_0000;
            x * x + y * y <= m + 0x40_0000_0000
        }),
{
    let x = a / 0x1_0000_0000;
    let y = b / 0x1_0000_0000;
    assert(a * a >= 0 && b * b >= 0) by (nonlinear_arith);
    lemma_wide(a);
    lemma_wide(b);
    lemma_rounded_square(a, x);
    lemma_rounded_square(b, y);
}

/// The sizes of what a forward butterfly leaves.
proof fn lemma_forward_size(a: int, b: int, c: int, d: int, er: int, ei: int, m: int)
    requires
        0 <= m <= 0x3fff_ffff_ffff_ffff,
        a * a + b * b <= m,
        c * c + d * d <= m,
        er * er + ei * ei <= 0x4000_0002_0000_0000,
    ensures
        ({
            let p = c * er - d * ei;
            let q = c * ei + d * er;
            let x = (a * 0x8000_0000 + p) / 0x1_0000_0000;
            let y = (b * 0x8000_0000 + q) / 0x1_0000_0000;
            let z = (a * 0x8000_0000 - p) / 0x1_0000_0000;
            let w = (b * 0x8000_0000 - q) / 0x1_0000_0000;
            &&& x * x + y * y <= m + 0x40_0000_0000
            &&& z * z + w * w <= m + 0x40_0000_0000
        }),
{
    let p = c * er - d * ei;
    let q = c * ei + d * er;
    let f = a * 0x8000_0000;
    let g = b * 0x8000_0000;
    lemma_product_size(c, d, er, ei);
    let s = p * p + q * q;
    let ne = er * er + ei * ei;
    let nx = c * c + d * d;
    assert(s == nx * ne);
    assert(nx >= 0) by (nonlinear_arith)
        requires
            nx == c * c + d * d,
    ;
    assert(s <= 0x4000_0002_0000_0000 * m) by (nonlinear_arith)
        requires
            s == nx * ne,
            0 <= nx <= m,
            ne <= 0x4000_0002_0000_0000,
    ;
    assert(f * f + g * g == 0x4000_0000_0000_0000 * (a * a + b * b)) by (nonlinear_arith)
        requires
            f == a * 0x8000_0000,
            g == b * 0x8000_0000,
    ;
    assert((f + p) * (f + p) <= 2 * (f * f) + 2 * (p * p)) by (nonlinear_arith);
    assert((f - p) * (f - p) <= 2 * (f * f) + 2 * (p * p)) by (nonlinear_arith);
    assert((g + q) * (g + q) <= 2 * (g * g) + 2 * (q * q)) by (nonlinear_arith);
    assert((g - q) * (g - q) <= 2 * (g * g) + 2 * (q * q)) by (nonlinear_arith);
    lemma_rounded_size(f + p, g + q, m);
    lemma_rounded_size(f - p, g - q, m);
}

/// The roots that a level uses lie on the circle.
pub proof fn lemma_level_circle(h: int, i: int)
    requires
        is_half(h),
        0 <= i < 256,
    ensures
        2 <= level_root(h, i) < 512,
        near_circle(delta_re(level_root(h, i)), delta_im(level_root(h, i))),
{
    let k = level_root(h, i);
    lemma_root_pair(k / 2);
    assert(root_pair(k / 2));
    assert(k == 2 * (k / 2) || k == 2 * (k / 2) + 1);
}

/// What one forward level does to the entries: they stay close to the values of
/// the polynomial, and do not grow by much.
proof fn lemma_forward_level(s: Split, f: Seq<int>, c: int, h: int, d: int, e: int, m: int)
    requires
        is_half(h),
        near(s, f, c, 2 * h, d),
        bounded(s, m),
        d >= 0,
        4 * e >= 5 * d + 4,
        0 <= m <= 0x3fff_ff00_0000_0000,
    ensures
        near(level(false, s, h), f, c, h, e),
        bounded(level(false, s, h), m + 0x40_0000_0000),
{
    let t = level(false, s, h);
    assert forall|i: int| 0 <= i < 256 implies #[trigger] near_entry(t, f, c, h, e, i) && size(t, i)
        <= m + 0x40_0000_0000 by {
        lemma_forward_entry(s, f, c, h, d, e, m, i);
    }
    assert forall|i: int| 0 <= i < 256 implies #[trigger] size(t, i) <= m + 0x40_0000_0000 by {
        assert(near_entry(t, f, c, h, e, i));
    }
}

/// [`lemma_forward_level`] for one entry.
proof fn lemma_forward_entry(s: Split, f: Seq<int>, c: int, h: int, d: int, e: int, m: int, i: int)
    requires
        is_half(h),
        near(s, f, c, 2 * h, d),
        bounded(s, m),
        d >= 0,
        4 * e >= 5 * d + 4,
        0 <= m <= 0x3fff_ff00_0000_0000,
        0 <= i < 256,
    ensures
        near_entry(level(false, s, h), f, c, h, e, i),
        size(level(false, s, h), i) <= m + 0x40_0000_0000,
{
    let t = level(false, s, h);
    reveal(level);
    reveal(pair);
    let k = level_root(h, i);
    lemma_level_circle(h, i);
    lemma_bit(i, h);
    let low = i % (2 * h) < h;
    let x = if low { i } else { i - h };
    let y = x + h;
    lemma_block_indices(i, h);
    let j = i % h;
    let (er, ei) = (delta_re(k), delta_im(k));
    let u = unit(2 * h);
    lemma_unit_pos(2 * h);
    assert(near_entry(s, f, c, 2 * h, d, x));
    assert(near_entry(s, f, c, 2 * h, d, y));
    lemma_value_block(f, i, x, j, 2 * h);
    lemma_value_block(f, i, y, j + h, 2 * h);
    let a = value_at(f, i, j, 2 * h);
    let b = value_at(f, i, j + h, 2 * h);
    assert(size(s, x) <= m && size(s, y) <= m);
    lemma_forward_size(s.re[x], s.im[x], s.re[y], s.im[y], er, ei, m);
    let (p, q) = if low { (er, ei) } else { (-er, -ei) };
    lemma_forward_error(
        s.re[x],
        s.re[y],
        s.im[y],
        c * a.re,
        c * b.re,
        c * b.im,
        p,
        -q,
        u,
        d,
        e,
    );
    lemma_forward_error(
        s.im[x],
        s.im[y],
        s.re[y],
        c * a.im,
        c * b.im,
        c * b.re,
        p,
        q,
        u,
        d,
        e,
    );
    let z = forward_pair(s, x, y, k);
    let n_re = (s.re[x] * 0x8000_0000 + (p * s.re[y] + (-q) * s.im[y])) / 0x1_0000_0000;
    let n_im = (s.im[x] * 0x8000_0000 + (p * s.im[y] + q * s.re[y])) / 0x1_0000_0000;
    lemma_signed_products(s.re[y], s.im[y], er, ei);
    let v = value_at(f, i, j, h);
    let w = root_power(i, h);
    assert(w.re == p && w.im == q);
    lemma_scaled_value(c, a, b, p, q);
    assert(v.re == 0x8000_0000 * a.re + (p * b.re - q * b.im));
    assert(v.im == 0x8000_0000 * a.im + (p * b.im + q * b.re));
    let (sx, sy) = (n_re, n_im);
    assert(sx * sx + sy * sy <= m + 0x40_0000_0000);
    assert(sx * sx >= 0 && sy * sy >= 0) by (nonlinear_arith);
    lemma_square_small(sx);
    lemma_square_small(sy);
    assert(t.re[i] == sx);
    assert(t.im[i] == sy);
}

/// The indices of the butterfly that an entry takes part in.
pub proof fn lemma_block_indices(i: int, h: int)
    requires
        is_half(h),
        0 <= i < 256,
    ensures
        ({
            let x = if i % (2 * h) < h { i } else { i - h };
            let y = x + h;
            &&& 0 <= x && y < 256
            &&& x % (2 * h) == i % h
            &&& y % (2 * h) == i % h + h
            &&& x / (2 * h) == i / (2 * h)
            &&& y / (2 * h) == i / (2 * h)
        }),
{
    lemma_bit(i, h);
    let n = i / (2 * h);
    let r = i % (2 * h);
    let x = if r < h { i } else { i - h };
    lemma_fundamental_div_mod(i, 2 * h);
    lemma_mod_bound(i, 2 * h);
    lemma_mod_bound(i, h);
    lemma_fundamental_div_mod_converse(x, 2 * h, n, i % h);
    lemma_fundamental_div_mod_converse(x + h, 2 * h, n, i % h + h);
}

/// The two ways to write a product with a root or its opposite.
proof fn lemma_signed_products(x: int, y: int, er: int, ei: int)
    ensures
        er * x + (-ei) * y == x * er - y * ei,
        er * y + ei * x == x * ei + y * er,
        (-er) * x + (-(-ei)) * y == -(x * er - y * ei),
        (-er) * y + (-ei) * x == -(x * ei + y * er),
{
    assert(er * x + (-ei) * y == x * er - y * ei) by (nonlinear_arith);
    assert(er * y + ei * x == x * ei + y * er) by (nonlinear_arith);
    assert((-er) * x + (-(-ei)) * y == -(x * er - y * ei)) by (nonlinear_arith);
    assert((-er) * y + (-ei) * x == -(x * ei + y * er)) by (nonlinear_arith);
}

/// A sum of products times a number.
proof fn lemma_scaled_sum(c: int, x: int, p: int, y: int, q: int, z: int)
    ensures
        c * (0x8000_0000 * x + (p * y + q * z)) == 0x8000_0000 * (c * x) + (p * (c * y) + q * (c * z)),
{
    let (m, n) = (p * y, q * z);
    assert(c * (0x8000_0000 * x + (m + n)) == 0x8000_0000 * (c * x) + (c * m + c * n))
        by (nonlinear_arith);
    assert(c * m == p * (c * y)) by (nonlinear_arith)
        requires
            m == p * y,
    ;
    assert(c * n == q * (c * z)) by (nonlinear_arith)
        requires
            n == q * z,
    ;
}

/// A value times a number.
proof fn lemma_scaled_value(c: int, a: Complex, b: Complex, p: int, q: int)
    ensures
        c * (0x8000_0000 * a.re + (p * b.re - q * b.im)) == 0x8000_0000 * (c * a.re) + (p * (c * b.re)
            + (-q) * (c * b.im)),
        c * (0x8000_0000 * a.im + (p * b.im + q * b.re)) == 0x8000_0000 * (c * a.im) + (p * (c * b.im)
            + q * (c * b.re)),
{
    let x = b.im;
    assert((-q) * x == -(q * x)) by (nonlinear_arith);
    lemma_scaled_sum(c, a.re, p, b.re, -q, b.im);
    lemma_scaled_sum(c, a.im, p, b.im, q, b.re);
}

/// All forward levels.
proof fn lemma_forward_levels(s: Split, f: Seq<int>, c: int)
    requires
        near(s, f, c, 256, 0),
        bounded(s, 0x3fff_fc00_0000_0000),
    ensures
        near(forward_levels(s, 128), f, c, 1, 26),
        bounded(forward_levels(s, 128), 0x3fff_fe00_0000_0000),
{
    let s1 = level(false, s, 128);
    lemma_forward_level(s, f, c, 128, 0, 1, 0x3fff_fc00_0000_0000);
    let s2 = level(false, s1, 64);
    lemma_forward_level(s1, f, c, 64, 1, 3, 0x3fff_fc40_0000_0000);
    let s3 = level(false, s2, 32);
    lemma_forward_level(s2, f, c, 32, 3, 5, 0x3fff_fc80_0000_0000);
    let s4 = level(false, s3, 16);
    lemma_forward_level(s3, f, c, 16, 5, 8, 0x3fff_fcc0_0000_0000);
    let s5 = level(false, s4, 8);
    lemma_forward_level(s4, f, c, 8, 8, 11, 0x3fff_fd00_0000_0000);
    let s6 = level(false, s5, 4);
    lemma_forward_level(s5, f, c, 4, 11, 15, 0x3fff_fd40_0000_0000);
    let s7 = level(false, s6, 2);
    lemma_forward_level(s6, f, c, 2, 15, 20, 0x3fff_fd80_0000_0000);
    lemma_forward_level(s7, f, c, 1, 20, 26, 0x3fff_fdc0_0000_0000);
    reveal_with_fuel(forward_levels, 9);
}

/// A polynomial without its constant coefficient, if so asked.
pub open spec fn without_first(f: Seq<int>, zero_first: bool) -> Seq<int> {
    if zero_first {
        f.update(0, 0)
    } else {
        f
    }
}

/// The coefficients are small enough for the scale: scaled, and folded into
/// complex numbers, all are smaller than `2^31` by a little.
pub open spec fn in_scale(f: Seq<int>, c: int) -> bool {
    forall|j: int|
        0 <= j < 256 ==> (c * #[trigger] f[j]) * (c * f[j]) + (c * f[256 + j]) * (c * f[256 + j])
            <= 0x3fff_fc00_0000_0000
}

/// Coefficients that are at most `2^30` when scaled are small enough.
pub proof fn lemma_in_scale(f: Seq<int>, c: int)
    requires
        forall|j: int| 0 <= j < 512 ==> -0x4000_0000 <= c * #[trigger] f[j] <= 0x4000_0000,
    ensures
        in_scale(f, c),
{
    assert forall|j: int| 0 <= j < 256 implies (c * #[trigger] f[j]) * (c * f[j]) + (c * f[256 + j]) * (
    c * f[256 + j]) <= 0x3fff_fc00_0000_0000 by {
        let (x, y) = (c * f[j], c * f[256 + j]);
        assert(-0x4000_0000 <= c * f[256 + j] <= 0x4000_0000);
        assert(x * x + y * y <= 0x2000_0000_0000_0000) by (nonlinear_arith)
            requires
                -0x4000_0000 <= x <= 0x4000_0000,
                -0x4000_0000 <= y <= 0x4000_0000,
        ;
    }
}

/// A transform looks at the scaled coefficients modulo `2^32` only.
pub proof fn lemma_forward_wraps(f: Seq<int>, g: Seq<int>, c: int, zero_first: bool)
    requires
        forall|j: int| 0 <= j < 512 ==> (c * #[trigger] f[j]) % 0x1_0000_0000 == (c * g[j]) % 0x1_0000_0000,
    ensures
        forward(f, c, zero_first) == forward(g, c, zero_first),
{
    let (s, t) = (scaled(f, c, zero_first), scaled(g, c, zero_first));
    assert forall|j: int| 0 <= j < 512 implies trunc32(c * #[trigger] f[j]) == trunc32(c * g[j]) by {
        let (x, y) = (c * f[j], c * g[j]);
        lemma_add_mod_noop(x, 0x8000_0000, 0x1_0000_0000);
        lemma_add_mod_noop(y, 0x8000_0000, 0x1_0000_0000);
    }
    assert(s.re =~= t.re);
    assert(s.im =~= t.im) by {
        assert forall|j: int| 0 <= j < 256 implies s.im[j] == t.im[j] by {
            assert(trunc32(c * f[256 + j]) == trunc32(c * g[256 + j]));
        }
    }
}

/// The forward transform evaluates the polynomial: entry `u` is the exact value
/// at the root with index `u`, times the scale and divided by `n / 2`, up to 26
/// units in each part.
pub proof fn lemma_forward_values(f: Seq<int>, c: int, zero_first: bool, u: int)
    requires
        f.len() == 512,
        in_scale(without_first(f, zero_first), c),
        0 <= u < 256,
    ensures
        near_entry(forward(f, c, zero_first), without_first(f, zero_first), c, 1, 26, u),
{
    let g = without_first(f, zero_first);
    let s = scaled(f, c, zero_first);
    assert(c * 0 == 0) by (nonlinear_arith);
    assert forall|i: int| 0 <= i < 256 implies #[trigger] near_entry(s, g, c, 256, 0, i) && size(s, i)
        <= 0x3fff_fc00_0000_0000 by {
        let (x, y) = (c * g[i], c * g[256 + i]);
        assert(x * x + y * y <= 0x3fff_fc00_0000_0000);
        assert(x * x >= 0 && y * y >= 0) by (nonlinear_arith);
        lemma_square_small(x);
        lemma_square_small(y);
        assert(s.re[i] == x && s.im[i] == y);
        assert(unit(256) == 1);
        assert(value_at(g, i, i % 256, 256) == (Complex { re: g[i], im: g[256 + i] }));
    }
    assert forall|i: int| 0 <= i < 256 implies #[trigger] size(s, i) <= 0x3fff_fc00_0000_0000 by {
        assert(near_entry(s, g, c, 256, 0, i));
    }
    lemma_forward_levels(s, g, c);
    assert(near_entry(forward(f, c, zero_first), g, c, 1, 26, u));
}

/// The coefficient at index `i`, from the values at the roots, after the levels
/// up to distance `h`: sums of pairs, and differences times the conjugate of
/// their root. Exact, and scaled by `2^31` and two for each level.
pub open spec fn coefficient_at(y: Split, i: int, h: int) -> Complex
    decreases h,
{
    if h <= 0 {
        Complex { re: y.re[i], im: y.im[i] }
    } else if i % (2 * h) < h {
        let a = coefficient_at(y, i, h / 2);
        let b = coefficient_at(y, i + h, h / 2);
        Complex { re: 0x8000_0000 * (a.re + b.re), im: 0x8000_0000 * (a.im + b.im) }
    } else {
        let a = coefficient_at(y, i - h, h / 2);
        let b = coefficient_at(y, i, h / 2);
        let w = root_power(i - h, h);
        Complex {
            re: w.re * (a.re - b.re) + w.im * (a.im - b.im),
            im: w.re * (a.im - b.im) - w.im * (a.re - b.re),
        }
    }
}

/// The scale of [`coefficient_at`], with a factor of two for each level.
pub open spec fn back_unit(h: int) -> int
    decreases h,
{
    if h <= 0 {
        1
    } else {
        0x1_0000_0000 * back_unit(h / 2)
    }
}

/// The scale is positive.
proof fn lemma_back_unit_pos(h: int)
    ensures
        back_unit(h) > 0,
    decreases h,
{
    if h > 0 {
        lemma_back_unit_pos(h / 2);
    }
}

/// Entry `i` stands for the coefficient there, up to `d` units.
pub open spec fn near_back(s: Split, y: Split, h: int, d: int, i: int) -> bool {
    let v = coefficient_at(y, i, h);
    &&& -(d * back_unit(h)) <= back_unit(h) * s.re[i] - v.re <= d * back_unit(h)
    &&& -(d * back_unit(h)) <= back_unit(h) * s.im[i] - v.im <= d * back_unit(h)
}

/// All entries do.
spec fn all_near_back(s: Split, y: Split, h: int, d: int) -> bool {
    forall|i: int| 0 <= i < 256 ==> #[trigger] near_back(s, y, h, d, i)
}

/// The error of half a sum, rounded down.
proof fn lemma_half_error(x: int, y: int, vx: int, vy: int, u: int, d: int, e: int)
    requires
        u > 0,
        e >= d + 1,
        -(d * u) <= u * x - vx <= d * u,
        -(d * u) <= u * y - vy <= d * u,
    ensures
        ({
            let w = 0x1_0000_0000 * u;
            -(e * w) <= w * ((x + y) / 2) - 0x8000_0000 * (vx + vy) <= e * w
        }),
{
    let n = x + y;
    let s = n / 2;
    let r = n % 2;
    let w = 0x1_0000_0000 * u;
    assert(w * s == 0x8000_0000 * (u * x + u * y) - 0x8000_0000 * (u * r)) by (nonlinear_arith)
        requires
            n == 2 * s + r,
            n == x + y,
            w == 0x1_0000_0000 * u,
    ;
    assert(0 <= u * r <= u) by (nonlinear_arith)
        requires
            u > 0,
            0 <= r <= 1,
    ;
    assert(e * w >= 0x1_0000_0000 * (d * u) + w) by (nonlinear_arith)
        requires
            e >= d + 1,
            w == 0x1_0000_0000 * u,
            u > 0,
    ;
}

/// The error of `(p y + q z) / 2^32`, rounded down, where `y` and `z` are
/// differences.
proof fn lemma_difference_error(
    y: int,
    z: int,
    vy: int,
    vz: int,
    p: int,
    q: int,
    u: int,
    d: int,
    e: int,
)
    requires
        u > 0,
        d >= 0,
        2 * e >= 3 * d + 2,
        -3037000502 <= p + q <= 3037000502,
        -3037000502 <= p - q <= 3037000502,
        -(2 * (d * u)) <= u * y - vy <= 2 * (d * u),
        -(2 * (d * u)) <= u * z - vz <= 2 * (d * u),
    ensures
        ({
            let w = 0x1_0000_0000 * u;
            -(e * w) <= w * ((p * y + q * z) / 0x1_0000_0000) - (p * vy + q * vz) <= e * w
        }),
{
    let n = p * y + q * z;
    let s = n / 0x1_0000_0000;
    let r = n % 0x1_0000_0000;
    let w = 0x1_0000_0000 * u;
    let t = 2 * (d * u);
    lemma_fundamental_div_mod(n, 0x1_0000_0000);
    lemma_mod_bound(n, 0x1_0000_0000);
    let (b, c) = (u * y - vy, u * z - vz);
    lemma_weighted(p, q, b, c, t);
    assert(w * s == u * n - u * r) by (nonlinear_arith)
        requires
            n == 0x1_0000_0000 * s + r,
            w == 0x1_0000_0000 * u,
    ;
    assert(u * n == p * (u * y) + q * (u * z)) by (nonlinear_arith)
        requires
            n == p * y + q * z,
    ;
    assert(p * (u * y) == p * b + p * vy) by (nonlinear_arith)
        requires
            b == u * y - vy,
    ;
    assert(q * (u * z) == q * c + q * vz) by (nonlinear_arith)
        requires
            c == u * z - vz,
    ;
    assert(0 <= u * r <= w) by (nonlinear_arith)
        requires
            u > 0,
            0 <= r < 0x1_0000_0000,
            w == 0x1_0000_0000 * u,
    ;
    assert(e * w >= 3037000502 * t + w) by (nonlinear_arith)
        requires
            2 * e >= 3 * d + 2,
            w == 0x1_0000_0000 * u,
            t == 2 * (d * u),
            u > 0,
            d >= 0,
    ;
}

/// The sizes of what an inverse butterfly leaves.
proof fn lemma_inverse_size(a: int, b: int, c: int, d: int, er: int, ei: int, m: int)
    requires
        0 <= m <= 0x3fff_ffff_ffff_ffff,
        a * a + b * b <= m,
        c * c + d * d <= m,
        er * er + ei * ei <= 0x4000_0002_0000_0000,
    ensures
        ({
            let x = (a + c) / 2;
            let y = (b + d) / 2;
            let z = ((a - c) * er + (b - d) * ei) / 0x1_0000_0000;
            let w = ((b - d) * er - (a - c) * ei) / 0x1_0000_0000;
            &&& x * x + y * y <= m + 0x40_0000_0000
            &&& z * z + w * w <= m + 0x40_0000_0000
        }),
{
    assert(a * a >= 0 && b * b >= 0 && c * c >= 0 && d * d >= 0) by (nonlinear_arith);
    lemma_square_small(a);
    lemma_square_small(b);
    lemma_square_small(c);
    lemma_square_small(d);
    let (f, g) = (a + c, b + d);
    let (x, y) = (f / 2, g / 2);
    assert(f * f <= 2 * (a * a) + 2 * (c * c)) by (nonlinear_arith)
        requires
            f == a + c,
    ;
    assert(g * g <= 2 * (b * b) + 2 * (d * d)) by (nonlinear_arith)
        requires
            g == b + d,
    ;
    lemma_halved_square(f);
    lemma_halved_square(g);
    let (p, q) = (a - c, b - d);
    assert(p * p <= 2 * (a * a) + 2 * (c * c)) by (nonlinear_arith)
        requires
            p == a - c,
    ;
    assert(q * q <= 2 * (b * b) + 2 * (d * d)) by (nonlinear_arith)
        requires
            q == b - d,
    ;
    lemma_product_size(p, q, er, -ei);
    let s = p * p + q * q;
    let ne = er * er + ei * ei;
    assert((-ei) * (-ei) == ei * ei) by (nonlinear_arith);
    assert(p * er - q * (-ei) == p * er + q * ei && p * (-ei) + q * er == q * er - p * ei)
        by (nonlinear_arith);
    assert(p * p >= 0 && q * q >= 0) by (nonlinear_arith);
    assert(s * ne <= 0x1_0000_0010_0000_0000 * m) by (nonlinear_arith)
        requires
            0 <= s <= 4 * m,
            ne <= 0x4000_0002_0000_0000,
    ;
    lemma_rounded_size(p * er + q * ei, q * er - p * ei, m);
}

/// The square of half a number, rounded down.
proof fn lemma_halved_square(n: int)
    requires
        -0x1_0000_0000 <= n <= 0x1_0000_0000,
    ensures
        4 * ((n / 2) * (n / 2)) <= n * n + 0x4_0000_0000,
{
    let s = n / 2;
    let r = n % 2;
    let m = n - r;
    assert(m * m <= n * n + 0x4_0000_0000) by (nonlinear_arith)
        requires
            m == n - r,
            0 <= r <= 1,
            -0x1_0000_0000 <= n <= 0x1_0000_0000,
    ;
    assert(m * m == 4 * (s * s)) by (nonlinear_arith)
        requires
            m == 2 * s,
    ;
}

/// What one inverse level does to an entry.
proof fn lemma_inverse_entry(s: Split, y: Split, h: int, d: int, e: int, m: int, i: int)
    requires
        is_half(h),
        all_near_back(s, y, h / 2, d),
        bounded(s, m),
        d >= 0,
        2 * e >= 3 * d + 2,
        0 <= m <= 0x3fff_ff00_0000_0000,
        0 <= i < 256,
    ensures
        near_back(level(true, s, h), y, h, e, i),
        size(level(true, s, h), i) <= m + 0x40_0000_0000,
{
    let t = level(true, s, h);
    reveal(level);
    reveal(pair);
    let k = level_root(h, i);
    lemma_level_circle(h, i);
    lemma_bit(i, h);
    let low = i % (2 * h) < h;
    let x = if low { i } else { i - h };
    let z = x + h;
    lemma_block_indices(i, h);
    lemma_mod_bound(i, h);
    let (er, ei) = (delta_re(k), delta_im(k));
    let u = back_unit(h / 2);
    lemma_back_unit_pos(h / 2);
    assert(near_back(s, y, h / 2, d, x));
    assert(near_back(s, y, h / 2, d, z));
    let a = coefficient_at(y, x, h / 2);
    let b = coefficient_at(y, z, h / 2);
    assert(size(s, x) <= m && size(s, z) <= m);
    lemma_inverse_size(s.re[x], s.im[x], s.re[z], s.im[z], er, ei, m);
    let (n_re, n_im) = if low {
        ((s.re[x] + s.re[z]) / 2, (s.im[x] + s.im[z]) / 2)
    } else {
        (
            ((s.re[x] - s.re[z]) * er + (s.im[x] - s.im[z]) * ei) / 0x1_0000_0000,
            ((s.im[x] - s.im[z]) * er - (s.re[x] - s.re[z]) * ei) / 0x1_0000_0000,
        )
    };
    if low {
        lemma_half_error(s.re[x], s.re[z], a.re, b.re, u, d, e);
        lemma_half_error(s.im[x], s.im[z], a.im, b.im, u, d, e);
    } else {
        let (p, q) = (s.re[x] - s.re[z], s.im[x] - s.im[z]);
        let (vp, vq) = (a.re - b.re, a.im - b.im);
        assert(u * p == u * s.re[x] - u * s.re[z]) by (nonlinear_arith)
            requires
                p == s.re[x] - s.re[z],
        ;
        assert(u * q == u * s.im[x] - u * s.im[z]) by (nonlinear_arith)
            requires
                q == s.im[x] - s.im[z],
        ;
        lemma_difference_error(p, q, vp, vq, er, ei, u, d, e);
        lemma_difference_error(q, p, vq, vp, er, -ei, u, d, e);
        assert(p * er + q * ei == er * p + ei * q) by (nonlinear_arith);
        assert(q * er - p * ei == er * q + (-ei) * p) by (nonlinear_arith);
        assert(er * vq - ei * vp == er * vq + (-ei) * vp) by (nonlinear_arith);
        let w = root_power(i - h, h);
        assert(w.re == er && w.im == ei);
    }
    assert(n_re * n_re + n_im * n_im <= m + 0x40_0000_0000);
    assert(n_re * n_re >= 0 && n_im * n_im >= 0) by (nonlinear_arith);
    lemma_square_small(n_re);
    lemma_square_small(n_im);
    assert(t.re[i] == n_re);
    assert(t.im[i] == n_im);
}

/// What one inverse level does to the entries.
proof fn lemma_inverse_level(s: Split, y: Split, h: int, d: int, e: int, m: int)
    requires
        is_half(h),
        all_near_back(s, y, h / 2, d),
        bounded(s, m),
        d >= 0,
        2 * e >= 3 * d + 2,
        0 <= m <= 0x3fff_ff00_0000_0000,
    ensures
        all_near_back(level(true, s, h), y, h, e),
        bounded(level(true, s, h), m + 0x40_0000_0000),
{
    let t = level(true, s, h);
    assert forall|i: int| 0 <= i < 256 implies #[trigger] near_back(t, y, h, e, i) && size(t, i) <= m
        + 0x40_0000_0000 by {
        lemma_inverse_entry(s, y, h, d, e, m, i);
    }
    assert forall|i: int| 0 <= i < 256 implies #[trigger] size(t, i) <= m + 0x40_0000_0000 by {
        assert(near_back(t, y, h, e, i));
    }
}

/// The inverse transform gives the coefficients back: entry `i` is the exact
/// coefficient that the values at the roots come to, up to 60 units in each
/// part, as long as no value reaches `2^31`, by a little.
pub proof fn lemma_inverse_values(y: Split, i: int)
    requires
        bounded(y, 0x3fff_fc00_0000_0000),
        0 <= i < 256,
    ensures
        near_back(inverse_levels(y, 1), y, 128, 60, i),
        -0x8000_0000 < inverse_levels(y, 1).re[i] < 0x8000_0000,
        -0x8000_0000 < inverse_levels(y, 1).im[i] < 0x8000_0000,
{
    assert forall|k: int| 0 <= k < 256 implies #[trigger] near_back(y, y, 0, 0, k) by {}
    let s1 = level(true, y, 1);
    lemma_inverse_level(y, y, 1, 0, 1, 0x3fff_fc00_0000_0000);
    let s2 = level(true, s1, 2);
    lemma_inverse_level(s1, y, 2, 1, 3, 0x3fff_fc40_0000_0000);
    let s3 = level(true, s2, 4);
    lemma_inverse_level(s2, y, 4, 3, 6, 0x3fff_fc80_0000_0000);
    let s4 = level(true, s3, 8);
    lemma_inverse_level(s3, y, 8, 6, 10, 0x3fff_fcc0_0000_0000);
    let s5 = level(true, s4, 16);
    lemma_inverse_level(s4, y, 16, 10, 16, 0x3fff_fd00_0000_0000);
    let s6 = level(true, s5, 32);
    lemma_inverse_level(s5, y, 32, 16, 25, 0x3fff_fd40_0000_0000);
    let s7 = level(true, s6, 64);
    lemma_inverse_level(s6, y, 64, 25, 39, 0x3fff_fd80_0000_0000);
    lemma_inverse_level(s7, y, 128, 39, 60, 0x3fff_fdc0_0000_0000);
    reveal_with_fuel(inverse_levels, 9);
    let t = inverse_levels(y, 1);
    assert(near_back(t, y, 128, 60, i));
    let (a, b) = (t.re[i], t.im[i]);
    assert(size(t, i) == a * a + b * b);
    assert(a * a >= 0 && b * b >= 0) by (nonlinear_arith);
    lemma_square_small(a);
    lemma_square_small(b);
}

/// A number in a word of 32 bits, with its sign.
pub open spec fn word(z: int) -> int {
    (z + 0x8000_0000) % 0x1_0000_0000 - 0x8000_0000
}

/// One level to the last bit, whatever the entries are. The forward level leaves
/// the halves of `x + w y` and `x - w y`, the inverse level half of `x + y` and
/// half of `x - y` times the conjugate of `w`, where `x` and `y` are the entries
/// of a pair and `w` is their root: all rounded down, in words of 32 bits.
pub proof fn lemma_level_exact(s: Split, h: int, x: int)
    requires
        is_half(h),
        0 <= x < 256,
        x % (2 * h) < h,
    ensures
        ({
            let y = x + h;
            let w = root_power(x, h);
            let p_re = s.re[y] * w.re - s.im[y] * w.im;
            let p_im = s.re[y] * w.im + s.im[y] * w.re;
            let d_re = s.re[x] - s.re[y];
            let d_im = s.im[x] - s.im[y];
            let f = level(false, s, h);
            let g = level(true, s, h);
            &&& f.re[x] == word((s.re[x] * 0x8000_0000 + p_re) / 0x1_0000_0000)
            &&& f.im[x] == word((s.im[x] * 0x8000_0000 + p_im) / 0x1_0000_0000)
            &&& f.re[y] == word((s.re[x] * 0x8000_0000 - p_re) / 0x1_0000_0000)
            &&& f.im[y] == word((s.im[x] * 0x8000_0000 - p_im) / 0x1_0000_0000)
            &&& g.re[x] == word((s.re[x] + s.re[y]) / 2)
            &&& g.im[x] == word((s.im[x] + s.im[y]) / 2)
            &&& g.re[y] == word((d_re * w.re + d_im * w.im) / 0x1_0000_0000)
            &&& g.im[y] == word((d_im * w.re - d_re * w.im) / 0x1_0000_0000)
        }),
{
    reveal(level);
    reveal(pair);
    lemma_block_indices(x, h);
    lemma_bit(x, h);
    lemma_mod_bound(x, h);
}

/// The transforms are eight levels each: the forward one from the scaled
/// coefficients in words of 32 bits, the first half as real and the second as
/// imaginary parts, with pairs that move closer; the inverse one with pairs that
/// move apart.
pub proof fn lemma_transforms_exact(f: Seq<int>, c: int, zero_first: bool, y: Split)
    requires
        f.len() == 512,
    ensures
        ({
            let g = without_first(f, zero_first);
            let s = Split {
                re: Seq::new(256, |j: int| word(c * g[j])),
                im: Seq::new(256, |j: int| word(c * g[256 + j])),
            };
            let a = level(false, level(false, level(false, level(false, s, 128), 64), 32), 16);
            forward(f, c, zero_first) == level(
                false,
                level(false, level(false, level(false, a, 8), 4), 2),
                1,
            )
        }),
        ({
            let b = level(true, level(true, level(true, level(true, y, 1), 2), 4), 8);
            inverse_levels(y, 1) == level(
                true,
                level(true, level(true, level(true, b, 16), 32), 64),
                128,
            )
        }),
{
    let g = without_first(f, zero_first);
    let s = Split {
        re: Seq::new(256, |j: int| word(c * g[j])),
        im: Seq::new(256, |j: int| word(c * g[256 + j])),
    };
    assert(c * 0 == 0) by (nonlinear_arith);
    let t = scaled(f, c, zero_first);
    assert(s.re =~= t.re);
    assert(s.im =~= t.im);
    reveal_with_fuel(forward_levels, 9);
    reveal_with_fuel(inverse_levels, 9);
}

} // verus!

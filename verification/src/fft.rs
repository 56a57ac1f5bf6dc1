//! Fixed-point transforms and the reconstruction of `w0`. All arithmetic is on
//! integers; every intermediate value is rounded and truncated in one way, so
//! that all verifiers agree to the last bit.

use vstd::arithmetic::div_mod::*;
use vstd::arithmetic::mul::*;
use vstd::prelude::*;

use crate::delta_table::delta;
use crate::fixed_point::{
    bounds_of, divided, divisible, divisor, divisors_valid, forward, forward_levels, i64_ints,
    inverse_levels, level, magnitude, pair, product_im, product_re, quotients_valid, rebuild,
    reconstruct, rounded_quotient, s0_entry, s0_in_range, scaled, split_of, trunc32, twisted_im, twisted_re,
    unfolded, unpacked, w0_of, Split, C_Q00, C_Q01, C_S0, C_W1, LOG2_TWO_C_S0,
};
use crate::poly::i32_ints;
use crate::{HALF_N, N};

verus! {

/// The value is one that 32 bits hold.
pub open spec fn fits32(x: int) -> bool {
    -0x8000_0000 <= x < 0x8000_0000
}

/// All entries are values that 32 bits hold.
pub open spec fn all_fit32(s: Seq<i64>) -> bool {
    forall|i: int| 0 <= i < s.len() ==> fits32(#[trigger] s[i] as int)
}

/// What two numbers that agree modulo `2^64` leave above their low word, in 32
/// bits, is the same.
proof fn lemma_high_word(z: int, w: int, k: int)
    requires
        z == w + k * 0x1_0000_0000_0000_0000,
    ensures
        trunc32(z / 0x1_0000_0000) == trunc32(w / 0x1_0000_0000),
{
    assert(z == 0x1_0000_0000 * (k * 0x1_0000_0000) + w);
    lemma_div_shift(k * 0x1_0000_0000, w, 0x1_0000_0000);
    assert(z / 0x1_0000_0000 == k * 0x1_0000_0000 + w / 0x1_0000_0000);
    lemma_mod_multiples_vanish(k, w / 0x1_0000_0000 + 0x8000_0000, 0x1_0000_0000);
}

/// A quotient moves by the multiple that is added to the dividend.
proof fn lemma_div_shift(q: int, w: int, d: int)
    requires
        d > 0,
    ensures
        (d * q + w) / d == q + w / d,
{
    lemma_hoist_over_denominator(w, q, d as nat);
    lemma_mul_is_commutative(d, q);
}

/// The high word of a 64-bit number.
fn high_word(z: i64) -> (r: i64)
    ensures
        r == trunc32(z as int / 0x1_0000_0000),
        fits32(r as int),
{
    assert(z >> 32 == z / 0x1_0000_0000) by (bit_vector);
    let h: i64 = z >> 32;
    h
}

/// The low word of a 64-bit number, with its sign.
fn low_word(z: i64) -> (r: i64)
    ensures
        r == trunc32(z as int),
        fits32(r as int),
{
    assert((z as i32) == (z + 0x8000_0000) % 0x1_0000_0000 - 0x8000_0000) by (bit_vector);
    let r: i32 = z as i32;
    r as i64
}

/// The high word of `a + b`.
fn high_word_add(a: i64, b: i64) -> (r: i64)
    ensures
        r == trunc32((a + b) / 0x1_0000_0000),
        fits32(r as int),
{
    let s: i64 = a.wrapping_add(b);
    proof {
        let z = a + b;
        if z > i64::MAX {
            lemma_high_word(z, s as int, 1);
        } else if z < i64::MIN {
            lemma_high_word(z, s as int, -1);
        }
    }
    high_word(s)
}

/// The high word of `a + b + c`.
fn high_word_sum(a: i64, b: i64, c: i64) -> (r: i64)
    ensures
        r == trunc32((a + b + c) / 0x1_0000_0000),
        fits32(r as int),
{
    let s: i64 = a.wrapping_add(b);
    let t: i64 = s.wrapping_add(c);
    proof {
        let k: int = if a + b > i64::MAX {
            1
        } else if a + b < i64::MIN {
            -1
        } else {
            0
        };
        let m: int = if s + c > i64::MAX {
            1
        } else if s + c < i64::MIN {
            -1
        } else {
            0
        };
        lemma_high_word(a + b + c, t as int, k + m);
    }
    high_word(t)
}

/// A product of two 32-bit values.
proof fn lemma_product32(x: int, y: int)
    requires
        fits32(x),
        fits32(y),
    ensures
        -0x4000_0000_0000_0000 <= x * y <= 0x4000_0000_0000_0000,
{
    assert(-0x4000_0000_0000_0000 <= x * y <= 0x4000_0000_0000_0000) by (nonlinear_arith)
        requires
            -0x8000_0000 <= x < 0x8000_0000,
            -0x8000_0000 <= y < 0x8000_0000,
    ;
}

/// A product of a 33-bit and a 32-bit value.
proof fn lemma_product33(x: int, y: int)
    requires
        -0x1_0000_0000 < x < 0x1_0000_0000,
        fits32(y),
    ensures
        -0x7fff_ffff_8000_0000 <= x * y <= 0x7fff_ffff_8000_0000,
{
    assert(-0x7fff_ffff_8000_0000 <= x * y <= 0x7fff_ffff_8000_0000) by (nonlinear_arith)
        requires
            -0x1_0000_0000 < x < 0x1_0000_0000,
            -0x8000_0000 <= y < 0x8000_0000,
    ;
}

/// What a level leaves at index `i`.
spec fn entry_done(x: i64, y: i64, s: Split, i: int) -> bool {
    &&& x == s.re[i]
    &&& y == s.im[i]
    &&& fits32(x as int)
    &&& fits32(y as int)
}

/// A butterfly has been carried out on the entries `lo` and `hi`, and no other
/// has changed.
spec fn butterfly_done(
    inverse: bool,
    re: Seq<i64>,
    im: Seq<i64>,
    new_re: Seq<i64>,
    new_im: Seq<i64>,
    lo: usize,
    hi: usize,
    k: usize,
) -> bool {
    let p = pair(inverse, split_of(re, im), lo as int, hi as int, k as int);
    &&& new_re == re.update(lo as int, p.lo_re as i64).update(hi as int, p.hi_re as i64)
    &&& new_im == im.update(lo as int, p.lo_im as i64).update(hi as int, p.hi_im as i64)
    &&& fits32(p.lo_re)
    &&& fits32(p.lo_im)
    &&& fits32(p.hi_re)
    &&& fits32(p.hi_im)
}

/// One butterfly of a forward level, on the entries `lo` and `hi`.
fn forward_butterfly(
    re: &mut [i64; HALF_N],
    im: &mut [i64; HALF_N],
    lo: usize,
    hi: usize,
    k: usize,
)
    requires
        lo < hi < 256,
        k < 512,
        fits32(old(re)@[lo as int] as int),
        fits32(old(re)@[hi as int] as int),
        fits32(old(im)@[lo as int] as int),
        fits32(old(im)@[hi as int] as int),
    ensures
        butterfly_done(false, old(re)@, old(im)@, final(re)@, final(im)@, lo, hi, k),
{
    let (e_re, e_im) = delta(k);
    let x1_re: i64 = re[lo];
    let x1_im: i64 = im[lo];
    let x2_re: i64 = re[hi];
    let x2_im: i64 = im[hi];
    proof {
        lemma_product32(x2_re as int, e_re as int);
        lemma_product32(x2_im as int, e_im as int);
        lemma_product32(x2_re as int, e_im as int);
        lemma_product32(x2_im as int, e_re as int);
    }
    let a: i64 = x2_re * e_re;
    let b: i64 = x2_im * e_im;
    let c: i64 = x2_re * e_im;
    let d: i64 = x2_im * e_re;
    let base_re: i64 = x1_re * 0x8000_0000;
    let base_im: i64 = x1_im * 0x8000_0000;
    let plus_re: i64 = high_word_sum(base_re, a, -b);
    let plus_im: i64 = high_word_sum(base_im, c, d);
    let minus_re: i64 = high_word_sum(base_re, -a, b);
    let minus_im: i64 = high_word_sum(base_im, -c, -d);
    proof {
        reveal(pair);
        let s = split_of(re@, im@);
        assert(twisted_re(s, hi as int, k as int) == a - b);
        assert(twisted_im(s, hi as int, k as int) == c + d);
        assert(base_re + a + (-b) == base_re + (a - b));
        assert(base_re + (-a) + b == base_re - (a - b));
        assert(base_im + c + d == base_im + (c + d));
        assert(base_im + (-c) + (-d) == base_im - (c + d));
    }
    re[lo] = plus_re;
    im[lo] = plus_im;
    re[hi] = minus_re;
    im[hi] = minus_im;
}

/// Half of a number, rounded down.
fn halved(z: i64) -> (r: i64)
    requires
        -0x1_0000_0000 <= z < 0x1_0000_0000,
    ensures
        r == trunc32(z as int / 2),
        fits32(r as int),
{
    assert(z >> 1 == z / 2) by (bit_vector);
    z >> 1
}

/// One butterfly of an inverse level, on the entries `lo` and `hi`.
fn inverse_butterfly(
    re: &mut [i64; HALF_N],
    im: &mut [i64; HALF_N],
    lo: usize,
    hi: usize,
    k: usize,
)
    requires
        lo < hi < 256,
        k < 512,
        fits32(old(re)@[lo as int] as int),
        fits32(old(re)@[hi as int] as int),
        fits32(old(im)@[lo as int] as int),
        fits32(old(im)@[hi as int] as int),
    ensures
        butterfly_done(true, old(re)@, old(im)@, final(re)@, final(im)@, lo, hi, k),
{
    let (n_re, n_im) = delta(k);
    let x1_re: i64 = re[lo];
    let x1_im: i64 = im[lo];
    let x2_re: i64 = re[hi];
    let x2_im: i64 = im[hi];
    let t1_re: i64 = x1_re + x2_re;
    let t1_im: i64 = x1_im + x2_im;
    let t2_re: i64 = x1_re - x2_re;
    let t2_im: i64 = x1_im - x2_im;
    proof {
        lemma_product33(t2_re as int, n_re as int);
        lemma_product33(t2_im as int, n_im as int);
        lemma_product33(t2_re as int, n_im as int);
        lemma_product33(t2_im as int, n_re as int);
    }
    let a: i64 = t2_re * n_re;
    let b: i64 = t2_im * n_im;
    let c: i64 = t2_im * n_re;
    let d: i64 = t2_re * n_im;
    let sum_re: i64 = halved(t1_re);
    let sum_im: i64 = halved(t1_im);
    let diff_re: i64 = high_word_add(a, b);
    let diff_im: i64 = high_word_add(c, -d);
    proof {
        reveal(pair);
        assert(c + (-d) == c - d);
    }
    re[lo] = sum_re;
    im[lo] = sum_im;
    re[hi] = diff_re;
    im[hi] = diff_im;
}

/// The entries that a level leaves at a pair of indices.
proof fn lemma_level_pair(inverse: bool, s: Split, half: int, c: int, j: int)
    requires
        half > 0,
        c >= 0,
        0 <= j < half,
        c * (2 * half) + j + half < 256,
    ensures
        ({
            let t = level(inverse, s, half);
            let x = c * (2 * half) + j;
            let y = x + half;
            let p = pair(inverse, s, x, y, 256int / half + c);
            &&& t.re[x] == p.lo_re
            &&& t.re[y] == p.hi_re
            &&& t.im[x] == p.lo_im
            &&& t.im[y] == p.hi_im
            &&& t.re.len() == 256
            &&& t.im.len() == 256
        }),
{
    reveal(level);
    let x = c * (2 * half) + j;
    assert(x >= 0) by (nonlinear_arith)
        requires
            x == c * (2 * half) + j,
            half > 0,
            c >= 0,
            j >= 0,
    ;
    lemma_fundamental_div_mod_converse(x, 2 * half, c, j);
    lemma_fundamental_div_mod_converse(x + half, 2 * half, c, j + half);
}

/// A butterfly reads only its two entries.
proof fn lemma_same_pair(inverse: bool, s: Split, t: Split, x: int, y: int, k: int)
    requires
        s.re[x] == t.re[x],
        s.re[y] == t.re[y],
        s.im[x] == t.im[x],
        s.im[y] == t.im[y],
    ensures
        pair(inverse, s, x, y, k) == pair(inverse, t, x, y, k),
{
    reveal(pair);
}

/// One level of the forward or of the inverse transform, on entries `half`
/// apart.
fn fft_level(inverse: bool, re: &mut [i64; HALF_N], im: &mut [i64; HALF_N], half: usize)
    requires
        0 < half <= 128,
        256 == (128int / (half as int)) * (2 * half),
        all_fit32(old(re)@),
        all_fit32(old(im)@),
    ensures
        split_of(final(re)@, final(im)@) == level(
            inverse,
            split_of(old(re)@, old(im)@),
            half as int,
        ),
        all_fit32(final(re)@),
        all_fit32(final(im)@),
{
    let blocks: usize = 128 / half;
    let ghost a = re@;
    let ghost b = im@;
    let ghost s = split_of(re@, im@);
    let ghost t = level(inverse, s, half as int);
    let mut c: usize = 0;
    let mut start: usize = 0;
    while c < blocks
        invariant
            0 < half <= 128,
            blocks == 128int / (half as int),
            256 == blocks * (2 * half),
            c <= blocks,
            start == c * (2 * half),
            a.len() == 256,
            b.len() == 256,
            all_fit32(a),
            all_fit32(b),
            s == split_of(a, b),
            t == level(inverse, s, half as int),
            forall|i: int|
                #![trigger re@[i]]
                #![trigger im@[i]]
                0 <= i < start ==> entry_done(re@[i], im@[i], t, i),
            forall|i: int|
                #![trigger re@[i]]
                #![trigger im@[i]]
                start <= i < 256 ==> re@[i] == a[i] && im@[i] == b[i],
        decreases blocks - c,
    {
        proof {
            assert(start + 2 * half <= 256 && start + 2 * half == (c + 1) * (2 * half) && 2 * blocks + c
                < 512) by (nonlinear_arith)
                requires
                    start == c * (2 * half),
                    256 == blocks * (2 * half),
                    c < blocks,
                    half > 0,
            ;
            assert(256int / (half as int) == 2 * blocks) by (nonlinear_arith)
                requires
                    256 == blocks * (2 * half),
                    half > 0,
            ;
        }
        let k: usize = 2 * blocks + c;
        let mut j: usize = 0;
        while j < half
            invariant
                0 < half <= 128,
                256int / (half as int) == 2 * blocks,
                start == c * (2 * half),
                start + 2 * half <= 256,
                k == 2 * blocks + c,
                k < 512,
                j <= half,
                a.len() == 256,
                b.len() == 256,
                all_fit32(a),
                all_fit32(b),
                s == split_of(a, b),
                t == level(inverse, s, half as int),
                forall|i: int|
                    #![trigger re@[i]]
                    #![trigger im@[i]]
                    0 <= i < start + j || start + half <= i < start + half + j ==> entry_done(
                        re@[i],
                        im@[i],
                        t,
                        i,
                    ),
                forall|i: int|
                    #![trigger re@[i]]
                    #![trigger im@[i]]
                    start + j <= i < start + half || start + half + j <= i < 256 ==> re@[i] == a[i]
                        && im@[i] == b[i],
            decreases half - j,
        {
            let lo: usize = start + j;
            let hi: usize = start + j + half;
            let ghost before_re = re@;
            let ghost before_im = im@;
            proof {
                assert(re@[lo as int] == a[lo as int] && im@[lo as int] == b[lo as int]);
                assert(re@[hi as int] == a[hi as int] && im@[hi as int] == b[hi as int]);
                lemma_level_pair(inverse, s, half as int, c as int, j as int);
            }
            if inverse {
                inverse_butterfly(re, im, lo, hi, k);
            } else {
                forward_butterfly(re, im, lo, hi, k);
            }
            proof {
                lemma_same_pair(
                    inverse,
                    split_of(before_re, before_im),
                    s,
                    lo as int,
                    hi as int,
                    k as int,
                );
                assert(entry_done(re@[lo as int], im@[lo as int], t, lo as int));
                assert(entry_done(re@[hi as int], im@[hi as int], t, hi as int));
            }
            j = j + 1;
        }
        start = start + 2 * half;
        c = c + 1;
    }
    proof {
        assert(start == 256);
        lemma_level_pair(inverse, s, half as int, 0, 0);
        let r = split_of(re@, im@);
        assert(r.re =~= t.re);
        assert(r.im =~= t.im) by {
            assert forall|i: int| 0 <= i < 256 implies r.im[i] == t.im[i] by {
                assert(entry_done(re@[i], im@[i], t, i));
            }
        }
        assert forall|i: int| 0 <= i < 256 implies fits32(#[trigger] im@[i] as int) by {
            assert(entry_done(re@[i], im@[i], t, i));
        }
    }
}

/// The scaled forward transform of a polynomial.
fn fft_conv(
    src: &[i32; N],
    c: i64,
    zero_first: bool,
    re: &mut [i64; HALF_N],
    im: &mut [i64; HALF_N],
)
    requires
        fits32(c as int),
    ensures
        split_of(final(re)@, final(im)@) == forward(i32_ints(src@), c as int, zero_first),
        all_fit32(final(re)@),
        all_fit32(final(im)@),
{
    let ghost f = i32_ints(src@);
    let ghost t = scaled(f, c as int, zero_first);
    let mut j: usize = 0;
    while j < HALF_N
        invariant
            fits32(c as int),
            f == i32_ints(src@),
            t == scaled(f, c as int, zero_first),
            j <= 256,
            forall|i: int|
                #![trigger re@[i]]
                #![trigger im@[i]]
                0 <= i < j ==> entry_done(re@[i], im@[i], t, i),
        decreases 256 - j,
    {
        proof {
            lemma_product32(c as int, src@[j as int] as int);
            lemma_product32(c as int, src@[256 + j] as int);
        }
        let x: i64 = low_word(c * (src[j] as i64));
        let y: i64 = low_word(c * (src[HALF_N + j] as i64));
        re[j] = if zero_first && j == 0 {
            0
        } else {
            x
        };
        im[j] = y;
        assert(entry_done(re@[j as int], im@[j as int], t, j as int));
        j = j + 1;
    }
    proof {
        let r = split_of(re@, im@);
        assert(r.re =~= t.re);
        assert(r.im =~= t.im);
    }
    let mut half: usize = 128;
    while half > 0
        invariant
            half == 128 || half == 64 || half == 32 || half == 16 || half == 8 || half == 4 || half
                == 2 || half == 1 || half == 0,
            all_fit32(re@),
            all_fit32(im@),
            forward_levels(split_of(re@, im@), half as int) == forward_levels(t, 128),
        decreases half,
    {
        fft_level(false, re, im, half);
        half = half / 2;
    }
}

/// Floor division by a positive divisor.
pub fn floordiv(a: i64, b: i64) -> (q: i64)
    requires
        b > 0,
    ensures
        q == a as int / (b as int),
{
    if a >= 0 {
        a / b
    } else {
        let c: i64 = -(a + 1);
        let q: i64 = -1 - c / b;
        proof {
            lemma_fundamental_div_mod(c as int, b as int);
            lemma_mod_bound(c as int, b as int);
            let r = c as int % (b as int);
            let d = c as int / (b as int);
            assert(a as int == (-1 - d) * (b as int) + (b - 1 - r)) by (nonlinear_arith)
                requires
                    c == -(a + 1),
                    c == b * d + r,
            ;
            lemma_fundamental_div_mod_converse(a as int, b as int, -1 - d, b - 1 - r);
        }
        q
    }
}

/// Division of a number that is not negative by a positive divisor.
pub fn udiv(a: i64, b: i64) -> (q: i64)
    requires
        a >= 0,
        b > 0,
    ensures
        q == a as int / (b as int),
{
    (a as u64 / b as u64) as i64
}

/// `x / v` rounded toward zero and truncated to 32 bits, where `v` is the high
/// word of `bound`; none if `|x|` reaches the bound or `v` is zero.
fn divide(x: i128, bound: i64) -> (r: Option<i64>)
    requires
        x > i128::MIN,
    ensures
        r is Some <==> magnitude(x as int) < bound && bound as int / 0x1_0000_0000 != 0,
        r matches Some(y) ==> y == rounded_quotient(x as int, bound as int / 0x1_0000_0000)
            && fits32(y as int),
{
    let m: i128 = if x < 0 {
        -x
    } else {
        x
    };
    if m >= bound as i128 {
        return None;
    }
    assert(bound >> 32 == bound / 0x1_0000_0000) by (bit_vector);
    let v: i64 = bound >> 32;
    if v == 0 {
        return None;
    }
    let y: i64 = udiv(m as i64, v);
    if x < 0 {
        Some(low_word(-y))
    } else {
        Some(low_word(y))
    }
}

/// A product of a 64-bit and a 32-bit value.
proof fn lemma_product96(x: int, y: int)
    requires
        i64::MIN <= x <= i64::MAX,
        fits32(y),
    ensures
        -0x4000_0000_0000_0000_0000_0000 <= x * y <= 0x4000_0000_0000_0000_0000_0000,
{
    assert(-0x4000_0000_0000_0000_0000_0000 <= x * y <= 0x4000_0000_0000_0000_0000_0000)
        by (nonlinear_arith)
        requires
            -0x8000_0000_0000_0000 <= x <= 0x7fff_ffff_ffff_ffff,
            -0x8000_0000 <= y < 0x8000_0000,
    ;
}

/// Multiplies `q` by `w`, entry by entry, and divides each product by the high
/// word of its bound. `false` if a product reaches its bound or a divisor is
/// zero.
fn divide_all(
    q_re: &mut [i64; HALF_N],
    q_im: &mut [i64; HALF_N],
    w_re: &[i64; HALF_N],
    w_im: &[i64; HALF_N],
    bound: &[i64; HALF_N],
) -> (ok: bool)
    requires
        all_fit32(w_re@),
        all_fit32(w_im@),
    ensures
        ok <==> (forall|u: int|
            0 <= u < 256 ==> #[trigger] divisible(
                split_of(old(q_re)@, old(q_im)@),
                split_of(w_re@, w_im@),
                i64_ints(bound@),
                u,
            )),
        ok ==> split_of(final(q_re)@, final(q_im)@) == divided(
            split_of(old(q_re)@, old(q_im)@),
            split_of(w_re@, w_im@),
            i64_ints(bound@),
        ),
        ok ==> all_fit32(final(q_re)@) && all_fit32(final(q_im)@),
{
    let ghost a = q_re@;
    let ghost b = q_im@;
    let ghost q = split_of(a, b);
    let ghost w = split_of(w_re@, w_im@);
    let ghost bd = i64_ints(bound@);
    let ghost t = divided(q, w, bd);
    let mut u: usize = 0;
    while u < HALF_N
        invariant
            u <= 256,
            all_fit32(w_re@),
            all_fit32(w_im@),
            a == old(q_re)@,
            b == old(q_im)@,
            q == split_of(a, b),
            w == split_of(w_re@, w_im@),
            bd == i64_ints(bound@),
            t == divided(q, w, bd),
            forall|i: int| 0 <= i < u ==> #[trigger] divisible(q, w, bd, i),
            forall|i: int|
                #![trigger q_re@[i]]
                #![trigger q_im@[i]]
                0 <= i < u ==> entry_done(q_re@[i], q_im@[i], t, i),
            forall|i: int|
                #![trigger q_re@[i]]
                #![trigger q_im@[i]]
                u <= i < 256 ==> q_re@[i] == a[i] && q_im@[i] == b[i],
        decreases 256 - u,
    {
        let qa: i64 = q_re[u];
        let qb: i64 = q_im[u];
        let wa: i64 = w_re[u];
        let wb: i64 = w_im[u];
        proof {
            lemma_product96(qa as int, wa as int);
            lemma_product96(qb as int, wb as int);
            lemma_product96(qa as int, wb as int);
            lemma_product96(qb as int, wa as int);
        }
        let x_re: i128 = (qa as i128) * (wa as i128) - (qb as i128) * (wb as i128);
        let x_im: i128 = (qa as i128) * (wb as i128) + (qb as i128) * (wa as i128);
        proof {
            assert(q.re[u as int] == qa && q.im[u as int] == qb);
            assert(w.re[u as int] == wa && w.im[u as int] == wb);
            assert(product_re(q.re[u as int], q.im[u as int], w.re[u as int], w.im[u as int])
                == x_re);
            assert(product_im(q.re[u as int], q.im[u as int], w.re[u as int], w.im[u as int])
                == x_im);
            assert(bd[u as int] == bound@[u as int]);
        }
        let y_re: i64 = match divide(x_re, bound[u]) {
            None => {
                assert(!divisible(q, w, bd, u as int));
                return false;
            },
            Some(y) => y,
        };
        let y_im: i64 = match divide(x_im, bound[u]) {
            None => {
                assert(!divisible(q, w, bd, u as int));
                return false;
            },
            Some(y) => y,
        };
        assert(divisible(q, w, bd, u as int));
        q_re[u] = y_re;
        q_im[u] = y_im;
        assert(entry_done(q_re@[u as int], q_im@[u as int], t, u as int));
        u = u + 1;
    }
    proof {
        let r = split_of(q_re@, q_im@);
        assert(r.re =~= t.re);
        assert(r.im =~= t.im);
    }
    true
}

/// The inverse transform, and `w0 = h0 - 2 s0` from it. `false` if an entry of
/// `s0` is out of range; `w0` then holds no meaning.
fn inv_fft_to_w0(
    re: &mut [i64; HALF_N],
    im: &mut [i64; HALF_N],
    h0: &[i32; N],
    w0: &mut [i32; N],
) -> (ok: bool)
    requires
        all_fit32(old(re)@),
        all_fit32(old(im)@),
    ensures
        ({
            let t = inverse_levels(split_of(old(re)@, old(im)@), 1);
            &&& ok <==> s0_in_range(t, i32_ints(h0@))
            &&& ok ==> i32_ints(final(w0)@) == w0_of(t, i32_ints(h0@))
        }),
{
    let ghost s = split_of(re@, im@);
    let mut half: usize = 1;
    while half < HALF_N
        invariant
            half == 128 || half == 64 || half == 32 || half == 16 || half == 8 || half == 4 || half
                == 2 || half == 1 || half == 256,
            all_fit32(re@),
            all_fit32(im@),
            inverse_levels(split_of(re@, im@), half as int) == inverse_levels(s, 1),
        decreases 256 - half,
    {
        fft_level(true, re, im, half);
        half = 2 * half;
    }
    let ghost t = split_of(re@, im@);
    let ghost h = i32_ints(h0@);
    let mut i: usize = 0;
    while i < N
        invariant
            i <= 512,
            all_fit32(re@),
            all_fit32(im@),
            t == split_of(re@, im@),
            t == inverse_levels(split_of(old(re)@, old(im)@), 1),
            h == i32_ints(h0@),
            forall|k: int| 0 <= k < i ==> -8192 <= #[trigger] s0_entry(t, h, k) < 8192,
            forall|k: int| 0 <= k < i ==> #[trigger] w0@[k] == w0_of(t, h)[k],
        decreases 512 - i,
    {
        let x: i64 = if i < HALF_N {
            re[i]
        } else {
            im[i - HALF_N]
        };
        assert(x == unfolded(t, i as int));
        assert(h[i as int] == h0@[i as int]);
        let v: i64 = C_S0 * (h0[i] as i64) + x + C_S0;
        assert(v >> 9 == v / 512) by (bit_vector);
        let z: i64 = v >> LOG2_TWO_C_S0;
        assert(z == s0_entry(t, h, i as int));
        if z < -8192 || z >= 8192 {
            return false;
        }
        w0[i] = low_word(h0[i] as i64 - 2 * z) as i32;
        i = i + 1;
    }
    assert(i32_ints(w0@) =~= w0_of(t, h));
    true
}

/// The bounds of the division: `2^32` times each divisor. `false` if a divisor
/// is not positive or reaches `2^30`; the bounds from the first such divisor on
/// are then left as they were.
pub fn prepare_divisor(
    fq00_re: &[i64; HALF_N],
    alpha: i64,
    pvbound: &mut [i64; HALF_N],
) -> (ok: bool)
    requires
        forall|u: int| 0 <= u < 256 ==> i64::MIN <= alpha + #[trigger] fq00_re@[u] <= i64::MAX,
    ensures
        ok <==> (forall|u: int|
            0 <= u < 256 ==> 0 < alpha + #[trigger] fq00_re@[u] < 0x4000_0000),
        ok ==> forall|u: int|
            0 <= u < 256 ==> #[trigger] final(pvbound)@[u] == 0x1_0000_0000 * (alpha + fq00_re@[u]),
        forall|v: int|
            0 <= v < 256 && (forall|u: int|
                0 <= u <= v ==> 0 < alpha + #[trigger] fq00_re@[u] < 0x4000_0000)
                ==> #[trigger] final(pvbound)@[v] == 0x1_0000_0000 * (alpha + fq00_re@[v]),
        forall|u: int, v: int|
            0 <= u <= v < 256 && !(0 < alpha + #[trigger] fq00_re@[u] < 0x4000_0000)
                ==> #[trigger] final(pvbound)@[v] == old(pvbound)@[v],
{
    let mut u: usize = 0;
    while u < HALF_N
        invariant
            u <= 256,
            forall|k: int| 0 <= k < 256 ==> i64::MIN <= alpha + #[trigger] fq00_re@[k] <= i64::MAX,
            forall|k: int| 0 <= k < u ==> 0 < alpha + #[trigger] fq00_re@[k] < 0x4000_0000,
            forall|k: int|
                0 <= k < u ==> #[trigger] pvbound@[k] == 0x1_0000_0000 * (alpha + fq00_re@[k]),
            forall|k: int| u <= k < 256 ==> #[trigger] pvbound@[k] == old(pvbound)@[k],
        decreases 256 - u,
    {
        let v: i64 = alpha + fq00_re[u];
        if v <= 0 || v >= 0x4000_0000 {
            return false;
        }
        pvbound[u] = 0x1_0000_0000 * v;
        u = u + 1;
    }
    true
}

/// The first coefficient's share in every divisor.
fn constant_share(q00: &[i32; N]) -> (alpha: i64)
    ensures
        alpha == (2 * C_Q00 * q00@[0]) / 512,
        -0x1000_0000_0000 <= alpha <= 0x1000_0000_0000,
{
    floordiv(2 * C_Q00 * (q00[0] as i64), 512)
}

/// Reconstructs `w0 = h0 - 2 s0` from the key `(q00, q01)`, `w1 = h1 - 2 s1`
/// and `h0`. `false` if a fixed-point bound is violated: `w0` is then left as it
/// was if the key or a quotient is refused, and holds no meaning if an entry of
/// `s0` is out of range.
pub fn rebuild_s0(
    q00: &[i32; N],
    q01: &[i32; N],
    w1: &[i32; N],
    h0: &[i32; N],
    w0: &mut [i32; N],
) -> (ok: bool)
    ensures
        ok <==> rebuild(i32_ints(q00@), i32_ints(q01@), i32_ints(w1@), i32_ints(h0@)) is Some,
        ok ==> rebuild(i32_ints(q00@), i32_ints(q01@), i32_ints(w1@), i32_ints(h0@)) == Some(
            i32_ints(final(w0)@),
        ),
        q00@[0] < 0 || !divisors_valid(i32_ints(q00@)) || !quotients_valid(
            forward(i32_ints(q01@), C_Q01 as int, false),
            bounds_of(i32_ints(q00@)),
            forward(i32_ints(w1@), C_W1 as int, false),
        ) ==> final(w0)@ == old(w0)@,
{
    let ghost f = i32_ints(q00@);
    assert(f[0] == q00@[0]);
    if q00[0] < 0 {
        return false;
    }
    let mut qh00_re: [i64; HALF_N] = [0i64; HALF_N];
    let mut qh00_im: [i64; HALF_N] = [0i64; HALF_N];
    fft_conv(q00, C_Q00, true, &mut qh00_re, &mut qh00_im);
    let alpha: i64 = constant_share(q00);
    let mut bound: [i64; HALF_N] = [0i64; HALF_N];
    proof {
        lemma_divisor_entries(f, qh00_re@, qh00_im@, alpha as int);
    }
    if !prepare_divisor(&qh00_re, alpha, &mut bound) {
        return false;
    }
    assert(i64_ints(bound@) =~= bounds_of(f));
    let mut qh01_re: [i64; HALF_N] = [0i64; HALF_N];
    let mut qh01_im: [i64; HALF_N] = [0i64; HALF_N];
    fft_conv(q01, C_Q01, false, &mut qh01_re, &mut qh01_im);
    divide_and_finish(&mut qh01_re, &mut qh01_im, &bound, w1, h0, w0)
}

/// The sums that the divisor check looks at are the divisors.
pub proof fn lemma_divisor_entries(f: Seq<int>, re: Seq<i64>, im: Seq<i64>, alpha: int)
    requires
        re.len() == 256,
        split_of(re, im) == forward(f, C_Q00 as int, true),
        alpha == (2 * C_Q00 * f[0]) / 512,
    ensures
        forall|u: int| 0 <= u < 256 ==> alpha + #[trigger] re[u] == divisor(f, u),
        divisors_valid(f) <==> (forall|u: int|
            0 <= u < 256 ==> 0 < alpha + #[trigger] re[u] < 0x4000_0000),
{
    assert forall|u: int| 0 <= u < 256 implies alpha + #[trigger] re[u] == divisor(f, u) by {
        assert(split_of(re, im).re[u] == re[u]);
    }
    if forall|u: int| 0 <= u < 256 ==> 0 < alpha + #[trigger] re[u] < 0x4000_0000 {
        assert forall|u: int| 0 <= u < 256 implies 0 < #[trigger] divisor(f, u) < 0x4000_0000 by {
            assert(alpha + re[u] == divisor(f, u));
        }
    }
    if divisors_valid(f) {
        assert forall|u: int| 0 <= u < 256 implies 0 < alpha + #[trigger] re[u] < 0x4000_0000 by {
            assert(alpha + re[u] == divisor(f, u));
        }
    }
}

/// The part of the reconstruction that depends on the signature: the transform
/// of `w1`, the division, and `w0`.
fn divide_and_finish(
    q_re: &mut [i64; HALF_N],
    q_im: &mut [i64; HALF_N],
    bound: &[i64; HALF_N],
    w1: &[i32; N],
    h0: &[i32; N],
    w0: &mut [i32; N],
) -> (ok: bool)
    ensures
        ({
            let r = reconstruct(
                split_of(old(q_re)@, old(q_im)@),
                i64_ints(bound@),
                forward(i32_ints(w1@), C_W1 as int, false),
                i32_ints(h0@),
            );
            &&& ok <==> r is Some
            &&& ok ==> r == Some(i32_ints(final(w0)@))
        }),
        !quotients_valid(
            split_of(old(q_re)@, old(q_im)@),
            i64_ints(bound@),
            forward(i32_ints(w1@), C_W1 as int, false),
        ) ==> final(w0)@ == old(w0)@,
{
    let mut wh1_re: [i64; HALF_N] = [0i64; HALF_N];
    let mut wh1_im: [i64; HALF_N] = [0i64; HALF_N];
    fft_conv(w1, C_W1, false, &mut wh1_re, &mut wh1_im);
    if !divide_all(q_re, q_im, &wh1_re, &wh1_im, bound) {
        return false;
    }
    inv_fft_to_w0(q_re, q_im, h0, w0)
}

/// The transforms of the key for the reconstruction: of `q00` without its
/// constant coefficient, in two halves, and of `q01`, real part first. Returns
/// the constant coefficient's share in the divisors; none if that coefficient
/// is negative, and the buffers are then left as they were.
pub fn prepare_fft(
    q00: &[i32; N],
    q01: &[i32; N],
    fq00_re: &mut [i64; HALF_N],
    fq00_im: &mut [i64; HALF_N],
    fq01: &mut [i64; N],
) -> (alpha: Option<i64>)
    ensures
        alpha is None <==> q00@[0] < 0,
        alpha is None ==> final(fq00_re)@ == old(fq00_re)@ && final(fq00_im)@ == old(fq00_im)@
            && final(fq01)@ == old(fq01)@,
        alpha matches Some(a) ==> {
            &&& a == (2 * C_Q00 * q00@[0]) / 512
            &&& split_of(final(fq00_re)@, final(fq00_im)@) == forward(
                i32_ints(q00@),
                C_Q00 as int,
                true,
            )
            &&& unpacked(i64_ints(final(fq01)@)) == forward(i32_ints(q01@), C_Q01 as int, false)
            &&& all_fit32(final(fq00_re)@)
            &&& all_fit32(final(fq01)@)
            &&& 0 <= a <= 0x1000_0000_0000
        },
{
    if q00[0] < 0 {
        return None;
    }
    fft_conv(q00, C_Q00, true, fq00_re, fq00_im);
    let mut re: [i64; HALF_N] = [0i64; HALF_N];
    let mut im: [i64; HALF_N] = [0i64; HALF_N];
    fft_conv(q01, C_Q01, false, &mut re, &mut im);
    let mut u: usize = 0;
    while u < HALF_N
        invariant
            u <= 256,
            all_fit32(re@),
            all_fit32(im@),
            forall|i: int| 0 <= i < u ==> #[trigger] fq01@[i] == re@[i],
            forall|i: int| 256 <= i < 256 + u ==> #[trigger] fq01@[i] == im@[i - 256],
        decreases 256 - u,
    {
        fq01[u] = re[u];
        fq01[HALF_N + u] = im[u];
        u = u + 1;
    }
    proof {
        let p = unpacked(i64_ints(fq01@));
        let q = split_of(re@, im@);
        assert(p.re =~= q.re);
        assert(p.im =~= q.im);
    }
    Some(constant_share(q00))
}

/// [`rebuild_s0`] with the key's factors given: the bounds of the division and
/// the transform of `q01`. Defined for all words, also those that no key
/// gives. `w0` is left as it was if a quotient is refused.
pub fn rebuild_s0_prepared(
    pvbound: &[i64; HALF_N],
    fq01: &[i64; N],
    w1: &[i32; N],
    h0: &[i32; N],
    w0: &mut [i32; N],
) -> (ok: bool)
    ensures
        ({
            let r = reconstruct(
                unpacked(i64_ints(fq01@)),
                i64_ints(pvbound@),
                forward(i32_ints(w1@), C_W1 as int, false),
                i32_ints(h0@),
            );
            &&& ok <==> r is Some
            &&& ok ==> r == Some(i32_ints(final(w0)@))
        }),
        !quotients_valid(
            unpacked(i64_ints(fq01@)),
            i64_ints(pvbound@),
            forward(i32_ints(w1@), C_W1 as int, false),
        ) ==> final(w0)@ == old(w0)@,
{
    let mut qh01_re: [i64; HALF_N] = [0i64; HALF_N];
    let mut qh01_im: [i64; HALF_N] = [0i64; HALF_N];
    let mut u: usize = 0;
    while u < HALF_N
        invariant
            u <= 256,
            forall|i: int| 0 <= i < u ==> #[trigger] qh01_re@[i] == fq01@[i],
            forall|i: int| 0 <= i < u ==> #[trigger] qh01_im@[i] == fq01@[256 + i],
        decreases 256 - u,
    {
        qh01_re[u] = fq01[u];
        qh01_im[u] = fq01[HALF_N + u];
        u = u + 1;
    }
    proof {
        let p = unpacked(i64_ints(fq01@));
        let q = split_of(qh01_re@, qh01_im@);
        assert(p.re =~= q.re);
        assert(p.im =~= q.im);
    }
    divide_and_finish(&mut qh01_re, &mut qh01_im, pvbound, w1, h0, w0)
}

} // verus!

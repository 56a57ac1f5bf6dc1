//! What the fixed-point transforms and the reconstruction of `w0` compute.

use vstd::prelude::*;

use crate::delta_table::{delta_im, delta_re};

verus! {

/// The low 32 bits of `z` as a signed number.
pub open spec fn trunc32(z: int) -> int {
    (z + 0x8000_0000) % 0x1_0000_0000 - 0x8000_0000
}

/// A complex vector of length `n / 2`, real and imaginary parts apart.
#[verifier::ext_equal]
pub struct Split {
    pub re: Seq<int>,
    pub im: Seq<int>,
}

/// The integers that a sequence of 64-bit words stands for.
pub open spec fn i64_ints(s: Seq<i64>) -> Seq<int> {
    Seq::new(s.len(), |i: int| s[i] as int)
}

/// The split vector that two buffers hold.
pub open spec fn split_of(re: Seq<i64>, im: Seq<i64>) -> Split {
    Split { re: i64_ints(re), im: i64_ints(im) }
}

/// The split vector that one sequence holds, real part first.
pub open spec fn unpacked(s: Seq<int>) -> Split {
    Split { re: s.subrange(0, 256), im: s.subrange(256, 512) }
}

/// The index of the root of unity that a level uses at index `i` when it pairs
/// entries `half` apart.
pub open spec fn level_root(half: int, i: int) -> int {
    256int / half + i / (2 * half)
}

/// The real part of the entry at `j` times the root at `k`.
pub open spec fn twisted_re(s: Split, j: int, k: int) -> int {
    s.re[j] * delta_re(k) - s.im[j] * delta_im(k)
}

/// The imaginary part of the entry at `j` times the root at `k`.
pub open spec fn twisted_im(s: Split, j: int, k: int) -> int {
    s.re[j] * delta_im(k) + s.im[j] * delta_re(k)
}

/// What a butterfly leaves at the lower and the higher of its two indices.
pub struct Pair {
    pub lo_re: int,
    pub lo_im: int,
    pub hi_re: int,
    pub hi_im: int,
}

/// `(x1 + e x2) / 2` and `(x1 - e x2) / 2` for the entries `x1` at `x` and `x2`
/// at `y` and the root `e` at `k`, rounded down and truncated to 32 bits.
pub open spec fn forward_pair(s: Split, x: int, y: int, k: int) -> Pair {
    Pair {
        lo_re: trunc32((s.re[x] * 0x8000_0000 + twisted_re(s, y, k)) / 0x1_0000_0000),
        lo_im: trunc32((s.im[x] * 0x8000_0000 + twisted_im(s, y, k)) / 0x1_0000_0000),
        hi_re: trunc32((s.re[x] * 0x8000_0000 - twisted_re(s, y, k)) / 0x1_0000_0000),
        hi_im: trunc32((s.im[x] * 0x8000_0000 - twisted_im(s, y, k)) / 0x1_0000_0000),
    }
}

/// `(x1 + x2) / 2`, and `(x1 - x2) / 2` times the conjugate of the root at `k`,
/// rounded down and truncated to 32 bits.
pub open spec fn inverse_pair(s: Split, x: int, y: int, k: int) -> Pair {
    let d_re = s.re[x] - s.re[y];
    let d_im = s.im[x] - s.im[y];
    Pair {
        lo_re: trunc32((s.re[x] + s.re[y]) / 2),
        lo_im: trunc32((s.im[x] + s.im[y]) / 2),
        hi_re: trunc32((d_re * delta_re(k) + d_im * delta_im(k)) / 0x1_0000_0000),
        hi_im: trunc32((d_im * delta_re(k) - d_re * delta_im(k)) / 0x1_0000_0000),
    }
}

/// A butterfly of the forward or of the inverse transform.
#[verifier::opaque]
pub open spec fn pair(inverse: bool, s: Split, x: int, y: int, k: int) -> Pair {
    if inverse {
        inverse_pair(s, x, y, k)
    } else {
        forward_pair(s, x, y, k)
    }
}

/// One level of the forward or of the inverse transform: butterflies on all
/// entries that are `half` apart.
#[verifier::opaque]
pub open spec fn level(inverse: bool, s: Split, half: int) -> Split {
    Split {
        re: Seq::new(
            256,
            |i: int|
                if i % (2 * half) < half {
                    pair(inverse, s, i, i + half, level_root(half, i)).lo_re
                } else {
                    pair(inverse, s, i - half, i, level_root(half, i)).hi_re
                },
        ),
        im: Seq::new(
            256,
            |i: int|
                if i % (2 * half) < half {
                    pair(inverse, s, i, i + half, level_root(half, i)).lo_im
                } else {
                    pair(inverse, s, i - half, i, level_root(half, i)).hi_im
                },
        ),
    }
}

/// The forward levels from distance `half` down to one.
pub open spec fn forward_levels(s: Split, half: int) -> Split
    decreases half,
{
    if half <= 0 {
        s
    } else {
        forward_levels(level(false, s, half), half / 2)
    }
}

/// The inverse levels from distance `half` up to `n / 4`.
pub open spec fn inverse_levels(s: Split, half: int) -> Split
    decreases 256 - half,
{
    if half <= 0 || half > 128 {
        s
    } else {
        inverse_levels(level(true, s, half), 2 * half)
    }
}

/// A polynomial scaled by `c` and folded into a complex vector, with its
/// constant coefficient left out if so asked.
pub open spec fn scaled(f: Seq<int>, c: int, zero_first: bool) -> Split {
    Split {
        re: Seq::new(
            256,
            |j: int|
                if zero_first && j == 0 {
                    0
                } else {
                    trunc32(c * f[j])
                },
        ),
        im: Seq::new(256, |j: int| trunc32(c * f[256 + j])),
    }
}

/// The forward transform of a scaled polynomial.
pub open spec fn forward(f: Seq<int>, c: int, zero_first: bool) -> Split {
    forward_levels(scaled(f, c, zero_first), 128)
}

/// The product of two complex entries, real part.
pub open spec fn product_re(qa: int, qb: int, wa: int, wb: int) -> int {
    qa * wa - qb * wb
}

/// The product of two complex entries, imaginary part.
pub open spec fn product_im(qa: int, qb: int, wa: int, wb: int) -> int {
    qa * wb + qb * wa
}

/// The absolute value.
pub open spec fn magnitude(x: int) -> int {
    if x < 0 {
        -x
    } else {
        x
    }
}

/// `x / v` rounded toward zero and truncated to 32 bits.
pub open spec fn rounded_quotient(x: int, v: int) -> int {
    if x < 0 {
        trunc32(-(-x / v))
    } else {
        trunc32(x / v)
    }
}

/// Whether entry `u` of the product stays below the bound that comes with its
/// divisor, and the divisor is not zero.
pub open spec fn divisible(q: Split, w: Split, bound: Seq<int>, u: int) -> bool {
    &&& magnitude(product_re(q.re[u], q.im[u], w.re[u], w.im[u])) < bound[u]
    &&& magnitude(product_im(q.re[u], q.im[u], w.re[u], w.im[u])) < bound[u]
    &&& bound[u] / 0x1_0000_0000 != 0
}

/// Every entry of the product can be divided.
pub open spec fn quotients_valid(q: Split, bound: Seq<int>, w: Split) -> bool {
    forall|u: int| 0 <= u < 256 ==> #[trigger] divisible(q, w, bound, u)
}

/// The product of `q` and `w`, entry by entry, each divided by the high word
/// of its bound.
pub open spec fn divided(q: Split, w: Split, bound: Seq<int>) -> Split {
    Split {
        re: Seq::new(
            256,
            |u: int|
                rounded_quotient(
                    product_re(q.re[u], q.im[u], w.re[u], w.im[u]),
                    bound[u] / 0x1_0000_0000,
                ),
        ),
        im: Seq::new(
            256,
            |u: int|
                rounded_quotient(
                    product_im(q.re[u], q.im[u], w.re[u], w.im[u]),
                    bound[u] / 0x1_0000_0000,
                ),
        ),
    }
}

/// Entry `i` of the polynomial that a split vector holds.
pub open spec fn unfolded(s: Split, i: int) -> int {
    if i < 256 {
        s.re[i]
    } else {
        s.im[i - 256]
    }
}

/// The scale of the reconstructed polynomial.
pub const C_S0: i64 = 256;

/// The binary logarithm of twice that scale.
pub const LOG2_TWO_C_S0: u32 = 9;

/// Entry `i` of `s0`: `(c h0 + t + c) / 2c` rounded down.
pub open spec fn s0_entry(t: Split, h0: Seq<int>, i: int) -> int {
    (C_S0 * h0[i] + unfolded(t, i) + C_S0) / (2 * C_S0)
}

/// Every entry of `s0` has at most 13 bits and a sign.
pub open spec fn s0_in_range(t: Split, h0: Seq<int>) -> bool {
    forall|i: int| 0 <= i < 512 ==> -8192 <= #[trigger] s0_entry(t, h0, i) < 8192
}

/// `w0 = h0 - 2 s0`.
pub open spec fn w0_of(t: Split, h0: Seq<int>) -> Seq<int> {
    Seq::new(512, |i: int| trunc32(h0[i] - 2 * s0_entry(t, h0, i)))
}

/// The reconstruction of `w0` from the key's factor `q`, the divisors' bounds
/// and the transform `w` of `w1`; none if a fixed-point bound is violated.
pub open spec fn reconstruct(q: Split, bound: Seq<int>, w: Split, h0: Seq<int>) -> Option<Seq<int>> {
    if quotients_valid(q, bound, w) {
        let t = inverse_levels(divided(q, w, bound), 1);
        if s0_in_range(t, h0) {
            Some(w0_of(t, h0))
        } else {
            None
        }
    } else {
        None
    }
}

/// The scale of `w1`.
pub const C_W1: i64 = 524288;

/// The scale of `q00`.
pub const C_Q00: i64 = 1048576;

/// The scale of `q01`.
pub const C_Q01: i64 = 131072;

/// Divisor `u`: the transform of `q00` without its constant coefficient, plus
/// the share of the constant coefficient.
pub open spec fn divisor(q00: Seq<int>, u: int) -> int {
    (2 * C_Q00 * q00[0]) / 512 + forward(q00, C_Q00 as int, true).re[u]
}

/// The divisors are positive and below `2^30`.
pub open spec fn divisors_valid(q00: Seq<int>) -> bool {
    forall|u: int| 0 <= u < 256 ==> 0 < #[trigger] divisor(q00, u) < 0x4000_0000
}

/// The bounds that come with the divisors.
pub open spec fn bounds_of(q00: Seq<int>) -> Seq<int> {
    Seq::new(256, |u: int| 0x1_0000_0000 * divisor(q00, u))
}

/// The reconstruction of `w0` from the key, `w1` and `h0`; none if the key's
/// divisors are not valid or a fixed-point bound is violated.
pub open spec fn rebuild(
    q00: Seq<int>,
    q01: Seq<int>,
    w1: Seq<int>,
    h0: Seq<int>,
) -> Option<Seq<int>> {
    if q00[0] < 0 || !divisors_valid(q00) {
        None
    } else {
        reconstruct(
            forward(q01, C_Q01 as int, false),
            bounds_of(q00),
            forward(w1, C_W1 as int, false),
            h0,
        )
    }
}

} // verus!

//! Decoding of public keys and signatures, and the hashes that go into a
//! verification.

use vstd::arithmetic::div_mod::*;
use vstd::arithmetic::power2::*;
use vstd::bits::lemma_u8_shr_is_div;
use vstd::prelude::*;
use vstd::slice::slice_subrange;

use solana_shake256::Shake256;

use crate::golomb::{
    begins_with, bit_at, bits_of, code_magnitude, gr_encode, gr_highs, gr_prefix, gr_valid,
    high_total, lemma_bits_extend, lemma_bits_of_injective, lemma_encode_len, lemma_gr_unique, lemma_highs_at,
    lemma_highs_unique, lemma_join_sections, lemma_low_bits_determine, lemma_sections,
    lemma_zero_byte, low_bits, magnitudes, nth_bit, padded, unary, zeros,
};
use crate::poly::i32_ints;
use crate::{
    HALF_N, HIGH_00, HIGH_01, HIGH_S1, HPUB_LEN, LOW_00, LOW_01, LOW_S1, N, PUBKEY_LEN, SALT_LEN,
    SIGNATURE_LEN,
};

verus! {

/// Bit `idx` of a byte slice, the low bit of each byte first.
pub fn bit(buf: &[u8], idx: usize) -> (b: u32)
    requires
        idx < 8 * buf@.len(),
    ensures
        b == if bits_of(buf@)[idx as int] { 1u32 } else { 0u32 },
{
    let byte: u8 = buf[idx / 8];
    let shift: u8 = (idx % 8) as u8;
    proof {
        lemma_u8_shr_is_div(byte, shift);
        assert(bits_of(buf@)[idx as int] == bit_at(buf@, idx as int));
    }
    ((byte >> shift) % 2) as u32
}

/// The number in a window of `v` bits, the low bit first.
pub fn decode_int(y: &[u8], off: usize, v: usize) -> (x: i32)
    requires
        v <= 31,
        off + v <= 8 * y@.len(),
        off + v <= usize::MAX,
    ensures
        0 <= x < pow2(v as nat),
        low_bits(x as nat, v as nat) == bits_of(y@).subrange(off as int, off + v),
{
    let mut x: u32 = 0;
    let mut weight: u32 = 1;
    let mut t: usize = 0;
    let ghost b = bits_of(y@);
    proof {
        lemma2_to64();
        assert(low_bits(0, 0) =~= b.subrange(off as int, off as int));
    }
    while t < v
        invariant
            t <= v <= 31,
            off + v <= 8 * y@.len(),
            off + v <= usize::MAX,
            b == bits_of(y@),
            weight == pow2(t as nat),
            weight <= 0x8000_0000,
            x < pow2(t as nat),
            low_bits(x as nat, t as nat) == b.subrange(off as int, off + t),
        decreases v - t,
    {
        let one: bool = bit(y, off + t) == 1;
        proof {
            lemma_bits_extend(x as nat, t as nat, one);
            lemma_pow2_unfold((t + 1) as nat);
            assert(b.subrange(off as int, off + t).push(b[off + t]) =~= b.subrange(
                off as int,
                off + t + 1,
            ));
            lemma2_to64();
            if t + 1 < 31 {
                lemma_pow2_strictly_increases((t + 1) as nat, 31);
            }
        }
        if one {
            x = x + weight;
        }
        weight = 2 * weight;
        t = t + 1;
    }
    x as i32
}

/// Whether every bit from `start_bit` on is zero.
pub fn padding_all_zero(buf: &[u8], start_bit: usize) -> (ok: bool)
    requires
        8 * buf@.len() <= usize::MAX,
    ensures
        ok <==> (forall|j: int|
            start_bit <= j < 8 * buf@.len() ==> !#[trigger] bits_of(buf@)[j]),
{
    let len_bits: usize = buf.len() * 8;
    let ghost b = bits_of(buf@);
    let mut j: usize = start_bit;
    while j < len_bits && j % 8 != 0
        invariant
            b == bits_of(buf@),
            len_bits == 8 * buf@.len(),
            start_bit <= j,
            j <= len_bits || j == start_bit,
            forall|i: int| start_bit <= i < j && i < len_bits ==> !#[trigger] b[i],
        decreases len_bits - j,
    {
        if bit(buf, j) != 0 {
            return false;
        }
        j = j + 1;
    }
    if j >= len_bits {
        return true;
    }
    let mut i: usize = j / 8;
    while i < buf.len()
        invariant
            b == bits_of(buf@),
            start_bit <= 8 * i,
            i <= buf@.len(),
            forall|t: int| start_bit <= t < 8 * i ==> !#[trigger] b[t],
        decreases buf@.len() - i,
    {
        proof {
            lemma_zero_byte(buf@[i as int]);
        }
        if buf[i] != 0 {
            proof {
                let t = choose|t: int|
                    0 <= t < 8 && #[trigger] nth_bit(buf@[i as int] as nat, t as nat);
                let k = 8 * i + t;
                assert(k / 8 == i as int && k % 8 == t);
                assert(b[k] == bit_at(buf@, k));
            }
            return false;
        }
        assert forall|t: int| start_bit <= t < 8 * (i + 1) implies !#[trigger] b[t] by {
            if t >= 8 * i {
                assert(t / 8 == i as int);
                assert(b[t] == bit_at(buf@, t));
                assert(!nth_bit(buf@[i as int] as nat, (t % 8) as nat));
            }
        }
        i = i + 1;
    }
    true
}

/// Two to the power `e`.
fn power_of_two(e: usize) -> (w: u32)
    requires
        e <= 31,
    ensures
        w == pow2(e as nat),
{
    let mut w: u32 = 1;
    let mut t: usize = 0;
    proof {
        lemma2_to64();
    }
    while t < e
        invariant
            t <= e <= 31,
            w == pow2(t as nat),
        decreases e - t,
    {
        proof {
            lemma_pow2_unfold((t + 1) as nat);
            lemma2_to64();
            if t + 1 < 31 {
                lemma_pow2_strictly_increases((t + 1) as nat, 31);
            }
        }
        w = 2 * w;
        t = t + 1;
    }
    w
}

/// No sequence of `k` numbers has a code that the bits begin with.
pub open spec fn gr_malformed(b: Seq<bool>, k: nat, low: nat, high: nat) -> bool {
    forall|xs: Seq<int>| !#[trigger] gr_prefix(b, xs, k, low, high)
}

/// Reading the high part of number `i` cannot fail if some code fits.
proof fn lemma_high_part_fits(
    b: Seq<bool>,
    ms: Seq<nat>,
    z: nat,
    k: nat,
    low: nat,
    high: nat,
)
    requires
        low <= high,
        ms.len() < k,
        k + k * low <= b.len(),
        ({
            let h = b.skip((k + k * low) as int);
            let s = gr_highs(ms, low).len();
            &&& begins_with(h, gr_highs(ms, low))
            &&& s + z >= h.len() || z >= pow2((high - low) as nat)
            &&& forall|t: int| s <= t < s + z ==> !#[trigger] h[t]
        }),
    ensures
        gr_malformed(b, k, low, high),
{
    let h = b.skip((k + k * low) as int);
    let s = gr_highs(ms, low).len();
    assert forall|xs: Seq<int>| !#[trigger] gr_prefix(b, xs, k, low, high) by {
        if gr_prefix(b, xs, k, low, high) {
            let cs = magnitudes(xs);
            let i = ms.len() as int;
            lemma_sections(b, xs, low);
            lemma_highs_unique(h, cs, ms, low);
            lemma_highs_at(h, cs, low, i);
            let y = cs[i] / pow2(low);
            // y is below the limit, so it is z or more, and then the code ends within h.
            assert(code_magnitude(xs[i]) < pow2(high));
            lemma_pow2_pos(low);
            lemma_pow2_adds(low, (high - low) as nat);
            lemma_fundamental_div_mod(cs[i] as int, pow2(low) as int);
            lemma_mod_bound(cs[i] as int, pow2(low) as int);
            let p = pow2(low) as int;
            let q = pow2((high - low) as nat) as int;
            let c = cs[i] as int;
            let r = c % p;
            assert(y < q) by (nonlinear_arith)
                requires
                    c == p * y + r,
                    0 <= r < p,
                    c < p * q,
            ;
            assert(y >= 0) by (nonlinear_arith)
                requires
                    c == p * y + r,
                    0 <= r < p,
                    c >= 0,
            ;
            if y < z {
                assert(!h[(s + y) as int]);
            }
        }
    }
}

/// Adding the high part to a low part.
proof fn lemma_join_parts(x: nat, z: nat, low: nat, high: nat)
    requires
        low <= high,
        x < pow2(low),
        z < pow2((high - low) as nat),
    ensures
        ({
            let m = x + z * pow2(low);
            &&& m < pow2(high)
            &&& m / pow2(low) == z
            &&& low_bits(m, low) == low_bits(x, low)
        }),
{
    let p = pow2(low);
    let q = pow2((high - low) as nat);
    let m = x + z * p;
    lemma_pow2_pos(low);
    lemma_pow2_adds(low, (high - low) as nat);
    assert(m < p * q) by (nonlinear_arith)
        requires
            m == x + z * p,
            x < p,
            z < q,
    ;
    lemma_fundamental_div_mod_converse(m as int, p as int, z as int, x as int);
    assert forall|t: int| 0 <= t < low implies #[trigger] low_bits(m, low)[t] == low_bits(x, low)[t] by {
        let a = pow2(t as nat);
        let b = pow2((low - t) as nat);
        lemma_pow2_pos(t as nat);
        lemma_pow2_adds(t as nat, (low - t) as nat);
        lemma_pow2_unfold((low - t) as nat);
        let c = pow2((low - t - 1) as nat);
        assert(z * p == (z * b) * a) by (nonlinear_arith)
            requires
                p == a * b,
        ;
        lemma_hoist_over_denominator(x as int, (z * b) as int, a);
        assert(z * b == 2 * (z * c)) by (nonlinear_arith)
            requires
                b == 2 * c,
        ;
    }
    assert(low_bits(m, low) =~= low_bits(x, low));
}

/// The bits of a slice of `len` bytes can be counted, or else those of every
/// code of `k` numbers.
pub open spec fn gr_countable(len: nat, k: nat, low: nat, high: nat) -> bool {
    8 * len <= usize::MAX || k + k * low + k * pow2((high - low) as nat) <= usize::MAX
}

/// Decodes `K` numbers with `LOW` low bits and `HIGH` bits in all from the
/// front of `y`, and returns how many bits they took; none if the front of `y`
/// is not the code of `K` such numbers. The first `K` entries of `out` then hold
/// no meaning, or are left as they were if `y` is too short for any code.
pub fn decompress_gr<const K: usize, const LOW: usize, const HIGH: usize>(
    y: &[u8],
    out: &mut [i32; N],
) -> (r: Option<usize>)
    requires
        K <= N,
        LOW <= 9,
        LOW <= HIGH <= 31,
        gr_countable(y@.len(), K as nat, LOW as nat, HIGH as nat),
    ensures
        r is None <==> gr_malformed(bits_of(y@), K as nat, LOW as nat, HIGH as nat),
        r matches Some(j) ==> {
            let xs = i32_ints(final(out)@).subrange(0, K as int);
            &&& gr_prefix(bits_of(y@), xs, K as nat, LOW as nat, HIGH as nat)
            &&& j == gr_encode(xs, LOW as nat).len()
        },
        forall|xs: Seq<int>| #[trigger]
            gr_prefix(bits_of(y@), xs, K as nat, LOW as nat, HIGH as nat) ==> r == Some(
                gr_encode(xs, LOW as nat).len() as usize,
            ) && i32_ints(final(out)@).subrange(0, K as int) == xs,
        forall|i: int| K <= i < 512 ==> #[trigger] final(out)@[i] == old(out)@[i],
        8 * y@.len() < K * (LOW + 2) ==> final(out)@ == old(out)@,
{
    let ghost b = bits_of(y@);
    let ghost k = K as nat;
    let ghost low = LOW as nat;
    let ghost high = HIGH as nat;
    proof {
        assert(k * (low + 2) <= 5632 && k * (low + 2) == k + k * low + k && k * low >= 0)
            by (nonlinear_arith)
            requires
                k <= 512,
                low <= 9,
        ;
    }
    if y.len() < (K * (LOW + 2) + 7) / 8 {
        proof {
            assert forall|xs: Seq<int>| !#[trigger] gr_prefix(b, xs, k, low, high) by {
                lemma_encode_len(xs, low);
            }
        }
        return None;
    }
    // The low parts.
    let mut i: usize = 0;
    let mut base: usize = K;
    while i < K
        invariant
            i <= K <= N,
            LOW <= 9,
            low == LOW as nat,
            k == K as nat,
            b == bits_of(y@),
            k + k * low + k <= 8 * y@.len(),
            k + k * low + k <= 5632,
            base == k + i * low,
            forall|t: int| K <= t < 512 ==> #[trigger] out@[t] == old(out)@[t],
            forall|t: int|
                0 <= t < i ==> 0 <= #[trigger] out@[t] < pow2(low) && low_bits(
                    out@[t] as nat,
                    low,
                ) == b.subrange(k + t * low, k + t * low + low),
        decreases K - i,
    {
        proof {
            assert(i * low + low <= k * low && (i + 1) * low == i * low + low) by (nonlinear_arith)
                requires
                    i + 1 <= k,
                    low >= 0,
            ;
        }
        out[i] = decode_int(y, base, LOW);
        base = base + LOW;
        i = i + 1;
    }
    // The high parts.
    let ghost lows = out@;
    let ghost start = (k + k * low) as int;
    let ghost h = b.skip(start);
    let ghost mut ms: Seq<nat> = seq![];
    proof {
        lemma2_to64();
        if low < 9 {
            lemma_pow2_strictly_increases(low, 9);
        }
    }
    let weight: i32 = power_of_two(LOW) as i32;
    let z_max: usize = power_of_two(HIGH - LOW) as usize;
    let mut j: usize = base;
    let mut i: usize = 0;
    proof {
        assert(h.subrange(0, 0) =~= gr_highs(ms, low));
        assert(0 * z_max == 0) by (nonlinear_arith);
    }
    while i < K
        invariant
            i <= K <= N,
            LOW <= 9,
            LOW <= HIGH <= 31,
            low == LOW as nat,
            high == HIGH as nat,
            k == K as nat,
            b == bits_of(y@),
            k + k * low + k <= 8 * y@.len(),
            k + k * low + k <= 5632,
            K * (LOW + 2) <= 8 * y@.len(),
            start == k + k * low,
            h == b.skip(start),
            weight == pow2(low),
            z_max == pow2((high - low) as nat),
            forall|t: int| K <= t < 512 ==> #[trigger] out@[t] == old(out)@[t],
            lows.len() == 512,
            forall|t: int|
                0 <= t < k ==> 0 <= #[trigger] lows[t] < pow2(low) && low_bits(
                    lows[t] as nat,
                    low,
                ) == b.subrange(k + t * low, k + t * low + low),
            ms.len() == i,
            gr_highs(ms, low).len() <= i * z_max,
            gr_countable(y@.len(), k, low, high),
            j == start + gr_highs(ms, low).len(),
            begins_with(h, gr_highs(ms, low)),
            forall|t: int| i <= t < k ==> #[trigger] out@[t] == lows[t],
            forall|t: int|
                0 <= t < i ==> #[trigger] out@[t] == ms[t] && ms[t] < pow2(high) && low_bits(
                    ms[t],
                    low,
                ) == low_bits(lows[t] as nat, low),
        decreases K - i,
    {
        let ghost s = gr_highs(ms, low).len() as int;
        let mut z: usize = 0;
        let mut found: bool = false;
        while !found
            invariant
                LOW <= 9,
                LOW <= HIGH <= 31,
                low == LOW as nat,
                high == HIGH as nat,
                k == K as nat,
                b == bits_of(y@),
                start == k + k * low,
                start <= 5632,
                K * (LOW + 2) <= 8 * y@.len(),
                gr_countable(y@.len(), k, low, high),
                i < K,
                ms.len() == i,
                s <= i * z_max,
                h == b.skip(start),
                z_max == pow2((high - low) as nat),
                forall|t: int| K <= t < 512 ==> #[trigger] out@[t] == old(out)@[t],
                s == gr_highs(ms, low).len(),
                begins_with(h, gr_highs(ms, low)),
                j == start + s + z + if found { 1int } else { 0int },
                j <= 8 * y@.len(),
                z <= z_max,
                forall|t: int| s <= t < s + z ==> !#[trigger] h[t],
                found ==> z < z_max && h[s + z],
            decreases 8 * y@.len() - j,
        {
            if j / 8 >= y.len() || z >= z_max {
                proof {
                    lemma_high_part_fits(b, ms, z as nat, k, low, high);
                }
                return None;
            }
            assert(h[s + z] == b[j as int]);
            let one: bool = bit(y, j) == 1;
            assert(j < usize::MAX) by {
                assert(i * z_max + z_max <= k * z_max) by (nonlinear_arith)
                    requires
                        i + 1 <= k,
                        z_max >= 0,
                ;
            }
            j = j + 1;
            if one {
                found = true;
            } else {
                z = z + 1;
            }
        }
        let x: i32 = out[i];
        proof {
            assert(x == lows[i as int]);
            lemma_join_parts(x as nat, z as nat, low, high);
            let m = x as nat + (z as nat) * pow2(low);
            lemma2_to64();
            if high < 31 {
                lemma_pow2_strictly_increases(high, 31);
            }
            assert(z * weight >= 0 && z * weight < 0x8000_0000 && z < 0x8000_0000)
                by (nonlinear_arith)
                requires
                    m < 0x8000_0000,
                    m == x + z * weight,
                    x >= 0,
                    z >= 0,
                    weight >= 1,
            ;
            assert((i + 1) * z_max == i * z_max + z_max) by (nonlinear_arith);
            let ns = ms.push(m);
            assert(ns.drop_last() =~= ms);
            let u = unary(m, low);
            let g = gr_highs(ms, low);
            assert(gr_highs(ns, low) == g + u);
            assert(h.subrange(0, s + u.len()) =~= g + u) by {
                assert forall|t: int| 0 <= t < s + u.len() implies h[t] == (g + u)[t] by {
                    if t < s {
                        assert(h.subrange(0, s)[t] == h[t]);
                    }
                }
            }
            ms = ns;
        }
        out[i] = x + (z as i32) * weight;
        i = i + 1;
    }
    // The signs.
    let ghost mags = out@;
    proof {
        assert forall|t: int| 0 <= t < k implies #[trigger] ms[t] < pow2(high) by {
            assert(out@[t] == ms[t]);
        }
    }
    let mut i: usize = 0;
    while i < K
        invariant
            i <= K <= N,
            k == K as nat,
            high == HIGH as nat,
            HIGH <= 31,
            b == bits_of(y@),
            k <= 8 * y@.len(),
            mags.len() == 512,
            ms.len() == k,
            forall|t: int| K <= t < 512 ==> #[trigger] out@[t] == old(out)@[t],
            forall|t: int| 0 <= t < k ==> #[trigger] mags[t] == ms[t],
            forall|t: int| 0 <= t < k ==> #[trigger] ms[t] < pow2(high),
            forall|t: int| i <= t < k ==> #[trigger] out@[t] == mags[t],
            forall|t: int|
                0 <= t < i ==> code_magnitude(#[trigger] out@[t] as int) == ms[t] && b[t] == (out@[t]
                    < 0),
        decreases K - i,
    {
        let x: i32 = out[i];
        if bit(y, i) == 1 {
            out[i] = -x - 1;
        }
        i = i + 1;
    }
    proof {
        let xs = i32_ints(out@).subrange(0, K as int);
        assert(magnitudes(xs) =~= ms) by {
            assert forall|t: int| 0 <= t < k implies magnitudes(xs)[t] == ms[t] by {
                assert(xs[t] == out@[t]);
            }
        }
        assert forall|t: int| 0 <= t < xs.len() implies b.subrange(
            xs.len() + t * low,
            xs.len() + t * low + low,
        ) == low_bits(#[trigger] code_magnitude(xs[t]), low) by {
            assert(xs[t] == out@[t]);
            assert(mags[t] == ms[t]);
            assert(0 <= lows[t] < pow2(low));
        }
        assert forall|t: int| 0 <= t < xs.len() implies #[trigger] b[t] == (xs[t] < 0) by {
            assert(xs[t] == out@[t]);
        }
        lemma_join_sections(b, xs, low);
        lemma_encode_len(xs, low);
        assert forall|t: int| 0 <= t < xs.len() implies #[trigger] code_magnitude(xs[t]) < pow2(
            high,
        ) by {
            assert(xs[t] == out@[t]);
            assert(mags[t] == ms[t]);
        }
        assert(gr_prefix(b, xs, k, low, high));
        assert forall|zs: Seq<int>| #[trigger] gr_prefix(b, zs, k, low, high) implies xs == zs by {
            lemma_gr_unique(b, xs, zs, low);
        }
    }
    Some(j)
}

/// Decoding undoes encoding: if a slice begins with the code of `xs`, then `xs`
/// is what it decodes to, whatever follows, and the bits that are taken are the
/// signs, the low parts, and for each number as many bits as its high part
/// counts and one more.
pub proof fn lemma_gr_round_trip(y: Seq<u8>, xs: Seq<int>, low: nat, high: nat)
    requires
        gr_valid(xs, high),
        begins_with(bits_of(y), gr_encode(xs, low)),
    ensures
        gr_prefix(bits_of(y), xs, xs.len(), low, high),
        !gr_malformed(bits_of(y), xs.len(), low, high),
        forall|zs: Seq<int>| #[trigger] gr_prefix(bits_of(y), zs, xs.len(), low, high) ==> zs == xs,
        gr_encode(xs, low).len() == xs.len() * (low + 2) + high_total(magnitudes(xs), low),
{
    let b = bits_of(y);
    lemma_encode_len(xs, low);
    assert(gr_prefix(b, xs, xs.len(), low, high));
    assert forall|zs: Seq<int>| #[trigger] gr_prefix(b, zs, xs.len(), low, high) implies zs == xs by {
        lemma_gr_unique(b, zs, xs, low);
    }
}

/// The front of a slice holds no code if it ends before the code that the slice
/// begins with does, and holds the same code otherwise.
pub proof fn lemma_gr_truncated(y: Seq<u8>, cut: int, xs: Seq<int>, k: nat, low: nat, high: nat)
    requires
        gr_prefix(bits_of(y), xs, k, low, high),
        0 <= cut <= y.len(),
    ensures
        8 * cut < gr_encode(xs, low).len() ==> gr_malformed(bits_of(y.take(cut)), k, low, high),
        8 * cut >= gr_encode(xs, low).len() ==> gr_prefix(bits_of(y.take(cut)), xs, k, low, high),
{
    let b = bits_of(y);
    let f = bits_of(y.take(cut));
    assert(f =~= b.take(8 * cut));
    let e = gr_encode(xs, low);
    if e.len() <= 8 * cut {
        assert(f.subrange(0, e.len() as int) =~= b.subrange(0, e.len() as int));
    } else {
        assert forall|zs: Seq<int>| !#[trigger] gr_prefix(f, zs, k, low, high) by {
            if gr_prefix(f, zs, k, low, high) {
                let d = gr_encode(zs, low);
                assert(b.subrange(0, d.len() as int) =~= f.subrange(0, d.len() as int));
                lemma_gr_unique(b, zs, xs, low);
            }
        }
    }
}

/// What the code stores of `q00`: the first half of its coefficients, the first
/// of them without its seven low bits.
pub open spec fn half_key(q00: Seq<int>) -> Seq<int> {
    Seq::new(
        256,
        |i: int|
            if i == 0 {
                q00[0] / 128
            } else {
                q00[i]
            },
    )
}

/// How many bits are missing to a whole number of bytes.
pub open spec fn byte_pad(n: nat) -> nat {
    ((8 - n % 8) % 8) as nat
}

/// The encoding of `q00`: the code of what is stored, the seven low bits of the
/// first coefficient, and zeros up to a whole number of bytes.
pub open spec fn q00_bits(q00: Seq<int>) -> Seq<bool> {
    let b = gr_encode(half_key(q00), LOW_00 as nat) + low_bits((q00[0] % 128) as nat, 7);
    b + zeros(byte_pad(b.len()))
}

/// The encoding of a public key, without the padding behind it.
pub open spec fn public_bits(q00: Seq<int>, q01: Seq<int>) -> Seq<bool> {
    q00_bits(q00) + gr_encode(q01, LOW_01 as nat)
}

/// The polynomials that a public key can hold: `q00` is its own adjoint, and
/// the coefficients are in the range of the code.
pub open spec fn valid_key(q00: Seq<int>, q01: Seq<int>) -> bool {
    &&& valid_q00(q00)
    &&& q01.len() == 512
    &&& gr_valid(q01, HIGH_01 as nat)
}

/// The polynomials that `q00` can be.
pub open spec fn valid_q00(q00: Seq<int>) -> bool {
    &&& q00.len() == 512
    &&& q00[256] == 0
    &&& forall|i: int| 256 < i < 512 ==> #[trigger] q00[i] == -q00[512 - i]
    &&& gr_valid(half_key(q00), HIGH_00 as nat)
}

/// `key` is the encoding of `(q00, q01)`: their bits, and zeros behind them.
pub open spec fn encodes_public(key: Seq<u8>, q00: Seq<int>, q01: Seq<int>) -> bool {
    &&& key.len() == PUBKEY_LEN
    &&& valid_key(q00, q01)
    &&& public_bits(q00, q01).len() <= 8192
    &&& bits_of(key) == padded(public_bits(q00, q01), 8192)
}

/// Where the encoding of `q00` ends, before and after its padding.
pub open spec fn q00_ends(q00: Seq<int>) -> (nat, nat) {
    let n = gr_encode(half_key(q00), LOW_00 as nat).len() + 7;
    (n, n + byte_pad(n))
}

/// The sections that hold `q00`.
pub open spec fn front_sections(b: Seq<bool>, q00: Seq<int>) -> bool {
    let (n, m) = q00_ends(q00);
    &&& begins_with(b, gr_encode(half_key(q00), LOW_00 as nat))
    &&& m <= b.len()
    &&& b.subrange(n - 7, n as int) == low_bits((q00[0] % 128) as nat, 7)
    &&& forall|t: int| n <= t < m ==> !#[trigger] b[t]
}

/// The sections of an encoded public key.
pub open spec fn public_sections(b: Seq<bool>, q00: Seq<int>, q01: Seq<int>) -> bool {
    let m = q00_ends(q00).1;
    let e = (m + gr_encode(q01, LOW_01 as nat).len()) as int;
    &&& front_sections(b, q00)
    &&& begins_with(b.skip(m as int), gr_encode(q01, LOW_01 as nat))
    &&& forall|t: int| e <= t < b.len() ==> !#[trigger] b[t]
}

/// A key encodes two polynomials exactly if its sections do.
pub proof fn lemma_public_sections(key: Seq<u8>, q00: Seq<int>, q01: Seq<int>)
    requires
        key.len() == PUBKEY_LEN,
    ensures
        encodes_public(key, q00, q01) <==> valid_key(q00, q01) && public_sections(
            bits_of(key),
            q00,
            q01,
        ),
{
    let b = bits_of(key);
    let c = gr_encode(half_key(q00), LOW_00 as nat);
    let l = low_bits((q00[0] % 128) as nat, 7);
    let g = gr_encode(q01, LOW_01 as nat);
    let (n, m) = q00_ends(q00);
    let all = public_bits(q00, q01);
    assert((c + l).len() == n);
    assert(q00_bits(q00) == (c + l) + zeros(byte_pad(n)));
    assert(all.len() == m + g.len());
    assert(b.len() == 8192);
    if encodes_public(key, q00, q01) {
        let p = padded(all, 8192);
        assert(b.subrange(0, c.len() as int) =~= c);
        assert(b.subrange(n - 7, n as int) =~= l);
        assert(b.skip(m as int).subrange(0, g.len() as int) =~= g);
        assert forall|t: int| n <= t < m implies !#[trigger] b[t] by {
            assert(p[t] == all[t]);
        }
    }
    if valid_key(q00, q01) && public_sections(b, q00, q01) {
        let p = padded(all, 8192);
        let rest = b.skip(m as int);
        assert(m + g.len() <= 8192);
        assert forall|t: int| 0 <= t < 8192 implies b[t] == p[t] by {
            if t < c.len() {
                assert(b.subrange(0, c.len() as int)[t] == c[t]);
            } else if t < n {
                assert(b.subrange(n - 7, n as int)[t - (n - 7)] == l[t - (n - 7)]);
            } else if t < m {
            } else if t < m + g.len() {
                assert(rest.subrange(0, g.len() as int)[t - m] == g[t - m]);
                assert(rest[t - m] == b[t]);
            }
        }
        assert(b =~= p);
    }
}

/// The sections that hold `q00` can be read in one way only.
proof fn lemma_front_unique(b: Seq<bool>, q00: Seq<int>, r00: Seq<int>)
    requires
        valid_q00(q00),
        valid_q00(r00),
        front_sections(b, q00),
        front_sections(b, r00),
    ensures
        q00 == r00,
{
    lemma_gr_unique(b, half_key(q00), half_key(r00), LOW_00 as nat);
    lemma2_to64();
    lemma_low_bits_determine((q00[0] % 128) as nat, (r00[0] % 128) as nat, 7);
    lemma_small_mod((q00[0] % 128) as nat, 128);
    lemma_small_mod((r00[0] % 128) as nat, 128);
    assert(half_key(q00)[0] == half_key(r00)[0]);
    assert forall|i: int| 0 <= i < 512 implies q00[i] == r00[i] by {
        if 0 < i < 256 {
            assert(half_key(q00)[i] == half_key(r00)[i]);
        } else if i > 256 {
            assert(half_key(q00)[512 - i] == half_key(r00)[512 - i]);
            assert(q00[i] == -q00[512 - i]);
            assert(r00[i] == -r00[512 - i]);
        }
    }
    assert(q00 =~= r00);
}

/// The bits of the tail of a byte sequence.
proof fn lemma_bits_of_tail(y: Seq<u8>, i: int)
    requires
        0 <= i <= y.len(),
    ensures
        bits_of(y.subrange(i, y.len() as int)) == bits_of(y).skip(8 * i),
{
    let z = y.subrange(i, y.len() as int);
    assert(bits_of(y).len() == 8 * y.len());
    assert(bits_of(z).len() == 8 * z.len());
    assert forall|t: int| 0 <= t < 8 * z.len() implies #[trigger] bits_of(z)[t] == bits_of(y).skip(
        8 * i,
    )[t] by {
        assert((8 * i + t) / 8 == i + t / 8 && (8 * i + t) % 8 == t % 8);
        assert(bits_of(y)[8 * i + t] == bit_at(y, 8 * i + t));
    }
    assert(bits_of(z) =~= bits_of(y).skip(8 * i));
}

/// Decodes `q00` from the front of a key and returns where its encoding ends;
/// none if the front of the key is not the encoding of such a polynomial.
fn decode_q00(key: &[u8], q00: &mut [i32; N]) -> (r: Option<usize>)
    requires
        key@.len() == PUBKEY_LEN,
    ensures
        r is None ==> forall|a: Seq<int>|
            valid_q00(a) ==> !#[trigger] front_sections(bits_of(key@), a),
        r matches Some(m) ==> {
            let f = i32_ints(final(q00)@);
            &&& valid_q00(f)
            &&& front_sections(bits_of(key@), f)
            &&& m == q00_ends(f).1
        },
{
    let ghost b = bits_of(key@);
    let ghost low = LOW_00 as nat;
    assert(b.len() == 8192);
    let j: usize = match decompress_gr::<HALF_N, LOW_00, HIGH_00>(key, q00) {
        None => {
            assert forall|a: Seq<int>| valid_q00(a) implies !#[trigger] front_sections(b, a) by {
                assert(!gr_prefix(b, half_key(a), 256, low, HIGH_00 as nat));
            }
            return None;
        },
        Some(j) => j,
    };
    let ghost xs = i32_ints(q00@).subrange(0, 256);
    proof {
        // Every polynomial that these bits could encode starts as the one read here.
        assert forall|a: Seq<int>| valid_q00(a) && #[trigger] front_sections(b, a) implies half_key(
            a,
        ) == xs && j + 7 <= 8192 by {
            lemma_gr_unique(b, half_key(a), xs, low);
        }
    }
    if 8192 < j + 7 {
        return None;
    }
    let extra: i32 = decode_int(key, j, 7);
    proof {
        lemma2_to64();
        assert forall|k: int| 0 <= k < 256 implies -512 <= #[trigger] q00@[k] < 512 by {
            assert(xs[k] == q00@[k]);
            assert(code_magnitude(xs[k]) < pow2(9));
        }
    }
    q00[0] = q00[0] * 128 + extra;
    let n: usize = j + 7;
    let m: usize = n + (8 - n % 8) % 8;
    let mut t: usize = n;
    while t < m
        invariant
            n <= t <= m <= 8192,
            b == bits_of(key@),
            key@.len() == 1024,
            n == j + 7,
            m == n + byte_pad(n as nat),
            j == gr_encode(xs, low).len(),
            low == LOW_00 as nat,
            forall|i: int| n <= i < t ==> !#[trigger] b[i],
            forall|a: Seq<int>|
                valid_q00(a) && #[trigger] front_sections(b, a) ==> half_key(a) == xs,
        decreases m - t,
    {
        if bit(key, t) != 0 {
            assert forall|a: Seq<int>| valid_q00(a) implies !#[trigger] front_sections(b, a) by {
                if front_sections(b, a) {
                    assert(q00_ends(a) == (n as nat, m as nat));
                    assert(!b[t as int]);
                }
            }
            return None;
        }
        t = t + 1;
    }
    // The second half mirrors the first.
    q00[HALF_N] = 0;
    let ghost first = q00@;
    mirror(q00);
    proof {
        let f = i32_ints(q00@);
        assert forall|k: int| 0 <= k < 256 implies half_key(f)[k] == xs[k] by {
            assert(f[k] == first[k]);
        }
        assert(half_key(f) =~= xs);
        assert(f[0] % 128 == extra && f[0] / 128 == xs[0]);
        assert(q00_ends(f) == (n as nat, m as nat));
        assert forall|k: int| 256 < k < 512 implies #[trigger] f[k] == -f[512 - k] by {
            assert(f[k] == q00@[k]);
            assert(f[512 - k] == q00@[512 - k]);
        }
        assert(f[256] == q00@[256]);
    }
    Some(m)
}

/// Fills the second half of `q00` from the first: the coefficient at `i` is
/// the opposite of that at `n - i`.
fn mirror(q00: &mut [i32; N])
    requires
        forall|k: int| 0 <= k < 256 ==> -0x8000_0000 < #[trigger] old(q00)@[k],
    ensures
        forall|k: int| 0 <= k <= 256 ==> #[trigger] final(q00)@[k] == old(q00)@[k],
        forall|k: int| 256 < k < 512 ==> #[trigger] final(q00)@[k] == -old(q00)@[512 - k],
{
    let ghost first = q00@;
    let mut i: usize = HALF_N + 1;
    while i < N
        invariant
            257 <= i <= 512,
            first.len() == 512,
            forall|k: int| 0 <= k < 256 ==> -0x8000_0000 < #[trigger] first[k],
            forall|k: int| 0 <= k <= 256 ==> #[trigger] q00@[k] == first[k],
            forall|k: int| 256 < k < i ==> #[trigger] q00@[k] == -first[512 - k],
        decreases 512 - i,
    {
        assert(q00@[512 - i] == first[512 - i]);
        q00[i] = -q00[N - i];
        i = i + 1;
    }
}

/// Decodes a public key into `q00` and `q01`. `false` if the bytes are not the
/// encoding of a key; the polynomials then hold no meaning. The encoding is
/// unique: every padding bit has to be zero.
pub fn decode_public(pub_: &[u8], q00: &mut [i32; N], q01: &mut [i32; N]) -> (ok: bool)
    ensures
        ok <==> exists|a: Seq<int>, b: Seq<int>| encodes_public(pub_@, a, b),
        ok ==> encodes_public(pub_@, i32_ints(final(q00)@), i32_ints(final(q01)@)),
        forall|a: Seq<int>, b: Seq<int>| #[trigger]
            encodes_public(pub_@, a, b) ==> i32_ints(final(q00)@) == a && i32_ints(final(q01)@) == b,
{
    if pub_.len() != PUBKEY_LEN {
        return false;
    }
    let ghost b = bits_of(pub_@);
    let m: usize = match decode_q00(pub_, q00) {
        None => {
            assert forall|a: Seq<int>, c: Seq<int>| !encodes_public(pub_@, a, c) by {
                lemma_public_sections(pub_@, a, c);
            }
            return false;
        },
        Some(m) => m,
    };
    let ghost f = i32_ints(q00@);
    proof {
        assert(m % 8 == 0 && m <= 8192);
        lemma_bits_of_tail(pub_@, m as int / 8);
        assert(8 * (m as int / 8) == m);
        // Every key that these bytes could encode has this first polynomial.
        assert forall|a: Seq<int>, c: Seq<int>| #[trigger] encodes_public(pub_@, a, c) implies a == f
            && valid_key(a, c) && public_sections(b, a, c) by {
            lemma_public_sections(pub_@, a, c);
            lemma_front_unique(b, a, f);
        }
    }
    let tail: &[u8] = slice_subrange(pub_, m / 8, PUBKEY_LEN);
    let used: usize = match decompress_gr::<N, LOW_01, HIGH_01>(tail, q01) {
        None => {
            assert forall|a: Seq<int>, c: Seq<int>| !encodes_public(pub_@, a, c) by {
                assert(!gr_prefix(b.skip(m as int), c, 512, LOW_01 as nat, HIGH_01 as nat));
            }
            return false;
        },
        Some(used) => used,
    };
    let ghost g = i32_ints(q01@);
    assert(g.subrange(0, 512) =~= g);
    let ok: bool = padding_all_zero(pub_, m + used);
    proof {
        lemma_public_sections(pub_@, f, g);
        if ok {
            assert(encodes_public(pub_@, f, g));
            assert forall|a: Seq<int>, c: Seq<int>| #[trigger] encodes_public(pub_@, a, c) implies f
                == a && g == c by {
                lemma_public_decoding_unique(pub_@, f, g, a, c);
            }
        } else {
            assert forall|a: Seq<int>, c: Seq<int>| !encodes_public(pub_@, a, c) by {
                if encodes_public(pub_@, a, c) {
                    lemma_gr_unique(b.skip(m as int), c, g, LOW_01 as nat);
                }
            }
        }
    }
    ok
}

/// `sig` is the encoding of `s1` behind a salt: the code, and zeros behind it.
pub open spec fn encodes_signature(sig: Seq<u8>, s1: Seq<int>) -> bool {
    &&& sig.len() == SIGNATURE_LEN
    &&& s1.len() == 512
    &&& gr_valid(s1, HIGH_S1 as nat)
    &&& gr_encode(s1, LOW_S1 as nat).len() <= 4248
    &&& bits_of(sig.subrange(24, 555)) == padded(gr_encode(s1, LOW_S1 as nat), 4248)
}

/// The salt of a signature.
pub open spec fn salt_of(sig: Seq<u8>) -> Seq<u8> {
    sig.subrange(0, 24)
}

/// A signature encodes a polynomial exactly if its bits begin with the code and
/// all others are zero.
pub proof fn lemma_signature_sections(sig: Seq<u8>, s1: Seq<int>)
    requires
        sig.len() == SIGNATURE_LEN,
    ensures
        ({
            let b = bits_of(sig.subrange(24, 555));
            let e = gr_encode(s1, LOW_S1 as nat);
            encodes_signature(sig, s1) <==> gr_prefix(b, s1, 512, LOW_S1 as nat, HIGH_S1 as nat) && (
            forall|t: int| e.len() <= t < b.len() ==> !#[trigger] b[t])
        }),
{
    let b = bits_of(sig.subrange(24, 555));
    let e = gr_encode(s1, LOW_S1 as nat);
    assert(b.len() == 4248);
    if encodes_signature(sig, s1) {
        assert(b.subrange(0, e.len() as int) =~= e);
    }
    if gr_prefix(b, s1, 512, LOW_S1 as nat, HIGH_S1 as nat) && (forall|t: int|
        e.len() <= t < b.len() ==> !#[trigger] b[t]) {
        assert forall|t: int| 0 <= t < 4248 implies b[t] == padded(e, 4248)[t] by {
            if t < e.len() {
                assert(b.subrange(0, e.len() as int)[t] == e[t]);
            }
        }
        assert(b =~= padded(e, 4248));
    }
}

/// Decodes a signature: the polynomial goes to `s1` and the salt is returned;
/// none if the bytes are not an encoding, and `s1` then holds no meaning.
pub fn decode_signature<'a>(sig: &'a [u8], s1: &mut [i32; N]) -> (salt: Option<&'a [u8]>)
    ensures
        salt is Some <==> exists|s: Seq<int>| encodes_signature(sig@, s),
        salt matches Some(b) ==> b@ == salt_of(sig@) && encodes_signature(
            sig@,
            i32_ints(final(s1)@),
        ),
        forall|s: Seq<int>| #[trigger] encodes_signature(sig@, s) ==> i32_ints(final(s1)@) == s,
{
    if sig.len() != SIGNATURE_LEN {
        return None;
    }
    let tail: &[u8] = slice_subrange(sig, SALT_LEN, SIGNATURE_LEN);
    let ghost b = bits_of(tail@);
    assert(b.len() == 4248);
    let used: usize = match decompress_gr::<N, LOW_S1, HIGH_S1>(tail, s1) {
        None => {
            assert forall|s: Seq<int>| !encodes_signature(sig@, s) by {
                lemma_signature_sections(sig@, s);
            }
            return None;
        },
        Some(used) => used,
    };
    let ghost f = i32_ints(s1@);
    assert(f.subrange(0, 512) =~= f);
    let ok: bool = padding_all_zero(tail, used);
    proof {
        lemma_signature_sections(sig@, f);
        if ok {
            assert forall|s: Seq<int>| #[trigger] encodes_signature(sig@, s) implies f == s by {
                lemma_signature_decoding_unique(sig@, f, s);
            }
        } else {
            assert forall|s: Seq<int>| !encodes_signature(sig@, s) by {
                if encodes_signature(sig@, s) {
                    lemma_signature_sections(sig@, s);
                    lemma_gr_unique(b, s, f, LOW_S1 as nat);
                }
            }
        }
    }
    if ok {
        Some(slice_subrange(sig, 0, SALT_LEN))
    } else {
        None
    }
}

/// The first coefficient that is not zero is positive; there is one.
pub open spec fn leads_positive(w: Seq<int>) -> bool {
    exists|k: int|
        0 <= k < w.len() && #[trigger] w[k] > 0 && forall|i: int| 0 <= i < k ==> #[trigger] w[i] == 0
}

/// Whether the first coefficient that is not zero is positive; `false` for the
/// zero polynomial.
pub fn sym_break(w: &[i32; N]) -> (ok: bool)
    ensures
        ok == leads_positive(i32_ints(w@)),
        ok <==> exists|k: int|
            0 <= k < 512 && #[trigger] w@[k] > 0 && forall|i: int| 0 <= i < k ==> #[trigger] w@[i] == 0,
{
    let ghost f = i32_ints(w@);
    let mut i: usize = 0;
    while i < N
        invariant
            i <= 512,
            f == i32_ints(w@),
            forall|k: int| 0 <= k < i ==> #[trigger] f[k] == 0,
            forall|k: int| 0 <= k < i ==> #[trigger] w@[k] == 0,
        decreases 512 - i,
    {
        let x: i32 = w[i];
        assert(f[i as int] == x && w@[i as int] == x);
        if x > 0 {
            return true;
        }
        if x < 0 {
            assert forall|k: int| 0 <= k < f.len() && #[trigger] f[k] > 0 implies exists|m: int|
                0 <= m < k && #[trigger] f[m] != 0 by {
                assert(f[i as int] != 0);
            }
            assert forall|k: int| 0 <= k < 512 && #[trigger] w@[k] > 0 implies exists|m: int|
                0 <= m < k && #[trigger] w@[m] != 0 by {
                assert(w@[i as int] != 0);
            }
            return false;
        }
        i = i + 1;
    }
    false
}

/// The output of SHAKE256 of the given length on an input.
pub uninterp spec fn shake256_output(input: Seq<u8>, len: nat) -> Seq<u8>;

/// `L` bytes of SHAKE256 on `a` followed by `b`. Calls `Shake256` of
/// `solana_shake256`: a fresh sponge absorbs `a` and then `b`, is finalized, and
/// `L` bytes are squeezed from it. Trusted: the bytes are a function of the
/// absorbed bytes in order, without regard to how they were divided, and of
/// `L`; and byte `i` does not depend on `L`, so that the front of them is what a
/// shorter squeeze gives.
#[verifier::external_body]
fn shake256<const L: usize>(a: &[u8], b: &[u8]) -> (out: [u8; L])
    ensures
        out@ == shake256_output(a@ + b@, L as nat),
        forall|n: nat| n <= L ==> #[trigger] shake256_output(a@ + b@, n) == out@.take(n as int),
{
    let mut sponge = Shake256::new();
    sponge.absorb(a);
    sponge.absorb(b);
    sponge.finalize();
    let mut out = [0u8; L];
    sponge.squeeze(&mut out);
    out
}

/// The hash of a public key.
pub open spec fn key_hash(key: Seq<u8>) -> Seq<u8> {
    shake256_output(key, 32)
}

/// The hash of a message under the hash of a public key.
pub open spec fn message_hash(message: Seq<u8>, hpub: Seq<u8>) -> Seq<u8> {
    shake256_output(message + hpub, 64)
}

/// The hash of a public key.
pub fn compute_hpub(pub_: &[u8]) -> (hpub: [u8; HPUB_LEN])
    ensures
        hpub@ == shake256_output(pub_@, 32),
        hpub@ == key_hash(pub_@),
{
    assert(pub_@ + Seq::<u8>::empty() =~= pub_@);
    shake256::<HPUB_LEN>(pub_, &[])
}

/// The hash of a message under the hash of a public key. Message and hash are
/// joined with nothing between or before them, so that its front is what
/// [`compute_hpub`] gives for the two.
pub fn compute_m(message: &[u8], hpub: &[u8; HPUB_LEN]) -> (m: [u8; 64])
    ensures
        m@ == shake256_output(message@ + hpub@, 64),
        m@ == message_hash(message@, hpub@),
        m@.take(32) == key_hash(message@ + hpub@),
{
    shake256::<64>(message, hpub)
}

/// The hash that the polynomials `h0` and `h1` are read from.
pub open spec fn target_hash(m: Seq<u8>, salt: Seq<u8>) -> Seq<u8> {
    shake256_output(m + salt, 128)
}

/// The binary polynomial `h0`: the first `n` bits of the hash.
pub open spec fn h0_of(h: Seq<u8>) -> Seq<int> {
    Seq::new(
        512,
        |i: int|
            if bits_of(h)[i] {
                1
            } else {
                0
            },
    )
}

/// `w1 = h1 - 2 s1`, where `h1` is the binary polynomial of the next `n` bits
/// of the hash.
pub open spec fn w1_of(h: Seq<u8>, s1: Seq<int>) -> Seq<int> {
    Seq::new(
        512,
        |i: int|
            (if bits_of(h)[512 + i] {
                1int
            } else {
                0int
            }) - 2 * s1[i],
    )
}

/// `2 x` and `1 - 2 x` fit in 32 bits for every coefficient `x`.
pub open spec fn can_double(s1: Seq<i32>) -> bool {
    forall|i: int| 0 <= i < s1.len() ==> -0x4000_0000 < #[trigger] s1[i] < 0x4000_0000
}

/// Expands a hash into `h0` and `w1 = h1 - 2 s1`.
pub fn expand_h(h: &[u8; 128], h0: &mut [i32; N], w1: &mut [i32; N], s1: &[i32; N])
    requires
        can_double(s1@),
    ensures
        i32_ints(final(h0)@) == h0_of(h@),
        i32_ints(final(w1)@) == w1_of(h@, i32_ints(s1@)),
{
    let bytes: &[u8] = h;
    let ghost s = i32_ints(s1@);
    let mut i: usize = 0;
    while i < N
        invariant
            i <= 512,
            bytes@ == h@,
            h@.len() == 128,
            can_double(s1@),
            s == i32_ints(s1@),
            forall|k: int| 0 <= k < i ==> #[trigger] h0@[k] == h0_of(h@)[k],
            forall|k: int| 0 <= k < i ==> #[trigger] w1@[k] == w1_of(h@, s)[k],
        decreases 512 - i,
    {
        assert(s[i as int] == s1@[i as int]);
        h0[i] = bit(bytes, i) as i32;
        w1[i] = bit(bytes, N + i) as i32 - 2 * s1[i];
        i = i + 1;
    }
    assert(i32_ints(h0@) =~= h0_of(h@));
    assert(i32_ints(w1@) =~= w1_of(h@, s));
}

/// Hashes a message hash with a salt and expands the result into `h0` and
/// `w1 = h1 - 2 s1`.
pub fn compute_h(
    m: &[u8; 64],
    salt: &[u8],
    h0: &mut [i32; N],
    w1: &mut [i32; N],
    s1: &[i32; N],
)
    requires
        can_double(s1@),
    ensures
        target_hash(m@, salt@) == shake256_output(m@ + salt@, 128),
        target_hash(m@, salt@).len() == 128,
        i32_ints(final(h0)@) == h0_of(target_hash(m@, salt@)),
        i32_ints(final(w1)@) == w1_of(target_hash(m@, salt@), i32_ints(s1@)),
{
    let h: [u8; 128] = shake256::<128>(m, salt);
    expand_h(&h, h0, w1, s1);
}

/// A public key has a single valid encoding.
pub proof fn lemma_public_encoding_unique(
    key: Seq<u8>,
    other: Seq<u8>,
    q00: Seq<int>,
    q01: Seq<int>,
)
    requires
        encodes_public(key, q00, q01),
        encodes_public(other, q00, q01),
    ensures
        key == other,
{
    lemma_bits_of_injective(key, other);
}

/// The bytes of a public key encode a single pair of polynomials.
pub proof fn lemma_public_decoding_unique(
    key: Seq<u8>,
    q00: Seq<int>,
    q01: Seq<int>,
    r00: Seq<int>,
    r01: Seq<int>,
)
    requires
        encodes_public(key, q00, q01),
        encodes_public(key, r00, r01),
    ensures
        q00 == r00,
        q01 == r01,
{
    let b = bits_of(key);
    lemma_public_sections(key, q00, q01);
    lemma_public_sections(key, r00, r01);
    lemma_front_unique(b, q00, r00);
    lemma_gr_unique(b.skip(q00_ends(q00).1 as int), q01, r01, LOW_01 as nat);
}

/// A salt and a polynomial have a single valid encoding as a signature.
pub proof fn lemma_signature_encoding_unique(sig: Seq<u8>, other: Seq<u8>, s1: Seq<int>)
    requires
        encodes_signature(sig, s1),
        encodes_signature(other, s1),
        salt_of(sig) == salt_of(other),
    ensures
        sig == other,
{
    let x = sig.subrange(24, 555);
    let y = other.subrange(24, 555);
    lemma_bits_of_injective(x, y);
    assert(sig =~= salt_of(sig) + x);
    assert(other =~= salt_of(other) + y);
}

/// The bytes of a signature encode a single polynomial.
pub proof fn lemma_signature_decoding_unique(sig: Seq<u8>, s1: Seq<int>, r1: Seq<int>)
    requires
        encodes_signature(sig, s1),
        encodes_signature(sig, r1),
    ensures
        s1 == r1,
{
    lemma_signature_sections(sig, s1);
    lemma_signature_sections(sig, r1);
    lemma_gr_unique(bits_of(sig.subrange(24, 555)), s1, r1, LOW_S1 as nat);
}

/// Of a polynomial and its opposite exactly one has a positive leading
/// coefficient, unless both are zero.
pub proof fn lemma_leads_positive_opposite(w: Seq<int>, v: Seq<int>)
    requires
        w.len() == v.len(),
        forall|i: int| 0 <= i < w.len() ==> #[trigger] v[i] == -w[i],
    ensures
        !(leads_positive(w) && leads_positive(v)),
        leads_positive(w) || leads_positive(v) <==> exists|i: int|
            0 <= i < w.len() && #[trigger] w[i] != 0,
{
    if exists|i: int| 0 <= i < w.len() && #[trigger] w[i] != 0 {
        let i = choose|i: int| 0 <= i < w.len() && #[trigger] w[i] != 0;
        let k = lemma_first_nonzero(w, i);
        assert(v[k] == -w[k]);
        if w[k] > 0 {
            assert(leads_positive(w));
        } else {
            assert forall|j: int| 0 <= j < k implies #[trigger] v[j] == 0 by {
                assert(w[j] == 0);
            }
            assert(leads_positive(v));
        }
    }
    if leads_positive(w) {
        let k = choose|k: int|
            0 <= k < w.len() && #[trigger] w[k] > 0 && forall|i: int|
                0 <= i < k ==> #[trigger] w[i] == 0;
        assert(w[k] != 0);
        if leads_positive(v) {
            let m = choose|m: int|
                0 <= m < v.len() && #[trigger] v[m] > 0 && forall|i: int|
                    0 <= i < m ==> #[trigger] v[i] == 0;
            assert(v[m] == -w[m]);
            assert(v[k] == -w[k]);
        }
    }
    if leads_positive(v) {
        let m = choose|m: int|
            0 <= m < v.len() && #[trigger] v[m] > 0 && forall|i: int|
                0 <= i < m ==> #[trigger] v[i] == 0;
        assert(w[m] != 0);
    }
}

/// The first index at which a sequence is not zero.
proof fn lemma_first_nonzero(w: Seq<int>, i: int) -> (k: int)
    requires
        0 <= i < w.len(),
        w[i] != 0,
    ensures
        0 <= k <= i,
        w[k] != 0,
        forall|j: int| 0 <= j < k ==> #[trigger] w[j] == 0,
    decreases i,
{
    if exists|j: int| 0 <= j < i && #[trigger] w[j] != 0 {
        let j = choose|j: int| 0 <= j < i && #[trigger] w[j] != 0;
        lemma_first_nonzero(w, j)
    } else {
        i
    }
}

} // verus!

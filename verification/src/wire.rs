//! Keys, signatures, hashes and instructions, bit by bit and in plain numbers.

use vstd::arithmetic::div_mod::*;
use vstd::arithmetic::power2::*;
use vstd::prelude::*;

use crate::codec::{
    encodes_public, encodes_signature, half_key, lemma_public_sections, lemma_signature_sections,
    q00_ends,
};
use crate::golomb::{
    begins_with, bit_at, bits_of, code_magnitude, gr_encode, gr_highs, gr_lows, gr_valid,
    lemma_encode_len, lemma_highs_at, lemma_join_sections, lemma_lows_at, lemma_lows_len,
    lemma_sections, low_bits, magnitudes, nth_bit, unary,
};
use crate::sums::sum;

verus! {

/// Bit `i` of bytes that give their low bits first: zero or one.
pub open spec fn wire_bit(y: Seq<u8>, i: int) -> int {
    (y[i / 8] as int / pow2((i % 8) as nat) as int) % 2
}

/// What is written of a number besides its sign.
pub open spec fn wire_magnitude(x: int) -> int {
    if x < 0 {
        -x - 1
    } else {
        x
    }
}

/// Where bit `t` of the low part of number `i` stands, of `k` numbers with `low`
/// low bits that are written from bit `o` on.
pub open spec fn low_position(o: int, k: int, low: int, i: int, t: int) -> int {
    o + k + i * low + t
}

/// How many bits the high parts of the first `i` numbers take: for each, as many
/// as the magnitude counts in steps of `2^low`, and one more.
pub open spec fn high_length(xs: Seq<int>, low: nat, i: nat) -> int {
    sum(|j: int| wire_magnitude(xs[j]) / pow2(low) as int + 1, i)
}

/// How many bits a sequence of numbers takes.
pub open spec fn wire_length(xs: Seq<int>, low: nat) -> int {
    xs.len() + xs.len() * low + high_length(xs, low, xs.len())
}

/// The numbers are written in `y` from bit `o` on: their signs, the `low` low
/// bits of each, and the rest of each as a run of zeros that a one ends.
pub open spec fn written(y: Seq<u8>, o: int, xs: Seq<int>, low: nat) -> bool {
    let k = xs.len() as int;
    let h = o + k + k * low;
    &&& 0 <= o
    &&& o + wire_length(xs, low) <= 8 * y.len()
    &&& forall|i: int| 0 <= i < k ==> (wire_bit(y, o + i) == 1 <==> #[trigger] xs[i] < 0)
    &&& forall|i: int, t: int|
        0 <= i < k && 0 <= t < low ==> wire_bit(y, #[trigger] low_position(o, k, low as int, i, t))
            == (wire_magnitude(xs[i]) / pow2(t as nat) as int) % 2
    &&& forall|i: int|
        0 <= i < k ==> wire_bit(
            y,
            h + #[trigger] high_length(xs, low, i as nat) + wire_magnitude(xs[i]) / pow2(low) as int,
        ) == 1
    &&& forall|i: int, t: int|
        #![trigger high_length(xs, low, i as nat), wire_bit(y, t)]
        0 <= i < k && h + high_length(xs, low, i as nat) <= t < h + high_length(xs, low, i as nat)
            + wire_magnitude(xs[i]) / pow2(low) as int ==> wire_bit(y, t) == 0
}

/// A bit is one or zero as the bit sequence says.
pub proof fn lemma_wire_bit(y: Seq<u8>, i: int)
    requires
        0 <= i < 8 * y.len(),
    ensures
        bits_of(y)[i] == (wire_bit(y, i) == 1),
        wire_bit(y, i) == 0 || wire_bit(y, i) == 1,
{
    assert(bits_of(y)[i] == bit_at(y, i));
    lemma_pow2_pos((i % 8) as nat);
}

/// The high parts of the first numbers take the bits that their lengths add up
/// to.
proof fn lemma_high_length(xs: Seq<int>, low: nat, i: nat)
    requires
        i <= xs.len(),
    ensures
        high_length(xs, low, i) == gr_highs(magnitudes(xs).take(i as int), low).len(),
        high_length(xs, low, i) >= i,
    decreases i,
{
    let ms = magnitudes(xs);
    lemma_pow2_pos(low);
    if i > 0 {
        let j = (i - 1) as nat;
        lemma_high_length(xs, low, j);
        assert(ms.take(i as int).drop_last() =~= ms.take(j as int));
        assert(ms.take(i as int).last() == code_magnitude(xs[j as int]));
        lemma_div_pos_is_pos(code_magnitude(xs[j as int]) as int, pow2(low) as int);
        assert(wire_magnitude(xs[j as int]) == code_magnitude(xs[j as int]));
    } else {
        assert(ms.take(0) =~= Seq::<nat>::empty());
    }
}

/// A sequence is written from bit `o` on exactly if the bits from there on begin
/// with its code.
pub proof fn lemma_written(y: Seq<u8>, o: int, xs: Seq<int>, low: nat)
    requires
        0 <= o <= 8 * y.len(),
    ensures
        begins_with(bits_of(y).skip(o), gr_encode(xs, low)) <==> written(y, o, xs, low),
        gr_encode(xs, low).len() == wire_length(xs, low),
{
    let b = bits_of(y).skip(o);
    let k = xs.len() as int;
    let ms = magnitudes(xs);
    lemma_encode_len(xs, low);
    lemma_high_length(xs, low, xs.len());
    assert(ms.take(k) =~= ms);
    assert(k * low >= 0) by (nonlinear_arith)
        requires
            k >= 0,
    ;
    if begins_with(b, gr_encode(xs, low)) {
        lemma_written_from_code(y, o, xs, low);
    }
    if written(y, o, xs, low) {
        lemma_code_from_written(y, o, xs, low);
    }
}

/// What begins with a code is written.
proof fn lemma_written_from_code(y: Seq<u8>, o: int, xs: Seq<int>, low: nat)
    requires
        0 <= o <= 8 * y.len(),
        begins_with(bits_of(y).skip(o), gr_encode(xs, low)),
        gr_encode(xs, low).len() == wire_length(xs, low),
    ensures
        written(y, o, xs, low),
{
    let b = bits_of(y).skip(o);
    let k = xs.len() as int;
    let l = low as int;
    let ms = magnitudes(xs);
    let m = k + k * l;
    lemma_pow2_pos(low);
    lemma_sections(b, xs, low);
    lemma_lows_len(ms, low);
    lemma_high_length(xs, low, xs.len());
    assert(k * l >= 0) by (nonlinear_arith)
        requires
            k >= 0,
            l >= 0,
    ;
    let h = b.skip(m);
    assert forall|i: int| 0 <= i < k implies (wire_bit(y, o + i) == 1 <==> #[trigger] xs[i] < 0) by {
        lemma_wire_bit(y, o + i);
        assert(b[i] == bits_of(y)[o + i]);
    }
    assert forall|i: int, t: int| 0 <= i < k && 0 <= t < l implies wire_bit(
        y,
        #[trigger] low_position(o, k, l, i, t),
    ) == (wire_magnitude(xs[i]) / pow2(t as nat) as int) % 2 by {
        assert(0 <= i * l && i * l + l <= k * l) by (nonlinear_arith)
            requires
                0 <= i < k,
                l >= 0,
        ;
        lemma_lows_at(ms, low, i);
        let g = gr_lows(ms, low);
        assert(g.subrange(i * l, i * l + l)[t] == g[i * l + t]);
        assert(b.subrange(k, m)[i * l + t] == b[k + i * l + t]);
        assert(b[k + i * l + t] == bits_of(y)[o + k + i * l + t]);
        assert(low_bits(ms[i], low)[t] == nth_bit(ms[i], t as nat));
        lemma_wire_bit(y, o + k + i * l + t);
        lemma_pow2_pos(t as nat);
        assert(ms[i] == code_magnitude(xs[i]));
        lemma_mod_bound(wire_magnitude(xs[i]) / pow2(t as nat) as int, 2);
    }
    assert forall|i: int| 0 <= i < k implies wire_bit(
        y,
        o + k + k * l + #[trigger] high_length(xs, low, i as nat) + wire_magnitude(xs[i]) / pow2(
            low,
        ) as int,
    ) == 1 by {
        lemma_high_length(xs, low, i as nat);
        lemma_highs_at(h, ms, low, i);
        lemma_div_pos_is_pos(ms[i] as int, pow2(low) as int);
        let z = high_length(xs, low, i as nat) + wire_magnitude(xs[i]) / pow2(low) as int;
        assert(h[z] == bits_of(y)[o + m + z]);
        lemma_wire_bit(y, o + m + z);
    }
    assert forall|i: int, t: int|
        #![trigger high_length(xs, low, i as nat), wire_bit(y, t)]
        0 <= i < k && o + k + k * l + high_length(xs, low, i as nat) <= t < o + k + k * l
            + high_length(xs, low, i as nat) + wire_magnitude(xs[i]) / pow2(low) as int implies wire_bit(
        y,
        t,
    ) == 0 by {
        lemma_high_length(xs, low, i as nat);
        lemma_highs_at(h, ms, low, i);
        let z = t - o - m;
        assert(!h[z]);
        assert(h[z] == bits_of(y)[t]);
        lemma_wire_bit(y, t);
    }
}

/// The high parts of the first numbers, from where they are written.
proof fn lemma_highs_from_written(y: Seq<u8>, o: int, xs: Seq<int>, low: nat, i: nat)
    requires
        written(y, o, xs, low),
        i <= xs.len(),
    ensures
        begins_with(
            bits_of(y).skip(o + xs.len() + xs.len() * low),
            gr_highs(magnitudes(xs).take(i as int), low),
        ),
    decreases i,
{
    let k = xs.len() as int;
    let l = low as int;
    assert(k * l >= 0) by (nonlinear_arith)
        requires
            k >= 0,
            l >= 0,
    ;
    let s = o + k + k * l;
    let h = bits_of(y).skip(s);
    let ms = magnitudes(xs);
    lemma_pow2_pos(low);
    lemma_lengths_grow(xs, low, i, xs.len());
    if i == 0 {
        assert(ms.take(0) =~= Seq::<nat>::empty());
        assert(h.subrange(0, 0) =~= gr_highs(ms.take(0), low));
    } else {
        let j = (i - 1) as nat;
        lemma_highs_from_written(y, o, xs, low, j);
        lemma_high_length(xs, low, i);
        lemma_high_length(xs, low, j);
        assert(ms.take(i as int).drop_last() =~= ms.take(j as int));
        assert(ms.take(i as int).last() == ms[j as int]);
        let z = wire_magnitude(xs[j as int]) / pow2(low) as int;
        lemma_div_pos_is_pos(ms[j as int] as int, pow2(low) as int);
        let g = gr_highs(ms.take(j as int), low);
        let u = unary(ms[j as int], low);
        let n = g.len() as int;
        assert(n == high_length(xs, low, j));
        assert(h.subrange(0, n + u.len()) =~= g + u) by {
            assert forall|t: int| 0 <= t < n + u.len() implies h[t] == (g + u)[t] by {
                lemma_wire_bit(y, s + t);
                assert(h[t] == bits_of(y)[s + t]);
                if t < n {
                    assert(h.subrange(0, n)[t] == h[t]);
                } else if t < n + z {
                    assert(wire_bit(y, s + t) == 0);
                } else {
                    assert(wire_bit(y, s + high_length(xs, low, j) + z) == 1);
                }
            }
        }
    }
}

/// More numbers take more bits.
proof fn lemma_lengths_grow(xs: Seq<int>, low: nat, i: nat, j: nat)
    requires
        i <= j <= xs.len(),
    ensures
        high_length(xs, low, i) <= high_length(xs, low, j),
    decreases j,
{
    if i < j {
        let n = (j - 1) as nat;
        lemma_lengths_grow(xs, low, i, n);
        lemma_pow2_pos(low);
        lemma_div_pos_is_pos(wire_magnitude(xs[n as int]), pow2(low) as int);
    }
}

/// What is written begins with a code.
proof fn lemma_code_from_written(y: Seq<u8>, o: int, xs: Seq<int>, low: nat)
    requires
        0 <= o <= 8 * y.len(),
        written(y, o, xs, low),
    ensures
        begins_with(bits_of(y).skip(o), gr_encode(xs, low)),
{
    let b = bits_of(y).skip(o);
    let k = xs.len() as int;
    let l = low as int;
    let ms = magnitudes(xs);
    lemma_high_length(xs, low, xs.len());
    assert(ms.take(k) =~= ms);
    assert(k * l >= 0) by (nonlinear_arith)
        requires
            k >= 0,
            l >= 0,
    ;
    lemma_highs_from_written(y, o, xs, low, xs.len());
    assert(bits_of(y).skip(o + k + k * l) =~= b.skip(k + k * l));
    assert forall|i: int| 0 <= i < k implies #[trigger] b[i] == (xs[i] < 0) by {
        lemma_wire_bit(y, o + i);
    }
    assert forall|i: int| 0 <= i < k implies b.subrange(k + i * l, k + i * l + l) == low_bits(
        #[trigger] code_magnitude(xs[i]),
        low,
    ) by {
        assert(0 <= i * l && i * l + l <= k * l) by (nonlinear_arith)
            requires
                0 <= i < k,
                l >= 0,
        ;
        let c = code_magnitude(xs[i]);
        assert forall|t: int| 0 <= t < l implies b.subrange(k + i * l, k + i * l + l)[t]
            == low_bits(c, low)[t] by {
            let p = low_position(o, k, l, i, t);
            lemma_wire_bit(y, p);
            lemma_pow2_pos(t as nat);
            assert(b[k + i * l + t] == bits_of(y)[p]);
            assert(wire_magnitude(xs[i]) == c);
        }
        assert(b.subrange(k + i * l, k + i * l + l) =~= low_bits(c, low));
    }
    lemma_join_sections(b, xs, low);
}

/// Numbers of `high` bits and a sign are those from `-2^high` up to `2^high`.
pub proof fn lemma_valid_range(xs: Seq<int>, high: nat)
    ensures
        gr_valid(xs, high) <==> (forall|i: int|
            0 <= i < xs.len() ==> -pow2(high) <= #[trigger] xs[i] < pow2(high)),
{
    if gr_valid(xs, high) {
        assert forall|i: int| 0 <= i < xs.len() implies -pow2(high) <= #[trigger] xs[i] < pow2(high) by {
            assert(code_magnitude(xs[i]) < pow2(high));
        }
    }
}

/// What is written of the first polynomial of a key: the first half of its
/// coefficients, the constant one without its seven low bits.
pub open spec fn stored_half(q00: Seq<int>) -> Seq<int> {
    Seq::new(
        256,
        |i: int|
            if i == 0 {
                q00[0] / 128
            } else {
                q00[i]
            },
    )
}

/// The next multiple of eight.
pub open spec fn whole_bytes(n: int) -> int {
    n + (8 - n % 8) % 8
}

/// The polynomials of the range that a key can hold: the first is its own
/// adjoint, its constant coefficient has 16 bits and a sign and its others have
/// nine, those of the second have twelve.
pub open spec fn key_range(q00: Seq<int>, q01: Seq<int>) -> bool {
    &&& q00.len() == 512
    &&& q01.len() == 512
    &&& -65536 <= q00[0] < 65536
    &&& forall|i: int| 0 < i < 256 ==> -512 <= #[trigger] q00[i] < 512
    &&& q00[256] == 0
    &&& forall|i: int| 256 < i < 512 ==> #[trigger] q00[i] == -q00[512 - i]
    &&& forall|i: int| 0 <= i < 512 ==> -4096 <= #[trigger] q01[i] < 4096
}

/// The bytes of a key, bit by bit: half of the first polynomial with five low
/// bits, the seven bits that its constant coefficient lacks, zeros up to a whole
/// byte, the second polynomial with nine low bits, and zeros up to the end.
pub open spec fn key_written(key: Seq<u8>, q00: Seq<int>, q01: Seq<int>) -> bool {
    let a = wire_length(stored_half(q00), 5);
    let m = whole_bytes(a + 7);
    &&& key.len() == 1024
    &&& written(key, 0, stored_half(q00), 5)
    &&& forall|t: int|
        a <= t < a + 7 ==> #[trigger] wire_bit(key, t) == (q00[0] % 128 / pow2((t - a) as nat) as int)
            % 2
    &&& forall|t: int| a + 7 <= t < m ==> #[trigger] wire_bit(key, t) == 0
    &&& written(key, m, q01, 9)
    &&& forall|t: int| m + wire_length(q01, 9) <= t < 8192 ==> #[trigger] wire_bit(key, t) == 0
}

/// The bytes that encode a key: a pair of polynomials is encoded exactly by the
/// bytes in which it is written, and if it is in range, none is left out.
pub proof fn lemma_public_key_wire(key: Seq<u8>, q00: Seq<int>, q01: Seq<int>)
    ensures
        encodes_public(key, q00, q01) <==> key_range(q00, q01) && key_written(key, q00, q01),
{
    let b = bits_of(key);
    let a = stored_half(q00);
    assert(a =~= half_key(q00));
    lemma2_to64();
    lemma_valid_range(a, 9);
    lemma_valid_range(q01, 12);
    if key.len() == 1024 {
        lemma_public_sections(key, q00, q01);
        lemma_written(key, 0, a, 5);
        assert(b.skip(0) =~= b);
        let (n, m) = q00_ends(q00);
        assert(n == wire_length(a, 5) + 7);
        assert(m == whole_bytes(n as int));
        lemma_high_length(q01, 9, q01.len());
        if m <= 8192 {
            lemma_written(key, m as int, q01, 9);
        }
        if encodes_public(key, q00, q01) {
            assert forall|i: int| 0 < i < 256 implies -512 <= #[trigger] q00[i] < 512 by {
                assert(a[i] == q00[i]);
            }
            assert(-512 <= a[0] < 512);
            assert forall|t: int| n - 7 <= t < n implies #[trigger] wire_bit(key, t) == (q00[0] % 128
                / pow2((t - (n - 7)) as nat) as int) % 2 by {
                lemma_wire_bit(key, t);
                assert(b.subrange(n - 7, n as int)[t - (n - 7)] == b[t]);
                lemma_pow2_pos((t - (n - 7)) as nat);
                lemma_mod_bound(q00[0] % 128 / pow2((t - (n - 7)) as nat) as int, 2);
            }
            assert forall|t: int| n <= t < m implies #[trigger] wire_bit(key, t) == 0 by {
                lemma_wire_bit(key, t);
                assert(!b[t]);
            }
            assert forall|t: int| m + wire_length(q01, 9) <= t < 8192 implies #[trigger] wire_bit(
                key,
                t,
            ) == 0 by {
                lemma_wire_bit(key, t);
                assert(!b[t]);
            }
        }
        if key_range(q00, q01) && key_written(key, q00, q01) {
            assert forall|i: int| 0 <= i < 256 implies -512 <= #[trigger] a[i] < 512 by {
                if i > 0 {
                    assert(a[i] == q00[i]);
                }
            }
            assert(b.subrange(n - 7, n as int) =~= low_bits((q00[0] % 128) as nat, 7)) by {
                assert forall|t: int| 0 <= t < 7 implies #[trigger] b.subrange(n - 7, n as int)[t]
                    == low_bits((q00[0] % 128) as nat, 7)[t] by {
                    lemma_wire_bit(key, n - 7 + t);
                    lemma_pow2_pos(t as nat);
                    assert(wire_bit(key, n - 7 + t) == (q00[0] % 128 / pow2(t as nat) as int) % 2);
                }
            }
            assert forall|t: int| n <= t < m implies !#[trigger] b[t] by {
                lemma_wire_bit(key, t);
            }
            assert forall|t: int| m + wire_length(q01, 9) <= t < b.len() implies !#[trigger] b[t] by {
                lemma_wire_bit(key, t);
            }
        }
    }
}

/// The bytes of a signature behind its salt, bit by bit: the polynomial with
/// five low bits, and zeros up to the end.
pub open spec fn signature_written(sig: Seq<u8>, s1: Seq<int>) -> bool {
    let y = sig.subrange(24, 555);
    &&& sig.len() == 555
    &&& written(y, 0, s1, 5)
    &&& forall|t: int| wire_length(s1, 5) <= t < 4248 ==> #[trigger] wire_bit(y, t) == 0
}

/// The bytes that encode a signature: a polynomial is encoded exactly by the
/// bytes in which it is written, and if its coefficients have nine bits and a
/// sign, none is left out.
pub proof fn lemma_signature_wire(sig: Seq<u8>, s1: Seq<int>)
    ensures
        encodes_signature(sig, s1) <==> s1.len() == 512 && (forall|i: int|
            0 <= i < 512 ==> -512 <= #[trigger] s1[i] < 512) && signature_written(sig, s1),
{
    lemma2_to64();
    lemma_valid_range(s1, 9);
    if sig.len() == 555 {
        let y = sig.subrange(24, 555);
        let b = bits_of(y);
        lemma_signature_sections(sig, s1);
        lemma_written(y, 0, s1, 5);
        assert(b.skip(0) =~= b);
        if encodes_signature(sig, s1) {
            assert forall|t: int| wire_length(s1, 5) <= t < 4248 implies #[trigger] wire_bit(y, t)
                == 0 by {
                lemma_wire_bit(y, t);
                assert(!b[t]);
            }
        }
        if signature_written(sig, s1) {
            assert forall|t: int| wire_length(s1, 5) <= t < b.len() implies !#[trigger] b[t] by {
                lemma_wire_bit(y, t);
            }
        }
    }
}

} // verus!

//! Bit sequences and the Golomb-Rice code.

use vstd::arithmetic::div_mod::*;
use vstd::arithmetic::power2::*;
use vstd::prelude::*;

verus! {

/// Bit `t` of `m`, from the low end.
pub open spec fn nth_bit(m: nat, t: nat) -> bool {
    (m / pow2(t)) % 2 == 1
}

/// Bit `i` of a byte sequence; each byte gives its low bit first.
pub open spec fn bit_at(y: Seq<u8>, i: int) -> bool {
    nth_bit(y[i / 8] as nat, (i % 8) as nat)
}

/// The bits of a byte sequence.
pub open spec fn bits_of(y: Seq<u8>) -> Seq<bool> {
    Seq::new(8 * y.len(), |i: int| bit_at(y, i))
}

/// The low `n` bits of `m`, the low bit first.
pub open spec fn low_bits(m: nat, n: nat) -> Seq<bool> {
    Seq::new(n, |t: int| nth_bit(m, t as nat))
}

/// `n` zero bits.
pub open spec fn zeros(n: nat) -> Seq<bool> {
    Seq::new(n, |t: int| false)
}

/// `b` with zero bits behind it, up to length `n`.
pub open spec fn padded(b: Seq<bool>, n: nat) -> Seq<bool> {
    b + zeros((n - b.len()) as nat)
}

/// What the code stores of a number besides its sign: a negative number stands
/// for its complement.
pub open spec fn code_magnitude(x: int) -> nat {
    if x < 0 {
        (-x - 1) as nat
    } else {
        x as nat
    }
}

/// The magnitudes of a sequence.
pub open spec fn magnitudes(xs: Seq<int>) -> Seq<nat> {
    Seq::new(xs.len(), |i: int| code_magnitude(xs[i]))
}

/// One sign bit for each number.
pub open spec fn gr_signs(xs: Seq<int>) -> Seq<bool> {
    Seq::new(xs.len(), |i: int| xs[i] < 0)
}

/// The `low` low bits of each magnitude.
pub open spec fn gr_lows(ms: Seq<nat>, low: nat) -> Seq<bool>
    decreases ms.len(),
{
    if ms.len() == 0 {
        seq![]
    } else {
        gr_lows(ms.drop_last(), low) + low_bits(ms.last(), low)
    }
}

/// The rest of a magnitude in unary: that many zeros and a one.
pub open spec fn unary(m: nat, low: nat) -> Seq<bool> {
    zeros(m / pow2(low)).push(true)
}

/// The rest of each magnitude in unary.
pub open spec fn gr_highs(ms: Seq<nat>, low: nat) -> Seq<bool>
    decreases ms.len(),
{
    if ms.len() == 0 {
        seq![]
    } else {
        gr_highs(ms.drop_last(), low) + unary(ms.last(), low)
    }
}

/// The Golomb-Rice code of a sequence of numbers: all signs, then all low
/// parts, then all high parts.
pub open spec fn gr_encode(xs: Seq<int>, low: nat) -> Seq<bool> {
    gr_signs(xs) + gr_lows(magnitudes(xs), low) + gr_highs(magnitudes(xs), low)
}

/// The numbers are those that the code with `high` bits holds.
pub open spec fn gr_valid(xs: Seq<int>, high: nat) -> bool {
    forall|i: int| 0 <= i < xs.len() ==> #[trigger] code_magnitude(xs[i]) < pow2(high)
}

/// `b` begins with `a`.
pub open spec fn begins_with(b: Seq<bool>, a: Seq<bool>) -> bool {
    a.len() <= b.len() && b.subrange(0, a.len() as int) == a
}

/// The sequences of `k` numbers whose code `b` begins with.
pub open spec fn gr_prefix(b: Seq<bool>, xs: Seq<int>, k: nat, low: nat, high: nat) -> bool {
    &&& xs.len() == k
    &&& gr_valid(xs, high)
    &&& begins_with(b, gr_encode(xs, low))
}

/// What the unary parts of magnitudes count in all.
pub open spec fn high_total(ms: Seq<nat>, low: nat) -> nat
    decreases ms.len(),
{
    if ms.len() == 0 {
        0
    } else {
        high_total(ms.drop_last(), low) + ms.last() / pow2(low)
    }
}

/// All low parts have the same length.
pub proof fn lemma_lows_len(ms: Seq<nat>, low: nat)
    ensures
        gr_lows(ms, low).len() == ms.len() * low,
    decreases ms.len(),
{
    if ms.len() == 0 {
        assert(0 * low == 0) by (nonlinear_arith);
    } else {
        lemma_lows_len(ms.drop_last(), low);
        let k = ms.len();
        assert((k - 1) * low + low == k * low) by (nonlinear_arith);
    }
}

/// Each high part has one bit more than it counts.
pub proof fn lemma_highs_len(ms: Seq<nat>, low: nat)
    ensures
        gr_highs(ms, low).len() == ms.len() + high_total(ms, low),
    decreases ms.len(),
{
    if ms.len() > 0 {
        lemma_highs_len(ms.drop_last(), low);
        lemma_pow2_pos(low);
        lemma_div_pos_is_pos(ms.last() as int, pow2(low) as int);
    }
}

/// The length of a code.
pub proof fn lemma_encode_len(xs: Seq<int>, low: nat)
    ensures
        gr_encode(xs, low).len() == xs.len() + xs.len() * low + gr_highs(magnitudes(xs), low).len(),
        gr_encode(xs, low).len() == xs.len() * (low + 2) + high_total(magnitudes(xs), low),
{
    lemma_lows_len(magnitudes(xs), low);
    lemma_highs_len(magnitudes(xs), low);
    let k = xs.len();
    assert(k * (low + 2) == k * low + 2 * k) by (nonlinear_arith);
}

/// Where the low part of number `i` stands.
pub proof fn lemma_lows_at(ms: Seq<nat>, low: nat, i: int)
    requires
        0 <= i < ms.len(),
    ensures
        i * low + low <= gr_lows(ms, low).len(),
        gr_lows(ms, low).subrange(i * low, i * low + low) == low_bits(ms[i], low),
    decreases ms.len(),
{
    let rest = ms.drop_last();
    let k = ms.len();
    lemma_lows_len(ms, low);
    lemma_lows_len(rest, low);
    assert(0 <= i * low && i * low + low <= k * low && (k - 1) * low == k * low - low)
        by (nonlinear_arith)
        requires
            0 <= i < k,
            low >= 0,
    ;
    if i == k - 1 {
        assert(gr_lows(ms, low).subrange(i * low, i * low + low) =~= low_bits(ms[i], low));
    } else {
        assert(i * low + low <= (k - 1) * low) by (nonlinear_arith)
            requires
                0 <= i < k - 1,
                low >= 0,
        ;
        lemma_lows_at(rest, low, i);
        assert(gr_lows(ms, low).subrange(i * low, i * low + low) =~= gr_lows(rest, low).subrange(
            i * low,
            i * low + low,
        ));
    }
}

/// Equal low bits mean equal residues.
pub proof fn lemma_low_bits_determine(m: nat, n: nat, low: nat)
    requires
        low_bits(m, low) == low_bits(n, low),
    ensures
        m % pow2(low) == n % pow2(low),
    decreases low,
{
    lemma_pow2_pos(low);
    if low == 0 {
        lemma2_to64();
    } else {
        let l = (low - 1) as nat;
        assert(low_bits(m, l) =~= low_bits(m, low).subrange(0, l as int));
        assert(low_bits(n, l) =~= low_bits(n, low).subrange(0, l as int));
        lemma_low_bits_determine(m, n, l);
        assert(low_bits(m, low)[l as int] == nth_bit(m, l));
        assert(low_bits(n, low)[l as int] == nth_bit(n, l));
        lemma_residue_step(m, l);
        lemma_residue_step(n, l);
    }
}

/// A residue gains one bit at a time.
pub proof fn lemma_residue_step(m: nat, l: nat)
    ensures
        m % pow2(l + 1) == m % pow2(l) + if nth_bit(m, l) {
            pow2(l)
        } else {
            0
        },
{
    lemma_pow2_pos(l);
    lemma_pow2_unfold(l + 1);
    let p = pow2(l) as int;
    lemma_mod_breakdown(m as int, p, 2);
    assert(p * 2 == pow2(l + 1));
    let b = (m as int / p) % 2;
    assert(p * b == if b == 1 { p } else { 0 }) by (nonlinear_arith)
        requires
            b == 0 || b == 1,
    ;
}

/// Fewer numbers have a shorter code.
proof fn lemma_highs_take(cs: Seq<nat>, low: nat, i: int)
    requires
        0 <= i <= cs.len(),
    ensures
        begins_with(gr_highs(cs, low), gr_highs(cs.take(i), low)),
    decreases cs.len(),
{
    if i == cs.len() {
        assert(cs.take(i) =~= cs);
        let h = gr_highs(cs, low);
        assert(h.subrange(0, h.len() as int) =~= h);
    } else {
        let rest = cs.drop_last();
        lemma_highs_take(rest, low, i);
        assert(rest.take(i) =~= cs.take(i));
        let a = gr_highs(cs.take(i), low);
        assert(gr_highs(cs, low).subrange(0, a.len() as int) =~= gr_highs(rest, low).subrange(
            0,
            a.len() as int,
        ));
    }
}

/// Where the high part of number `i` stands.
pub proof fn lemma_highs_at(b: Seq<bool>, cs: Seq<nat>, low: nat, i: int)
    requires
        0 <= i < cs.len(),
        begins_with(b, gr_highs(cs, low)),
    ensures
        ({
            let s = gr_highs(cs.take(i), low).len();
            let z = cs[i] / pow2(low);
            &&& s + z < b.len()
            &&& forall|t: int| s <= t < s + z ==> !#[trigger] b[t]
            &&& b[(s + z) as int]
        }),
{
    let next = cs.take(i + 1);
    lemma_pow2_pos(low);
    lemma_div_pos_is_pos(cs[i] as int, pow2(low) as int);
    lemma_highs_take(cs, low, i + 1);
    assert(next.drop_last() =~= cs.take(i));
    assert(next.last() == cs[i]);
    let h = gr_highs(next, low);
    let g = gr_highs(cs, low);
    let s = gr_highs(cs.take(i), low).len();
    let u = unary(cs[i], low);
    let z = cs[i] / pow2(low);
    assert(h == gr_highs(cs.take(i), low) + u);
    assert forall|t: int| 0 <= t < u.len() implies #[trigger] b[s + t] == u[t] by {
        assert(b[s + t] == b.subrange(0, g.len() as int)[s + t]);
        assert(g[s + t] == g.subrange(0, h.len() as int)[s + t]);
        assert(h[s + t] == u[t]);
    }
    assert(b[s + (z as int)] == u[z as int]);
    assert forall|t: int| s <= t < s + z implies !#[trigger] b[t] by {
        assert(b[s + (t - s)] == u[t - s]);
    }
}

/// The high parts can be read in one way only.
pub proof fn lemma_highs_unique(b: Seq<bool>, cs: Seq<nat>, ms: Seq<nat>, low: nat)
    requires
        ms.len() <= cs.len(),
        begins_with(b, gr_highs(cs, low)),
        begins_with(b, gr_highs(ms, low)),
    ensures
        gr_highs(cs.take(ms.len() as int), low).len() == gr_highs(ms, low).len(),
        forall|i: int| 0 <= i < ms.len() ==> #[trigger] cs[i] / pow2(low) == ms[i] / pow2(low),
    decreases ms.len(),
{
    if ms.len() == 0 {
        assert(cs.take(0) =~= seq![]);
    } else {
        let n = ms.len();
        let i = n - 1;
        let rest = ms.drop_last();
        lemma_highs_take(ms, low, i);
        assert(ms.take(i) =~= rest);
        let g = gr_highs(rest, low);
        assert(b.subrange(0, g.len() as int) =~= gr_highs(ms, low).subrange(0, g.len() as int));
        lemma_highs_unique(b, cs, rest, low);
        lemma_highs_at(b, cs, low, i);
        lemma_highs_at(b, ms, low, i);
        let s = g.len();
        let y = cs[i] / pow2(low);
        let z = ms[i] / pow2(low);
        lemma_pow2_pos(low);
        lemma_div_pos_is_pos(cs[i] as int, pow2(low) as int);
        lemma_div_pos_is_pos(ms[i] as int, pow2(low) as int);
        assert(y == z) by {
            if y < z {
                assert(!b[(s + y) as int]);
            } else if z < y {
                assert(!b[(s + z) as int]);
            }
        }
        assert(cs.take(n as int).drop_last() =~= cs.take(i));
        assert(cs.take(n as int).last() == cs[i]);
        assert forall|m: int| 0 <= m < ms.len() implies #[trigger] cs[m] / pow2(low) == ms[m]
            / pow2(low) by {
            if m < i {
                assert(rest[m] == ms[m]);
            }
        }
    }
}

/// The three sections of a code that `b` begins with.
pub proof fn lemma_sections(b: Seq<bool>, xs: Seq<int>, low: nat)
    requires
        begins_with(b, gr_encode(xs, low)),
    ensures
        xs.len() + xs.len() * low <= b.len(),
        forall|i: int| 0 <= i < xs.len() ==> #[trigger] b[i] == (xs[i] < 0),
        b.subrange(xs.len() as int, (xs.len() + xs.len() * low) as int) == gr_lows(
            magnitudes(xs),
            low,
        ),
        begins_with(b.skip((xs.len() + xs.len() * low) as int), gr_highs(magnitudes(xs), low)),
{
    let k = xs.len() as int;
    let e = gr_encode(xs, low);
    let ms = magnitudes(xs);
    lemma_encode_len(xs, low);
    lemma_lows_len(ms, low);
    let m = (xs.len() + xs.len() * low) as int;
    assert forall|i: int| 0 <= i < e.len() implies #[trigger] b[i] == e[i] by {
        assert(b.subrange(0, e.len() as int)[i] == b[i]);
    }
    assert forall|i: int| 0 <= i < xs.len() implies #[trigger] b[i] == (xs[i] < 0) by {
        assert(e[i] == gr_signs(xs)[i]);
    }
    assert(b.subrange(k, m) =~= gr_lows(ms, low));
    let h = gr_highs(ms, low);
    assert(b.skip(m).subrange(0, h.len() as int) =~= h);
}

/// Joining the three sections.
pub proof fn lemma_join_sections(b: Seq<bool>, xs: Seq<int>, low: nat)
    requires
        xs.len() + xs.len() * low <= b.len(),
        forall|i: int| 0 <= i < xs.len() ==> #[trigger] b[i] == (xs[i] < 0),
        forall|i: int|
            0 <= i < xs.len() ==> b.subrange(
                xs.len() + i * low,
                xs.len() + i * low + low,
            ) == low_bits(#[trigger] code_magnitude(xs[i]), low),
        begins_with(b.skip((xs.len() + xs.len() * low) as int), gr_highs(magnitudes(xs), low)),
    ensures
        begins_with(b, gr_encode(xs, low)),
{
    let k = xs.len() as int;
    let ms = magnitudes(xs);
    let e = gr_encode(xs, low);
    let m = (xs.len() + xs.len() * low) as int;
    lemma_encode_len(xs, low);
    lemma_join_lows(b.subrange(k, m), ms, low, b, k);
    let h = gr_highs(ms, low);
    assert(b.subrange(0, e.len() as int) =~= e) by {
        assert forall|i: int| 0 <= i < e.len() implies b[i] == e[i] by {
            if i < k {
                assert(e[i] == gr_signs(xs)[i]);
            } else if i < m {
                assert(b.subrange(k, m)[i - k] == b[i]);
                assert(e[i] == gr_lows(ms, low)[i - k]);
            } else {
                assert(b.skip(m)[i - m] == b[i]);
                assert(b.skip(m).subrange(0, h.len() as int)[i - m] == h[i - m]);
            }
        }
    }
}

/// Joining the low parts.
proof fn lemma_join_lows(s: Seq<bool>, ms: Seq<nat>, low: nat, b: Seq<bool>, k: int)
    requires
        0 <= k,
        s.len() == ms.len() * low,
        k + ms.len() * low <= b.len(),
        s == b.subrange(k, k + ms.len() * low),
        forall|i: int|
            0 <= i < ms.len() ==> b.subrange(k + i * low, k + i * low + low) == low_bits(
                #[trigger] ms[i],
                low,
            ),
    ensures
        s == gr_lows(ms, low),
    decreases ms.len(),
{
    lemma_lows_len(ms, low);
    if ms.len() > 0 {
        let n = ms.len() as int;
        let rest = ms.drop_last();
        assert((n - 1) * low == n * low - low && (n - 1) * low >= 0) by (nonlinear_arith)
            requires
                n >= 1,
                low >= 0,
        ;
        let r = s.subrange(0, (n - 1) * low);
        assert(r =~= b.subrange(k, k + rest.len() * low));
        assert forall|i: int| 0 <= i < rest.len() implies b.subrange(
            k + i * low,
            k + i * low + low,
        ) == low_bits(#[trigger] rest[i], low) by {
            assert(rest[i] == ms[i]);
        }
        lemma_join_lows(r, rest, low, b, k);
        assert(ms[n - 1] == ms.last());
        let l = b.subrange(k + (n - 1) * low, k + (n - 1) * low + low);
        assert(s =~= r + l);
    } else {
        assert(0 * low == 0) by (nonlinear_arith);
        assert(s =~= gr_lows(ms, low));
    }
}

/// A code can be read in one way only.
pub proof fn lemma_gr_unique(b: Seq<bool>, xs: Seq<int>, ys: Seq<int>, low: nat)
    requires
        xs.len() == ys.len(),
        begins_with(b, gr_encode(xs, low)),
        begins_with(b, gr_encode(ys, low)),
    ensures
        xs == ys,
{
    let ms = magnitudes(xs);
    let ns = magnitudes(ys);
    lemma_sections(b, xs, low);
    lemma_sections(b, ys, low);
    lemma_highs_unique(b.skip((xs.len() + xs.len() * low) as int), ms, ns, low);
    assert forall|i: int| 0 <= i < xs.len() implies xs[i] == ys[i] by {
        lemma_lows_at(ms, low, i);
        lemma_lows_at(ns, low, i);
        lemma_low_bits_determine(ms[i], ns[i], low);
        lemma_pow2_pos(low);
        assert(ms[i] / pow2(low) == ns[i] / pow2(low));
        lemma_fundamental_div_mod(ms[i] as int, pow2(low) as int);
        lemma_fundamental_div_mod(ns[i] as int, pow2(low) as int);
        assert(b[i] == (xs[i] < 0));
        assert(b[i] == (ys[i] < 0));
    }
    assert(xs =~= ys);
}

/// A number below `2^t` keeps its bits when `2^t` is added.
pub proof fn lemma_bits_extend(x: nat, t: nat, one: bool)
    requires
        x < pow2(t),
    ensures
        ({
            let y = x + if one {
                pow2(t)
            } else {
                0
            };
            &&& y < pow2(t + 1)
            &&& low_bits(y, t + 1) == low_bits(x, t).push(one)
        }),
{
    let p = pow2(t);
    let y = x + if one {
        p
    } else {
        0
    };
    lemma_pow2_pos(t);
    lemma_pow2_unfold(t + 1);
    assert forall|s: int| 0 <= s < t + 1 implies #[trigger] low_bits(y, t + 1)[s] == low_bits(
        x,
        t,
    ).push(one)[s] by {
        if s == t {
            if one {
                lemma_fundamental_div_mod_converse(y as int, p as int, 1, x as int);
            } else {
                lemma_fundamental_div_mod_converse(y as int, p as int, 0, x as int);
            }
        } else if one {
            let q = pow2(s as nat);
            let r = pow2((t - s) as nat);
            lemma_pow2_adds(s as nat, (t - s) as nat);
            lemma_pow2_pos(s as nat);
            lemma_hoist_over_denominator(x as int, r as int, q);
            assert(q * r == r * q) by (nonlinear_arith);
            assert(y as int / (q as int) == x as int / (q as int) + r);
            lemma_pow2_unfold((t - s) as nat);
        }
    }
    assert(low_bits(y, t + 1) =~= low_bits(x, t).push(one));
}

/// A byte whose bits are all zero is zero.
pub proof fn lemma_zero_byte(b: u8)
    ensures
        b == 0 <==> (forall|t: int| 0 <= t < 8 ==> !#[trigger] nth_bit(b as nat, t as nat)),
{
    lemma2_to64();
    if b == 0 {
        assert forall|t: int| 0 <= t < 8 implies !#[trigger] nth_bit(b as nat, t as nat) by {
            lemma_pow2_pos(t as nat);
            lemma_basic_div(0, pow2(t as nat) as int);
        }
    }
    if forall|t: int| 0 <= t < 8 ==> !#[trigger] nth_bit(b as nat, t as nat) {
        assert(low_bits(b as nat, 8) =~= low_bits(0, 8)) by {
            assert forall|t: int| 0 <= t < 8 implies low_bits(b as nat, 8)[t] == low_bits(0, 8)[t] by {
                assert(!nth_bit(b as nat, t as nat));
                lemma_pow2_pos(t as nat);
                lemma_basic_div(0, pow2(t as nat) as int);
            }
        }
        lemma_low_bits_determine(b as nat, 0, 8);
        lemma_small_mod(b as nat, 256);
        lemma_small_mod(0, 256);
    }
}

/// Byte sequences with the same bits are the same.
pub proof fn lemma_bits_of_injective(x: Seq<u8>, y: Seq<u8>)
    requires
        bits_of(x) == bits_of(y),
    ensures
        x == y,
{
    assert(bits_of(x).len() == 8 * x.len());
    assert(bits_of(y).len() == 8 * y.len());
    lemma2_to64();
    assert forall|i: int| 0 <= i < x.len() implies x[i] == y[i] by {
        assert(low_bits(x[i] as nat, 8) =~= low_bits(y[i] as nat, 8)) by {
            assert forall|t: int| 0 <= t < 8 implies low_bits(x[i] as nat, 8)[t] == low_bits(
                y[i] as nat,
                8,
            )[t] by {
                let j = 8 * i + t;
                assert(j / 8 == i && j % 8 == t);
                assert(bits_of(x)[j] == bit_at(x, j));
                assert(bits_of(y)[j] == bit_at(y, j));
            }
        }
        lemma_low_bits_determine(x[i] as nat, y[i] as nat, 8);
        lemma_small_mod(x[i] as nat, 256);
        lemma_small_mod(y[i] as nat, 256);
    }
    assert(x =~= y);
}

} // verus!

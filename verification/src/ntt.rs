//! The negacyclic number-theoretic transform modulo the two primes, and the
//! norm that signatures are held to.

use vstd::arithmetic::div_mod::*;
use vstd::arithmetic::mul::*;
use vstd::arithmetic::power::*;
use vstd::arithmetic::power2::*;
use vstd::prelude::*;

use crate::modular::{
    lemma_mod_add, lemma_mod_idem, lemma_mod_mul, lemma_mod_pow, lemma_mod_shift, lemma_mod_small,
    lemma_mod_sub,
};
use crate::norm::{
    has_zero, is_inverse, lemma_inverse_unique, mod_inverses, norm_in_bound, norm_mod, norm_sum,
    norm_term, quotient, residues_in_bound, shifted,
};
use crate::poly::{i32_ints, poly_eval, u32_ints};
use crate::primes::{is_prime, lemma_fermat, lemma_no_zero_divisors, lemma_p1_prime, lemma_p2_prime};
use crate::roots::{
    gives_root, is_modulus, lemma_root_base, root, root_base, root_candidate, P1, P2,
};
use crate::transform::{
    at_level, bit_reverse, butterfly, eval_point, lemma_bit_reverse_bound, lemma_bit_reverse_step,
    lemma_first_level, lemma_last_level, lemma_level, transform,
};
use crate::sums::{lemma_sum_mod_ext, sum};
use crate::{LOGN, N};

verus! {

/// `a * b` modulo `p`.
pub fn mulmod(a: u64, b: u64, p: u64) -> (r: u64)
    requires
        p > 0,
        a * b <= u64::MAX,
    ensures
        r == (a * b) % (p as int),
        r < p,
{
    (a * b) % p
}

/// `base` to the power `exp` modulo `p`, by repeated squaring.
pub fn powmod(base: u64, exp: u64, p: u64) -> (r: u64)
    requires
        0 < p <= 0x1_0000_0000,
    ensures
        exp == 0 ==> r == 1,
        exp > 0 ==> r == pow(base as int, exp as nat) % (p as int),
{
    let mut b: u64 = base % p;
    let mut e: u64 = exp;
    let mut acc: u64 = 1;
    let ghost m = p as int;
    proof {
        lemma_mod_idem(base as int, m);
        lemma_mod_pow(b as int, base as int, exp as nat, m);
        assert(1 * pow(b as int, e as nat) == pow(b as int, e as nat));
    }
    while e > 0
        invariant
            0 < p <= 0x1_0000_0000,
            m == p as int,
            b < p,
            e == exp ==> acc == 1,
            e == 0 && exp > 0 ==> acc < p,
            e <= exp,
            acc <= 1 || acc < p,
            (acc * pow(b as int, e as nat)) % m == pow(base as int, exp as nat) % m,
        decreases e,
    {
        let ghost b0 = b as int;
        let ghost a0 = acc as int;
        let ghost e0 = e as nat;
        let half: u64 = e / 2;
        proof {
            lemma_pow_adds(b0, half as nat, half as nat);
            lemma_pow_distributes(b0, b0, half as nat);
            lemma_mod_idem(b0 * b0, m);
            lemma_mod_pow((b0 * b0) % m, b0 * b0, half as nat, m);
            assert(b0 * b0 <= 0xffff_ffff * 0xffff_ffff) by (nonlinear_arith)
                requires
                    0 <= b0 <= 0xffff_ffff,
            ;
        }
        if e % 2 == 1 {
            proof {
                assert(a0 * b0 <= 0xffff_ffff * 0xffff_ffff) by (nonlinear_arith)
                    requires
                        0 <= b0 <= 0xffff_ffff,
                        0 <= a0 <= 0xffff_ffff,
                ;
            }
            acc = mulmod(acc, b, p);
            proof {
                lemma_pow_adds(b0, (2 * half) as nat, 1);
                lemma_pow1(b0);
                let t = pow(b0, (2 * half) as nat);
                assert(a0 * (t * b0) == (a0 * b0) * t) by (nonlinear_arith);
                lemma_mod_idem(a0 * b0, m);
                lemma_mod_mul(acc as int, a0 * b0, t, t, m);
            }
        }
        proof {
            let a1 = acc as int;
            lemma_mod_mul(a1, a1, pow((b0 * b0) % m, half as nat), pow(b0 * b0, half as nat), m);
        }
        b = mulmod(b, b, p);
        e = half;
    }
    proof {
        lemma_pow0(b as int);
        assert(acc * 1 == acc);
        if exp > 0 {
            lemma_mod_small(acc as int, m);
        }
    }
    acc
}

/// The moduli are prime.
proof fn lemma_modulus_prime(p: int)
    requires
        is_modulus(p),
    ensures
        is_prime(p),
{
    if p == P1 {
        lemma_p1_prime();
    } else {
        lemma_p2_prime();
    }
}

/// The inverse of `x` modulo an odd prime, by Fermat's little theorem; none if
/// `x` is zero modulo the prime.
pub fn inv(x: u64, p: u64) -> (r: Option<u64>)
    requires
        is_modulus(p as int) || is_prime(p as int) && 2 < p <= 0x1_0000_0000,
    ensures
        r is None <==> x as int % (p as int) == 0,
        r matches Some(v) ==> v < p && (x * v) % (p as int) == 1,
{
    proof {
        if is_modulus(p as int) {
            lemma_modulus_prime(p as int);
        }
    }
    if x % p == 0 {
        return None;
    }
    let v: u64 = powmod(x, p - 2, p);
    proof {
        let m = p as int;
        let y = x as int;
        let e = (m - 2) as nat;
        lemma_mod_small(1, m);
        lemma_mod_idem(pow(y, e), m);
        lemma_fermat(y, m);
        lemma_pow_adds(y, 1, e);
        lemma_pow1(y);
        lemma_mod_mul(y, y, v as int, pow(y, e), m);
    }
    Some(v)
}

/// The low `l` bits of `x` in reverse order.
pub fn bitrev(x: usize, l: usize) -> (y: usize)
    requires
        l <= usize::BITS,
    ensures
        y == bit_reverse(x as nat, l as nat),
{
    let mut y: usize = 0;
    let mut rest: usize = x;
    let mut i: usize = 0;
    proof {
        lemma2_to64();
    }
    while i < l
        invariant
            i <= l <= usize::BITS,
            rest == x as nat / pow2(i as nat),
            y == bit_reverse(x as nat, i as nat),
        decreases l - i,
    {
        proof {
            lemma_bit_reverse_step(x as nat, i as nat);
            lemma_bit_reverse_bound(x as nat, (i + 1) as nat);
            lemma_pow2_pos(i as nat);
            lemma_pow2_unfold((i + 1) as nat);
            lemma_div_denominator(x as int, pow2(i as nat) as int, 2);
            if i + 1 < usize::BITS {
                lemma_pow2_strictly_increases((i + 1) as nat, usize::BITS as nat);
            }
            lemma2_to64();
            assert(pow2(usize::BITS as nat) == usize::MAX + 1);
        }
        y = 2 * y + rest % 2;
        rest = rest / 2;
        i = i + 1;
    }
    y
}

/// The primitive `2n`-th root of unity: the candidate of the least base from
/// two on whose candidate has order exactly `2n`.
pub fn find_root(p: u64) -> (r: u64)
    requires
        is_modulus(p as int),
    ensures
        r == root(p as int),
        r == root_candidate(root_base(p as int), p as int),
        gives_root(root_base(p as int), p as int),
        forall|x: int| 2 <= x < root_base(p as int) ==> !#[trigger] gives_root(x, p as int),
{
    let e: u64 = (p - 1) / 1024;
    let mut x: u64 = 2;
    proof {
        lemma_root_base(p as int);
    }
    loop
        invariant
            is_modulus(p as int),
            e == (p - 1) / 1024,
            2 <= x <= root_base(p as int),
            root(p as int) == root_candidate(root_base(p as int), p as int),
            gives_root(root_base(p as int), p as int),
            forall|t: int| 2 <= t < root_base(p as int) ==> !#[trigger] gives_root(t, p as int),
        decreases root_base(p as int) - x,
    {
        let y: u64 = powmod(x, e, p);
        let t: u64 = powmod(y, 512, p);
        assert(gives_root(x as int, p as int) == (t == p - 1));
        if t == p - 1 {
            return y;
        }
        x = x + 1;
    }
}

/// The twiddle factors: entry `i` is the root of unity to the power of `i`
/// with its bits reversed.
pub fn calc_w(p: u64) -> (w: [u32; N])
    requires
        is_modulus(p as int),
    ensures
        is_twiddle_table(w@, p as int),
{
    let h: u64 = find_root(p);
    let mut w: [u32; N] = [0u32; N];
    let mut i: usize = 0;
    while i < N
        invariant
            is_modulus(p as int),
            h == root(p as int),
            i <= N,
            forall|k: int| 0 <= k < i ==> #[trigger] w@[k] == twiddle(p as int, k),
        decreases N - i,
    {
        let e: usize = bitrev(i, LOGN);
        let v: u64 = powmod(h, e as u64, p);
        proof {
            lemma_bit_reverse_bound(i as nat, 9);
            lemma2_to64();
            lemma_pow0(h as int);
            lemma_mod_small(1, p as int);
            lemma_mod_idem(pow(h as int, e as nat), p as int);
        }
        w[i] = v as u32;
        i = i + 1;
    }
    w
}

/// Entry `i` of the twiddle table.
pub open spec fn twiddle(p: int, i: int) -> int {
    pow(root(p), bit_reverse(i as nat, 9)) % p
}

/// `w` holds the twiddle factors of `p`.
pub open spec fn is_twiddle_table(w: Seq<u32>, p: int) -> bool {
    &&& w.len() == 512
    &&& forall|i: int| 0 <= i < 512 ==> #[trigger] w[i] == twiddle(p, i)
}

/// The twiddle table of the first modulus, or else of the second.
pub fn w_table(p: u64) -> (w: [u32; N])
    ensures
        is_twiddle_table(w@, if p == P1 { P1 as int } else { P2 as int }),
{
    if p == P1 {
        calc_w(P1)
    } else {
        calc_w(P2)
    }
}

/// The residue of a signed coefficient.
pub fn red(x: i32, p: u64) -> (r: u32)
    requires
        is_modulus(p as int),
    ensures
        r == x as int % (p as int),
        r < p,
{
    let m: i64 = p as i64;
    let mut y: i64 = x as i64;
    if y >= m {
        y = y - m;
    }
    if y < 0 {
        y = y + m;
    }
    if y < 0 {
        y = y + m;
    }
    proof {
        lemma_mod_shift(x as int, 1, p as int);
        lemma_mod_shift(x as int, 2, p as int);
        lemma_mod_small(y as int, p as int);
    }
    y as u32
}

/// The reduction of a full level.
pub fn full(v: u64, p: u64) -> (r: u64)
    requires
        p > 0,
    ensures
        r == v % p,
{
    v % p
}

/// The reduction of a lazy level: none.
pub fn lazy(v: u64, _p: u64) -> (r: u64)
    ensures
        r == v,
{
    v
}

/// What a level leaves at index `i`, reduced or not.
spec fn level_entry(v: u32, a: Seq<u32>, p: int, l: int, i: int, defer: bool) -> bool {
    &&& v as int % p == butterfly(u32_ints(a), p, l, i) % p
    &&& v < if defer { 2 * p } else { p }
}

/// One level of the transform: the blocks of size `2l` are split into blocks
/// of size `l`. A lazy level takes reduced entries and leaves its sums below
/// `2p`; a full level takes such sums and reduces.
fn ntt_level(f: &mut [u32; N], w: &[u32; N], p: u64, l: usize, defer: bool)
    requires
        is_modulus(p as int),
        is_twiddle_table(w@, p as int),
        0 < l <= 256,
        512 == (256int / (l as int)) * (2 * l),
        forall|i: int| 0 <= i < 512 ==> #[trigger] old(f)@[i] < if defer { p as int } else { 2 * p },
    ensures
        forall|i: int|
            0 <= i < 512 ==> #[trigger] final(f)@[i] as int % (p as int) == butterfly(
                u32_ints(old(f)@),
                p as int,
                l as int,
                i,
            ) % (p as int),
        forall|i: int| 0 <= i < 512 ==> #[trigger] final(f)@[i] < if defer { 2 * p } else { p as int },
{
    let blocks: usize = 256 / l;
    let ghost a = f@;
    let ghost m = p as int;
    let mut c: usize = 0;
    let mut start: usize = 0;
    while c < blocks
        invariant
            is_modulus(m),
            m == p as int,
            is_twiddle_table(w@, m),
            0 < l <= 256,
            blocks == 256int / (l as int),
            512 == blocks * (2 * l),
            c <= blocks,
            start == c * (2 * l),
            a.len() == 512,
            forall|i: int| 0 <= i < 512 ==> #[trigger] a[i] < if defer { m } else { 2 * m },
            forall|i: int|
                0 <= i < 512 ==> if i < start {
                    level_entry(#[trigger] f@[i], a, m, l as int, i, defer)
                } else {
                    f@[i] == a[i]
                },
        decreases blocks - c,
    {
        proof {
            assert(start + 2 * l <= 512 && start + 2 * l == (c + 1) * (2 * l) && blocks + c < 512)
                by (nonlinear_arith)
                requires
                    start == c * (2 * l),
                    512 == blocks * (2 * l),
                    c < blocks,
                    l > 0,
            ;
        }
        let z: u64 = w[blocks + c] as u64;
        let mut j: usize = 0;
        proof {
            assert(w@[(blocks + c) as int] == twiddle(m, (blocks + c) as int));
            lemma_mod_idem(pow(root(m), bit_reverse((blocks + c) as nat, 9)), m);
        }
        while j < l
            invariant
                is_modulus(m),
                m == p as int,
                0 < l <= 256,
                blocks == 256int / (l as int),
                start == c * (2 * l),
                start + 2 * l <= 512,
                z == twiddle(m, (blocks + c) as int),
                z < p,
                j <= l,
                a.len() == 512,
                forall|i: int| 0 <= i < 512 ==> #[trigger] a[i] < if defer { m } else { 2 * m },
                forall|i: int|
                    0 <= i < 512 ==> if i < start + j || start + l <= i < start + l + j {
                        level_entry(#[trigger] f@[i], a, m, l as int, i, defer)
                    } else {
                        f@[i] == a[i]
                    },
            decreases l - j,
        {
            let lo: usize = start + j;
            let hi: usize = start + j + l;
            assert(f@[lo as int] == a[lo as int]);
            assert(f@[hi as int] == a[hi as int]);
            let x: u64 = f[lo] as u64;
            let b: u64 = f[hi] as u64;
            proof {
                assert(b * z <= 0xffff_ffff * 0x7fff_ffff) by (nonlinear_arith)
                    requires
                        0 <= b <= 0xffff_ffff,
                        0 <= z <= 0x7fff_ffff,
                ;
            }
            let y: u64 = (b * z) % p;
            let s: u64 = x + y;
            let d: u64 = x + p - y;
            let s1: u64 = if defer {
                lazy(s, p)
            } else {
                full(s, p)
            };
            let d1: u64 = if defer {
                lazy(d, p)
            } else {
                full(d, p)
            };
            proof {
                let l2 = 2 * (l as int);
                lemma_fundamental_div_mod_converse(lo as int, l2, c as int, j as int);
                lemma_fundamental_div_mod_converse(hi as int, l2, c as int, j + l);
                lemma_mul_is_commutative(b as int, z as int);
                lemma_mod_idem(b * z, m);
                lemma_mod_add(x as int, x as int, y as int, z * b, m);
                lemma_mod_sub(x as int, x as int, y as int, z * b, m);
                lemma_mod_shift(x - y, 1, m);
                lemma_mod_idem(s as int, m);
                lemma_mod_idem(d as int, m);
                assert(butterfly(u32_ints(a), m, l as int, lo as int) == x + z * b);
                assert(butterfly(u32_ints(a), m, l as int, hi as int) == x - z * b);
            }
            f[lo] = s1 as u32;
            f[hi] = d1 as u32;
            assert(level_entry(f@[lo as int], a, m, l as int, lo as int, defer));
            assert(level_entry(f@[hi as int], a, m, l as int, hi as int, defer));
            j = j + 1;
        }
        start = start + 2 * l;
        c = c + 1;
    }
    assert(start == 512);
    assert forall|i: int| 0 <= i < 512 implies #[trigger] f@[i] as int % m == butterfly(
        u32_ints(a),
        m,
        l as int,
        i,
    ) % m by {
        assert(level_entry(f@[i], a, m, l as int, i, defer));
    }
    assert forall|i: int| 0 <= i < 512 implies #[trigger] f@[i] < if defer { 2 * m } else { m } by {
        assert(level_entry(f@[i], a, m, l as int, i, defer));
    }
}

/// Levels two to nine: from blocks of size `256` to single values.
fn ntt_tail(f: &mut [u32; N], w: &[u32; N], p: u64, g: Ghost<Seq<int>>)
    requires
        is_modulus(p as int),
        is_twiddle_table(w@, p as int),
        g@.len() == 512,
        at_level(old(f)@, g@, p as int, 256),
        forall|i: int| 0 <= i < 512 ==> #[trigger] old(f)@[i] < 2 * p,
    ensures
        u32_ints(final(f)@) == transform(g@, p as int),
{
    let ghost m = p as int;
    let ghost a = f@;
    ntt_level(f, w, p, 128, false);
    proof {
        lemma_level(a, f@, g@, m, 128);
    }
    let ghost a = f@;
    ntt_level(f, w, p, 64, true);
    proof {
        lemma_level(a, f@, g@, m, 64);
    }
    let ghost a = f@;
    ntt_level(f, w, p, 32, false);
    proof {
        lemma_level(a, f@, g@, m, 32);
    }
    let ghost a = f@;
    ntt_level(f, w, p, 16, true);
    proof {
        lemma_level(a, f@, g@, m, 16);
    }
    let ghost a = f@;
    ntt_level(f, w, p, 8, false);
    proof {
        lemma_level(a, f@, g@, m, 8);
    }
    let ghost a = f@;
    ntt_level(f, w, p, 4, true);
    proof {
        lemma_level(a, f@, g@, m, 4);
    }
    let ghost a = f@;
    ntt_level(f, w, p, 2, false);
    proof {
        lemma_level(a, f@, g@, m, 2);
    }
    let ghost a = f@;
    ntt_level(f, w, p, 1, false);
    proof {
        lemma_level(a, f@, g@, m, 1);
        lemma_last_level(f@, g@, m);
    }
}

/// The forward negacyclic transform in place.
pub fn ntt(f: &mut [u32; N], p: u64)
    requires
        is_modulus(p as int),
        forall|i: int| 0 <= i < 512 ==> #[trigger] old(f)@[i] < p,
    ensures
        u32_ints(final(f)@) == transform(u32_ints(old(f)@), p as int),
{
    let w: [u32; N] = w_table(p);
    let ghost g = u32_ints(f@);
    let ghost a = f@;
    proof {
        lemma_first_level(a, g, p as int);
    }
    ntt_level(f, &w, p, 256, true);
    proof {
        lemma_level(a, f@, g, p as int, 256);
    }
    ntt_tail(f, &w, p, Ghost(g));
}

/// The forward negacyclic transform of signed coefficients. The first level
/// reads and reduces them on the fly, so that the working buffer is written
/// once.
pub fn ntt_conv(src: &[i32; N], f: &mut [u32; N], p: u64)
    requires
        is_modulus(p as int),
    ensures
        u32_ints(final(f)@) == transform(i32_ints(src@), p as int),
{
    let w: [u32; N] = w_table(p);
    let ghost m = p as int;
    let ghost g = i32_ints(src@);
    let ghost a = Seq::new(512, |i: int| (src@[i] as int % m) as u32);
    let z: u64 = w[1] as u64;
    let mut j: usize = 0;
    proof {
        assert(w@[1] == twiddle(m, 1));
        lemma_mod_idem(pow(root(m), bit_reverse(1, 9)), m);
        assert forall|i: int| 0 <= i < 512 implies #[trigger] a[i] as int % m == g[i] % m && a[i]
            as int == g[i] % m by {
            lemma_mod_idem(g[i], m);
        }
        lemma_first_level(a, g, m);
    }
    while j < 256
        invariant
            is_modulus(m),
            m == p as int,
            z == twiddle(m, 1),
            z < p,
            j <= 256,
            a.len() == 512,
            g == i32_ints(src@),
            forall|i: int| 0 <= i < 512 ==> #[trigger] a[i] as int == g[i] % m,
            forall|i: int|
                0 <= i < j || 256 <= i < 256 + j ==> level_entry(
                    #[trigger] f@[i],
                    a,
                    m,
                    256,
                    i,
                    true,
                ),
        decreases 256 - j,
    {
        let x: u64 = red(src[j], p) as u64;
        let b: u64 = red(src[j + 256], p) as u64;
        proof {
            assert(g[j as int] == src@[j as int]);
            assert(g[j + 256] == src@[j + 256]);
            assert(a[j as int] == x);
            assert(a[j + 256] == b);
            assert(b * z <= 0x7fff_ffff * 0x7fff_ffff) by (nonlinear_arith)
                requires
                    0 <= b <= 0x7fff_ffff,
                    0 <= z <= 0x7fff_ffff,
            ;
        }
        let y: u64 = (b * z) % p;
        let s: u64 = x + y;
        let d: u64 = x + p - y;
        proof {
            lemma_mul_is_commutative(b as int, z as int);
            lemma_mod_idem(b * z, m);
            lemma_mod_add(x as int, x as int, y as int, z * b, m);
            lemma_mod_sub(x as int, x as int, y as int, z * b, m);
            lemma_mod_shift(x - y, 1, m);
            assert(butterfly(u32_ints(a), m, 256, j as int) == x + z * b);
            assert(butterfly(u32_ints(a), m, 256, j + 256) == x - z * b);
        }
        f[j] = s as u32;
        f[j + 256] = d as u32;
        j = j + 1;
    }
    proof {
        assert forall|i: int| 0 <= i < 512 implies #[trigger] f@[i] as int % m == butterfly(
            u32_ints(a),
            m,
            256,
            i,
        ) % m by {
            assert(level_entry(f@[i], a, m, 256, i, true));
        }
        lemma_level(a, f@, g, m, 256);
        assert forall|i: int| 0 <= i < 512 implies #[trigger] f@[i] < 2 * m by {
            assert(level_entry(f@[i], a, m, 256, i, true));
        }
    }
    ntt_tail(f, &w, p, Ghost(g));
}

/// The product of the first `i` entries modulo `p`.
spec fn prefix_product(a: Seq<u32>, i: nat, p: int) -> int
    decreases i,
{
    if i == 0 {
        1
    } else {
        (prefix_product(a, (i - 1) as nat, p) * a[i - 1]) % p
    }
}

/// A prefix product is zero exactly if one of its factors is.
proof fn lemma_prefix_product_zero(a: Seq<u32>, i: nat, p: int)
    requires
        is_prime(p),
        i <= a.len(),
        forall|k: int| 0 <= k < a.len() ==> #[trigger] a[k] < p,
    ensures
        0 <= prefix_product(a, i, p) < p,
        prefix_product(a, i, p) == 0 <==> (exists|k: int| 0 <= k < i && #[trigger] a[k] == 0),
    decreases i,
{
    if i > 0 {
        let q = prefix_product(a, (i - 1) as nat, p);
        let x = a[i - 1] as int;
        lemma_prefix_product_zero(a, (i - 1) as nat, p);
        lemma_mod_idem(q * x, p);
        lemma_mod_small(q, p);
        lemma_mod_small(x, p);
        lemma_no_zero_divisors(q, x, p);
        if q == 0 {
            let k = choose|k: int| 0 <= k < i - 1 && #[trigger] a[k] == 0;
            assert(a[k] == 0);
        }
    }
}

/// The inverses of all entries at the cost of one inversion: prefix products,
/// the inverse of the last, and a backward pass. `false` if an entry is zero.
fn batch_inverse(a: &[u32; N], out: &mut [u32; N], p: u64) -> (ok: bool)
    requires
        is_modulus(p as int),
        forall|k: int| 0 <= k < 512 ==> #[trigger] a@[k] < p,
    ensures
        ok == !has_zero(u32_ints(a@)),
        ok ==> u32_ints(final(out)@) == mod_inverses(u32_ints(a@), p as int),
{
    let ghost m = p as int;
    proof {
        lemma_modulus_prime(m);
    }
    let mut acc: u64 = 1;
    let mut i: usize = 0;
    while i < N
        invariant
            is_modulus(m),
            m == p as int,
            i <= N,
            forall|k: int| 0 <= k < 512 ==> #[trigger] a@[k] < p,
            acc < p,
            acc == prefix_product(a@, i as nat, m),
            forall|k: int|
                0 <= k < i ==> #[trigger] out@[k] == prefix_product(a@, (k + 1) as nat, m),
        decreases N - i,
    {
        proof {
            assert(acc * a@[i as int] <= 0x7fff_ffff * 0x7fff_ffff) by (nonlinear_arith)
                requires
                    0 <= acc <= 0x7fff_ffff,
                    0 <= a@[i as int] <= 0x7fff_ffff,
            ;
        }
        acc = mulmod(acc, a[i] as u64, p);
        out[i] = acc as u32;
        i = i + 1;
    }
    proof {
        lemma_prefix_product_zero(a@, 512, m);
        let z = u32_ints(a@);
        if acc == 0 {
            let k = choose|k: int| 0 <= k < 512 && #[trigger] a@[k] == 0;
            assert(z[k] == 0);
        } else {
            assert forall|k: int| 0 <= k < z.len() implies #[trigger] z[k] != 0 by {
                assert(a@[k] != 0);
            }
        }
    }
    proof {
        lemma_mod_small(acc as int, m);
    }
    let mut acc: u64 = match inv(acc, p) {
        None => {
            return false;
        },
        Some(v) => v,
    };
    proof {
        lemma_mul_is_commutative(acc as int, prefix_product(a@, 512, m));
    }
    let mut i: usize = N;
    while i > 0
        invariant
            is_prime(m),
            is_modulus(m),
            m == p as int,
            i <= N,
            forall|k: int| 0 <= k < 512 ==> #[trigger] a@[k] < p,
            acc < p,
            (acc * prefix_product(a@, i as nat, m)) % m == 1,
            forall|k: int|
                0 <= k < i ==> #[trigger] out@[k] == prefix_product(a@, (k + 1) as nat, m),
            forall|k: int|
                i <= k < 512 ==> is_inverse(a@[k] as int, #[trigger] out@[k] as int, m),
        decreases i,
    {
        let ghost before = acc as int;
        let ghost q = prefix_product(a@, (i - 1) as nat, m);
        i = i - 1;
        let prefix: u64 = if i == 0 {
            1
        } else {
            out[i - 1] as u64
        };
        let ghost x = a@[i as int] as int;
        proof {
            lemma_prefix_product_zero(a@, i as nat, m);
            assert(prefix == q);
            assert(acc * prefix <= 0x7fff_ffff * 0x7fff_ffff && acc * x <= 0x7fff_ffff * 0x7fff_ffff)
                by (nonlinear_arith)
                requires
                    0 <= acc <= 0x7fff_ffff,
                    0 <= prefix <= 0x7fff_ffff,
                    0 <= x <= 0x7fff_ffff,
            ;
        }
        let v: u64 = mulmod(acc, prefix, p);
        acc = mulmod(acc, a[i] as u64, p);
        out[i] = v as u32;
        proof {
            lemma_mod_idem(q * x, m);
            lemma_mod_mul(before, before, (q * x) % m, q * x, m);
            lemma_mod_idem(before * q, m);
            lemma_mod_mul(x, x, v as int, before * q, m);
            assert(x * (before * q) == before * (q * x)) by (nonlinear_arith);
            lemma_mod_idem(before * x, m);
            lemma_mod_mul(acc as int, before * x, q, q, m);
            assert((before * x) * q == before * (q * x)) by (nonlinear_arith);
        }
    }
    proof {
        assert forall|k: int| 0 <= k < 512 implies #[trigger] u32_ints(out@)[k] == mod_inverses(
            u32_ints(a@),
            m,
        )[k] by {
            assert(is_inverse(a@[k] as int, out@[k] as int, m));
            lemma_inverse_unique(a@[k] as int, out@[k] as int, m);
        }
        assert(u32_ints(out@) =~= mod_inverses(u32_ints(a@), m));
    }
    true
}

/// Forms `d = w1 / q00` in `e` and `e = w0 + d q01` over `c`, all in
/// transformed form, and sums the terms of the norm.
fn norm_pass(
    q00n: &[u32; N],
    q00inv: &[u32; N],
    q01n: &[u32; N],
    p: u64,
    c: &mut [u32; N],
    d: &[u32; N],
) -> (r: u64)
    requires
        is_modulus(p as int),
        forall|k: int| 0 <= k < 512 ==> #[trigger] old(c)@[k] < p,
        forall|k: int| 0 <= k < 512 ==> #[trigger] d@[k] < p,
    ensures
        r == norm_sum(
            u32_ints(q00n@),
            u32_ints(q00inv@),
            u32_ints(q01n@),
            u32_ints(old(c)@),
            u32_ints(d@),
            p as int,
        ),
{
    let ghost m = p as int;
    let ghost qa = u32_ints(q00n@);
    let ghost qi = u32_ints(q00inv@);
    let ghost qb = u32_ints(q01n@);
    let ghost w0 = u32_ints(c@);
    let ghost w1 = u32_ints(d@);
    let mut e: [u32; N] = [0u32; N];
    let mut i: usize = 0;
    while i < N
        invariant
            is_modulus(m),
            m == p as int,
            i <= N,
            qi == u32_ints(q00inv@),
            qb == u32_ints(q01n@),
            w1 == u32_ints(d@),
            w0.len() == 512,
            forall|k: int| 0 <= k < 512 ==> 0 <= #[trigger] w0[k] < p,
            forall|k: int| 0 <= k < 512 ==> #[trigger] d@[k] < p,
            forall|k: int| i <= k < 512 ==> #[trigger] c@[k] == w0[k],
            forall|k: int|
                0 <= k < i ==> #[trigger] e@[k] < p && e@[k] as int % m == quotient(qi, w1, k) % m,
            forall|k: int|
                0 <= k < i ==> #[trigger] c@[k] < 2 * p && c@[k] as int % m == shifted(
                    qi,
                    qb,
                    w0,
                    w1,
                    k,
                ) % m,
        decreases N - i,
    {
        proof {
            assert(c@[i as int] == w0[i as int]);
            assert(w1[i as int] == d@[i as int]);
            assert(qi[i as int] == q00inv@[i as int]);
            assert(qb[i as int] == q01n@[i as int]);
            assert(d@[i as int] * q00inv@[i as int] <= 0x7fff_ffff * 0xffff_ffff)
                by (nonlinear_arith)
                requires
                    0 <= d@[i as int] <= 0x7fff_ffff,
                    0 <= q00inv@[i as int] <= 0xffff_ffff,
            ;
        }
        let dh: u64 = mulmod(d[i] as u64, q00inv[i] as u64, p);
        proof {
            assert(dh * q01n@[i as int] <= 0x7fff_ffff * 0xffff_ffff) by (nonlinear_arith)
                requires
                    0 <= dh <= 0x7fff_ffff,
                    0 <= q01n@[i as int] <= 0xffff_ffff,
            ;
        }
        let t: u64 = mulmod(dh, q01n[i] as u64, p);
        e[i] = dh as u32;
        let ci: u64 = c[i] as u64 + t;
        c[i] = ci as u32;
        proof {
            let k = i as int;
            let dq = quotient(qi, w1, k);
            lemma_mod_idem(dq, m);
            lemma_mod_mul(dh as int, dq, qb[k], qb[k], m);
            lemma_mod_idem(dh * qb[k], m);
            lemma_mod_add(w0[k], w0[k], t as int, dq * qb[k], m);
        }
        i = i + 1;
    }
    let mut r: u64 = 0;
    let ghost value = |k: int|
        (((qa[k] * c@[k]) % m) * c@[511 - k]) % m + (e@[k] * d@[511 - k]) % m;
    let mut i: usize = 0;
    while i < N
        invariant
            is_modulus(m),
            m == p as int,
            i <= N,
            qa == u32_ints(q00n@),
            forall|k: int| 0 <= k < 512 ==> #[trigger] d@[k] < p,
            forall|k: int| 0 <= k < 512 ==> #[trigger] e@[k] < p,
            forall|k: int| 0 <= k < 512 ==> #[trigger] c@[k] < 2 * p,
            r <= i * (2 * p),
            r == sum(value, i as nat),
            forall|k: int|
                #![trigger value(k)]
                value(k) == (((qa[k] * c@[k]) % m) * c@[511 - k]) % m + (e@[k] * d@[511 - k]) % m,
        decreases N - i,
    {
        let a: u64 = q00n[i] as u64;
        let ci: u64 = c[i] as u64;
        let cj: u64 = c[N - 1 - i] as u64;
        let ei: u64 = e[i] as u64;
        let dj: u64 = d[N - 1 - i] as u64;
        proof {
            assert(a * ci <= 0xffff_ffff * 0xffff_ffff) by (nonlinear_arith)
                requires
                    0 <= a <= 0xffff_ffff,
                    0 <= ci <= 0xffff_ffff,
            ;
            assert(ei * dj <= 0xffff_ffff * 0xffff_ffff) by (nonlinear_arith)
                requires
                    0 <= ei <= 0xffff_ffff,
                    0 <= dj <= 0xffff_ffff,
            ;
        }
        let t: u64 = mulmod(a, ci, p);
        proof {
            assert(t * cj <= 0x7fff_ffff * 0xffff_ffff) by (nonlinear_arith)
                requires
                    0 <= t <= 0x7fff_ffff,
                    0 <= cj <= 0xffff_ffff,
            ;
            assert(r <= 1024 * p) by (nonlinear_arith)
                requires
                    r <= i * (2 * p),
                    i <= 512,
            ;
            assert((i + 1) * (2 * p) == i * (2 * p) + 2 * p) by (nonlinear_arith);
            assert(value(i as int) == (t * cj) % m + (ei * dj) % m);
        }
        let t0: u64 = mulmod(t, cj, p);
        let t1: u64 = mulmod(ei, dj, p);
        r = r + (t0 + t1);
        i = i + 1;
    }
    proof {
        let term = |k: int| norm_term(qa, qi, qb, w0, w1, k);
        assert forall|k: int| 0 <= k < 512 implies #[trigger] value(k) % m == term(k) % m by {
            let s = shifted(qi, qb, w0, w1, k);
            let t = shifted(qi, qb, w0, w1, 511 - k);
            let x = c@[k] as int;
            let y = c@[511 - k] as int;
            assert(x % m == s % m);
            assert(y % m == t % m);
            lemma_mod_mul(qa[k], qa[k], x, s, m);
            lemma_mod_idem(qa[k] * x, m);
            lemma_mod_mul((qa[k] * x) % m, qa[k] * s, y, t, m);
            lemma_mod_idem(((qa[k] * x) % m) * y, m);
            let u = e@[k] as int;
            let v = d@[511 - k] as int;
            assert(u % m == quotient(qi, w1, k) % m);
            assert(w1[511 - k] == v);
            lemma_mod_mul(u, quotient(qi, w1, k), v, v, m);
            lemma_mod_idem(u * v, m);
            lemma_mod_add(
                (((qa[k] * x) % m) * y) % m,
                qa[k] * s * t,
                (u * v) % m,
                quotient(qi, w1, k) * v,
                m,
            );
        }
        lemma_sum_mod_ext(value, term, 512, m);
    }
    r % p
}

/// A transform holds residues.
proof fn lemma_transform_bound(a: Seq<u32>, f: Seq<int>, p: int)
    requires
        is_modulus(p),
        u32_ints(a) == transform(f, p),
    ensures
        a.len() == 512,
        forall|k: int| 0 <= k < 512 ==> #[trigger] a[k] < p,
{
    assert(u32_ints(a).len() == 512);
    assert forall|k: int| 0 <= k < 512 implies #[trigger] a[k] < p by {
        assert(u32_ints(a)[k] == a[k]);
        lemma_mod_idem(poly_eval(f, eval_point(p, k)), p);
    }
}

/// The norm `n |w|^2` modulo `p` of `w = (w0, w1)` under the form that `q00`
/// and `q01` give; none if `q00` is not invertible modulo `p`.
pub fn poly_qnorm(
    q00: &[i32; N],
    q01: &[i32; N],
    w0: &[i32; N],
    w1: &[i32; N],
    p: u64,
) -> (r: Option<u64>)
    requires
        is_modulus(p as int),
    ensures
        r is None <==> norm_mod(
            i32_ints(q00@),
            i32_ints(q01@),
            i32_ints(w0@),
            i32_ints(w1@),
            p as int,
        ) is None,
        r matches Some(v) ==> norm_mod(
            i32_ints(q00@),
            i32_ints(q01@),
            i32_ints(w0@),
            i32_ints(w1@),
            p as int,
        ) == Some(v as int),
{
    let mut a: [u32; N] = [0u32; N];
    ntt_conv(q00, &mut a, p);
    proof {
        lemma_transform_bound(a@, i32_ints(q00@), p as int);
    }
    let mut inverse: [u32; N] = [0u32; N];
    if !batch_inverse(&a, &mut inverse, p) {
        return None;
    }
    let mut b: [u32; N] = [0u32; N];
    ntt_conv(q01, &mut b, p);
    Some(qnorm_prepared(&a, &inverse, &b, w0, w1, p))
}

/// The two residues agree on a multiple of `n` within `n` times the bound
/// `8n sigma^2 = 13307904 / 1600` for `sigma = 57 / 40`.
fn in_bound(r1: u64, r2: u64) -> (ok: bool)
    ensures
        ok == residues_in_bound(r1 as int, r2 as int),
{
    if r1 != r2 {
        return false;
    }
    if r1 % 512 != 0 {
        return false;
    }
    let r: u64 = r1 / 512;
    1600 * (r as u128) <= 13_307_904
}

/// Whether the norm of `(w0, w1)`, taken modulo both primes, is in bound.
pub fn qnorm_in_bound(q00: &[i32; N], q01: &[i32; N], w0: &[i32; N], w1: &[i32; N]) -> (ok: bool)
    ensures
        ok == norm_in_bound(i32_ints(q00@), i32_ints(q01@), i32_ints(w0@), i32_ints(w1@)),
{
    let r1: u64 = match poly_qnorm(q00, q01, w0, w1, P1) {
        None => {
            return false;
        },
        Some(r) => r,
    };
    let r2: u64 = match poly_qnorm(q00, q01, w0, w1, P2) {
        None => {
            return false;
        },
        Some(r) => r,
    };
    in_bound(r1, r2)
}

/// Transforms `q00` and `q01` and inverts `q00` entry by entry. `false` if
/// `q00` is not invertible modulo `p`; the inverses then hold no meaning.
pub fn prepare_ntt(
    q00: &[i32; N],
    q01: &[i32; N],
    p: u64,
    q00n: &mut [u32; N],
    q00inv: &mut [u32; N],
    q01n: &mut [u32; N],
) -> (ok: bool)
    requires
        is_modulus(p as int),
    ensures
        ok == !has_zero(transform(i32_ints(q00@), p as int)),
        u32_ints(final(q00n)@) == transform(i32_ints(q00@), p as int),
        u32_ints(final(q01n)@) == transform(i32_ints(q01@), p as int),
        ok ==> u32_ints(final(q00inv)@) == mod_inverses(
            transform(i32_ints(q00@), p as int),
            p as int,
        ),
{
    ntt_conv(q00, q00n, p);
    ntt_conv(q01, q01n, p);
    proof {
        lemma_transform_bound(q00n@, i32_ints(q00@), p as int);
    }
    batch_inverse(q00n, q00inv, p)
}

/// The norm modulo `p` with the key's factors given in transformed form.
/// Defined for all words, also those that no key gives.
pub fn qnorm_prepared(
    q00n: &[u32; N],
    q00inv: &[u32; N],
    q01n: &[u32; N],
    w0: &[i32; N],
    w1: &[i32; N],
    p: u64,
) -> (r: u64)
    requires
        is_modulus(p as int),
    ensures
        r == norm_sum(
            u32_ints(q00n@),
            u32_ints(q00inv@),
            u32_ints(q01n@),
            transform(i32_ints(w0@), p as int),
            transform(i32_ints(w1@), p as int),
            p as int,
        ),
{
    let mut c: [u32; N] = [0u32; N];
    ntt_conv(w0, &mut c, p);
    let mut d: [u32; N] = [0u32; N];
    ntt_conv(w1, &mut d, p);
    proof {
        lemma_transform_bound(c@, i32_ints(w0@), p as int);
        lemma_transform_bound(d@, i32_ints(w1@), p as int);
    }
    norm_pass(q00n, q00inv, q01n, p, &mut c, &d)
}

/// [`qnorm_in_bound`] with the key's factors modulo each prime given in
/// transformed form.
pub fn qnorm_in_bound_prepared(
    p1_q00: &[u32; N],
    p1_q00inv: &[u32; N],
    p1_q01: &[u32; N],
    p2_q00: &[u32; N],
    p2_q00inv: &[u32; N],
    p2_q01: &[u32; N],
    w0: &[i32; N],
    w1: &[i32; N],
) -> (ok: bool)
    ensures
        ok == residues_in_bound(
            norm_sum(
                u32_ints(p1_q00@),
                u32_ints(p1_q00inv@),
                u32_ints(p1_q01@),
                transform(i32_ints(w0@), P1 as int),
                transform(i32_ints(w1@), P1 as int),
                P1 as int,
            ),
            norm_sum(
                u32_ints(p2_q00@),
                u32_ints(p2_q00inv@),
                u32_ints(p2_q01@),
                transform(i32_ints(w0@), P2 as int),
                transform(i32_ints(w1@), P2 as int),
                P2 as int,
            ),
        ),
{
    let r1: u64 = qnorm_prepared(p1_q00, p1_q00inv, p1_q01, w0, w1, P1);
    let r2: u64 = qnorm_prepared(p2_q00, p2_q00inv, p2_q01, w0, w1, P2);
    in_bound(r1, r2)
}

} // verus!

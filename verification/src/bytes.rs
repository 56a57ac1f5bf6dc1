//! Little-endian words in byte sequences.

use vstd::prelude::*;

use crate::fixed_point::i64_ints;
use crate::poly::u32_ints;
use crate::{HAWK_512_PREPARED_PUBKEY_LEN, N};

verus! {

/// Byte `t` of a number in two's complement, the low byte first.
pub open spec fn byte_of(x: int, t: nat) -> u8
    decreases t,
{
    if t == 0 {
        (x % 256) as u8
    } else {
        byte_of(x / 256, (t - 1) as nat)
    }
}

/// The unsigned 32-bit number at offset `o`.
pub open spec fn u32_at(b: Seq<u8>, o: int) -> int {
    b[o] + 0x100 * b[o + 1] + 0x1_0000 * b[o + 2] + 0x100_0000 * b[o + 3]
}

/// The signed 64-bit number at offset `o`.
pub open spec fn i64_at(b: Seq<u8>, o: int) -> int {
    let u = u32_at(b, o) + 0x1_0000_0000 * u32_at(b, o + 4);
    if u < 0x8000_0000_0000_0000 {
        u
    } else {
        u - 0x1_0000_0000_0000_0000
    }
}

/// The bytes of unsigned 32-bit numbers.
pub open spec fn u32_bytes(s: Seq<int>) -> Seq<u8> {
    Seq::new(4 * s.len(), |i: int| byte_of(s[i / 4], (i % 4) as nat))
}

/// The bytes of signed 64-bit numbers.
pub open spec fn i64_bytes(s: Seq<int>) -> Seq<u8> {
    Seq::new(8 * s.len(), |i: int| byte_of(s[i / 8], (i % 8) as nat))
}

/// The `n` unsigned 32-bit numbers from offset `o` on.
pub open spec fn u32_words(b: Seq<u8>, o: int, n: nat) -> Seq<int> {
    Seq::new(n, |i: int| u32_at(b, o + 4 * i))
}

/// The `n` signed 64-bit numbers from offset `o` on.
pub open spec fn i64_words(b: Seq<u8>, o: int, n: nat) -> Seq<int> {
    Seq::new(n, |i: int| i64_at(b, o + 8 * i))
}

/// A number below `2^32` is made up of its four bytes.
proof fn lemma_u32_from_bytes(x: int)
    requires
        0 <= x <= u32::MAX,
    ensures
        x == byte_of(x, 0) + 0x100 * byte_of(x, 1) + 0x1_0000 * byte_of(x, 2) + 0x100_0000
            * byte_of(x, 3),
{
    reveal_with_fuel(byte_of, 4);
}

/// A signed 64-bit number is made up of its eight bytes.
proof fn lemma_i64_from_bytes(x: int)
    requires
        i64::MIN <= x <= i64::MAX,
    ensures
        ({
            let u = byte_of(x, 0) + 0x100 * byte_of(x, 1) + 0x1_0000 * byte_of(x, 2) + 0x100_0000
                * byte_of(x, 3) + 0x1_0000_0000 * (byte_of(x, 4) + 0x100 * byte_of(x, 5) + 0x1_0000
                * byte_of(x, 6) + 0x100_0000 * byte_of(x, 7));
            x == if u < 0x8000_0000_0000_0000 {
                u
            } else {
                u - 0x1_0000_0000_0000_0000
            }
        }),
{
    reveal_with_fuel(byte_of, 8);
}

/// The bytes of the number at an offset are the bytes there.
proof fn lemma_bytes_of_u32(b: Seq<u8>, o: int)
    ensures
        byte_of(u32_at(b, o), 0) == b[o],
        byte_of(u32_at(b, o), 1) == b[o + 1],
        byte_of(u32_at(b, o), 2) == b[o + 2],
        byte_of(u32_at(b, o), 3) == b[o + 3],
{
    reveal_with_fuel(byte_of, 4);
}

/// The first byte of a number and the rest.
proof fn lemma_peel(a: u8, c: int, t: nat)
    ensures
        byte_of(a + 256 * c, t) == if t == 0 {
            a
        } else {
            byte_of(c, (t - 1) as nat)
        },
{
    assert((a + 256 * c) % 256 == a && (a + 256 * c) / 256 == c);
}

/// The bytes of the number at an offset are the bytes there.
proof fn lemma_bytes_of_i64(b: Seq<u8>, o: int, t: int)
    requires
        0 <= t < 8,
    ensures
        byte_of(i64_at(b, o), t as nat) == b[o + t],
{
    let sign: int = if b[o + 7] < 128 {
        0
    } else {
        -1
    };
    let c7 = b[o + 7] + 256 * sign;
    let c6 = b[o + 6] + 256 * c7;
    let c5 = b[o + 5] + 256 * c6;
    let c4 = b[o + 4] + 256 * c5;
    let c3 = b[o + 3] + 256 * c4;
    let c2 = b[o + 2] + 256 * c3;
    let c1 = b[o + 1] + 256 * c2;
    assert(i64_at(b, o) == b[o] + 256 * c1) by {
        assert(u32_at(b, o + 4) == b[o + 4] + 0x100 * b[o + 5] + 0x1_0000 * b[o + 6] + 0x100_0000
            * b[o + 7]);
    }
    let n = t as nat;
    lemma_peel(b[o], c1, n);
    if t >= 1 {
        lemma_peel(b[o + 1], c2, (n - 1) as nat);
    }
    if t >= 2 {
        lemma_peel(b[o + 2], c3, (n - 2) as nat);
    }
    if t >= 3 {
        lemma_peel(b[o + 3], c4, (n - 3) as nat);
    }
    if t >= 4 {
        lemma_peel(b[o + 4], c5, (n - 4) as nat);
    }
    if t >= 5 {
        lemma_peel(b[o + 5], c6, (n - 5) as nat);
    }
    if t >= 6 {
        lemma_peel(b[o + 6], c7, (n - 6) as nat);
    }
    if t >= 7 {
        lemma_peel(b[o + 7], sign, (n - 7) as nat);
    }
}

/// Reading back what was written.
pub proof fn lemma_u32_round_trip(b: Seq<u8>, o: int, s: Seq<int>)
    requires
        0 <= o,
        o + 4 * s.len() <= b.len(),
        b.subrange(o, o + 4 * s.len()) == u32_bytes(s),
        forall|i: int| 0 <= i < s.len() ==> 0 <= #[trigger] s[i] <= u32::MAX,
    ensures
        u32_words(b, o, s.len()) == s,
{
    let c = u32_bytes(s);
    assert forall|i: int| 0 <= i < s.len() implies u32_words(b, o, s.len())[i] == s[i] by {
        let p = 4 * i;
        assert forall|t: int| 0 <= t < 4 implies #[trigger] b[o + p + t] == byte_of(s[i], t as nat) by {
            assert(b.subrange(o, o + 4 * s.len())[p + t] == c[p + t]);
            assert((p + t) / 4 == i && (p + t) % 4 == t);
        }
        lemma_u32_from_bytes(s[i]);
        assert(b[o + p + 0] == byte_of(s[i], 0));
        assert(b[o + p + 1] == byte_of(s[i], 1));
        assert(b[o + p + 2] == byte_of(s[i], 2));
        assert(b[o + p + 3] == byte_of(s[i], 3));
    }
    assert(u32_words(b, o, s.len()) =~= s);
}

/// Reading back what was written.
pub proof fn lemma_i64_round_trip(b: Seq<u8>, o: int, s: Seq<int>)
    requires
        0 <= o,
        o + 8 * s.len() <= b.len(),
        b.subrange(o, o + 8 * s.len()) == i64_bytes(s),
        forall|i: int| 0 <= i < s.len() ==> i64::MIN <= #[trigger] s[i] <= i64::MAX,
    ensures
        i64_words(b, o, s.len()) == s,
{
    let c = i64_bytes(s);
    assert forall|i: int| 0 <= i < s.len() implies i64_words(b, o, s.len())[i] == s[i] by {
        let p = 8 * i;
        assert forall|t: int| 0 <= t < 8 implies #[trigger] b[o + p + t] == byte_of(s[i], t as nat) by {
            assert(b.subrange(o, o + 8 * s.len())[p + t] == c[p + t]);
            assert((p + t) / 8 == i && (p + t) % 8 == t);
        }
        lemma_i64_from_bytes(s[i]);
        assert(b[o + p + 0] == byte_of(s[i], 0));
        assert(b[o + p + 1] == byte_of(s[i], 1));
        assert(b[o + p + 2] == byte_of(s[i], 2));
        assert(b[o + p + 3] == byte_of(s[i], 3));
        assert(b[o + p + 4] == byte_of(s[i], 4));
        assert(b[o + p + 5] == byte_of(s[i], 5));
        assert(b[o + p + 6] == byte_of(s[i], 6));
        assert(b[o + p + 7] == byte_of(s[i], 7));
    }
    assert(i64_words(b, o, s.len()) =~= s);
}

/// Writing back what was read.
pub proof fn lemma_u32_rewrite(b: Seq<u8>, o: int, n: nat)
    requires
        0 <= o,
        o + 4 * n <= b.len(),
    ensures
        u32_bytes(u32_words(b, o, n)) == b.subrange(o, o + 4 * n),
{
    let s = u32_words(b, o, n);
    assert forall|i: int| 0 <= i < 4 * n implies u32_bytes(s)[i] == b[o + i] by {
        let p = o + 4 * (i / 4);
        lemma_bytes_of_u32(b, p);
        let t = i % 4;
        assert(p + t == o + i);
        assert(t == 0 || t == 1 || t == 2 || t == 3);
    }
    assert(u32_bytes(s) =~= b.subrange(o, o + 4 * n));
}

/// Writing back what was read.
pub proof fn lemma_i64_rewrite(b: Seq<u8>, o: int, n: nat)
    requires
        0 <= o,
        o + 8 * n <= b.len(),
    ensures
        i64_bytes(i64_words(b, o, n)) == b.subrange(o, o + 8 * n),
{
    let s = i64_words(b, o, n);
    assert forall|i: int| 0 <= i < 8 * n implies i64_bytes(s)[i] == b[o + i] by {
        let p = o + 8 * (i / 8);
        lemma_bytes_of_i64(b, p, i % 8);
        assert(p + i % 8 == o + i);
    }
    assert(i64_bytes(s) =~= b.subrange(o, o + 8 * n));
}

/// The unsigned 32-bit number at offset `o`.
fn read_u32(bytes: &[u8; HAWK_512_PREPARED_PUBKEY_LEN], o: usize) -> (x: u32)
    requires
        o + 4 <= 18464,
    ensures
        x == u32_at(bytes@, o as int),
{
    bytes[o] as u32 + 0x100 * (bytes[o + 1] as u32) + 0x1_0000 * (bytes[o + 2] as u32) + 0x100_0000
        * (bytes[o + 3] as u32)
}

/// Reads 512 words from offset `o` on and returns the offset behind them.
pub fn fill_u32(
    bytes: &[u8; HAWK_512_PREPARED_PUBKEY_LEN],
    o: usize,
    out: &mut [u32; N],
) -> (end: usize)
    requires
        o + 2048 <= 18464,
    ensures
        end == o + 2048,
        u32_ints(final(out)@) == u32_words(bytes@, o as int, 512),
{
    let mut i: usize = 0;
    while i < N
        invariant
            i <= 512,
            o + 2048 <= 18464,
            forall|k: int| 0 <= k < i ==> #[trigger] out@[k] == u32_at(bytes@, o + 4 * k),
        decreases 512 - i,
    {
        out[i] = read_u32(bytes, o + 4 * i);
        i = i + 1;
    }
    assert(u32_ints(out@) =~= u32_words(bytes@, o as int, 512));
    o + 2048
}

/// Reads `L` signed 64-bit words from offset `o` on and returns the offset
/// behind them.
pub fn fill_i64<const L: usize>(
    bytes: &[u8; HAWK_512_PREPARED_PUBKEY_LEN],
    o: usize,
    out: &mut [i64; L],
) -> (end: usize)
    requires
        o + 8 * L <= 18464,
    ensures
        end == o + 8 * L,
        i64_ints(final(out)@) == i64_words(bytes@, o as int, L as nat),
{
    let mut i: usize = 0;
    while i < L
        invariant
            i <= L,
            o + 8 * L <= 18464,
            forall|k: int| 0 <= k < i ==> #[trigger] out@[k] == i64_at(bytes@, o + 8 * k),
        decreases L - i,
    {
        let low: u32 = read_u32(bytes, o + 8 * i);
        let high: u32 = read_u32(bytes, o + 8 * i + 4);
        let h: i64 = if high < 0x8000_0000 {
            high as i64
        } else {
            high as i64 - 0x1_0000_0000
        };
        out[i] = h * 0x1_0000_0000 + low as i64;
        i = i + 1;
    }
    assert(i64_ints(out@) =~= i64_words(bytes@, o as int, L as nat));
    o + 8 * L
}

/// Writes 512 words from offset `o` on and returns the offset behind them.
pub fn put_u32(out: &mut [u8; HAWK_512_PREPARED_PUBKEY_LEN], o: usize, src: &[u32; N]) -> (end:
    usize)
    requires
        o + 2048 <= 18464,
    ensures
        end == o + 2048,
        final(out)@.subrange(0, end as int) == old(out)@.subrange(0, o as int) + u32_bytes(
            u32_ints(src@),
        ),
{
    let ghost before = out@;
    let ghost s = u32_ints(src@);
    let mut i: usize = 0;
    while i < N
        invariant
            i <= 512,
            o + 2048 <= 18464,
            before.len() == 18464,
            s == u32_ints(src@),
            forall|k: int| 0 <= k < o ==> #[trigger] out@[k] == before[k],
            forall|k: int|
                o <= k < o + 4 * i ==> #[trigger] out@[k] == byte_of(
                    s[(k - o) / 4],
                    ((k - o) % 4) as nat,
                ),
        decreases 512 - i,
    {
        let x: u32 = src[i];
        let p: usize = o + 4 * i;
        proof {
            reveal_with_fuel(byte_of, 4);
            assert(s[i as int] == x);
            assert forall|k: int| p <= k < p + 4 implies #[trigger] ((k - o) / 4) == i as int && (k
                - o) % 4 == k - p by {}
        }
        out[p] = (x % 256) as u8;
        out[p + 1] = ((x / 256) % 256) as u8;
        out[p + 2] = ((x / 256 / 256) % 256) as u8;
        out[p + 3] = ((x / 256 / 256 / 256) % 256) as u8;
        i = i + 1;
    }
    proof {
        let e = (o + 2048) as int;
        assert(out@.subrange(0, e) =~= before.subrange(0, o as int) + u32_bytes(s));
    }
    o + 2048
}

/// Writes `L` signed 64-bit words from offset `o` on and returns the offset
/// behind them.
pub fn put_i64<const L: usize>(
    out: &mut [u8; HAWK_512_PREPARED_PUBKEY_LEN],
    o: usize,
    src: &[i64; L],
) -> (end: usize)
    requires
        o + 8 * L <= 18464,
    ensures
        end == o + 8 * L,
        final(out)@.subrange(0, end as int) == old(out)@.subrange(0, o as int) + i64_bytes(
            i64_ints(src@),
        ),
{
    let ghost before = out@;
    let ghost s = i64_ints(src@);
    let mut i: usize = 0;
    while i < L
        invariant
            i <= L,
            o + 8 * L <= 18464,
            before.len() == 18464,
            s == i64_ints(src@),
            forall|k: int| 0 <= k < o ==> #[trigger] out@[k] == before[k],
            forall|k: int|
                o <= k < o + 8 * i ==> #[trigger] out@[k] == byte_of(
                    s[(k - o) / 8],
                    ((k - o) % 8) as nat,
                ),
        decreases L - i,
    {
        let x: i64 = src[i];
        let p: usize = o + 8 * i;
        assert((x as u64) == if x < 0 { x + 0x1_0000_0000_0000_0000 } else { x as int })
            by (bit_vector);
        let u: u64 = x as u64;
        let mut rest: u64 = u;
        let mut t: usize = 0;
        let ghost mut q: int = x as int;
        let ghost mut wrap: int = 0x1_0000_0000_0000_0000;
        proof {
            assert(s[i as int] == x);
        }
        while t < 8
            invariant
                t <= 8,
                i < L,
                o + 8 * L <= 18464,
                p == o + 8 * i,
                before.len() == 18464,
                s == i64_ints(src@),
                s[i as int] == x,
                t == 0 ==> wrap == 0x1_0000_0000_0000_0000,
                t == 1 ==> wrap == 0x100_0000_0000_0000,
                t == 2 ==> wrap == 0x1_0000_0000_0000,
                t == 3 ==> wrap == 0x100_0000_0000,
                t == 4 ==> wrap == 0x1_0000_0000,
                t == 5 ==> wrap == 0x100_0000,
                t == 6 ==> wrap == 0x1_0000,
                t == 7 ==> wrap == 0x100,
                rest == q || rest == q + wrap,
                forall|n: nat| byte_of(x as int, (t + n) as nat) == #[trigger] byte_of(q, n),
                forall|k: int| 0 <= k < o ==> #[trigger] out@[k] == before[k],
                forall|k: int|
                    o <= k < p + t ==> #[trigger] out@[k] == byte_of(
                        s[(k - o) / 8],
                        ((k - o) % 8) as nat,
                    ),
            decreases 8 - t,
        {
            proof {
                assert(byte_of(x as int, (t + 0) as nat) == byte_of(q, 0));
                let k = p + t;
                assert((k - o) / 8 == i as int && (k - o) % 8 == t);
                assert forall|n: nat| byte_of(x as int, (t + 1 + n) as nat) == #[trigger] byte_of(
                    q / 256,
                    n,
                ) by {
                    assert(byte_of(x as int, (t + (n + 1)) as nat) == byte_of(q, n + 1));
                }
            }
            out[p + t] = (rest % 256) as u8;
            rest = rest / 256;
            proof {
                q = q / 256;
                wrap = wrap / 256;
            }
            t = t + 1;
        }
        i = i + 1;
    }
    proof {
        let e = (o + 8 * L) as int;
        assert(out@.subrange(0, e) =~= before.subrange(0, o as int) + i64_bytes(s));
    }
    o + 8 * L
}

} // verus!
